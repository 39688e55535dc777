//! Fields of comma-separated values.
use crate::text::characters;
use vstd::prelude::*;
use vstd::string::*;

verus! {

/// A field needs quotes around it.
pub open spec fn needs_quotes(s: Seq<char>) -> bool {
    s.contains(',') || s.contains('"') || s.contains('\n')
}

/// Each quote twice.
pub open spec fn doubled(s: Seq<char>) -> Seq<char>
    decreases s.len(),
{
    if s.len() == 0 {
        Seq::empty()
    } else if s.last() == '"' {
        doubled(s.drop_last()).push('"').push('"')
    } else {
        doubled(s.drop_last()).push(s.last())
    }
}

/// The field as it stands in a file.
pub open spec fn field(s: Seq<char>) -> Seq<char> {
    if needs_quotes(s) {
        seq!['"'] + doubled(s) + seq!['"']
    } else {
        s
    }
}

/// Writes a field, in quotes where it holds a comma, a quote or a line break.
pub fn csv_field(s: &str) -> (r: String)
    ensures
        r@ == field(s@),
{
    let chars = characters(s);
    let mut special = false;
    let mut inside = String::new();
    let mut i: usize = 0;
    proof {
        assert(inside@ =~= doubled(s@.take(0)));
    }
    while i < chars.len()
        invariant
            i <= chars@.len(),
            chars@ == s@,
            special == needs_quotes(s@.take(i as int)),
            inside@ == doubled(s@.take(i as int)),
        decreases chars@.len() - i,
    {
        let c: char = chars[i];
        let ghost before = s@.take(i as int);
        let ghost after = s@.take(i + 1);
        proof {
            assert(after =~= before.push(c));
            assert(after.drop_last() =~= before);
            assert forall|x: char| #[trigger] after.contains(x) <==> before.contains(x) || c
                == x by {
                if before.contains(x) {
                    let k = choose|k: int| 0 <= k < before.len() && before[k] == x;
                    assert(after[k] == x);
                }
                if c == x {
                    assert(after[i as int] == x);
                }
                if after.contains(x) {
                    let k = choose|k: int| 0 <= k < after.len() && after[k] == x;
                    if k < i {
                        assert(before[k] == x);
                    }
                }
            }
        }
        if c == ',' || c == '"' || c == '\n' {
            special = true;
        }
        inside.push(c);
        if c == '"' {
            inside.push(c);
        }
        i += 1;
    }
    proof {
        assert(s@.take(i as int) =~= s@);
    }
    if !special {
        return s.to_owned();
    }
    let mut out = String::new();
    out.push('"');
    out.append(inside.as_str());
    out.push('"');
    proof {
        assert(out@ =~= field(s@));
    }
    out
}

/// What the inside of a quoted field stands for: two quotes are one.
pub open spec fn halved(s: Seq<char>) -> Seq<char>
    decreases s.len(),
{
    if s.len() == 0 {
        Seq::empty()
    } else if s.len() >= 2 && s.last() == '"' && s[s.len() - 2] == '"' {
        halved(s.take(s.len() - 2)).push('"')
    } else {
        halved(s.drop_last()).push(s.last())
    }
}

/// What a field of a file stands for.
pub open spec fn meaning(f: Seq<char>) -> Seq<char> {
    if f.len() >= 2 && f[0] == '"' {
        halved(f.subrange(1, f.len() - 1))
    } else {
        f
    }
}

proof fn lemma_halved(s: Seq<char>)
    ensures
        halved(doubled(s)) == s,
    decreases s.len(),
{
    if s.len() > 0 {
        let before = s.drop_last();
        lemma_halved(before);
        let d = doubled(before);
        if s.last() == '"' {
            let t = d.push('"').push('"');
            assert(t.take(t.len() - 2) =~= d);
            assert(halved(t) == halved(d).push('"'));
        } else {
            let t = d.push(s.last());
            assert(t.drop_last() =~= d);
            assert(halved(t) == halved(d).push(s.last()));
        }
        assert(s =~= before.push(s.last()));
    }
}

/// A reader of the file gets back each field as it was given, whatever it
/// holds.
pub proof fn law_field_reads_back(s: Seq<char>)
    ensures
        meaning(field(s)) == s,
{
    if needs_quotes(s) {
        let f = field(s);
        assert(f.subrange(1, f.len() - 1) =~= doubled(s));
        lemma_halved(s);
    } else if s.len() >= 2 && s[0] == '"' {
        assert(s.contains('"'));
    }
}

} // verus!
