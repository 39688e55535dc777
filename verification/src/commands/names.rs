//! One name for each file that is written.
use crate::text::{decimal, push_wide, same_text};
use vstd::prelude::*;
use vstd::string::*;

verus! {

/// Hands out one output name per input file.
///
/// An archive has the same file name in many folders. Writing them all into
/// one directory by that name would quietly lose all but one, so a claim on a
/// name that has been handed out already gets a number.
pub struct Namer {
    /// The names that have been handed out.
    given: Vec<String>,
}

/// The name with the number `n`.
pub open spec fn numbered(base: Seq<char>, n: nat) -> Seq<char> {
    if n <= 1 {
        base
    } else {
        base + "~"@ + decimal(n)
    }
}

/// The first name on `base` that is not among those given has the number `n`.
pub open spec fn first_free(given: Seq<Seq<char>>, base: Seq<char>, n: nat) -> bool {
    &&& 1 <= n
    &&& !given.contains(numbered(base, n))
    &&& forall|m: nat| 1 <= m < n ==> given.contains(#[trigger] numbered(base, m))
}

/// The name for a claim on `base` where those names are given.
pub open spec fn free_name(given: Seq<Seq<char>>, base: Seq<char>) -> Seq<char> {
    numbered(base, choose|n: nat| #[trigger] first_free(given, base, n))
}

/// The names that claims on the names in order are met with.
pub open spec fn handed_out(bases: Seq<Seq<char>>) -> Seq<Seq<char>>
    decreases bases.len(),
{
    if bases.len() == 0 {
        Seq::empty()
    } else {
        let before = handed_out(bases.drop_last());
        before.push(free_name(before, bases.last()))
    }
}

impl Default for Namer {
    fn default() -> (n: Namer)
        ensures
            n@ == Seq::<Seq<char>>::empty(),
    {
        let n = Namer { given: Vec::new() };
        proof {
            assert(n@ =~= Seq::<Seq<char>>::empty());
        }
        n
    }
}

impl View for Namer {
    type V = Seq<Seq<char>>;

    /// The names that have been handed out, in order.
    closed spec fn view(&self) -> Seq<Seq<char>> {
        Seq::new(self.given@.len(), |i: int| self.given@[i]@)
    }
}

fn with_number(base: &str, n: u128) -> (s: String)
    ensures
        s@ == numbered(base@, n as nat),
{
    let mut out = String::new();
    out.append(base);
    if n > 1 {
        out.append("~");
        push_wide(&mut out, n);
    }
    proof {
        assert(out@ =~= numbered(base@, n as nat));
    }
    out
}

impl Namer {
    fn is_given(&self, name: &str) -> (r: bool)
        ensures
            r == self@.contains(name@),
    {
        let mut i: usize = 0;
        while i < self.given.len()
            invariant
                i <= self.given@.len(),
                forall|k: int| 0 <= k < i ==> #[trigger] self@[k] != name@,
            decreases self.given@.len() - i,
        {
            if same_text(self.given[i].as_str(), name) {
                proof {
                    assert(self@[i as int] == name@);
                }
                return true;
            }
            i += 1;
        }
        false
    }

    /// The name for the next claim on `base`: `base` itself where it is free,
    /// otherwise `base` with the first number from 2 on that makes it free.
    pub fn stem(&mut self, base: &str) -> (s: String)
        ensures
            s@ == free_name(old(self)@, base@),
            final(self)@ == old(self)@.push(s@),
    {
        let ghost given = self@;
        let mut n: u128 = 1;
        let mut name = with_number(base, n);
        proof {
            assert(given.len() == self.given.len());
        }
        while self.is_given(name.as_str())
            invariant
                1 <= n,
                given == self@,
                given.len() <= usize::MAX,
                name@ == numbered(base@, n as nat),
                forall|m: nat| 1 <= m < n ==> given.contains(#[trigger] numbered(base@, m)),
            decreases given.len() + 1 - n,
        {
            proof {
                lemma_numbers_given(given, base@, n as nat);
            }
            n += 1;
            name = with_number(base, n);
        }
        proof {
            assert(first_free(given, base@, n as nat));
            lemma_free_name(given, base@, n as nat);
        }
        self.given.push(name.clone());
        proof {
            assert(self@ =~= given.push(name@));
        }
        name
    }
}

/// Where the first `n` numbers are all given, at least `n` names are.
proof fn lemma_numbers_given(given: Seq<Seq<char>>, base: Seq<char>, n: nat)
    requires
        forall|m: nat| 1 <= m <= n ==> given.contains(#[trigger] numbered(base, m)),
    ensures
        n <= given.len(),
    decreases n,
{
    if n > 0 {
        let last = numbered(base, n);
        assert(given.contains(last));
        let at = choose|i: int| 0 <= i < given.len() && given[i] == last;
        let rest = given.remove(at);
        assert forall|m: nat| 1 <= m <= (n - 1) as nat implies rest.contains(
            #[trigger] numbered(base, m),
        ) by {
            law_numbers_differ(base, m, n);
            assert(given.contains(numbered(base, m)));
            let i = choose|i: int| 0 <= i < given.len() && given[i] == numbered(base, m);
            if i < at {
                assert(rest[i] == numbered(base, m));
            } else {
                assert(rest[i - 1] == numbered(base, m));
            }
        }
        lemma_numbers_given(rest, base, (n - 1) as nat);
    }
}

/// Two numbers on one name never make the same name.
pub proof fn law_numbers_differ(base: Seq<char>, m: nat, n: nat)
    requires
        1 <= m < n,
    ensures
        numbered(base, m) != numbered(base, n),
{
    let long = numbered(base, n);
    reveal_strlit("~");
    if m == 1 {
        crate::text::lemma_decimal_digits(n);
        assert(long.len() > base.len());
    } else {
        crate::text::lemma_decimal_digits(n);
        crate::text::lemma_decimal_digits(m);
        let short = numbered(base, m);
        if short == long {
            let skip = base.len() + 1;
            assert(short.subrange(skip as int, short.len() as int) =~= decimal(m));
            assert(long.subrange(skip as int, long.len() as int) =~= decimal(n));
            crate::text::lemma_decimal_tells(m, n);
        }
    }
}

/// Which number the first free name has is settled.
pub proof fn law_first_free_is_one(given: Seq<Seq<char>>, base: Seq<char>, m: nat, n: nat)
    requires
        first_free(given, base, m),
        first_free(given, base, n),
    ensures
        m == n,
{
    if m < n {
        assert(given.contains(numbered(base, m)));
    } else if n < m {
        assert(given.contains(numbered(base, n)));
    }
}

proof fn lemma_free_name(given: Seq<Seq<char>>, base: Seq<char>, n: nat)
    requires
        first_free(given, base, n),
    ensures
        free_name(given, base) == numbered(base, n),
{
    let m = choose|m: nat| #[trigger] first_free(given, base, m);
    law_first_free_is_one(given, base, m, n);
}

/// However many names are given, some number makes a name free.
proof fn lemma_some_number_is_free(given: Seq<Seq<char>>, base: Seq<char>, n: nat) -> (r: nat)
    requires
        1 <= n,
        forall|m: nat| 1 <= m < n ==> given.contains(#[trigger] numbered(base, m)),
    ensures
        first_free(given, base, r),
    decreases given.len() + 1 - n,
{
    if given.contains(numbered(base, n)) {
        lemma_numbers_given(given, base, n);
        lemma_some_number_is_free(given, base, n + 1)
    } else {
        n
    }
}

/// A claim is met with a name that has not been given, and with the claimed
/// name itself where that is free.
pub proof fn law_name_is_free(given: Seq<Seq<char>>, base: Seq<char>)
    ensures
        !given.contains(free_name(given, base)),
        !given.contains(base) ==> free_name(given, base) == base,
{
    let n = lemma_some_number_is_free(given, base, 1);
    lemma_free_name(given, base, n);
    if !given.contains(base) {
        assert(numbered(base, 1) == base);
        assert(first_free(given, base, 1));
        lemma_free_name(given, base, 1);
    }
}

/// One more claim adds the name that it is met with to those handed out.
pub proof fn law_claims_add_up(bases: Seq<Seq<char>>, base: Seq<char>)
    ensures
        handed_out(bases.push(base)) == handed_out(bases).push(
            free_name(handed_out(bases), base),
        ),
{
    assert(bases.push(base).drop_last() =~= bases);
}

/// Whatever names are claimed, and in whatever order, no two files ever get
/// one name.
pub proof fn law_names_stay_apart(bases: Seq<Seq<char>>)
    ensures
        handed_out(bases).len() == bases.len(),
        handed_out(bases).no_duplicates(),
    decreases bases.len(),
{
    if bases.len() > 0 {
        let before = handed_out(bases.drop_last());
        law_names_stay_apart(bases.drop_last());
        law_name_is_free(before, bases.last());
        let name = free_name(before, bases.last());
        let all = before.push(name);
        assert forall|i: int, j: int|
            0 <= i < all.len() && 0 <= j < all.len() && i != j implies all[i] != all[j] by {
            if i == before.len() {
                assert(before[j] == all[j]);
            } else if j == before.len() {
                assert(before[i] == all[i]);
            } else {
                assert(before[i] == all[i] && before[j] == all[j]);
            }
        }
    }
}

} // verus!
