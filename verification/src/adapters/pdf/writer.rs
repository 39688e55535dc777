//! The objects of a PDF file and the table that finds them.
use crate::infrastructure::octets::append;
use crate::text::{
    characters, decimal, lemma_padded_decimal, padded, push_decimal, push_padded,
};
use vstd::arithmetic::power::pow;
use vstd::prelude::*;
use vstd::string::*;
use vstd::utf8::*;

verus! {

/// The octets of a text.
#[verifier::opaque]
pub open spec fn octets(s: Seq<char>) -> Seq<u8> {
    encode_utf8(s)
}

/// Appends the octets of a text.
pub fn append_text(out: &mut Vec<u8>, s: &str)
    ensures
        final(out)@ == old(out)@ + octets(s@),
{
    proof {
        reveal(octets);
    }
    append(out, s.as_bytes());
}

/// Two closing brackets stand at `i`.
pub open spec fn closes_at(d: Seq<char>, i: int) -> bool {
    0 <= i && i + 1 < d.len() && d[i] == '>' && d[i + 1] == '>'
}

/// Where the last two closing brackets below `n` stand; the end of the text
/// where there are none.
pub open spec fn last_close(d: Seq<char>, n: int) -> int
    decreases n,
{
    if n <= 0 {
        d.len() as int
    } else if closes_at(d, n - 1) {
        n - 1
    } else {
        last_close(d, n - 1)
    }
}

/// A dictionary with the entry that states a stream's length.
pub open spec fn with_length(d: Seq<char>, n: nat) -> Seq<char> {
    let at = last_close(d, d.len() as int);
    d.take(at) + " /Length "@ + decimal(n) + " "@ + d.skip(at)
}

/// The body of a stream object.
pub open spec fn stream_body(d: Seq<char>, payload: Seq<u8>) -> Seq<u8> {
    octets(with_length(d, payload.len())) + octets("\nstream\n"@) + payload + octets(
        "\nendstream"@,
    )
}

proof fn lemma_last_close(d: Seq<char>, n: int)
    requires
        0 <= n <= d.len(),
    ensures
        0 <= last_close(d, n) <= d.len(),
    decreases n,
{
    if n > 0 && !closes_at(d, n - 1) {
        lemma_last_close(d, n - 1);
    }
}

fn measured(dict: &str, n: usize) -> (r: String)
    ensures
        r@ == with_length(dict@, n as nat),
{
    let d = characters(dict);
    let mut i: usize = d.len();
    let mut at: usize = d.len();
    let mut found: bool = false;
    while i > 0 && !found
        invariant
            i <= d@.len(),
            at <= d@.len(),
            d@ == dict@,
            found ==> at == last_close(d@, d@.len() as int),
            !found ==> at == d@.len() && last_close(d@, i as int) == last_close(
                d@,
                d@.len() as int,
            ),
        decreases i + (if found {
            0int
        } else {
            1
        }),
    {
        i -= 1;
        if i + 1 < d.len() && d[i] == '>' && d[i + 1] == '>' {
            at = i;
            found = true;
        }
    }
    let mut r = String::new();
    let mut k: usize = 0;
    while k < at
        invariant
            k <= at <= d@.len(),
            d@ == dict@,
            r@ == d@.take(k as int),
        decreases at - k,
    {
        proof {
            assert(d@.take(k + 1) =~= d@.take(k as int).push(d@[k as int]));
        }
        r.push(d[k]);
        k += 1;
    }
    r.append(" /Length ");
    push_decimal(&mut r, n as u64);
    r.append(" ");
    let ghost front = r@;
    proof {
        assert(d@.subrange(at as int, at as int) =~= Seq::empty());
        assert(r@ =~= front + d@.subrange(at as int, at as int));
    }
    while k < d.len()
        invariant
            at <= k <= d@.len(),
            d@ == dict@,
            r@ == front + d@.subrange(at as int, k as int),
        decreases d@.len() - k,
    {
        proof {
            assert(d@.subrange(at as int, k + 1) =~= d@.subrange(at as int, k as int).push(
                d@[k as int],
            ));
        }
        r.push(d[k]);
        k += 1;
        proof {
            assert(r@ =~= front + d@.subrange(at as int, k as int));
        }
    }
    proof {
        assert(d@.subrange(at as int, d@.len() as int) =~= d@.skip(at as int));
    }
    r
}

/// Accumulates indirect objects and lays out the cross-reference table.
pub struct Writer {
    objects: Vec<Option<Vec<u8>>>,
}

/// The octets of an object, where it has been filled in.
pub open spec fn body_of(o: Option<Vec<u8>>) -> Option<Seq<u8>> {
    match o {
        Some(b) => Some(b@),
        None => None,
    }
}

impl View for Writer {
    type V = Seq<Option<Seq<u8>>>;

    /// The bodies of the objects, from number one on.
    closed spec fn view(&self) -> Seq<Option<Seq<u8>>> {
        Seq::new(self.objects@.len(), |i: int| body_of(self.objects@[i]))
    }
}

/// What an object is written as; one never filled in is an empty dictionary.
pub open spec fn object_body(o: Option<Seq<u8>>) -> Seq<u8> {
    match o {
        Some(b) => b,
        None => octets("<< >>"@),
    }
}

/// The line that opens object number `n`.
pub open spec fn object_head(n: nat) -> Seq<u8> {
    octets(decimal(n)) + octets(" 0 obj\n"@)
}

/// The file's opening: a version, then a comment of octets above 127.
pub open spec fn file_head() -> Seq<u8> {
    octets("%PDF-1.5\n"@) + seq![0x25u8, 0xE2, 0xE3, 0xCF, 0xD3, 0x0A]
}

/// The file up to the end of the first `n` objects.
pub open spec fn laid_out(objects: Seq<Option<Seq<u8>>>, n: int) -> Seq<u8>
    decreases n,
{
    if n <= 0 {
        file_head()
    } else {
        laid_out(objects, n - 1) + object_head(n as nat) + object_body(objects[n - 1]) + octets(
            "\nendobj\n"@,
        )
    }
}

/// The table's line for an object that starts at `at`.
pub open spec fn table_line(at: nat) -> Seq<u8> {
    octets(padded(decimal(at), 10, '0')) + octets(" 00000 n \n"@)
}

/// The table's lines for the first `n` objects.
pub open spec fn table_lines(objects: Seq<Option<Seq<u8>>>, n: int) -> Seq<u8>
    decreases n,
{
    if n <= 0 {
        Seq::empty()
    } else {
        table_lines(objects, n - 1) + table_line(laid_out(objects, n - 1).len())
    }
}

/// The table's heading and the line for object zero.
pub open spec fn table_head(objects: Seq<Option<Seq<u8>>>) -> Seq<u8> {
    octets("xref\n0 "@) + octets(decimal(objects.len() + 1)) + octets("\n"@) + octets(
        "0000000000 65535 f \n"@,
    )
}

/// The trailer.
pub open spec fn trailer(count: nat, root: nat, info: Option<usize>, table_at: nat) -> Seq<u8> {
    octets("trailer\n<< /Size "@) + octets(decimal(count + 1)) + octets(" /Root "@) + octets(
        decimal(root),
    ) + octets(" 0 R"@) + (match info {
        Some(i) => octets(" /Info "@) + octets(decimal(i as nat)) + octets(" 0 R"@),
        None => Seq::empty(),
    }) + octets(" >>\nstartxref\n"@) + octets(decimal(table_at)) + octets("\n%%EOF\n"@)
}

/// The whole file.
pub open spec fn file_of(objects: Seq<Option<Seq<u8>>>, root: nat, info: Option<usize>) -> Seq<
    u8,
> {
    let body = laid_out(objects, objects.len() as int);
    body + table_head(objects) + table_lines(objects, objects.len() as int) + trailer(
        objects.len(),
        root,
        info,
        body.len(),
    )
}

fn append_number(out: &mut Vec<u8>, n: u64)
    ensures
        final(out)@ == old(out)@ + octets(decimal(n as nat)),
{
    let mut s = String::new();
    push_decimal(&mut s, n);
    proof {
        assert(s@ =~= decimal(n as nat));
    }
    append_text(out, s.as_str());
}

fn append_line(out: &mut Vec<u8>, at: usize)
    ensures
        final(out)@ == old(out)@ + table_line(at as nat),
{
    let mut s = String::new();
    push_padded(&mut s, at as u64, 10);
    proof {
        assert(s@ =~= padded(decimal(at as nat), 10, '0'));
    }
    append_text(out, s.as_str());
    append_text(out, " 00000 n \n");
    proof {
        assert(out@ =~= old(out)@ + table_line(at as nat));
    }
}

fn append_trailer(out: &mut Vec<u8>, n: usize, root: usize, info: Option<usize>, table_at: usize)
    requires
        n < usize::MAX,
    ensures
        final(out)@ == old(out)@ + trailer(n as nat, root as nat, info, table_at as nat),
{
    append_text(out, "trailer\n<< /Size ");
    append_number(out, (n + 1) as u64);
    append_text(out, " /Root ");
    append_number(out, root as u64);
    append_text(out, " 0 R");
    if let Some(i) = info {
        append_text(out, " /Info ");
        append_number(out, i as u64);
        append_text(out, " 0 R");
    }
    append_text(out, " >>\nstartxref\n");
    append_number(out, table_at as u64);
    append_text(out, "\n%%EOF\n");
    proof {
        assert(out@ =~= old(out)@ + trailer(n as nat, root as nat, info, table_at as nat));
    }
}

fn append_table(out: &mut Vec<u8>, offsets: &Vec<usize>, objects: Ghost<Seq<Option<Seq<u8>>>>)
    requires
        offsets@.len() == objects@.len(),
        offsets@.len() < usize::MAX,
        forall|j: int|
            0 <= j < offsets@.len() ==> #[trigger] offsets@[j] == laid_out(objects@, j).len(),
    ensures
        final(out)@ == old(out)@ + table_head(objects@) + table_lines(
            objects@,
            objects@.len() as int,
        ),
{
    let n: usize = offsets.len();
    append_text(out, "xref\n0 ");
    append_number(out, (n + 1) as u64);
    append_text(out, "\n");
    append_text(out, "0000000000 65535 f \n");
    let ghost front = old(out)@ + table_head(objects@);
    proof {
        assert(out@ =~= front + table_lines(objects@, 0));
    }
    let mut k: usize = 0;
    while k < n
        invariant
            k <= n,
            n == objects@.len(),
            offsets@.len() == n,
            forall|j: int| 0 <= j < n ==> #[trigger] offsets@[j] == laid_out(objects@, j).len(),
            out@ == front + table_lines(objects@, k as int),
        decreases n - k,
    {
        append_line(out, offsets[k]);
        k += 1;
        proof {
            assert(out@ =~= front + table_lines(objects@, k as int));
        }
    }
}

impl Writer {
    pub fn new() -> (w: Writer)
        ensures
            w@ == Seq::<Option<Seq<u8>>>::empty(),
    {
        let w = Writer { objects: Vec::new() };
        proof {
            assert(w@ =~= Seq::<Option<Seq<u8>>>::empty());
        }
        w
    }

    /// How many objects there are.
    pub fn len(&self) -> (n: usize)
        ensures
            n == self@.len(),
    {
        self.objects.len()
    }

    /// Claim an object number to be filled in later, for forward references.
    pub fn reserve(&mut self) -> (id: usize)
        ensures
            final(self)@ == old(self)@.push(None),
            id == final(self)@.len(),
    {
        self.objects.push(None);
        proof {
            assert(self@ =~= old(self)@.push(None));
        }
        self.objects.len()
    }

    /// Fill in an object claimed earlier.
    pub fn set(&mut self, id: usize, body: &str)
        requires
            1 <= id <= old(self)@.len(),
        ensures
            final(self)@ == old(self)@.update(id - 1, Some(octets(body@))),
    {
        let mut v: Vec<u8> = Vec::new();
        append_text(&mut v, body);
        proof {
            assert(v@ =~= octets(body@));
        }
        self.objects.set(id - 1, Some(v));
        proof {
            assert(self@ =~= old(self)@.update(id - 1, Some(octets(body@))));
        }
    }

    /// Add an object.
    pub fn add(&mut self, body: &str) -> (id: usize)
        ensures
            final(self)@ == old(self)@.push(Some(octets(body@))),
            id == final(self)@.len(),
    {
        let mut v: Vec<u8> = Vec::new();
        append_text(&mut v, body);
        proof {
            assert(v@ =~= octets(body@));
        }
        self.objects.push(Some(v));
        proof {
            assert(self@ =~= old(self)@.push(Some(octets(body@))));
        }
        self.objects.len()
    }

    /// Add a stream. Its length is spliced into the dictionary.
    pub fn add_stream(&mut self, dict: &str, payload: &[u8]) -> (id: usize)
        ensures
            final(self)@ == old(self)@.push(Some(stream_body(dict@, payload@))),
            id == final(self)@.len(),
    {
        let head = measured(dict, payload.len());
        let mut v: Vec<u8> = Vec::new();
        append_text(&mut v, head.as_str());
        append_text(&mut v, "\nstream\n");
        append(&mut v, payload);
        append_text(&mut v, "\nendstream");
        proof {
            assert(v@ =~= stream_body(dict@, payload@));
        }
        self.objects.push(Some(v));
        proof {
            assert(self@ =~= old(self)@.push(Some(stream_body(dict@, payload@))));
        }
        self.objects.len()
    }

    /// Lay the file out.
    pub fn finish(self, root: usize, info: Option<usize>) -> (out: Vec<u8>)
        requires
            self@.len() < usize::MAX,
        ensures
            out@ == file_of(self@, root as nat, info),
    {
        let mut out: Vec<u8> = Vec::new();
        append_text(&mut out, "%PDF-1.5\n");
        out.push(0x25);
        out.push(0xE2);
        out.push(0xE3);
        out.push(0xCF);
        out.push(0xD3);
        out.push(0x0A);
        proof {
            assert(out@ =~= file_head());
        }
        let n: usize = self.objects.len();
        let mut offsets: Vec<usize> = Vec::new();
        let mut i: usize = 0;
        while i < n
            invariant
                i <= n,
                n == self@.len(),
                n == self.objects@.len(),
                n < usize::MAX,
                offsets@.len() == i,
                out@ == laid_out(self@, i as int),
                forall|k: int| 0 <= k < i ==> #[trigger] offsets@[k] == laid_out(self@, k).len(),
            decreases n - i,
        {
            offsets.push(out.len());
            append_number(&mut out, (i + 1) as u64);
            append_text(&mut out, " 0 obj\n");
            proof {
                assert(self@[i as int] == body_of(self.objects@[i as int]));
            }
            match &self.objects[i] {
                Some(b) => append(&mut out, b.as_slice()),
                None => append_text(&mut out, "<< >>"),
            }
            append_text(&mut out, "\nendobj\n");
            proof {
                assert(out@ =~= laid_out(self@, i + 1));
            }
            i += 1;
        }
        let table_at: usize = out.len();
        append_table(&mut out, &offsets, Ghost(self@));
        append_trailer(&mut out, n, root, info, table_at);
        proof {
            assert(out@ =~= file_of(self@, root as nat, info));
        }
        out
    }
}

proof fn lemma_octets_len(s: Seq<char>)
    requires
        is_ascii_chars(s),
    ensures
        octets(s).len() == s.len(),
{
    reveal(octets);
    is_ascii_chars_encode_utf8(s);
}

proof fn lemma_line(at: nat)
    requires
        at < 10_000_000_000,
    ensures
        table_line(at).len() == 20,
{
    reveal_with_fuel(pow, 12);
    lemma_padded_decimal(at, 10);
    let digits = padded(decimal(at), 10, '0');
    assert(is_ascii_chars(digits)) by {
        assert forall|i: int| 0 <= i < digits.len() implies '\0' <= #[trigger] digits[i]
            <= '\u{7f}' by {}
    }
    lemma_octets_len(digits);
    reveal_strlit(" 00000 n \n");
    lemma_octets_len(" 00000 n \n"@);
}

proof fn lemma_laid_out(objects: Seq<Option<Seq<u8>>>, i: int, n: int)
    requires
        0 <= i <= n,
    ensures
        laid_out(objects, i).len() <= laid_out(objects, n).len(),
        laid_out(objects, n).take(laid_out(objects, i).len() as int) == laid_out(objects, i),
    decreases n - i,
{
    let front = laid_out(objects, i);
    if i < n {
        lemma_laid_out(objects, i, n - 1);
        assert(laid_out(objects, n).take(front.len() as int) =~= laid_out(objects, n - 1).take(
            front.len() as int,
        ));
    } else {
        assert(front.take(front.len() as int) =~= front);
    }
}

proof fn lemma_lines(objects: Seq<Option<Seq<u8>>>, i: int, n: int)
    requires
        0 <= i < n,
        laid_out(objects, n - 1).len() < 10_000_000_000,
    ensures
        table_lines(objects, n).len() == 20 * n,
        table_lines(objects, n).subrange(20 * i, 20 * i + 20) == table_line(
            laid_out(objects, i).len(),
        ),
    decreases n,
{
    lemma_line(laid_out(objects, n - 1).len());
    if n > 1 {
        lemma_laid_out(objects, n - 2, n - 1);
        lemma_lines(
            objects,
            if i < n - 1 {
                i
            } else {
                0
            },
            n - 1,
        );
    } else {
        assert(table_lines(objects, 0).len() == 0);
    }
    if i < n - 1 {
        assert(table_lines(objects, n).subrange(20 * i, 20 * i + 20) =~= table_lines(
            objects,
            n - 1,
        ).subrange(20 * i, 20 * i + 20));
    } else {
        assert(table_lines(objects, n).subrange(20 * i, 20 * i + 20) =~= table_line(
            laid_out(objects, i).len(),
        ));
    }
}

/// The table finds every object: the `i`-th of its twenty-octet lines gives
/// the place in the file where the object starts, and there stand its heading
/// and its body. The place that the file ends by naming is where the table
/// stands. This holds of a file whose objects start below ten thousand
/// million, which is as far as a line of the table can point.
pub proof fn law_table_finds_objects(
    objects: Seq<Option<Seq<u8>>>,
    root: nat,
    info: Option<usize>,
    i: int,
)
    requires
        0 <= i < objects.len(),
        laid_out(objects, objects.len() - 1).len() < 10_000_000_000,
    ensures
        ({
            let file = file_of(objects, root, info);
            let at = laid_out(objects, i).len() as int;
            let head = object_head((i + 1) as nat);
            let body = object_body(objects[i]);
            let table_at = laid_out(objects, objects.len() as int).len() as int;
            let lines_at = table_at + table_head(objects).len();
            &&& file.subrange(at, at + head.len() + body.len()) == head + body
            &&& file.subrange(lines_at + 20 * i, lines_at + 20 * i + 20) == table_line(at as nat)
            &&& file.subrange(table_at, lines_at) == table_head(objects)
            &&& file.skip(lines_at + 20 * objects.len()) == trailer(
                objects.len(),
                root,
                info,
                table_at as nat,
            )
        }),
{
    let n = objects.len() as int;
    let file = file_of(objects, root, info);
    let at = laid_out(objects, i).len() as int;
    let head = object_head((i + 1) as nat);
    let body = object_body(objects[i]);
    let all = laid_out(objects, n);
    let next = laid_out(objects, i + 1);
    let lines = table_lines(objects, n);
    let lines_at = (all.len() + table_head(objects).len()) as int;
    lemma_laid_out(objects, i + 1, n);
    lemma_lines(objects, i, n);
    assert(next.subrange(at, at + head.len() + body.len()) =~= head + body);
    assert(file.subrange(at, at + head.len() + body.len()) =~= all.take(
        next.len() as int,
    ).subrange(at, at + head.len() + body.len()));
    assert(file.subrange(lines_at + 20 * i, lines_at + 20 * i + 20) =~= lines.subrange(
        20 * i,
        20 * i + 20,
    ));
    assert(file.subrange(all.len() as int, lines_at) =~= table_head(objects));
    assert(file.skip(lines_at + 20 * n) =~= trailer(objects.len(), root, info, all.len()));
}

/// A stream object holds its payload as it is, right behind the line that
/// opens the stream.
pub proof fn law_payload_is_kept(d: Seq<char>, payload: Seq<u8>)
    ensures
        ({
            let body = stream_body(d, payload);
            let at = octets(with_length(d, payload.len())).len() + octets("\nstream\n"@).len();
            &&& at + payload.len() <= body.len()
            &&& body.subrange(at as int, (at + payload.len()) as int) == payload
        }),
{
    let body = stream_body(d, payload);
    let at = octets(with_length(d, payload.len())).len() + octets("\nstream\n"@).len();
    assert(body.subrange(at as int, (at + payload.len()) as int) =~= payload);
}

} // verus!
