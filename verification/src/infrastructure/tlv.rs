//! Tag/length/value elements, the building blocks of a container.
use crate::error::Error;
use vstd::prelude::*;
use vstd::slice::slice_subrange;

verus! {

/// One element, with absolute offsets into the file buffer.
#[derive(Debug, Clone, Copy, PartialEq, Eq, Structural)]
pub struct Tlv {
    pub tag: u8,
    /// Offset of the tag octet.
    pub start: usize,
    /// Offset of the first octet of the value.
    pub value: usize,
    /// Length of the value.
    pub len: usize,
}

/// The unsigned big-endian number that `s` spells.
pub open spec fn be_value(s: Seq<u8>) -> nat
    decreases s.len(),
{
    if s.len() == 0 {
        0
    } else {
        be_value(s.drop_last()) * 256 + s.last() as nat
    }
}

/// `256` to the power `n`, for the widths a value can have.
spec fn bytes_bound(n: nat) -> nat
    decreases n,
{
    if n == 0 {
        1
    } else {
        256 * bytes_bound((n - 1) as nat)
    }
}

proof fn lemma_be_value_bound(s: Seq<u8>)
    ensures
        be_value(s) < bytes_bound(s.len()),
    decreases s.len(),
{
    if s.len() > 0 {
        lemma_be_value_bound(s.drop_last());
    }
}

impl Tlv {
    /// The element lies inside a buffer of `n` octets.
    pub open spec fn fits(self, n: nat) -> bool {
        self.value + self.len <= n
    }

    /// Offset just past the value.
    pub fn end(&self) -> (e: usize)
        requires
            self.value + self.len <= usize::MAX,
        ensures
            e == self.value + self.len,
    {
        self.value + self.len
    }

    /// The value of the element, taken from the buffer it was read from.
    pub fn bytes<'a>(&self, data: &'a [u8]) -> (b: &'a [u8])
        requires
            self.fits(data.len() as nat),
        ensures
            b@ == data@.subrange(self.value as int, self.value + self.len),
    {
        slice_subrange(data, self.value, self.value + self.len)
    }

    /// The value as a big-endian unsigned integer; a value that is empty or
    /// wider than eight octets is none.
    pub fn uint(&self, data: &[u8]) -> (v: Option<u64>)
        requires
            self.fits(data.len() as nat),
        ensures
            v == uint_of(data@, *self),
    {
        if self.len == 0 || self.len > 8 {
            return None;
        }
        let b = self.bytes(data);
        let mut v: u64 = 0;
        let mut i: usize = 0;
        while i < b.len()
            invariant
                i <= b@.len() <= 8,
                v == be_value(b@.take(i as int)),
            decreases b@.len() - i,
        {
            proof {
                assert(b@.take(i as int + 1).drop_last() =~= b@.take(i as int));
                lemma_be_value_bound(b@.take(i as int));
                assert(bytes_bound(i as nat) <= 0x100_0000_0000_0000) by {
                    reveal_with_fuel(bytes_bound, 9);
                }
            }
            v = v * 256 + b[i] as u64;
            i += 1;
        }
        proof {
            assert(b@.take(i as int) =~= b@);
        }
        Some(v)
    }
}

/// The number an element's value spells, when it is one to eight octets wide.
pub open spec fn uint_of(data: Seq<u8>, t: Tlv) -> Option<u64> {
    if t.len == 0 || t.len > 8 {
        None
    } else {
        Some(be_value(data.subrange(t.value as int, t.value + t.len)) as u64)
    }
}

/// The length field at `i`: the length it states and where the value starts.
///
/// A first octet below `0x80` is the length itself. Otherwise its low seven
/// bits count the octets that follow; the indefinite form and more than four
/// octets are refused.
pub open spec fn len_field(data: Seq<u8>, i: int) -> Option<(nat, int)> {
    if !(0 <= i < data.len()) {
        None
    } else if data[i] < 0x80 {
        Some((data[i] as nat, i + 1))
    } else {
        let k = data[i] - 0x80;
        if k == 0 || k > 4 || i + 1 + k > data.len() {
            None
        } else {
            Some((be_value(data.subrange(i + 1, i + 1 + k)), i + 1 + k))
        }
    }
}

/// Reads the length field at `i` and returns the length and the offset of the
/// value.
pub fn read_len(data: &[u8], i: usize) -> (r: Result<(usize, usize), Error>)
    ensures
        match len_field(data@, i as int) {
            Some((len, value)) => r == Ok::<(usize, usize), Error>((len as usize, value as usize))
                && len <= u32::MAX && value <= data@.len(),
            None => r == Err::<(usize, usize), Error>(Error::BadLength { at: i }),
        },
{
    if i >= data.len() {
        return Err(Error::BadLength { at: i });
    }
    let n: u8 = data[i];
    if n < 0x80 {
        return Ok((n as usize, i + 1));
    }
    let k: usize = (n - 0x80) as usize;
    if k == 0 || k > 4 || k > data.len() - i - 1 {
        return Err(Error::BadLength { at: i });
    }
    let mut v: usize = 0;
    let mut j: usize = 0;
    while j < k
        invariant
            j <= k <= 4,
            i + 1 + k <= data.len(),
            v == be_value(data@.subrange(i + 1, i + 1 + j)),
            v < bytes_bound(j as nat),
        decreases k - j,
    {
        proof {
            assert(data@.subrange(i + 1, i + 1 + j + 1).drop_last() =~= data@.subrange(
                i + 1,
                i + 1 + j,
            ));
            lemma_be_value_bound(data@.subrange(i + 1, i + 1 + j + 1));
            assert(bytes_bound(j as nat) <= 0x100_0000) by {
                reveal_with_fuel(bytes_bound, 5);
            }
        }
        v = v * 256 + data[i + 1 + j] as usize;
        j += 1;
    }
    proof {
        reveal_with_fuel(bytes_bound, 5);
    }
    Ok((v, i + 1 + k))
}

/// The element whose tag is at `at`, or why there is none.
pub open spec fn element(data: Seq<u8>, at: int) -> Result<Tlv, Error> {
    if !(0 <= at < data.len()) {
        Err(Error::BadLength { at: at as usize })
    } else {
        match len_field(data, at + 1) {
            None => Err(Error::BadLength { at: (at + 1) as usize }),
            Some((len, value)) => if value + len > data.len() {
                Err(Error::Truncated { at: at as usize, tag: data[at] })
            } else {
                Ok(
                    Tlv {
                        tag: data[at],
                        start: at as usize,
                        value: value as usize,
                        len: len as usize,
                    },
                )
            },
        }
    }
}

/// Reads the element whose tag is at `at`.
pub fn read_one(data: &[u8], at: usize) -> (r: Result<Tlv, Error>)
    ensures
        r == element(data@, at as int),
        r matches Ok(t) ==> t.fits(data.len() as nat) && t.start == at && t.value >= at + 2,
{
    if at >= data.len() {
        return Err(Error::BadLength { at });
    }
    let tag: u8 = data[at];
    match read_len(data, at + 1) {
        Err(e) => Err(e),
        Ok((len, value)) => {
            if len > data.len() - value {
                return Err(Error::Truncated { at, tag });
            }
            Ok(Tlv { tag, start: at, value, len })
        },
    }
}

/// The elements packed from `i` up to `end`, or why they cannot be read.
pub open spec fn elements_in(data: Seq<u8>, i: int, end: int) -> Result<Seq<Tlv>, Error>
    decreases end - i,
        when 0 <= i && end <= data.len() <= usize::MAX
{
    proof {
        lemma_len_field(data, i + 1);
    }
    if i >= end {
        Ok(Seq::empty())
    } else {
        match element(data, i) {
            Err(e) => Err(e),
            Ok(t) => if t.value + t.len > end {
                Err(Error::Truncated { at: i as usize, tag: t.tag })
            } else {
                match elements_in(data, t.value + t.len, end) {
                    Err(e) => Err(e),
                    Ok(rest) => Ok(seq![t] + rest),
                }
            },
        }
    }
}

/// The elements packed into the window of `len` octets at `start`.
pub open spec fn window(data: Seq<u8>, start: int, len: int) -> Result<Seq<Tlv>, Error> {
    if start + len > data.len() {
        Err(Error::BadLength { at: start as usize })
    } else {
        elements_in(data, start, start + len)
    }
}

/// The vector holds exactly what the model says, or the same error is given.
pub open spec fn same_elements(r: Result<Vec<Tlv>, Error>, s: Result<Seq<Tlv>, Error>) -> bool {
    match (r, s) {
        (Ok(v), Ok(w)) => v@ == w,
        (Err(a), Err(b)) => a == b,
        _ => false,
    }
}

/// The elements follow one another without a gap from `start` to `end`.
pub open spec fn tiles(items: Seq<Tlv>, start: int, end: int) -> bool
    decreases items.len(),
{
    if items.len() == 0 {
        start == end
    } else {
        &&& items[0].start == start
        &&& start < items[0].value
        &&& items[0].value + items[0].len <= end
        &&& tiles(items.drop_first(), items[0].value + items[0].len, end)
    }
}

/// A window that can be read is covered by its elements: the first starts at
/// the window's start, each next one where the one before ends, and the last
/// ends at the window's end. So every element lies in the file.
pub proof fn law_window_is_tiled(data: Seq<u8>, start: int, len: int)
    requires
        0 <= start,
        0 <= len,
        data.len() <= usize::MAX,
        window(data, start, len) is Ok,
    ensures
        tiles(window(data, start, len)->Ok_0, start, start + len),
        forall|k: int|
            0 <= k < window(data, start, len)->Ok_0.len() ==> (
            #[trigger] window(data, start, len)->Ok_0[k]).fits(data.len()),
{
    lemma_elements_tile(data, start, start + len);
}

proof fn lemma_elements_tile(data: Seq<u8>, i: int, end: int)
    requires
        0 <= i <= end <= data.len() <= usize::MAX,
        elements_in(data, i, end) is Ok,
    ensures
        tiles(elements_in(data, i, end)->Ok_0, i, end),
        forall|k: int|
            0 <= k < elements_in(data, i, end)->Ok_0.len() ==> (
            #[trigger] elements_in(data, i, end)->Ok_0[k]).fits(data.len()),
    decreases end - i,
{
    if i < end {
        let t = element(data, i)->Ok_0;
        lemma_len_field(data, i + 1);
        lemma_elements_tile(data, t.value + t.len, end);
        let rest = elements_in(data, t.value + t.len, end)->Ok_0;
        let all = elements_in(data, i, end)->Ok_0;
        assert(all =~= seq![t] + rest);
        assert(all.drop_first() =~= rest);
        assert forall|k: int| 0 <= k < all.len() implies (#[trigger] all[k]).fits(data.len()) by {
            if k > 0 {
                assert(all[k] == rest[k - 1]);
            }
        }
    }
}

pub proof fn lemma_len_field(data: Seq<u8>, i: int)
    ensures
        len_field(data, i) matches Some((len, value)) ==> len <= u32::MAX && i < value
            <= data.len(),
{
    if 0 <= i < data.len() && data[i] >= 0x80 {
        let k = data[i] - 0x80;
        if 0 < k <= 4 && i + 1 + k <= data.len() {
            lemma_be_value_bound(data.subrange(i + 1, i + 1 + k));
            reveal_with_fuel(bytes_bound, 5);
        }
    }
}

/// Reads the elements packed into `data[start .. start + len]`.
pub fn read_window(data: &[u8], start: usize, len: usize) -> (r: Result<Vec<Tlv>, Error>)
    ensures
        same_elements(r, window(data@, start as int, len as int)),
        r matches Ok(v) ==> forall|k: int| 0 <= k < v@.len() ==> (#[trigger] v@[k]).fits(
            data@.len(),
        ),
{
    if start > data.len() || len > data.len() - start {
        return Err(Error::BadLength { at: start });
    }
    let end: usize = start + len;
    let mut out: Vec<Tlv> = Vec::new();
    let mut i: usize = start;
    while i < end
        invariant
            start <= i <= end <= data.len(),
            start + len == end,
            forall|k: int| 0 <= k < out@.len() ==> (#[trigger] out@[k]).fits(data@.len()),
            elements_in(data@, start as int, end as int) == (match elements_in(
                data@,
                i as int,
                end as int,
            ) {
                Ok(rest) => Ok::<Seq<Tlv>, Error>(out@ + rest),
                Err(e) => Err(e),
            }),
        decreases end - i,
    {
        let t = match read_one(data, i) {
            Ok(t) => t,
            Err(e) => return Err(e),
        };
        if t.end() > end {
            return Err(Error::Truncated { at: i, tag: t.tag });
        }
        let ghost before = out@;
        i = t.end();
        out.push(t);
        proof {
            match elements_in(data@, i as int, end as int) {
                Ok(rest) => assert(before + (seq![t] + rest) =~= out@ + rest),
                Err(_) => {},
            }
        }
    }
    proof {
        assert(out@ + Seq::<Tlv>::empty() =~= out@);
    }
    Ok(out)
}

/// Whether the whole window reads as one element or more.
pub fn window_is_nested(data: &[u8], start: usize, len: usize) -> (r: bool)
    ensures
        r == (window(data@, start as int, len as int) matches Ok(v) && v.len() > 0),
{
    match read_window(data, start, len) {
        Ok(v) => v.len() > 0,
        Err(_) => false,
    }
}

/// The first element with the tag.
pub open spec fn first_with_tag(items: Seq<Tlv>, tag: u8) -> Option<Tlv>
    decreases items.len(),
{
    if items.len() == 0 {
        None
    } else if items[0].tag == tag {
        Some(items[0])
    } else {
        first_with_tag(items.drop_first(), tag)
    }
}

/// The first element with the tag is one of the elements.
pub proof fn lemma_first_with_tag(items: Seq<Tlv>, tag: u8)
    ensures
        first_with_tag(items, tag) matches Some(t) ==> items.contains(t),
    decreases items.len(),
{
    if items.len() > 0 {
        if items[0].tag == tag {
            assert(items.contains(items[0]));
        } else {
            let rest = items.drop_first();
            lemma_first_with_tag(rest, tag);
            match first_with_tag(rest, tag) {
                Some(t) => {
                    let k = choose|k: int| 0 <= k < rest.len() && rest[k] == t;
                    assert(items[k + 1] == t);
                },
                None => {},
            }
        }
    }
}

/// The first element with the tag.
pub fn find(items: &[Tlv], tag: u8) -> (r: Option<Tlv>)
    ensures
        r == first_with_tag(items@, tag),
        r matches Some(t) ==> items@.contains(t),
{
    let mut i: usize = 0;
    proof {
        assert(items@.skip(0) =~= items@);
    }
    while i < items.len()
        invariant
            i <= items@.len(),
            first_with_tag(items@, tag) == first_with_tag(items@.skip(i as int), tag),
        decreases items@.len() - i,
    {
        if items[i].tag == tag {
            assert(items@.contains(items@[i as int]));
            return Some(items[i]);
        }
        proof {
            assert(items@.skip(i as int).drop_first() =~= items@.skip(i as int + 1));
        }
        i += 1;
    }
    None
}

/// The first element with the tag, read as a number.
pub fn find_uint(items: &[Tlv], data: &[u8], tag: u8) -> (r: Option<u64>)
    requires
        forall|k: int| 0 <= k < items@.len() ==> (#[trigger] items@[k]).fits(data@.len()),
    ensures
        r == (match first_with_tag(items@, tag) {
            Some(t) => uint_of(data@, t),
            None => None,
        }),
{
    match find(items, tag) {
        Some(t) => t.uint(data),
        None => None,
    }
}

/// The little-endian number of the four octets at `i`.
pub open spec fn le32(s: Seq<u8>, i: int) -> nat {
    (s[i] + 0x100 * s[i + 1] + 0x1_0000 * s[i + 2] + 0x100_0000 * s[i + 3]) as nat
}

/// Reads the little-endian numbers of an offset table; octets left over after
/// the last whole group of four are dropped.
pub fn le_u32s(bytes: &[u8]) -> (v: Vec<u32>)
    ensures
        v@ == Seq::new(bytes@.len() / 4, |k: int| le32(bytes@, 4 * k) as u32),
{
    let n: usize = bytes.len() / 4;
    let mut v: Vec<u32> = Vec::new();
    let mut k: usize = 0;
    while k < n
        invariant
            k <= n,
            n == bytes.len() / 4,
            v@ == Seq::new(k as nat, |j: int| le32(bytes@, 4 * j) as u32),
        decreases n - k,
    {
        let i: usize = 4 * k;
        let x: u32 = bytes[i] as u32 + 0x100 * bytes[i + 1] as u32 + 0x1_0000 * bytes[i + 2] as u32
            + 0x100_0000 * bytes[i + 3] as u32;
        v.push(x);
        k += 1;
    }
    v
}

} // verus!
