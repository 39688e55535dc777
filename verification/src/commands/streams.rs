//! The streams that are left in the container's own coding, ready to be
//! written out with an index.
use crate::commands::csv::{csv_field, field};
use crate::domain::document::Document;
use crate::domain::page::{Page, PageData};
use crate::infrastructure::octets::be16_at;
use crate::infrastructure::octets::be16_of;
use crate::rounding::{
    above, nearest, round_quotient, round_whole, whole, Binary, DOUBLE,
};
use crate::text::{decimal, padded, push_decimal, push_padded};
use vstd::prelude::*;
use vstd::string::*;

verus! {

/// One stream that is not decoded.
pub struct Stream {
    pub role: &'static str,
    pub idx: usize,
    pub offset: usize,
    pub len: usize,
    /// The length that the container says it expands to. A result of another
    /// length is wrong.
    pub expanded: Option<u64>,
    pub kind: String,
    pub method: String,
    pub colour: String,
}

/// A stream as a value.
pub struct StreamModel {
    pub role: Seq<char>,
    pub idx: nat,
    pub offset: nat,
    pub len: nat,
    pub expanded: Option<u64>,
    pub kind: Seq<char>,
    pub method: Seq<char>,
    pub colour: Seq<char>,
}

impl View for Stream {
    type V = StreamModel;

    open spec fn view(&self) -> StreamModel {
        StreamModel {
            role: self.role@,
            idx: self.idx as nat,
            offset: self.offset as nat,
            len: self.len as nat,
            expanded: self.expanded,
            kind: self.kind@,
            method: self.method@,
            colour: self.colour@,
        }
    }
}

/// The streams as values.
pub open spec fn stream_models(v: Seq<Stream>) -> Seq<StreamModel> {
    Seq::new(v.len(), |i: int| v[i]@)
}

/// A number, or nothing.
pub open spec fn number_or_nothing(n: Option<u64>) -> Seq<char> {
    match n {
        Some(n) => decimal(n as nat),
        None => ""@,
    }
}

/// How much of a preview is coded: what is stored, as far as the entry goes.
/// The bitmap header and the palette stand in the clear before it, and a
/// sub-header of sixteen octets.
pub open spec fn coded_part(len: nat, pixels_at: nat, stored: nat) -> nat {
    let room = if len >= pixels_at + 16 {
        (len - pixels_at - 16) as nat
    } else {
        0
    };
    if stored < room {
        stored
    } else {
        room
    }
}

/// The stream of an entry. A picture and a table in the clear have none.
pub open spec fn stream_of_page(p: Page) -> Option<StreamModel> {
    match p.data {
        PageData::Encoded { offset, len, kind_code, aux_len, method, colour } => Some(
            StreamModel {
                role: "page"@,
                idx: p.index as nat,
                offset: offset as nat,
                len: len as nat,
                expanded: aux_len,
                kind: decimal(kind_code as nat),
                method: number_or_nothing(method),
                colour: number_or_nothing(colour),
            },
        ),
        PageData::Preview { offset, len, pixels_at, stored, expanded, .. } => Some(
            StreamModel {
                role: "preview"@,
                idx: p.index as nat,
                offset: (offset + pixels_at + 16) as nat,
                len: coded_part(len as nat, pixels_at as nat, stored as nat),
                expanded: Some(expanded as u64),
                kind: "preview"@,
                method: ""@,
                colour: ""@,
            },
        ),
        PageData::Bare { offset, len } => Some(
            StreamModel {
                role: "bare"@,
                idx: p.index as nat,
                offset: offset as nat,
                len: len as nat,
                expanded: None,
                kind: "bare"@,
                method: ""@,
                colour: ""@,
            },
        ),
        PageData::Jpeg { .. } => None,
        PageData::Fields { .. } => None,
    }
}

/// The stream has something in it and lies in a file of `n` octets.
pub open spec fn lies_within(s: StreamModel, n: nat) -> bool {
    s.len > 0 && s.offset + s.len <= n
}

/// The stream with the ones before it, if it lies in the file.
pub open spec fn with_stream(before: Seq<StreamModel>, s: Option<StreamModel>, n: nat) -> Seq<
    StreamModel,
> {
    match s {
        Some(s) => if lies_within(s, n) {
            before.push(s)
        } else {
            before
        },
        None => before,
    }
}

/// The streams of the pages, in order.
pub open spec fn streams_of_pages(pages: Seq<Page>, n: nat) -> Seq<StreamModel>
    decreases pages.len(),
{
    if pages.len() == 0 {
        Seq::empty()
    } else {
        with_stream(streams_of_pages(pages.drop_last(), n), stream_of_page(pages.last()), n)
    }
}

/// The stream of the document's properties.
pub open spec fn properties_stream(doc: Document) -> Option<StreamModel> {
    match doc.properties {
        Some((offset, len)) => Some(
            StreamModel {
                role: "properties"@,
                idx: doc.pages@.len(),
                offset: offset as nat,
                len: len as nat,
                expanded: match doc.properties_len {
                    Some((_, e)) => Some(e as u64),
                    None => None,
                },
                kind: "properties"@,
                method: ""@,
                colour: ""@,
            },
        ),
        None => None,
    }
}

/// The streams of a document in a file of `n` octets.
pub open spec fn streams_of(doc: Document, n: nat) -> Seq<StreamModel> {
    with_stream(streams_of_pages(doc.pages@, n), properties_stream(doc), n)
}

fn number_text(n: Option<u64>) -> (s: String)
    ensures
        s@ == number_or_nothing(n),
{
    match n {
        Some(n) => {
            let mut s = String::new();
            push_decimal(&mut s, n);
            proof {
                assert(s@ =~= decimal(n as nat));
            }
            s
        },
        None => String::from_str(""),
    }
}

impl Stream {
    /// A stream that carries nothing but its name and place.
    fn plain(role: &'static str, idx: usize, offset: usize, len: usize, expanded: Option<u64>) -> (s:
        Stream)
        ensures
            s@ == (StreamModel {
                role: role@,
                idx: idx as nat,
                offset: offset as nat,
                len: len as nat,
                expanded,
                kind: role@,
                method: ""@,
                colour: ""@,
            }),
    {
        Stream {
            role,
            idx,
            offset,
            len,
            expanded,
            kind: role.to_owned(),
            method: String::from_str(""),
            colour: String::from_str(""),
        }
    }
}

/// The stream of an entry; none where it would reach past every file.
fn page_stream(p: &Page) -> (r: Option<Stream>)
    ensures
        match (r, stream_of_page(*p)) {
            (Some(s), Some(m)) => s@ == m,
            (None, Some(m)) => !lies_within(m, usize::MAX as nat),
            (None, None) => true,
            _ => false,
        },
{
    match p.data {
        PageData::Encoded { offset, len, kind_code, aux_len, method, colour } => {
            let mut kind = String::new();
            push_decimal(&mut kind, kind_code);
            proof {
                assert(kind@ =~= decimal(kind_code as nat));
            }
            Some(
                Stream {
                    role: "page",
                    idx: p.index,
                    offset,
                    len,
                    expanded: aux_len,
                    kind,
                    method: number_text(method),
                    colour: number_text(colour),
                },
            )
        },
        PageData::Preview { offset, len, pixels_at, stored, expanded, .. } => {
            let start: usize = match offset.checked_add(pixels_at) {
                Some(at) => match at.checked_add(16) {
                    Some(at) => at,
                    None => {
                        return None;
                    },
                },
                None => {
                    return None;
                },
            };
            let room: usize = len.saturating_sub(pixels_at + 16);
            let coded: usize = if (stored as usize) < room {
                stored as usize
            } else {
                room
            };
            Some(Stream::plain("preview", p.index, start, coded, Some(expanded as u64)))
        },
        PageData::Bare { offset, len } => Some(Stream::plain("bare", p.index, offset, len, None)),
        PageData::Jpeg { .. } => None,
        PageData::Fields { .. } => None,
    }
}

fn add_stream(streams: &mut Vec<Stream>, s: Option<Stream>, n: usize)
    ensures
        stream_models(final(streams)@) == with_stream(
            stream_models(old(streams)@),
            match s {
                Some(s) => Some(s@),
                None => None,
            },
            n as nat,
        ),
{
    if let Some(s) = s {
        if s.len > 0 && s.len <= n && s.offset <= n - s.len {
            let ghost before = streams@;
            let ghost m = s@;
            streams.push(s);
            proof {
                assert(stream_models(streams@) =~= stream_models(before).push(m));
            }
        }
    }
}

/// The streams of a document that are not decoded, and lie in its file of `n`
/// octets.
pub fn undecoded_streams(doc: &Document, n: usize) -> (r: Vec<Stream>)
    ensures
        stream_models(r@) == streams_of(*doc, n as nat),
{
    let mut r: Vec<Stream> = Vec::new();
    let mut i: usize = 0;
    proof {
        assert(stream_models(r@) =~= streams_of_pages(doc.pages@.take(0), n as nat));
    }
    while i < doc.pages.len()
        invariant
            i <= doc.pages@.len(),
            stream_models(r@) == streams_of_pages(doc.pages@.take(i as int), n as nat),
        decreases doc.pages@.len() - i,
    {
        let s = page_stream(&doc.pages[i]);
        add_stream(&mut r, s, n);
        proof {
            assert(doc.pages@.take(i + 1).drop_last() =~= doc.pages@.take(i as int));
        }
        i += 1;
    }
    proof {
        assert(doc.pages@.take(i as int) =~= doc.pages@);
    }
    if let Some((offset, len)) = doc.properties {
        let expanded: Option<u64> = match doc.properties_len {
            Some((_, e)) => Some(e as u64),
            None => None,
        };
        let s = Stream::plain("properties", doc.pages.len(), offset, len, expanded);
        add_stream(&mut r, Some(s), n);
    }
    r
}

// ---------------------------------------------------------------- the index

/// The name of the file that a stream is written to.
pub open spec fn stream_name(stem: Seq<char>, idx: nat, role: Seq<char>) -> Seq<char> {
    stem + "."@ + padded(decimal(idx), 4, '0') + "."@ + role + ".bin"@
}

/// The name of the file that a stream is written to.
pub fn stream_file(stem: &str, s: &Stream) -> (r: String)
    ensures
        r@ == stream_name(stem@, s@.idx, s@.role),
{
    let mut out = String::new();
    out.append(stem);
    out.append(".");
    push_padded(&mut out, s.idx as u64, 4);
    out.append(".");
    out.append(s.role);
    out.append(".bin");
    proof {
        assert(out@ =~= stream_name(stem@, s@.idx, s@.role));
    }
    out
}

/// The first sixteen bits of a stream: a header that goes with its length. The
/// code starts behind them.
pub open spec fn coder_header(data: Seq<u8>, offset: int) -> Seq<char> {
    match be16_of(data, offset) {
        Some(n) => decimal(n as nat),
        None => ""@,
    }
}

/// One row of the index.
pub open spec fn index_row(file: Seq<char>, data: Seq<u8>, s: StreamModel, ratio: Seq<char>) -> Seq<
    char,
> {
    field(file) + ","@ + decimal(s.idx) + ","@ + s.role + ","@ + decimal(s.offset) + ","@
        + decimal(s.len) + ","@ + coder_header(data, s.offset as int) + ","@ + number_or_nothing(
        s.expanded,
    ) + ","@ + ratio + ","@ + s.kind + ","@ + s.method + ","@ + s.colour + "\n"@
}

fn write_row(file: &str, data: &[u8], s: &Stream, ratio: &str) -> (out: String)
    ensures
        out@ == index_row(file@, data@, s@, ratio@),
{
    let mut out = csv_field(file);
    out.append(",");
    push_decimal(&mut out, s.idx as u64);
    out.append(",");
    out.append(s.role);
    out.append(",");
    push_decimal(&mut out, s.offset as u64);
    out.append(",");
    push_decimal(&mut out, s.len as u64);
    out.append(",");
    match be16_at(data, s.offset) {
        Some(n) => push_decimal(&mut out, n as u64),
        None => out.append(""),
    }
    out.append(",");
    let expanded = number_text(s.expanded);
    out.append(expanded.as_str());
    out.append(",");
    out.append(ratio);
    out.append(",");
    out.append(s.kind.as_str());
    out.append(",");
    out.append(s.method.as_str());
    out.append(",");
    out.append(s.colour.as_str());
    out.append("\n");
    proof {
        assert(out@ =~= index_row(file@, data@, s@, ratio@));
    }
    out
}

/// The stream that expands the most from the least. It is the closest to
/// featureless.
pub struct Leanest {
    pub name: String,
    pub stored: usize,
    pub expanded: u64,
}

/// The leanest stream as a value.
pub struct LeanestModel {
    pub name: Seq<char>,
    pub stored: nat,
    pub expanded: nat,
}

impl View for Leanest {
    type V = LeanestModel;

    open spec fn view(&self) -> LeanestModel {
        LeanestModel {
            name: self.name@,
            stored: self.stored as nat,
            expanded: self.expanded as nat,
        }
    }
}

/// The quotient of two whole numbers, the second not zero, in double precision,
/// to which each is taken first.
pub open spec fn double_quotient(a: nat, b: nat) -> (nat, int) {
    nearest(
        DOUBLE as nat,
        whole(DOUBLE as nat, a as int) as nat,
        whole(DOUBLE as nat, b as int) as nat,
    )
}

/// The first stream expands more from less than the second, as double precision
/// tells it. A stream that is stored in no octets expands without end, so none
/// is leaner than it; one that expands to none either is leaner than no other.
pub open spec fn is_leaner_than(expanded: nat, stored: nat, other: LeanestModel) -> bool {
    if other.stored == 0 {
        false
    } else if stored == 0 {
        expanded > 0
    } else {
        above(double_quotient(expanded, stored), double_quotient(other.expanded, other.stored))
    }
}

/// The leaner of the one so far and another stream; the one so far, of equals.
pub open spec fn leaner(best: Option<LeanestModel>, name: Seq<char>, s: StreamModel) -> Option<
    LeanestModel,
> {
    match s.expanded {
        Some(e) => {
            let new = LeanestModel { name, stored: s.len, expanded: e as nat };
            match best {
                Some(b) => if is_leaner_than(e as nat, s.len, b) {
                    Some(new)
                } else {
                    best
                },
                None => Some(new),
            }
        },
        None => best,
    }
}

/// What has been written out so far.
pub struct Index {
    pub csv: String,
    pub count: usize,
    pub stored: u64,
    pub leanest: Option<Leanest>,
}

/// What has been written out, as a value.
pub struct IndexModel {
    pub csv: Seq<char>,
    pub count: usize,
    pub stored: u64,
    pub leanest: Option<LeanestModel>,
}

impl View for Index {
    type V = IndexModel;

    open spec fn view(&self) -> IndexModel {
        IndexModel {
            csv: self.csv@,
            count: self.count,
            stored: self.stored,
            leanest: match self.leanest {
                Some(l) => Some(l@),
                None => None,
            },
        }
    }
}

/// The index before any stream.
pub open spec fn no_streams() -> IndexModel {
    IndexModel {
        csv: "path,entry,role,offset,stored,coder_header,expanded_declared,ratio,kind,method,colour\n"@,
        count: 0,
        stored: 0,
        leanest: None,
    }
}

/// The index with one stream more.
pub open spec fn with_row(
    before: IndexModel,
    file: Seq<char>,
    name: Seq<char>,
    data: Seq<u8>,
    s: StreamModel,
    ratio: Seq<char>,
) -> IndexModel {
    IndexModel {
        csv: before.csv + index_row(file, data, s, ratio),
        count: if before.count < usize::MAX {
            (before.count + 1) as usize
        } else {
            usize::MAX
        },
        stored: if before.stored + s.len <= u64::MAX {
            (before.stored + s.len) as u64
        } else {
            u64::MAX
        },
        leanest: leaner(before.leanest, name, s),
    }
}

fn quotient_of(a: u64, b: u64) -> (r: Binary)
    requires
        b > 0,
    ensures
        r@ == double_quotient(a as nat, b as nat),
{
    let n: i128 = round_whole(DOUBLE, a as i128);
    let d: i128 = round_whole(DOUBLE, b as i128);
    proof {
        assert(0 <= d * DOUBLE <= 0x4_0000_0000_0000_0000 * 0x20_0000_0000_0000) by (nonlinear_arith)
            requires
                0 <= d <= 0x4_0000_0000_0000_0000,
                DOUBLE == 0x20_0000_0000_0000,
        ;
    }
    round_quotient(DOUBLE, n as u128, d as u128)
}

fn is_leaner(best: &Option<Leanest>, e: u64, len: usize) -> (r: bool)
    ensures
        r == match best {
            Some(b) => is_leaner_than(e as nat, len as nat, b@),
            None => true,
        },
{
    match best {
        Some(b) => {
            if b.stored == 0 {
                return false;
            }
            if len == 0 {
                return e > 0;
            }
            let new: Binary = quotient_of(e, len as u64);
            let so_far: Binary = quotient_of(b.expanded, b.stored as u64);
            new.is_above(&so_far)
        },
        None => true,
    }
}

impl Index {
    /// The index before any stream.
    pub fn new() -> (i: Index)
        ensures
            i@ == no_streams(),
    {
        Index {
            csv: String::from_str(
                "path,entry,role,offset,stored,coder_header,expanded_declared,ratio,kind,method,colour\n",
            ),
            count: 0,
            stored: 0,
            leanest: None,
        }
    }

    /// Takes down a stream that has been written to the file `name`. Its ratio
    /// is measured by the caller; nothing where the stream says no length.
    pub fn add(&mut self, file: &str, name: &str, data: &[u8], s: &Stream, ratio: &str)
        ensures
            final(self)@ == with_row(old(self)@, file@, name@, data@, s@, ratio@),
    {
        let row = write_row(file, data, s, ratio);
        self.csv.append(row.as_str());
        self.count = self.count.saturating_add(1);
        self.stored = self.stored.saturating_add(s.len as u64);
        if let Some(e) = s.expanded {
            if is_leaner(&self.leanest, e, s.len) {
                self.leanest = Some(
                    Leanest { name: name.to_owned(), stored: s.len, expanded: e },
                );
            }
        }
    }

    /// The line that ends the work.
    pub fn summary(&self, index: &str) -> (s: String)
        ensures
            s@ == decimal(self.count as nat) + " stream(s), "@ + decimal(self.stored as nat)
                + " B stored, index at "@ + index@,
    {
        let mut s = String::new();
        push_decimal(&mut s, self.count as u64);
        s.append(" stream(s), ");
        push_decimal(&mut s, self.stored);
        s.append(" B stored, index at ");
        s.append(index);
        proof {
            assert(s@ =~= decimal(self.count as nat) + " stream(s), "@ + decimal(
                self.stored as nat,
            ) + " B stored, index at "@ + index@);
        }
        s
    }
}

/// What is said of the leanest stream. A thumbnail of a blank page expands to
/// a known constant.
pub open spec fn leanest_text(l: LeanestModel, ratio: Seq<char>) -> Seq<char> {
    "most compressible stream: "@ + l.name + "  "@ + decimal(l.stored) + " -> "@ + decimal(
        l.expanded,
    ) + " B ("@ + ratio
        + "x)\n               a blank page's thumbnail would expand to one repeated value; the closer to blank, the better a crib it makes\n              the first three code bits track the page's first pixel, so a stream whose opening pixel you know is worth more than a short one"@
}

impl Leanest {
    /// What is said of the leanest stream.
    pub fn describe(&self, ratio: &str) -> (s: String)
        ensures
            s@ == leanest_text(self@, ratio@),
    {
        let mut s = String::from_str("most compressible stream: ");
        s.append(self.name.as_str());
        s.append("  ");
        push_decimal(&mut s, self.stored as u64);
        s.append(" -> ");
        push_decimal(&mut s, self.expanded);
        s.append(" B (");
        s.append(ratio);
        s.append(
            "x)\n               a blank page's thumbnail would expand to one repeated value; the closer to blank, the better a crib it makes\n              the first three code bits track the page's first pixel, so a stream whose opening pixel you know is worth more than a short one",
        );
        proof {
            assert(s@ =~= leanest_text(self@, ratio@));
        }
        s
    }
}

} // verus!
