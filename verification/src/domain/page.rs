//! The page table of a container, as a model.
use crate::binary32::{one_decimal, push_quotient, quotient_tenths};
use crate::text::{decimal, push_decimal};
use vstd::prelude::*;
use vstd::string::*;

verus! {

/// The compression code seen so far.
pub const KNOWN_COMPRESSION: u64 = 1;

/// A body of this kind is a bare Group 4 image.
pub const KIND_GROUP4: u64 = 9;

/// A rectangle in hundredths of a millimetre: x, y, width, height.
pub type Area = (u32, u32, u32, u32);

/// How a page's data is stored.
#[derive(Debug, Clone, Copy, PartialEq, Eq, Structural)]
pub enum PageData {
    /// A JPEG stream behind the header of the page element, or the one that is
    /// the nested body. It can be written out octet by octet.
    Jpeg { offset: usize, len: usize },
    /// A preview image: bitmap header and palette in the clear, then pixel
    /// data in the container's own coding.
    Preview {
        offset: usize,
        len: usize,
        /// Where the sub-header of the coded pixels starts in the data.
        pixels_at: usize,
        bpp: u16,
        palette_colours: u32,
        stored: u32,
        expanded: u32,
        rows: u32,
        /// How the pixels are coded.
        method: u32,
    },
    /// Data in the container's own coding, with page metadata.
    Encoded {
        offset: usize,
        len: usize,
        kind_code: u64,
        /// Larger than the stored length: what the data expands to.
        aux_len: Option<u64>,
        method: Option<u64>,
        colour: Option<u64>,
    },
    /// A table of named entries, in the clear.
    Fields { offset: usize, len: usize, records: usize },
    /// Coded data with neither a nested structure nor a JPEG header.
    Bare { offset: usize, len: usize },
}

/// A drawing laid over a page: the page's own overlay, or an annotation.
///
/// It is stored in the document properties, in the coding of a page body.
#[derive(Debug, Clone, PartialEq, Eq)]
pub struct Overlay {
    /// The same storage code as a page body's.
    pub kind: u64,
    /// The length it expands to.
    pub expanded: usize,
    /// The data, still coded.
    pub coded: Vec<u8>,
    /// The pixel size, for a bitmap.
    pub pixels: Option<(u32, u32)>,
    /// Where an annotation sits, in hundredths of a millimetre. `None` covers
    /// the whole page.
    pub area: Option<Area>,
}

/// An overlay as a value.
pub struct OverlayModel {
    pub kind: u64,
    pub expanded: usize,
    pub coded: Seq<u8>,
    pub pixels: Option<(u32, u32)>,
    pub area: Option<Area>,
}

impl View for Overlay {
    type V = OverlayModel;

    open spec fn view(&self) -> OverlayModel {
        OverlayModel {
            kind: self.kind,
            expanded: self.expanded,
            coded: self.coded@,
            pixels: self.pixels,
            area: self.area,
        }
    }
}

/// The overlays as values.
pub open spec fn overlay_models(v: Seq<Overlay>) -> Seq<OverlayModel> {
    Seq::new(v.len(), |i: int| v[i]@)
}

impl Overlay {
    /// Another overlay with the same contents.
    pub fn duplicate(&self) -> (o: Overlay)
        ensures
            o@ == self@,
    {
        let mut coded: Vec<u8> = Vec::new();
        coded.extend_from_slice(self.coded.as_slice());
        proof {
            assert(coded@ =~= self.coded@);
        }
        Overlay {
            kind: self.kind,
            expanded: self.expanded,
            coded,
            pixels: self.pixels,
            area: self.area,
        }
    }
}

/// Other overlays with the same contents.
pub fn duplicate_overlays(v: &Vec<Overlay>) -> (r: Vec<Overlay>)
    ensures
        overlay_models(r@) == overlay_models(v@),
{
    let mut r: Vec<Overlay> = Vec::new();
    let mut i: usize = 0;
    while i < v.len()
        invariant
            i <= v@.len(),
            overlay_models(r@) == overlay_models(v@.take(i as int)),
        decreases v@.len() - i,
    {
        let ghost before = r@;
        r.push(v[i].duplicate());
        proof {
            assert(overlay_models(r@) =~= overlay_models(before).push(v@[i as int]@));
            assert(overlay_models(v@.take(i + 1)) =~= overlay_models(v@.take(i as int)).push(
                v@[i as int]@,
            ));
        }
        i += 1;
    }
    proof {
        assert(v@.take(i as int) =~= v@);
    }
    r
}

/// A page body placed on a displayed page by the document properties.
#[derive(Debug, Clone, Copy, PartialEq, Eq)]
pub struct PagePlacement {
    /// The size of the body that is meant, when the properties state it.
    pub frame: Option<(u32, u32)>,
    /// Where it sits on the displayed page.
    pub area: Area,
}

/// What an entry of the page table is.
#[derive(Debug, Clone, Copy, PartialEq, Eq, Structural)]
pub enum Role {
    /// A page of the document.
    Sheet,
    /// The thumbnail of a sheet. Not content.
    Thumbnail,
    /// A picture placed on a sheet.
    Picture,
    /// A table of named data, in the clear.
    Data,
}

/// What a role is called.
pub open spec fn role_name(r: Role) -> Seq<char> {
    match r {
        Role::Sheet => "sheet"@,
        Role::Thumbnail => "thumbnail"@,
        Role::Picture => "picture"@,
        Role::Data => "data"@,
    }
}

impl Role {
    pub fn as_str(self) -> (s: &'static str)
        ensures
            s@ == role_name(self),
    {
        match self {
            Role::Sheet => "sheet",
            Role::Thumbnail => "thumbnail",
            Role::Picture => "picture",
            Role::Data => "data",
        }
    }
}

/// One entry of the page table.
#[derive(Debug, Clone, PartialEq, Eq)]
pub struct Page {
    pub index: usize,
    pub role: Role,
    /// The entry number of the sheet that a picture or thumbnail belongs to.
    pub belongs_to: Option<usize>,
    /// Offset of the page element in the file.
    pub offset: usize,
    pub checksum: Option<u32>,
    /// Paper size in hundredths of a millimetre.
    pub paper: Option<(u32, u32)>,
    /// The pixel size that the page records.
    pub pixels: Option<(u32, u32)>,
    /// Clockwise rotation when shown, in degrees; from the properties.
    pub rotation: u16,
    /// Drawings laid over the page; from the properties.
    pub overlays: Vec<Overlay>,
    pub data: PageData,
    /// Tags of fields that were not interpreted.
    pub unknown_fields: Vec<u8>,
}

/// A page as a value.
pub struct PageModel {
    pub index: usize,
    pub role: Role,
    pub belongs_to: Option<usize>,
    pub offset: usize,
    pub checksum: Option<u32>,
    pub paper: Option<(u32, u32)>,
    pub pixels: Option<(u32, u32)>,
    pub rotation: u16,
    pub overlays: Seq<OverlayModel>,
    pub data: PageData,
    pub unknown_fields: Seq<u8>,
}

impl View for Page {
    type V = PageModel;

    open spec fn view(&self) -> PageModel {
        PageModel {
            index: self.index,
            role: self.role,
            belongs_to: self.belongs_to,
            offset: self.offset,
            checksum: self.checksum,
            paper: self.paper,
            pixels: self.pixels,
            rotation: self.rotation,
            overlays: overlay_models(self.overlays@),
            data: self.data,
            unknown_fields: self.unknown_fields@,
        }
    }
}

/// The pages as values.
pub open spec fn page_models(v: Seq<Page>) -> Seq<PageModel> {
    Seq::new(v.len(), |i: int| v[i]@)
}

impl PageModel {
    /// The entry's own image can be written out as it is stored.
    pub open spec fn recoverable(self) -> bool {
        self.data is Jpeg
    }

    /// The entry is a whole image in a standard coding: a JPEG or a bare
    /// Group 4 stream.
    pub open spec fn standard_image(self) -> bool {
        self.data is Jpeg || (self.data matches PageData::Encoded { kind_code, .. } && kind_code
            == KIND_GROUP4)
    }

    /// The entry is a page-sized preview, the body of its page.
    pub open spec fn full_size_preview(self) -> bool {
        self.data matches PageData::Preview { method, .. } && method == 5
    }
}

/// Width and height for the text of a report.
pub open spec fn size_text(pixels: Option<(u32, u32)>) -> Seq<char> {
    let (w, h) = match pixels {
        Some(p) => p,
        None => (0u32, 0u32),
    };
    decimal(w as nat) + "x"@ + decimal(h as nat) + "px"@
}

/// What a report says of the paper.
pub open spec fn paper_text(paper: Option<(u32, u32)>) -> Seq<char> {
    match paper {
        Some((a, b)) => one_decimal(quotient_tenths(a as nat, 100)) + "x"@ + one_decimal(
            quotient_tenths(b as nat, 100),
        ) + "mm"@,
        None => "?"@,
    }
}

/// What a report says of the compression.
pub open spec fn compression_text(method: Option<u64>) -> Seq<char> {
    match method {
        Some(m) => if m == KNOWN_COMPRESSION {
            " compression "@ + decimal(m as nat)
        } else {
            " compression "@ + decimal(m as nat)
                + " (not the one seen in any sample; may be a standard codec)"@
        },
        None => ""@,
    }
}

/// What a report says of how far the data expands.
pub open spec fn ratio_text(aux_len: Option<u64>, len: usize) -> Seq<char> {
    match aux_len {
        Some(a) => " ratio "@ + one_decimal(
            quotient_tenths(
                a as nat,
                if len > 1 {
                    len as nat
                } else {
                    1
                },
            ),
        ) + "x"@,
        None => ""@,
    }
}

/// What a report says of an entry's data.
pub open spec fn data_text(p: PageModel) -> Seq<char> {
    match p.data {
        PageData::Jpeg { offset, len } => "JPEG    "@ + size_text(p.pixels) + "  "@ + decimal(
            len as nat,
        ) + " B  (recoverable)"@,
        PageData::Preview {
            offset,
            len,
            pixels_at,
            bpp,
            palette_colours,
            stored,
            expanded,
            rows,
            method,
        } => "preview "@ + size_text(p.pixels) + " "@ + decimal(bpp as nat) + "bpp "@ + decimal(
            palette_colours as nat,
        ) + " colours  "@ + decimal(stored as nat) + " -> "@ + decimal(expanded as nat) + " B"@,
        PageData::Encoded { offset, len, kind_code, aux_len, method, colour } => "encoded "@
            + size_text(p.pixels) + " paper "@ + paper_text(p.paper) + "  "@ + decimal(len as nat)
            + " B  kind "@ + decimal(kind_code as nat) + ratio_text(aux_len, len)
            + compression_text(method),
        PageData::Fields { offset, len, records } => "fields  "@ + decimal(len as nat) + " B  "@
            + decimal(records as nat) + " field(s) in the clear"@,
        PageData::Bare { offset, len } => "bare    "@ + decimal(len as nat) + " B  (no metadata)"@,
    }
}

/// How many overlays cover the whole page.
pub open spec fn page_wide(overlays: Seq<OverlayModel>) -> nat
    decreases overlays.len(),
{
    if overlays.len() == 0 {
        0
    } else {
        page_wide(overlays.drop_last()) + (if overlays.last().area is None {
            1nat
        } else {
            0
        })
    }
}

/// The one-line description of an entry.
pub open spec fn page_text(p: PageModel) -> Seq<char> {
    let own = page_wide(p.overlays);
    let notes = p.overlays.len() - own;
    data_text(p) + (if p.rotation % 360 != 0 {
        "  shown turned "@ + decimal((p.rotation % 360) as nat) + "°"@
    } else {
        ""@
    }) + (if own > 0 {
        "  +drawing"@
    } else {
        ""@
    }) + (if notes > 0 {
        "  +"@ + decimal(notes as nat) + " annotation(s)"@
    } else {
        ""@
    })
}

/// What a storage form is called.
pub open spec fn kind_name_of(d: PageData) -> Seq<char> {
    match d {
        PageData::Jpeg { .. } => "jpeg"@,
        PageData::Preview { .. } => "preview"@,
        PageData::Encoded { .. } => "encoded"@,
        PageData::Fields { .. } => "fields"@,
        PageData::Bare { .. } => "bare"@,
    }
}

fn push_size(out: &mut String, pixels: Option<(u32, u32)>)
    ensures
        final(out)@ == old(out)@ + size_text(pixels),
{
    let (w, h): (u32, u32) = match pixels {
        Some(p) => p,
        None => (0, 0),
    };
    push_decimal(out, w as u64);
    out.append("x");
    push_decimal(out, h as u64);
    out.append("px");
    proof {
        assert(out@ =~= old(out)@ + size_text(pixels));
    }
}

fn push_paper(out: &mut String, paper: Option<(u32, u32)>)
    ensures
        final(out)@ == old(out)@ + paper_text(paper),
{
    match paper {
        Some((a, b)) => {
            push_quotient(out, a as u64, 100);
            out.append("x");
            push_quotient(out, b as u64, 100);
            out.append("mm");
        },
        None => out.append("?"),
    }
    proof {
        assert(out@ =~= old(out)@ + paper_text(paper));
    }
}

fn push_ratio(out: &mut String, aux_len: Option<u64>, len: usize)
    ensures
        final(out)@ == old(out)@ + ratio_text(aux_len, len),
{
    match aux_len {
        Some(a) => {
            out.append(" ratio ");
            push_quotient(
                out,
                a,
                if len > 1 {
                    len as u64
                } else {
                    1
                },
            );
            out.append("x");
        },
        None => out.append(""),
    }
    proof {
        assert(out@ =~= old(out)@ + ratio_text(aux_len, len));
    }
}

fn push_compression(out: &mut String, method: Option<u64>)
    ensures
        final(out)@ == old(out)@ + compression_text(method),
{
    match method {
        Some(m) => {
            out.append(" compression ");
            push_decimal(out, m);
            if m != KNOWN_COMPRESSION {
                out.append(" (not the one seen in any sample; may be a standard codec)");
            }
        },
        None => out.append(""),
    }
    proof {
        assert(out@ =~= old(out)@ + compression_text(method));
    }
}

impl Page {
    /// Whether this entry's own image can be written out without the
    /// container's codec.
    pub fn is_recoverable(&self) -> (r: bool)
        ensures
            r == self@.recoverable(),
    {
        matches!(self.data, PageData::Jpeg { .. })
    }

    /// Whether this is not content but the thumbnail of a sheet.
    pub fn is_preview(&self) -> (r: bool)
        ensures
            r == (self.role == Role::Thumbnail),
    {
        self.role == Role::Thumbnail
    }

    /// Whether this is a page of the document.
    pub fn is_sheet(&self) -> (r: bool)
        ensures
            r == (self.role == Role::Sheet),
    {
        self.role == Role::Sheet
    }

    /// Whether this is a page-sized preview, which is the body of its page.
    pub fn is_full_size_preview(&self) -> (r: bool)
        ensures
            r == self@.full_size_preview(),
    {
        match self.data {
            PageData::Preview { method, .. } => method == 5,
            _ => false,
        }
    }

    /// Whether this is a whole image in a standard coding.
    pub fn is_standard_image(&self) -> (r: bool)
        ensures
            r == self@.standard_image(),
    {
        match self.data {
            PageData::Jpeg { .. } => true,
            PageData::Encoded { kind_code, .. } => kind_code == KIND_GROUP4,
            _ => false,
        }
    }

    /// The recorded paper the way round it is shown after rotation, in
    /// hundredths of a millimetre.
    pub fn shown_paper(&self) -> (r: Option<(u32, u32)>)
        ensures
            r == (match self.paper {
                Some((w, h)) => if self.rotation % 180 == 90 {
                    Some((h, w))
                } else {
                    Some((w, h))
                },
                None => None,
            }),
    {
        match self.paper {
            Some((w, h)) => if self.rotation % 180 == 90 {
                Some((h, w))
            } else {
                Some((w, h))
            },
            None => None,
        }
    }

    /// The storage form, named for a report.
    pub fn kind_name(&self) -> (s: &'static str)
        ensures
            s@ == kind_name_of(self.data),
    {
        match self.data {
            PageData::Jpeg { .. } => "jpeg",
            PageData::Preview { .. } => "preview",
            PageData::Encoded { .. } => "encoded",
            PageData::Fields { .. } => "fields",
            PageData::Bare { .. } => "bare",
        }
    }

    /// A one-line description for a report.
    pub fn describe(&self) -> (line: String)
        ensures
            line@ == page_text(self@),
    {
        let mut line = self.describe_data();
        if self.rotation % 360 != 0 {
            line.append("  shown turned ");
            push_decimal(&mut line, (self.rotation % 360) as u64);
            line.append("°");
        } else {
            line.append("");
        }
        let mut own: usize = 0;
        let mut i: usize = 0;
        let ghost models = overlay_models(self.overlays@);
        while i < self.overlays.len()
            invariant
                i <= self.overlays@.len(),
                own <= i,
                models == overlay_models(self.overlays@),
                own == page_wide(models.take(i as int)),
            decreases self.overlays@.len() - i,
        {
            proof {
                assert(models.take(i + 1).drop_last() =~= models.take(i as int));
            }
            if self.overlays[i].area.is_none() {
                own += 1;
            }
            i += 1;
        }
        proof {
            assert(models.take(i as int) =~= models);
        }
        let notes: usize = self.overlays.len() - own;
        if own > 0 {
            line.append("  +drawing");
        } else {
            line.append("");
        }
        if notes > 0 {
            line.append("  +");
            push_decimal(&mut line, notes as u64);
            line.append(" annotation(s)");
        } else {
            line.append("");
        }
        proof {
            assert(line@ =~= page_text(self@));
        }
        line
    }

    fn describe_data(&self) -> (line: String)
        ensures
            line@ == data_text(self@),
    {
        let mut line = String::new();
        match self.data {
            PageData::Jpeg { len, .. } => {
                line.append("JPEG    ");
                push_size(&mut line, self.pixels);
                line.append("  ");
                push_decimal(&mut line, len as u64);
                line.append(" B  (recoverable)");
            },
            PageData::Preview { bpp, palette_colours, stored, expanded, .. } => {
                line.append("preview ");
                push_size(&mut line, self.pixels);
                line.append(" ");
                push_decimal(&mut line, bpp as u64);
                line.append("bpp ");
                push_decimal(&mut line, palette_colours as u64);
                line.append(" colours  ");
                push_decimal(&mut line, stored as u64);
                line.append(" -> ");
                push_decimal(&mut line, expanded as u64);
                line.append(" B");
            },
            PageData::Encoded { len, kind_code, aux_len, method, .. } => {
                line.append("encoded ");
                push_size(&mut line, self.pixels);
                line.append(" paper ");
                push_paper(&mut line, self.paper);
                line.append("  ");
                push_decimal(&mut line, len as u64);
                line.append(" B  kind ");
                push_decimal(&mut line, kind_code);
                push_ratio(&mut line, aux_len, len);
                push_compression(&mut line, method);
            },
            PageData::Fields { len, records, .. } => {
                line.append("fields  ");
                push_decimal(&mut line, len as u64);
                line.append(" B  ");
                push_decimal(&mut line, records as u64);
                line.append(" field(s) in the clear");
            },
            PageData::Bare { len, .. } => {
                line.append("bare    ");
                push_decimal(&mut line, len as u64);
                line.append(" B  (no metadata)");
            },
        }
        proof {
            assert(line@ =~= data_text(self@));
        }
        line
    }
}

} // verus!
