//! One drawing as markup: everything but the text goes into one SVG element;
//! the text goes down as positioned spans over it, so it stays selectable and
//! searchable.
//!
//! The numbers are measured by the caller; what is painted, in which order and
//! under which clip is settled here.
use crate::adapters::drawing::{
    belongs_to_mask, has_area, image_geometry_is_valid, is_masked_part, is_measurable, marks_valid,
    picture_named, same_clip, Mark, Part, Pictures,
};
use crate::adapters::html::base64::{b64, base64};
use crate::adapters::html::page::HtmlDrawn;
use crate::adapters::html::words::{blend_attr, colour_code, esc, hex, markup};
use crate::adapters::masks::{html_mask_png, mask_png};
use crate::adapters::pdf::content::{more, text_at};
use crate::adapters::pdf::images::{jpeg_stream, stream_of};
use crate::adapters::pdf::words::texts;
use crate::domain::page::Page;
use crate::domain::rendering::{
    BlendMode, Fill, Image, Metafile, MetafileModel, Path, RasterOp, Rect, Shape, ShapeModel,
    Source, Text, TextModel,
};
use crate::infrastructure::png::{encode, png_file};
use crate::text::{decimal, push_decimal, whitespace};
use vstd::prelude::*;
use vstd::string::*;

verus! {

/// A rectangle in numbers. Where `x` is empty, it covers nothing.
pub struct BoxNumbers {
    pub x: String,
    pub y: String,
    pub width: String,
    pub height: String,
}

/// A rectangle in numbers as a value.
pub struct BoxModel {
    pub x: Seq<char>,
    pub y: Seq<char>,
    pub width: Seq<char>,
    pub height: Seq<char>,
}

impl View for BoxNumbers {
    type V = BoxModel;

    open spec fn view(&self) -> BoxModel {
        BoxModel { x: self.x@, y: self.y@, width: self.width@, height: self.height@ }
    }
}

/// The rectangles as values.
pub open spec fn boxes(v: Seq<BoxNumbers>) -> Seq<BoxModel> {
    Seq::new(v.len(), |i: int| v[i]@)
}

/// No rectangle.
pub open spec fn no_box() -> BoxModel {
    BoxModel { x: Seq::empty(), y: Seq::empty(), width: Seq::empty(), height: Seq::empty() }
}

/// A rectangle of a list; none where the list is too short.
pub open spec fn box_at(v: Seq<BoxModel>, i: int) -> BoxModel {
    if 0 <= i < v.len() {
        v[i]
    } else {
        no_box()
    }
}

/// The numbers of one run of text. An empty text stands for a place that
/// cannot be given.
pub struct SpanNumbers {
    pub top: String,
    pub size: String,
    /// Where each character stands, across.
    pub lefts: Vec<String>,
    /// By how many degrees the run is turned; empty where it is not.
    pub turn: String,
}

/// The numbers of one run of text as a value.
pub struct SpanModel {
    pub top: Seq<char>,
    pub size: Seq<char>,
    pub lefts: Seq<Seq<char>>,
    pub turn: Seq<char>,
}

impl View for SpanNumbers {
    type V = SpanModel;

    open spec fn view(&self) -> SpanModel {
        SpanModel {
            top: self.top@,
            size: self.size@,
            lefts: texts(self.lefts@),
            turn: self.turn@,
        }
    }
}

/// The numbers of a drawing, part by part.
pub struct SvgNumbers {
    /// Where the drawing lies on the sheet, in hundredths of it.
    pub place: BoxNumbers,
    /// The part of the drawing that is shown.
    pub view_box: String,
    /// The extent of the device.
    pub extent: (String, String),
    pub fills: Vec<BoxNumbers>,
    pub fill_clips: Vec<BoxNumbers>,
    pub images: Vec<BoxNumbers>,
    pub image_clips: Vec<BoxNumbers>,
    /// The rectangles of the masks, by the image that they belong to.
    pub masks: Vec<BoxNumbers>,
    /// The outlines of the shapes.
    pub shapes: Vec<String>,
    pub shape_clips: Vec<BoxNumbers>,
    pub strokes: Vec<String>,
    /// The outlines of the clip paths.
    pub paths: Vec<String>,
    pub spans: Vec<SpanNumbers>,
}

/// The numbers of a drawing as a value.
pub struct SvgModel {
    pub place: BoxModel,
    pub view_box: Seq<char>,
    pub extent: (Seq<char>, Seq<char>),
    pub fills: Seq<BoxModel>,
    pub fill_clips: Seq<BoxModel>,
    pub images: Seq<BoxModel>,
    pub image_clips: Seq<BoxModel>,
    pub masks: Seq<BoxModel>,
    pub shapes: Seq<Seq<char>>,
    pub shape_clips: Seq<BoxModel>,
    pub strokes: Seq<Seq<char>>,
    pub paths: Seq<Seq<char>>,
    pub spans: Seq<SpanModel>,
}

impl View for SvgNumbers {
    type V = SvgModel;

    open spec fn view(&self) -> SvgModel {
        SvgModel {
            place: self.place@,
            view_box: self.view_box@,
            extent: (self.extent.0@, self.extent.1@),
            fills: boxes(self.fills@),
            fill_clips: boxes(self.fill_clips@),
            images: boxes(self.images@),
            image_clips: boxes(self.image_clips@),
            masks: boxes(self.masks@),
            shapes: texts(self.shapes@),
            shape_clips: boxes(self.shape_clips@),
            strokes: texts(self.strokes@),
            paths: texts(self.paths@),
            spans: Seq::new(self.spans@.len(), |i: int| self.spans@[i]@),
        }
    }
}

// ---------------------------------------------------------- attributes

/// The four attributes of a rectangle.
pub open spec fn box_attrs(b: BoxModel) -> Seq<char> {
    "x=\""@ + b.x + "\" y=\""@ + b.y + "\" width=\""@ + b.width + "\" height=\""@ + b.height
        + "\""@
}

/// An identifier: the page's number, the layer's tag, a kind and a number.
pub open spec fn identifier(no: nat, tag: Seq<char>, kind: Seq<char>, n: nat) -> Seq<char> {
    "p"@ + decimal(no) + tag + kind + decimal(n)
}

/// The attribute that clips to a path.
pub open spec fn clip_attr(no: nat, tag: Seq<char>, path: Option<usize>) -> Seq<char> {
    match path {
        Some(i) => " clip-path=\"url(#"@ + identifier(no, tag, "c"@, i as nat) + ")\""@,
        None => ""@,
    }
}

fn push_box(out: &mut String, b: &BoxNumbers)
    ensures
        final(out)@ == old(out)@ + box_attrs(b@),
{
    out.append("x=\"");
    out.append(b.x.as_str());
    out.append("\" y=\"");
    out.append(b.y.as_str());
    out.append("\" width=\"");
    out.append(b.width.as_str());
    out.append("\" height=\"");
    out.append(b.height.as_str());
    out.append("\"");
    proof {
        assert(out@ =~= old(out)@ + box_attrs(b@));
    }
}

fn push_box_at(out: &mut String, v: &Vec<BoxNumbers>, i: usize)
    ensures
        final(out)@ == old(out)@ + box_attrs(box_at(boxes(v@), i as int)),
{
    if i < v.len() {
        proof {
            assert(boxes(v@)[i as int] == v@[i as int]@);
        }
        push_box(out, &v[i]);
    } else {
        let none = BoxNumbers {
            x: String::new(),
            y: String::new(),
            width: String::new(),
            height: String::new(),
        };
        proof {
            assert(none.x@ =~= Seq::empty());
            assert(none.y@ =~= Seq::empty());
            assert(none.width@ =~= Seq::empty());
            assert(none.height@ =~= Seq::empty());
            assert(none@ == no_box());
        }
        push_box(out, &none);
    }
}

fn covers(v: &Vec<BoxNumbers>, i: usize) -> (r: bool)
    ensures
        r == (box_at(boxes(v@), i as int).x.len() > 0),
{
    if i < v.len() {
        proof {
            assert(boxes(v@)[i as int] == v@[i as int]@);
        }
        v[i].x.as_str().unicode_len() > 0
    } else {
        false
    }
}

fn list_text(v: &Vec<String>, i: usize) -> (s: &str)
    ensures
        s@ == text_at(texts(v@), i as int),
{
    if i < v.len() {
        proof {
            assert(texts(v@)[i as int] == v@[i as int]@);
        }
        v[i].as_str()
    } else {
        proof {
            reveal_strlit("");
            assert(""@ =~= Seq::<char>::empty());
        }
        ""
    }
}

fn push_identifier(out: &mut String, no: usize, tag: &str, kind: &str, n: usize)
    ensures
        final(out)@ == old(out)@ + identifier(no as nat, tag@, kind@, n as nat),
{
    out.append("p");
    push_decimal(out, no as u64);
    out.append(tag);
    out.append(kind);
    push_decimal(out, n as u64);
    proof {
        assert(out@ =~= old(out)@ + identifier(no as nat, tag@, kind@, n as nat));
    }
}

fn push_clip(out: &mut String, no: usize, tag: &str, path: Option<usize>)
    ensures
        final(out)@ == old(out)@ + clip_attr(no as nat, tag@, path),
{
    match path {
        Some(i) => {
            out.append(" clip-path=\"url(#");
            push_identifier(out, no, tag, "c", i);
            out.append(")\"");
        },
        None => out.append(""),
    }
    proof {
        assert(out@ =~= old(out)@ + clip_attr(no as nat, tag@, path));
    }
}

// ---------------------------------------------------------- definitions

/// The opening tag.
pub open spec fn svg_head(n: SvgModel) -> Seq<char> {
    "<svg class=\"art\" style=\"left:"@ + n.place.x + "%;top:"@ + n.place.y + "%;width:"@
        + n.place.width + "%;height:"@ + n.place.height + "%\" viewBox=\""@ + n.view_box
        + "\" preserveAspectRatio=\"none\" xmlns=\"http://www.w3.org/2000/svg\" xmlns:xlink=\"http://www.w3.org/1999/xlink\">\n"@
}

/// The first `k` clip paths.
pub open spec fn path_defs(m: MetafileModel, n: SvgModel, no: nat, tag: Seq<char>, k: int) -> Seq<char>
    decreases k,
{
    if k <= 0 {
        Seq::empty()
    } else {
        path_defs(m, n, no, tag, k - 1) + "<clipPath id=\""@ + identifier(
            no,
            tag,
            "c"@,
            (k - 1) as nat,
        ) + "\"><path d=\""@ + text_at(n.paths, k - 1) + "\""@ + (if m.paths[k - 1].even_odd {
            " clip-rule=\"evenodd\""@
        } else {
            ""@
        }) + "/></clipPath>"@
    }
}

/// What the mask of image `i` is drawn from.
pub open spec fn mask_href(meta: Metafile, mask: usize) -> Seq<char> {
    "data:image/png;base64,"@ + base64(mask_png(meta@.rasters[mask as int]))
}

/// The mask of image `i`.
pub open spec fn mask_def(meta: Metafile, n: SvgModel, no: nat, tag: Seq<char>, i: int, mask: usize) -> Seq<
    char,
> {
    let href = mask_href(meta, mask);
    "<mask id=\""@ + identifier(no, tag, "mask"@, i as nat)
        + "\" maskUnits=\"userSpaceOnUse\" maskContentUnits=\"userSpaceOnUse\" mask-type=\"luminance\" x=\"0\" y=\"0\" width=\""@
        + n.extent.0 + "\" height=\""@ + n.extent.1 + "\"><image "@ + box_attrs(
        box_at(n.masks, i),
    ) + " preserveAspectRatio=\"none\" href=\""@ + href + "\" xlink:href=\""@ + href
        + "\"/></mask>"@
}

/// The masks of the first `k` images.
pub open spec fn mask_defs(
    meta: Metafile,
    n: SvgModel,
    no: nat,
    tag: Seq<char>,
    masks: Seq<Option<usize>>,
    k: int,
) -> Seq<char>
    decreases k,
{
    if k <= 0 {
        Seq::empty()
    } else {
        match masks[k - 1] {
            Some(mask) => mask_defs(meta, n, no, tag, masks, k - 1) + mask_def(
                meta,
                n,
                no,
                tag,
                k - 1,
                mask,
            ),
            None => mask_defs(meta, n, no, tag, masks, k - 1),
        }
    }
}

/// A group of definitions, unless there are none.
pub open spec fn defs(inside: Seq<char>) -> Seq<char> {
    if inside.len() == 0 {
        ""@
    } else {
        "<defs>"@ + inside + "</defs>\n"@
    }
}

fn push_defs(out: &mut String, inside: &str)
    ensures
        final(out)@ == old(out)@ + defs(inside@),
{
    if inside.unicode_len() == 0 {
        out.append("");
    } else {
        out.append("<defs>");
        out.append(inside);
        out.append("</defs>\n");
    }
    proof {
        assert(out@ =~= old(out)@ + defs(inside@));
    }
}

fn write_head(n: &SvgNumbers) -> (out: String)
    ensures
        out@ == svg_head(n@),
{
    let mut out = String::from_str("<svg class=\"art\" style=\"left:");
    out.append(n.place.x.as_str());
    out.append("%;top:");
    out.append(n.place.y.as_str());
    out.append("%;width:");
    out.append(n.place.width.as_str());
    out.append("%;height:");
    out.append(n.place.height.as_str());
    out.append("%\" viewBox=\"");
    out.append(n.view_box.as_str());
    out.append(
        "\" preserveAspectRatio=\"none\" xmlns=\"http://www.w3.org/2000/svg\" xmlns:xlink=\"http://www.w3.org/1999/xlink\">\n",
    );
    proof {
        assert(out@ =~= svg_head(n@));
    }
    out
}

fn write_paths(meta: &Metafile, n: &SvgNumbers, no: usize, tag: &str) -> (out: String)
    ensures
        out@ == path_defs(meta@, n@, no as nat, tag@, meta@.paths.len() as int),
{
    let mut out = String::new();
    let mut k: usize = 0;
    proof {
        assert(out@ =~= Seq::empty());
    }
    while k < meta.paths.len()
        invariant
            k <= meta.paths@.len(),
            meta@.paths.len() == meta.paths@.len(),
            out@ == path_defs(meta@, n@, no as nat, tag@, k as int),
        decreases meta.paths@.len() - k,
    {
        let p: &Path = &meta.paths[k];
        proof {
            assert(meta@.paths[k as int] == p@);
        }
        out.append("<clipPath id=\"");
        push_identifier(&mut out, no, tag, "c", k);
        out.append("\"><path d=\"");
        out.append(list_text(&n.paths, k));
        out.append("\"");
        if p.even_odd {
            out.append(" clip-rule=\"evenodd\"");
        } else {
            out.append("");
        }
        out.append("/></clipPath>");
        k += 1;
        proof {
            assert(out@ =~= path_defs(meta@, n@, no as nat, tag@, k as int));
        }
    }
    out
}

fn write_mask(meta: &Metafile, n: &SvgNumbers, no: usize, tag: &str, i: usize, mask: usize, href: &str) -> (out:
    String)
    requires
        href@ == mask_href(*meta, mask),
    ensures
        out@ == mask_def(*meta, n@, no as nat, tag@, i as int, mask),
{
    let mut out = String::from_str("<mask id=\"");
    push_identifier(&mut out, no, tag, "mask", i);
    out.append(
        "\" maskUnits=\"userSpaceOnUse\" maskContentUnits=\"userSpaceOnUse\" mask-type=\"luminance\" x=\"0\" y=\"0\" width=\"",
    );
    out.append(n.extent.0.as_str());
    out.append("\" height=\"");
    out.append(n.extent.1.as_str());
    out.append("\"><image ");
    push_box_at(&mut out, &n.masks, i);
    out.append(" preserveAspectRatio=\"none\" href=\"");
    out.append(href);
    out.append("\" xlink:href=\"");
    out.append(href);
    out.append("\"/></mask>");
    proof {
        assert(out@ =~= mask_def(*meta, n@, no as nat, tag@, i as int, mask));
    }
    out
}

/// The masks are bitmaps that can be masks.
pub open spec fn masks_valid(m: MetafileModel, masks: Seq<Option<usize>>) -> bool {
    masks.len() == m.images.len() && forall|i: int|
        0 <= i < masks.len() ==> ((#[trigger] masks[i]) matches Some(k) ==> k < m.rasters.len()
            && crate::adapters::masks::is_mask(m.rasters[k as int]) && m.rasters[k as int].width
            * m.rasters[k as int].height <= usize::MAX)
}

fn write_masks(meta: &Metafile, n: &SvgNumbers, no: usize, tag: &str, masks: &Vec<Option<usize>>) -> (out:
    String)
    requires
        masks_valid(meta@, masks@),
        is_measurable(meta.rasters@),
    ensures
        out@ == mask_defs(*meta, n@, no as nat, tag@, masks@, masks@.len() as int),
{
    let mut out = String::new();
    let mut k: usize = 0;
    proof {
        assert(out@ =~= Seq::empty());
    }
    while k < masks.len()
        invariant
            k <= masks@.len(),
            masks_valid(meta@, masks@),
            is_measurable(meta.rasters@),
            out@ == mask_defs(*meta, n@, no as nat, tag@, masks@, k as int),
        decreases masks@.len() - k,
    {
        if let Some(mask) = masks[k] {
            proof {
                assert(masks@[k as int] == Some(mask));
                assert(meta@.rasters[mask as int] == meta.rasters@[mask as int]@);
            }
            if let Some(png) = html_mask_png(&meta.rasters[mask]) {
                let mut href = String::from_str("data:image/png;base64,");
                let code = b64(png.as_slice());
                href.append(code.as_str());
                let text = write_mask(meta, n, no, tag, k, mask, href.as_str());
                out.append(text.as_str());
            }
        }
        k += 1;
    }
    out
}

// ------------------------------------------------------------- painting

/// What has been painted so far.
pub struct SvgPaint {
    pub out: Seq<char>,
    /// The clip rectangle whose group is open.
    pub clip: Option<Rect>,
    /// How many clip rectangles there have been.
    pub clips: usize,
    pub pictures: usize,
    pub painted: bool,
}

/// A clip rectangle becomes a group with a clip path of its own.
pub open spec fn grouped(p: SvgPaint, no: nat, tag: Seq<char>, want: Option<Rect>, rect: BoxModel) -> SvgPaint {
    if same_clip(p.clip, want) {
        p
    } else {
        let left = if p.clip is Some {
            p.out + "</g>\n"@
        } else {
            p.out
        };
        if want is None {
            SvgPaint { out: left, clip: None, ..p }
        } else {
            let id = identifier(no, tag, "r"@, more(p.clips) as nat);
            SvgPaint {
                out: left + "<clipPath id=\""@ + id + "\"><rect "@ + box_attrs(rect)
                    + "/></clipPath><g clip-path=\"url(#"@ + id + ")\">\n"@,
                clip: want,
                clips: more(p.clips),
                ..p
            }
        }
    }
}

/// The markup of a filled rectangle.
pub open spec fn fill_text(f: Fill, no: nat, tag: Seq<char>, b: BoxModel) -> Seq<char> {
    "<rect "@ + box_attrs(b) + " fill=\""@ + colour_code(f.rgb) + "\""@ + blend_text(f.blend)
        + clip_attr(no, tag, f.clip_path) + " />\n"@
}

/// The attribute for a blend mode.
pub open spec fn blend_text(b: BlendMode) -> Seq<char> {
    match b {
        BlendMode::Normal => ""@,
        BlendMode::Multiply => " style=\"mix-blend-mode:multiply\""@,
    }
}

/// A filled rectangle is painted.
pub open spec fn fill_drawn(p: SvgPaint, m: MetafileModel, n: SvgModel, no: nat, tag: Seq<char>, i: int) -> SvgPaint {
    let f = m.fills[i];
    let b = box_at(n.fills, i);
    if b.x.len() == 0 {
        p
    } else {
        let g = grouped(p, no, tag, f.clip, box_at(n.fill_clips, i));
        SvgPaint { out: g.out + fill_text(f, no, tag, b), painted: true, ..g }
    }
}

/// What an image is drawn from; none where that cannot be had.
pub open spec fn image_href(meta: Metafile, data: Seq<u8>, stored: Seq<Page>, i: int) -> Option<Seq<char>> {
    match meta@.images[i].source {
        Source::Stored { ordinal, .. } => match picture_named(meta@, stored, ordinal) {
            Some(k) => if k < stored.len() {
                match jpeg_stream(data, Some(stored[k as int].data)) {
                    Some(s) => Some("data:image/jpeg;base64,"@ + base64(s)),
                    None => None,
                }
            } else {
                None
            },
            None => None,
        },
        Source::Inline(k) => if k < meta.rasters@.len() {
            Some("data:image/png;base64,"@ + base64(png_file(meta.rasters@[k as int])))
        } else {
            None
        },
    }
}

/// The markup of an image.
pub open spec fn image_text(
    image: Image,
    no: nat,
    tag: Seq<char>,
    i: int,
    masked: bool,
    b: BoxModel,
    href: Seq<char>,
    alt: Seq<char>,
) -> Seq<char> {
    "<image "@ + box_attrs(b) + " preserveAspectRatio=\"none\""@ + clip_attr(
        no,
        tag,
        image.clip_path,
    ) + (if masked {
        " mask=\"url(#"@ + identifier(no, tag, "mask"@, i as nat) + ")\""@
    } else {
        ""@
    }) + " href=\""@ + href + "\" xlink:href=\""@ + href + "\"><title>"@ + markup(alt)
        + "</title></image>\n"@
}

/// An image is painted.
pub open spec fn image_drawn(
    p: SvgPaint,
    meta: Metafile,
    n: SvgModel,
    no: nat,
    tag: Seq<char>,
    data: Seq<u8>,
    stored: Seq<Page>,
    masks: Seq<Option<usize>>,
    alt: Seq<char>,
    i: int,
) -> SvgPaint {
    let image = meta@.images[i];
    let masked = i < masks.len() && masks[i] is Some;
    if is_masked_part(masks, i) || (image.raster_op == RasterOp::SourceInvert && !masked)
        || !has_area(image) {
        p
    } else {
        match image_href(meta, data, stored, i) {
            Some(href) => {
                let g = grouped(p, no, tag, image.clip, box_at(n.image_clips, i));
                SvgPaint {
                    out: g.out + image_text(
                        image,
                        no,
                        tag,
                        i,
                        masked,
                        box_at(n.images, i),
                        href,
                        alt,
                    ),
                    pictures: more(g.pictures),
                    painted: true,
                    ..g
                }
            },
            None => p,
        }
    }
}

/// The attributes of a pen.
pub open spec fn pen_attrs(s: ShapeModel, width: Seq<char>) -> Seq<char> {
    match s.stroke {
        Some((rgb, w)) => " stroke=\""@ + colour_code(rgb) + "\" stroke-width=\""@ + width + "\""@,
        None => ""@,
    }
}

/// The markup of an outline.
pub open spec fn shape_text(s: ShapeModel, outline: Seq<char>, width: Seq<char>) -> Seq<char> {
    "<path d=\""@ + outline + "\" fill=\""@ + (match s.fill {
        Some(rgb) => colour_code(rgb),
        None => "none"@,
    }) + "\""@ + (if s.path.even_odd {
        " fill-rule=\"evenodd\""@
    } else {
        ""@
    }) + blend_text(s.blend) + pen_attrs(s, width) + "/>\n"@
}

/// An outline is painted.
pub open spec fn shape_drawn(p: SvgPaint, m: MetafileModel, n: SvgModel, no: nat, tag: Seq<char>, i: int) -> SvgPaint {
    let s = m.shapes[i];
    if s.path.figures.len() == 0 {
        p
    } else {
        let g = grouped(p, no, tag, s.clip, box_at(n.shape_clips, i));
        SvgPaint {
            out: g.out + shape_text(s, text_at(n.shapes, i), text_at(n.strokes, i)),
            painted: true,
            ..g
        }
    }
}

/// The first `k` parts are painted. Text is not among them.
pub open spec fn parts_drawn(
    p: SvgPaint,
    meta: Metafile,
    n: SvgModel,
    no: nat,
    tag: Seq<char>,
    data: Seq<u8>,
    stored: Seq<Page>,
    masks: Seq<Option<usize>>,
    alt: Seq<char>,
    marks: Seq<Mark>,
    k: int,
) -> SvgPaint
    decreases k,
{
    if k <= 0 {
        p
    } else {
        let q = parts_drawn(p, meta, n, no, tag, data, stored, masks, alt, marks, k - 1);
        let i = marks[k - 1].index as int;
        match marks[k - 1].part {
            Part::Fill => fill_drawn(q, meta@, n, no, tag, i),
            Part::Image => image_drawn(q, meta, n, no, tag, data, stored, masks, alt, i),
            Part::Shape => shape_drawn(q, meta@, n, no, tag, i),
            Part::Text => q,
        }
    }
}

/// The whole element.
pub open spec fn svg_drawn(
    meta: Metafile,
    n: SvgModel,
    no: nat,
    tag: Seq<char>,
    data: Seq<u8>,
    stored: Seq<Page>,
    masks: Seq<Option<usize>>,
    alt: Seq<char>,
    marks: Seq<Mark>,
) -> SvgPaint {
    let head = svg_head(n) + defs(path_defs(meta@, n, no, tag, meta@.paths.len() as int)) + defs(
        mask_defs(meta, n, no, tag, masks, masks.len() as int),
    );
    let p = parts_drawn(
        SvgPaint { out: head, clip: None, clips: 0, pictures: 0, painted: false },
        meta,
        n,
        no,
        tag,
        data,
        stored,
        masks,
        alt,
        marks,
        marks.len() as int,
    );
    let q = grouped(p, no, tag, None, no_box());
    SvgPaint { out: q.out + "</svg>\n"@, ..q }
}

struct SvgPainter {
    out: String,
    clip: Option<Rect>,
    clips: usize,
    pictures: usize,
    painted: bool,
}

impl View for SvgPainter {
    type V = SvgPaint;

    closed spec fn view(&self) -> SvgPaint {
        SvgPaint {
            out: self.out@,
            clip: self.clip,
            clips: self.clips,
            pictures: self.pictures,
            painted: self.painted,
        }
    }
}

fn same_rects(a: &Option<Rect>, b: &Option<Rect>) -> (r: bool)
    ensures
        r == same_clip(*a, *b),
{
    match (a, b) {
        (Some(x), Some(y)) => x.is_same(y),
        (None, None) => true,
        _ => false,
    }
}

fn write_group(no: usize, tag: &str, n: usize, rects: &Vec<BoxNumbers>, i: usize) -> (out: String)
    ensures
        ({
            let id = identifier(no as nat, tag@, "r"@, n as nat);
            out@ == "<clipPath id=\""@ + id + "\"><rect "@ + box_attrs(
                box_at(boxes(rects@), i as int),
            ) + "/></clipPath><g clip-path=\"url(#"@ + id + ")\">\n"@
        }),
{
    let mut out = String::from_str("<clipPath id=\"");
    push_identifier(&mut out, no, tag, "r", n);
    out.append("\"><rect ");
    push_box_at(&mut out, rects, i);
    out.append("/></clipPath><g clip-path=\"url(#");
    push_identifier(&mut out, no, tag, "r", n);
    out.append(")\">\n");
    proof {
        let id = identifier(no as nat, tag@, "r"@, n as nat);
        assert(out@ =~= "<clipPath id=\""@ + id + "\"><rect "@ + box_attrs(
            box_at(boxes(rects@), i as int),
        ) + "/></clipPath><g clip-path=\"url(#"@ + id + ")\">\n"@);
    }
    out
}

fn write_fill(f: &Fill, no: usize, tag: &str, v: &Vec<BoxNumbers>, i: usize) -> (out: String)
    ensures
        out@ == fill_text(*f, no as nat, tag@, box_at(boxes(v@), i as int)),
{
    let mut out = String::from_str("<rect ");
    push_box_at(&mut out, v, i);
    out.append(" fill=\"");
    let code = hex(f.rgb);
    out.append(code.as_str());
    out.append("\"");
    out.append(blend_attr(f.blend));
    push_clip(&mut out, no, tag, f.clip_path);
    out.append(" />\n");
    proof {
        assert(out@ =~= fill_text(*f, no as nat, tag@, box_at(boxes(v@), i as int)));
    }
    out
}

fn push_mask_attr(out: &mut String, no: usize, tag: &str, i: usize, masked: bool)
    ensures
        final(out)@ == old(out)@ + (if masked {
            " mask=\"url(#"@ + identifier(no as nat, tag@, "mask"@, i as nat) + ")\""@
        } else {
            ""@
        }),
{
    if masked {
        out.append(" mask=\"url(#");
        push_identifier(out, no, tag, "mask", i);
        out.append(")\"");
        proof {
            assert(out@ =~= old(out)@ + (" mask=\"url(#"@ + identifier(
                no as nat,
                tag@,
                "mask"@,
                i as nat,
            ) + ")\""@));
        }
    } else {
        out.append("");
    }
}

fn write_image(
    image: &Image,
    no: usize,
    tag: &str,
    i: usize,
    masked: bool,
    v: &Vec<BoxNumbers>,
    href: &str,
    alt: &str,
) -> (out: String)
    ensures
        out@ == image_text(
            *image,
            no as nat,
            tag@,
            i as int,
            masked,
            box_at(boxes(v@), i as int),
            href@,
            alt@,
        ),
{
    let mut out = String::from_str("<image ");
    push_box_at(&mut out, v, i);
    out.append(" preserveAspectRatio=\"none\"");
    push_clip(&mut out, no, tag, image.clip_path);
    push_mask_attr(&mut out, no, tag, i, masked);
    out.append(" href=\"");
    out.append(href);
    out.append("\" xlink:href=\"");
    out.append(href);
    out.append("\"><title>");
    let text = esc(alt);
    out.append(text.as_str());
    out.append("</title></image>\n");
    proof {
        assert(out@ =~= image_text(
            *image,
            no as nat,
            tag@,
            i as int,
            masked,
            box_at(boxes(v@), i as int),
            href@,
            alt@,
        ));
    }
    out
}

fn push_pen(out: &mut String, s: &Shape, width: &str)
    ensures
        final(out)@ == old(out)@ + pen_attrs(s@, width@),
{
    match s.stroke {
        Some((rgb, _)) => {
            out.append(" stroke=\"");
            let code = hex(rgb);
            out.append(code.as_str());
            out.append("\" stroke-width=\"");
            out.append(width);
            out.append("\"");
        },
        None => out.append(""),
    }
    proof {
        assert(out@ =~= old(out)@ + pen_attrs(s@, width@));
    }
}

fn write_shape(s: &Shape, outline: &str, width: &str) -> (out: String)
    ensures
        out@ == shape_text(s@, outline@, width@),
{
    let mut out = String::from_str("<path d=\"");
    out.append(outline);
    out.append("\" fill=\"");
    match s.fill {
        Some(rgb) => {
            let code = hex(rgb);
            out.append(code.as_str());
        },
        None => out.append("none"),
    }
    out.append("\"");
    if s.path.even_odd {
        out.append(" fill-rule=\"evenodd\"");
    } else {
        out.append("");
    }
    out.append(blend_attr(s.blend));
    push_pen(&mut out, s, width);
    out.append("/>\n");
    proof {
        assert(out@ =~= shape_text(s@, outline@, width@));
    }
    out
}

fn find_href(
    meta: &Metafile,
    data: &[u8],
    stored: &Vec<&Page>,
    pictures: &Pictures,
    i: usize,
) -> (r: Option<String>)
    requires
        i < meta.images@.len(),
        pictures.of(meta@, stored@.unref()),
        is_measurable(meta.rasters@),
    ensures
        match (r, image_href(*meta, data@, stored@.unref(), i as int)) {
            (Some(s), Some(t)) => s@ == t,
            (None, None) => true,
            _ => false,
        },
{
    match meta.images[i].source {
        Source::Stored { ordinal, .. } => {
            let k: usize = match pictures.pick(ordinal) {
                Some(k) => k,
                None => {
                    return None;
                },
            };
            if k >= stored.len() {
                return None;
            }
            proof {
                assert(stored@.unref()[k as int] == *stored@[k as int]);
            }
            match stream_of(data, stored[k]) {
                Some(stream) => {
                    let mut href = String::from_str("data:image/jpeg;base64,");
                    let code = b64(stream);
                    href.append(code.as_str());
                    Some(href)
                },
                None => None,
            }
        },
        Source::Inline(k) => {
            if k >= meta.rasters.len() {
                return None;
            }
            let mut href = String::from_str("data:image/png;base64,");
            let png = encode(&meta.rasters[k]);
            let code = b64(png.as_slice());
            href.append(code.as_str());
            Some(href)
        },
    }
}

impl SvgPainter {
    fn group(&mut self, no: usize, tag: &str, want: Option<Rect>, rects: &Vec<BoxNumbers>, i: usize)
        ensures
            final(self)@ == grouped(
                old(self)@,
                no as nat,
                tag@,
                want,
                box_at(boxes(rects@), i as int),
            ),
    {
        if same_rects(&self.clip, &want) {
            return;
        }
        if self.clip.is_some() {
            self.out.append("</g>\n");
        }
        let ghost left = self@.out;
        self.clip = None;
        if want.is_some() {
            self.clips = self.clips.saturating_add(1);
            let text = write_group(no, tag, self.clips, rects, i);
            self.out.append(text.as_str());
            self.clip = want;
            proof {
                let id = identifier(no as nat, tag@, "r"@, self.clips as nat);
                assert(self@.out =~= left + "<clipPath id=\""@ + id + "\"><rect "@ + box_attrs(
                    box_at(boxes(rects@), i as int),
                ) + "/></clipPath><g clip-path=\"url(#"@ + id + ")\">\n"@);
            }
        }
    }

    fn fill(&mut self, meta: &Metafile, n: &SvgNumbers, no: usize, tag: &str, i: usize)
        requires
            i < meta.fills@.len(),
        ensures
            final(self)@ == fill_drawn(old(self)@, meta@, n@, no as nat, tag@, i as int),
    {
        if !covers(&n.fills, i) {
            return;
        }
        let f: &Fill = &meta.fills[i];
        self.group(no, tag, f.clip, &n.fill_clips, i);
        let text = write_fill(f, no, tag, &n.fills, i);
        self.out.append(text.as_str());
        self.painted = true;
    }

    fn shape(&mut self, meta: &Metafile, n: &SvgNumbers, no: usize, tag: &str, i: usize)
        requires
            i < meta.shapes@.len(),
        ensures
            final(self)@ == shape_drawn(old(self)@, meta@, n@, no as nat, tag@, i as int),
    {
        let s: &Shape = &meta.shapes[i];
        proof {
            assert(meta@.shapes[i as int] == s@);
        }
        if s.path.figures.len() == 0 {
            return;
        }
        self.group(no, tag, s.clip, &n.shape_clips, i);
        let text = write_shape(s, list_text(&n.shapes, i), list_text(&n.strokes, i));
        self.out.append(text.as_str());
        self.painted = true;
    }

    fn image(
        &mut self,
        meta: &Metafile,
        n: &SvgNumbers,
        no: usize,
        tag: &str,
        data: &[u8],
        stored: &Vec<&Page>,
        pictures: &Pictures,
        masks: &Vec<Option<usize>>,
        alt: &str,
        i: usize,
    )
        requires
            i < meta.images@.len(),
            pictures.of(meta@, stored@.unref()),
            is_measurable(meta.rasters@),
        ensures
            final(self)@ == image_drawn(
                old(self)@,
                *meta,
                n@,
                no as nat,
                tag@,
                data@,
                stored@.unref(),
                masks@,
                alt@,
                i as int,
            ),
    {
        let image: &Image = &meta.images[i];
        let masked: bool = i < masks.len() && masks[i].is_some();
        if belongs_to_mask(masks, i) || (image.raster_op == RasterOp::SourceInvert && !masked)
            || !image_geometry_is_valid(image) {
            return;
        }
        if let Some(href) = find_href(meta, data, stored, pictures, i) {
            self.group(no, tag, image.clip, &n.image_clips, i);
            let text = write_image(image, no, tag, i, masked, &n.images, href.as_str(), alt);
            self.out.append(text.as_str());
            self.pictures = self.pictures.saturating_add(1);
            self.painted = true;
        }
    }
}

/// Draws everything but the text of a drawing, as one SVG element.
pub fn draw_svg(
    meta: &Metafile,
    n: &SvgNumbers,
    no: usize,
    tag: &str,
    data: &[u8],
    stored: &Vec<&Page>,
    pictures: &Pictures,
    masks: &Vec<Option<usize>>,
    alt: &str,
    marks: &Vec<Mark>,
) -> (r: (String, HtmlDrawn))
    requires
        marks_valid(meta@, marks@),
        masks_valid(meta@, masks@),
        pictures.of(meta@, stored@.unref()),
        is_measurable(meta.rasters@),
    ensures
        ({
            let p = svg_drawn(
                *meta,
                n@,
                no as nat,
                tag@,
                data@,
                stored@.unref(),
                masks@,
                alt@,
                marks@,
            );
            r.0@ == p.out && r.1 == (HtmlDrawn {
                glyphs: 0,
                pictures: p.pictures,
                painted: p.painted,
            })
        }),
{
    let mut out = write_head(n);
    let paths = write_paths(meta, n, no, tag);
    push_defs(&mut out, paths.as_str());
    let mask_texts = write_masks(meta, n, no, tag, masks);
    push_defs(&mut out, mask_texts.as_str());
    let mut p = SvgPainter { out, clip: None, clips: 0, pictures: 0, painted: false };
    let ghost start = p@;
    let mut k: usize = 0;
    while k < marks.len()
        invariant
            k <= marks@.len(),
            marks_valid(meta@, marks@),
            pictures.of(meta@, stored@.unref()),
            is_measurable(meta.rasters@),
            meta@.fills == meta.fills@,
            meta@.images == meta.images@,
            meta@.shapes.len() == meta.shapes@.len(),
            p@ == parts_drawn(
                start,
                *meta,
                n@,
                no as nat,
                tag@,
                data@,
                stored@.unref(),
                masks@,
                alt@,
                marks@,
                k as int,
            ),
        decreases marks@.len() - k,
    {
        let mark: Mark = marks[k];
        match mark.part {
            Part::Fill => p.fill(meta, n, no, tag, mark.index),
            Part::Image => p.image(
                meta,
                n,
                no,
                tag,
                data,
                stored,
                pictures,
                masks,
                alt,
                mark.index,
            ),
            Part::Shape => p.shape(meta, n, no, tag, mark.index),
            Part::Text => {},
        }
        k += 1;
    }
    let none: Vec<BoxNumbers> = Vec::new();
    p.group(no, tag, None, &none, 0);
    let mut svg = p.out;
    svg.append("</svg>\n");
    (svg, HtmlDrawn { glyphs: 0, pictures: p.pictures, painted: p.painted })
}

// ------------------------------------------------------------------ text

/// The style of a run, behind its place and size.
pub open spec fn run_style(t: TextModel, n: SpanModel) -> Seq<char> {
    (if t.rgb == (0u8, 0u8, 0u8) {
        ""@
    } else {
        "color:"@ + colour_code(t.rgb) + ";"@
    }) + (if t.bold {
        "font-weight:bold;"@
    } else {
        ""@
    }) + (if t.underline {
        "text-decoration:underline;"@
    } else {
        ""@
    }) + (if n.turn.len() == 0 {
        ""@
    } else {
        "transform:rotate("@ + n.turn + "deg);transform-origin:0 100%;"@
    })
}

/// One character.
pub open spec fn span_text(t: TextModel, n: SpanModel, i: int) -> Seq<char> {
    "<span style=\"left:"@ + text_at(n.lefts, i) + "%;top:"@ + n.top + "%;font-size:"@ + n.size
        + "cqh;"@ + run_style(t, n) + "\">"@ + markup(seq![t.chars[i]]) + "</span>"@
}

/// The character is placed.
pub open spec fn is_placed(t: TextModel, n: SpanModel, i: int) -> bool {
    !whitespace(t.chars[i]) && text_at(n.lefts, i).len() > 0 && n.top.len() > 0
}

/// The first `k` characters of a run, and how many of them are placed.
pub open spec fn run_drawn(t: TextModel, n: SpanModel, k: int) -> (Seq<char>, nat)
    decreases k,
{
    if k <= 0 {
        (Seq::empty(), 0)
    } else {
        let (out, placed) = run_drawn(t, n, k - 1);
        if is_placed(t, n, k - 1) {
            (out + span_text(t, n, k - 1), placed + 1)
        } else {
            (out, placed)
        }
    }
}

/// The run is white space.
pub open spec fn is_blank_run(t: TextModel) -> bool {
    forall|i: int| 0 <= i < t.chars.len() ==> whitespace(#[trigger] t.chars[i])
}

/// The numbers of a run; empty ones where the list is too short.
pub open spec fn span_at(v: Seq<SpanModel>, i: int) -> SpanModel {
    if 0 <= i < v.len() {
        v[i]
    } else {
        SpanModel {
            top: Seq::empty(),
            size: Seq::empty(),
            lefts: Seq::empty(),
            turn: Seq::empty(),
        }
    }
}

/// The first `k` runs, and how many characters are placed.
pub open spec fn runs_drawn(m: MetafileModel, n: SvgModel, k: int) -> (Seq<char>, nat)
    decreases k,
{
    if k <= 0 {
        (Seq::empty(), 0)
    } else {
        let (out, placed) = runs_drawn(m, n, k - 1);
        let t = m.text[k - 1];
        if is_blank_run(t) {
            (out, placed)
        } else {
            let (run, more) = run_drawn(t, span_at(n.spans, k - 1), t.chars.len() as int);
            (out + run + "\n"@, placed + more)
        }
    }
}

fn write_style(t: &Text, n: &SpanNumbers) -> (out: String)
    ensures
        out@ == run_style(t@, n@),
{
    let mut out = String::new();
    if t.rgb.0 == 0 && t.rgb.1 == 0 && t.rgb.2 == 0 {
        out.append("");
    } else {
        out.append("color:");
        let code = hex(t.rgb);
        out.append(code.as_str());
        out.append(";");
    }
    if t.bold {
        out.append("font-weight:bold;");
    } else {
        out.append("");
    }
    if t.underline {
        out.append("text-decoration:underline;");
    } else {
        out.append("");
    }
    if n.turn.as_str().unicode_len() == 0 {
        out.append("");
    } else {
        out.append("transform:rotate(");
        out.append(n.turn.as_str());
        out.append("deg);transform-origin:0 100%;");
    }
    proof {
        assert(out@ =~= run_style(t@, n@));
    }
    out
}

fn write_span(t: &Text, n: &SpanNumbers, i: usize, style: &str) -> (out: String)
    requires
        i < t.chars@.len(),
        style@ == run_style(t@, n@),
    ensures
        out@ == span_text(t@, n@, i as int),
{
    let mut one = String::new();
    one.push(t.chars[i]);
    proof {
        assert(one@ =~= seq![t@.chars[i as int]]);
    }
    let text = esc(one.as_str());
    let mut out = String::from_str("<span style=\"left:");
    out.append(list_text(&n.lefts, i));
    out.append("%;top:");
    out.append(n.top.as_str());
    out.append("%;font-size:");
    out.append(n.size.as_str());
    out.append("cqh;");
    out.append(style);
    out.append("\">");
    out.append(text.as_str());
    out.append("</span>");
    proof {
        assert(out@ =~= span_text(t@, n@, i as int));
    }
    out
}

fn is_blank(t: &Text) -> (r: bool)
    ensures
        r == is_blank_run(t@),
{
    let mut i: usize = 0;
    while i < t.chars.len()
        invariant
            i <= t.chars@.len(),
            forall|k: int| 0 <= k < i ==> whitespace(#[trigger] t@.chars[k]),
        decreases t.chars@.len() - i,
    {
        if !t.chars[i].is_whitespace() {
            assert(!whitespace(t@.chars[i as int]));
            return false;
        }
        i += 1;
    }
    true
}

fn write_run(t: &Text, n: &SpanNumbers) -> (r: (String, usize))
    ensures
        r.0@ == run_drawn(t@, n@, t.chars@.len() as int).0,
        r.1 == run_drawn(t@, n@, t.chars@.len() as int).1,
        r.1 <= t.chars@.len(),
{
    let style = write_style(t, n);
    let mut out = String::new();
    let mut placed: usize = 0;
    let mut i: usize = 0;
    proof {
        assert(out@ =~= Seq::empty());
    }
    while i < t.chars.len()
        invariant
            i <= t.chars@.len(),
            placed <= i,
            style@ == run_style(t@, n@),
            out@ == run_drawn(t@, n@, i as int).0,
            placed == run_drawn(t@, n@, i as int).1,
        decreases t.chars@.len() - i,
    {
        if !t.chars[i].is_whitespace() && list_text(&n.lefts, i).unicode_len() > 0
            && n.top.as_str().unicode_len() > 0 {
            let text = write_span(t, n, i, style.as_str());
            out.append(text.as_str());
            placed += 1;
        }
        i += 1;
    }
    (out, placed)
}

/// Draws the text of a drawing as positioned characters, and counts them.
pub fn draw_spans(meta: &Metafile, n: &SvgNumbers) -> (r: (String, usize))
    ensures
        r.0@ == runs_drawn(meta@, n@, meta@.text.len() as int).0,
        ({
            let placed = runs_drawn(meta@, n@, meta@.text.len() as int).1;
            r.1 == (if placed <= usize::MAX {
                placed
            } else {
                usize::MAX as nat
            })
        }),
{
    let mut out = String::new();
    let mut placed: usize = 0;
    let mut k: usize = 0;
    proof {
        assert(out@ =~= Seq::empty());
    }
    while k < meta.text.len()
        invariant
            k <= meta.text@.len(),
            meta@.text.len() == meta.text@.len(),
            out@ == runs_drawn(meta@, n@, k as int).0,
            placed == (if runs_drawn(meta@, n@, k as int).1 <= usize::MAX {
                runs_drawn(meta@, n@, k as int).1
            } else {
                usize::MAX as nat
            }),
        decreases meta.text@.len() - k,
    {
        let t: &Text = &meta.text[k];
        proof {
            assert(meta@.text[k as int] == t@);
        }
        if !is_blank(t) {
            let (run, n_placed): (String, usize) = if k < n.spans.len() {
                proof {
                    assert(n@.spans[k as int] == n.spans@[k as int]@);
                }
                write_run(t, &n.spans[k])
            } else {
                let none = SpanNumbers {
                    top: String::new(),
                    size: String::new(),
                    lefts: Vec::new(),
                    turn: String::new(),
                };
                proof {
                    assert(none.top@ =~= Seq::empty());
                    assert(none.size@ =~= Seq::empty());
                    assert(none.turn@ =~= Seq::empty());
                    assert(texts(none.lefts@) =~= Seq::empty());
                    assert(none@ == span_at(n@.spans, k as int));
                }
                write_run(t, &none)
            };
            out.append(run.as_str());
            out.append("\n");
            placed = placed.saturating_add(n_placed);
        }
        k += 1;
    }
    (out, placed)
}

} // verus!
