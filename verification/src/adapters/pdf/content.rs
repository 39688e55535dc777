//! The content of one sheet: a drawing turned into PDF operators.
//!
//! Every primitive goes down in the order the metafile recorded it, so a white
//! block drawn over a picture still covers it and text still sits on top of
//! the rule under it. The numbers in the operators are measured by the caller;
//! what is painted, in which order, in which colour and under which clip is
//! settled here.
use crate::adapters::drawing::{
    belongs_to_mask, is_masked_part, marks_valid, same_clip, Mark, Part,
};
use crate::adapters::pdf::fonts::{
    face_name, face_of, font_of, shown_char, GlyphModel, Glyphs,
};
use crate::adapters::pdf::words::{colour, colour_text, texts};
use crate::domain::rendering::{
    Fill, Image, Metafile, MetafileModel, RasterOp, Rect, Rgb, Shape, ShapeModel, Source, Text,
    TextModel,
};
use crate::infrastructure::ttf::Font;
use vstd::prelude::*;
use vstd::string::*;

verus! {

/// The numbers of one run of text. An empty text stands for a place that
/// cannot be given.
pub struct TextNumbers {
    /// The run is large enough to be drawn.
    pub drawn: bool,
    pub size: String,
    /// The direction of the line.
    pub matrix: String,
    /// Where each character stands, across.
    pub xs: Vec<String>,
    /// Where each character ends, across.
    pub ends: Vec<String>,
    /// Where the baseline lies.
    pub y: String,
    /// The width of the outline that makes a character bold.
    pub bold: String,
    /// The underline: its width, where it starts and how high it lies.
    pub line_width: String,
    pub line_from: String,
    pub line_y: String,
}

/// The numbers of one run of text as a value.
pub struct TextNumbersModel {
    pub drawn: bool,
    pub size: Seq<char>,
    pub matrix: Seq<char>,
    pub xs: Seq<Seq<char>>,
    pub ends: Seq<Seq<char>>,
    pub y: Seq<char>,
    pub bold: Seq<char>,
    pub line_width: Seq<char>,
    pub line_from: Seq<char>,
    pub line_y: Seq<char>,
}

impl View for TextNumbers {
    type V = TextNumbersModel;

    open spec fn view(&self) -> TextNumbersModel {
        TextNumbersModel {
            drawn: self.drawn,
            size: self.size@,
            matrix: self.matrix@,
            xs: texts(self.xs@),
            ends: texts(self.ends@),
            y: self.y@,
            bold: self.bold@,
            line_width: self.line_width@,
            line_from: self.line_from@,
            line_y: self.line_y@,
        }
    }
}

/// The numbers of a drawing, part by part. An empty text stands for a part
/// that covers nothing.
pub struct Numbers {
    pub fills: Vec<String>,
    pub fill_clips: Vec<String>,
    pub images: Vec<String>,
    pub image_clips: Vec<String>,
    /// The outlines of the shapes.
    pub shapes: Vec<String>,
    pub shape_clips: Vec<String>,
    pub strokes: Vec<String>,
    /// The outlines of the clip paths.
    pub paths: Vec<String>,
    pub texts: Vec<TextNumbers>,
}

/// The numbers of a drawing as a value.
pub struct NumbersModel {
    pub fills: Seq<Seq<char>>,
    pub fill_clips: Seq<Seq<char>>,
    pub images: Seq<Seq<char>>,
    pub image_clips: Seq<Seq<char>>,
    pub shapes: Seq<Seq<char>>,
    pub shape_clips: Seq<Seq<char>>,
    pub strokes: Seq<Seq<char>>,
    pub paths: Seq<Seq<char>>,
    pub texts: Seq<TextNumbersModel>,
}

impl View for Numbers {
    type V = NumbersModel;

    open spec fn view(&self) -> NumbersModel {
        NumbersModel {
            fills: texts(self.fills@),
            fill_clips: texts(self.fill_clips@),
            images: texts(self.images@),
            image_clips: texts(self.image_clips@),
            shapes: texts(self.shapes@),
            shape_clips: texts(self.shape_clips@),
            strokes: texts(self.strokes@),
            paths: texts(self.paths@),
            texts: Seq::new(self.texts@.len(), |i: int| self.texts@[i]@),
        }
    }
}

/// A text of a list; an empty one where the list is too short.
pub open spec fn text_at(v: Seq<Seq<char>>, i: int) -> Seq<char> {
    if 0 <= i < v.len() {
        v[i]
    } else {
        Seq::empty()
    }
}

fn get_text(v: &Vec<String>, i: usize) -> (s: &str)
    ensures
        s@ == text_at(texts(v@), i as int),
{
    if i < v.len() {
        proof {
            assert(texts(v@)[i as int] == v@[i as int]@);
        }
        v[i].as_str()
    } else {
        proof {
            reveal_strlit("");
            assert(""@ =~= Seq::<char>::empty());
        }
        ""
    }
}

/// A clip: a rectangle, a path, or both.
pub type Clip = (Option<Rect>, Option<usize>);

/// What has been painted so far.
pub struct PaintModel {
    pub out: Seq<char>,
    /// The clip in force, inside a saved state.
    pub clip: Option<Clip>,
    /// The fill colour in force.
    pub colour: Option<Rgb>,
    pub glyphs: GlyphModel,
    /// How many characters were placed.
    pub placed: usize,
    pub pictures: usize,
    pub painted: bool,
}

/// The same clip.
pub open spec fn equal_clips(a: Clip, b: Clip) -> bool {
    same_clip(a.0, b.0) && a.1 == b.1
}

/// The operators that set a clip.
pub open spec fn clip_ops(m: MetafileModel, n: NumbersModel, want: Clip, rect: Seq<char>) -> Seq<
    char,
> {
    "q\n"@ + (if want.0 is Some {
        rect + " re W n\n"@
    } else {
        ""@
    }) + (match want.1 {
        Some(i) => if i < m.paths.len() {
            text_at(n.paths, i as int) + (if m.paths[i as int].even_odd {
                "W* n\n"@
            } else {
                "W n\n"@
            })
        } else {
            ""@
        },
        None => ""@,
    })
}

/// Clipping is expressed with a saved state around a run of primitives that
/// share a clip, so a gradient of two hundred slivers inside one outline emits
/// the outline once. Leaving the state forgets the colour that was set in it.
pub open spec fn clipped(
    p: PaintModel,
    m: MetafileModel,
    n: NumbersModel,
    want: Clip,
    rect: Seq<char>,
) -> PaintModel {
    if p.clip matches Some(c) && equal_clips(c, want) {
        p
    } else {
        let left = if p.clip is Some {
            PaintModel { out: p.out + "Q\n"@, clip: None, colour: None, ..p }
        } else {
            p
        };
        if want.0 is None && want.1 is None {
            left
        } else {
            PaintModel { out: left.out + clip_ops(m, n, want, rect), clip: Some(want), ..left }
        }
    }
}

/// The fill colour is set, unless it is in force.
pub open spec fn coloured(p: PaintModel, rgb: Rgb) -> PaintModel {
    if p.colour == Some(rgb) {
        p
    } else {
        PaintModel { out: p.out + colour_text(rgb) + " rg\n"@, colour: Some(rgb), ..p }
    }
}

/// A filled rectangle is painted.
pub open spec fn fill_painted(p: PaintModel, m: MetafileModel, n: NumbersModel, i: int) -> PaintModel {
    let f = m.fills[i];
    let q = clipped(p, m, n, (f.clip, f.clip_path), text_at(n.fill_clips, i));
    let place = text_at(n.fills, i);
    if place.len() == 0 {
        q
    } else {
        let c = coloured(q, f.rgb);
        PaintModel { out: c.out + place + " re f\n"@, painted: true, ..c }
    }
}

/// The colour that a bitmap paints through its bits, if it is a stencil.
pub open spec fn stencil_of(m: MetafileModel, i: int) -> Option<Rgb> {
    match m.images[i].source {
        Source::Inline(k) => if k < m.rasters.len() {
            m.rasters[k as int].stencil
        } else {
            None
        },
        Source::Stored { .. } => None,
    }
}

/// An image is painted. `names` gives the object of each image, or an empty
/// text.
pub open spec fn image_painted(
    p: PaintModel,
    m: MetafileModel,
    n: NumbersModel,
    masks: Seq<Option<usize>>,
    names: Seq<Seq<char>>,
    i: int,
) -> PaintModel {
    let image = m.images[i];
    let name = text_at(names, i);
    if is_masked_part(masks, i) || (image.raster_op == RasterOp::SourceInvert && !(i < masks.len()
        && masks[i] is Some)) || name.len() == 0 {
        p
    } else {
        let q = clipped(p, m, n, (image.clip, image.clip_path), text_at(n.image_clips, i));
        let place = text_at(n.images, i);
        if place.len() == 0 {
            q
        } else {
            let c = match stencil_of(m, i) {
                Some(rgb) => coloured(q, rgb),
                None => q,
            };
            PaintModel {
                out: c.out + "q "@ + place + " cm /"@ + name + " Do Q\n"@,
                pictures: more(c.pictures),
                painted: true,
                ..c
            }
        }
    }
}

/// One more, as far as counts go.
pub open spec fn more(n: usize) -> usize {
    if n < usize::MAX {
        (n + 1) as usize
    } else {
        n
    }
}

/// The operator that paints an outline.
pub open spec fn paint_operator(fill: bool, stroke: bool, even_odd: bool) -> Seq<char> {
    if fill && stroke {
        if even_odd {
            "B*\n"@
        } else {
            "B\n"@
        }
    } else if fill {
        if even_odd {
            "f*\n"@
        } else {
            "f\n"@
        }
    } else if stroke {
        "S\n"@
    } else {
        "n\n"@
    }
}

/// The operators that set a pen.
pub open spec fn pen_ops(s: ShapeModel, width: Seq<char>) -> Seq<char> {
    match s.stroke {
        Some((rgb, w)) => colour_text(rgb) + " RG "@ + width + " w\n"@,
        None => ""@,
    }
}

/// An outline is painted.
pub open spec fn shape_painted(p: PaintModel, m: MetafileModel, n: NumbersModel, i: int) -> PaintModel {
    let s = m.shapes[i];
    let q = clipped(p, m, n, (s.clip, None), text_at(n.shape_clips, i));
    if s.path.figures.len() == 0 {
        q
    } else {
        let c = match s.fill {
            Some(rgb) => coloured(q, rgb),
            None => q,
        };
        PaintModel {
            out: c.out + pen_ops(s, text_at(n.strokes, i)) + text_at(n.shapes, i)
                + paint_operator(s.fill is Some, s.stroke is Some, s.path.even_odd),
            painted: true,
            ..c
        }
    }
}

/// The operators that make a character bold without a bold face: its outline
/// is stroked a little.
pub open spec fn bold_ops(t: TextModel, n: TextNumbersModel) -> Seq<char> {
    if t.bold {
        "2 Tr "@ + colour_text(t.rgb) + " RG "@ + n.bold + " w\n"@
    } else {
        ""@
    }
}

/// The operators that place a character.
pub open spec fn place_ops(n: TextNumbersModel, i: int, operand: Seq<char>) -> Seq<char> {
    n.matrix + " "@ + text_at(n.xs, i) + " "@ + n.y + " Tm "@ + operand + " Tj\n"@
}

/// The operators that show one character.
pub open spec fn char_ops(t: TextModel, n: TextNumbersModel, i: int, operand: Seq<char>) -> Seq<char> {
    "BT "@ + face_name(t.font_kind, t.chars[i]) + " "@ + n.size + " Tf\n"@ + bold_ops(t, n)
        + place_ops(n, i, operand) + (if t.bold {
        "0 Tr\n"@
    } else {
        ""@
    }) + "ET\n"@
}

/// The first `k` characters of a run are shown. The number says which of them
/// came last, counted from one.
pub open spec fn chars_painted(
    p: PaintModel,
    font: Option<Font>,
    t: TextModel,
    n: TextNumbersModel,
    k: int,
) -> (PaintModel, int)
    decreases k,
{
    if k <= 0 {
        (p, 0)
    } else {
        let (q, last) = chars_painted(p, font, t, n, k - 1);
        let c = t.chars[k - 1];
        if c == '\0' || text_at(n.xs, k - 1).len() == 0 {
            (q, last)
        } else {
            let (operand, glyphs) = shown_char(font, t.font_kind, c, q.glyphs);
            match operand {
                Some(hex) => (
                    PaintModel {
                        out: q.out + char_ops(t, n, k - 1, hex),
                        glyphs,
                        placed: more(q.placed),
                        painted: true,
                        ..q
                    },
                    k,
                ),
                None => (PaintModel { glyphs, ..q }, last),
            }
        }
    }
}

/// The operators of an underline that ends at `end`.
pub open spec fn underline_ops(t: TextModel, n: TextNumbersModel, end: Seq<char>) -> Seq<char> {
    colour_text(t.rgb) + " RG "@ + n.line_width + " w "@ + n.line_from + " "@ + n.line_y + " m "@
        + end + " "@ + n.line_y + " l S\n"@
}

/// A run of text is shown, each character positioned from the spacing the
/// metafile recorded, so the line breaks where the original broke it.
pub open spec fn text_painted(
    p: PaintModel,
    m: MetafileModel,
    n: NumbersModel,
    font: Option<Font>,
    i: int,
) -> PaintModel {
    let t = m.text[i];
    let q = clipped(p, m, n, (None, None), Seq::empty());
    if i >= n.texts.len() || !n.texts[i].drawn {
        q
    } else {
        let (r, last) = chars_painted(
            coloured(q, t.rgb),
            font,
            t,
            n.texts[i],
            t.chars.len() as int,
        );
        if t.underline && t.escapement == 0 && t.xs.len() > 0 && last > 0 {
            PaintModel {
                out: r.out + underline_ops(t, n.texts[i], text_at(n.texts[i].ends, last - 1)),
                ..r
            }
        } else {
            r
        }
    }
}

/// One part of a drawing is painted.
pub open spec fn part_painted(
    p: PaintModel,
    m: MetafileModel,
    n: NumbersModel,
    masks: Seq<Option<usize>>,
    names: Seq<Seq<char>>,
    font: Option<Font>,
    mark: Mark,
) -> PaintModel {
    let i = mark.index as int;
    match mark.part {
        Part::Fill => fill_painted(p, m, n, i),
        Part::Image => image_painted(p, m, n, masks, names, i),
        Part::Shape => shape_painted(p, m, n, i),
        Part::Text => text_painted(p, m, n, font, i),
    }
}

/// The first `k` parts are painted.
pub open spec fn parts_painted(
    p: PaintModel,
    m: MetafileModel,
    n: NumbersModel,
    masks: Seq<Option<usize>>,
    names: Seq<Seq<char>>,
    font: Option<Font>,
    marks: Seq<Mark>,
    k: int,
) -> PaintModel
    decreases k,
{
    if k <= 0 {
        p
    } else {
        part_painted(
            parts_painted(p, m, n, masks, names, font, marks, k - 1),
            m,
            n,
            masks,
            names,
            font,
            marks[k - 1],
        )
    }
}

/// The drawing is finished: the saved state is left, and the colour is black
/// again.
pub open spec fn closed(p: PaintModel) -> PaintModel {
    PaintModel {
        out: p.out + (if p.clip is Some {
            "Q\n"@
        } else {
            ""@
        }) + "0 0 0 rg\n"@,
        clip: None,
        ..p
    }
}

/// A sheet's content under construction.
pub struct Painter {
    out: String,
    clip: Option<Clip>,
    colour: Option<Rgb>,
    glyphs: Glyphs,
    placed: usize,
    pictures: usize,
    painted: bool,
}

impl View for Painter {
    type V = PaintModel;

    closed spec fn view(&self) -> PaintModel {
        PaintModel {
            out: self.out@,
            clip: self.clip,
            colour: self.colour,
            glyphs: self.glyphs@,
            placed: self.placed,
            pictures: self.pictures,
            painted: self.painted,
        }
    }
}

/// What a drawing came to.
pub struct Painted {
    pub content: String,
    pub glyphs: Glyphs,
    /// How many characters were placed.
    pub placed: usize,
    pub pictures: usize,
    pub painted: bool,
}

/// An empty sheet.
pub open spec fn blank_sheet(glyphs: GlyphModel) -> PaintModel {
    PaintModel {
        out: Seq::empty(),
        clip: None,
        colour: None,
        glyphs,
        placed: 0,
        pictures: 0,
        painted: false,
    }
}

fn equal_clip(a: &Clip, b: &Clip) -> (r: bool)
    ensures
        r == equal_clips(*a, *b),
{
    let rects: bool = match (&a.0, &b.0) {
        (Some(x), Some(y)) => x.is_same(y),
        (None, None) => true,
        _ => false,
    };
    let paths: bool = match (a.1, b.1) {
        (Some(x), Some(y)) => x == y,
        (None, None) => true,
        _ => false,
    };
    rects && paths
}

fn push_bold(out: &mut String, t: &Text, n: &TextNumbers)
    ensures
        final(out)@ == old(out)@ + bold_ops(t@, n@),
{
    if t.bold {
        let text = colour(t.rgb);
        out.append("2 Tr ");
        out.append(text.as_str());
        out.append(" RG ");
        out.append(n.bold.as_str());
        out.append(" w\n");
    } else {
        out.append("");
    }
    proof {
        assert(out@ =~= old(out)@ + bold_ops(t@, n@));
    }
}

fn push_place(out: &mut String, n: &TextNumbers, i: usize, operand: &str)
    ensures
        final(out)@ == old(out)@ + place_ops(n@, i as int, operand@),
{
    out.append(n.matrix.as_str());
    out.append(" ");
    out.append(get_text(&n.xs, i));
    out.append(" ");
    out.append(n.y.as_str());
    out.append(" Tm ");
    out.append(operand);
    out.append(" Tj\n");
    proof {
        assert(out@ =~= old(out)@ + place_ops(n@, i as int, operand@));
    }
}

fn write_char(t: &Text, n: &TextNumbers, i: usize, operand: &str) -> (out: String)
    requires
        i < t.chars@.len(),
    ensures
        out@ == char_ops(t@, n@, i as int, operand@),
{
    let mut out = String::from_str("BT ");
    out.append(face_of(t.font_kind, t.chars[i]));
    out.append(" ");
    out.append(n.size.as_str());
    out.append(" Tf\n");
    push_bold(&mut out, t, n);
    push_place(&mut out, n, i, operand);
    if t.bold {
        out.append("0 Tr\n");
    } else {
        out.append("");
    }
    out.append("ET\n");
    proof {
        assert(out@ =~= char_ops(t@, n@, i as int, operand@));
    }
    out
}

fn write_underline(t: &Text, n: &TextNumbers, end: &str) -> (out: String)
    ensures
        out@ == underline_ops(t@, n@, end@),
{
    let mut out = colour(t.rgb);
    out.append(" RG ");
    out.append(n.line_width.as_str());
    out.append(" w ");
    out.append(n.line_from.as_str());
    out.append(" ");
    out.append(n.line_y.as_str());
    out.append(" m ");
    out.append(end);
    out.append(" ");
    out.append(n.line_y.as_str());
    out.append(" l S\n");
    proof {
        assert(out@ =~= underline_ops(t@, n@, end@));
    }
    out
}

fn write_clip_path(out: &mut String, meta: &Metafile, n: &Numbers, i: usize)
    requires
        i < meta.paths@.len(),
    ensures
        final(out)@ == old(out)@ + text_at(n@.paths, i as int) + (if meta@.paths[i as int].even_odd {
            "W* n\n"@
        } else {
            "W n\n"@
        }),
{
    proof {
        assert(meta@.paths[i as int] == meta.paths@[i as int]@);
    }
    out.append(get_text(&n.paths, i));
    if meta.paths[i].even_odd {
        out.append("W* n\n");
    } else {
        out.append("W n\n");
    }
}

fn write_clip(meta: &Metafile, n: &Numbers, want: Clip, rect: &str) -> (out: String)
    requires
        want.0 is Some || want.1 is Some,
    ensures
        out@ == clip_ops(meta@, n@, want, rect@),
{
    let mut out = String::from_str("q\n");
    if want.0.is_some() {
        out.append(rect);
        out.append(" re W n\n");
    }
    if let Some(i) = want.1 {
        if i < meta.paths.len() {
            write_clip_path(&mut out, meta, n, i);
        }
    }
    proof {
        reveal_strlit("");
        assert(out@ =~= clip_ops(meta@, n@, want, rect@));
    }
    out
}

impl Painter {
    /// The glyphs are sound.
    closed spec fn wf(self) -> bool {
        self.glyphs.wf()
    }

    fn clip_to(&mut self, meta: &Metafile, n: &Numbers, want: Clip, rect: &str)
        requires
            old(self).wf(),
        ensures
            final(self).wf(),
            final(self)@ == clipped(old(self)@, meta@, n@, want, rect@),
    {
        if let Some(c) = self.clip {
            if equal_clip(&c, &want) {
                return;
            }
            self.out.append("Q\n");
            self.clip = None;
            self.colour = None;
        }
        if want.0.is_none() && want.1.is_none() {
            return;
        }
        let text = write_clip(meta, n, want, rect);
        self.out.append(text.as_str());
        self.clip = Some(want);
    }

    fn colour_to(&mut self, rgb: Rgb)
        requires
            old(self).wf(),
        ensures
            final(self).wf(),
            final(self)@ == coloured(old(self)@, rgb),
    {
        if let Some(c) = self.colour {
            if c.0 == rgb.0 && c.1 == rgb.1 && c.2 == rgb.2 {
                return;
            }
        }
        let text = colour(rgb);
        self.out.append(text.as_str());
        self.out.append(" rg\n");
        self.colour = Some(rgb);
    }

    fn fill(&mut self, meta: &Metafile, n: &Numbers, i: usize)
        requires
            old(self).wf(),
            i < meta.fills@.len(),
        ensures
            final(self).wf(),
            final(self)@ == fill_painted(old(self)@, meta@, n@, i as int),
    {
        let f: &Fill = &meta.fills[i];
        self.clip_to(meta, n, (f.clip, f.clip_path), get_text(&n.fill_clips, i));
        let place: &str = get_text(&n.fills, i);
        if place.unicode_len() == 0 {
            return;
        }
        self.colour_to(f.rgb);
        self.out.append(place);
        self.out.append(" re f\n");
        self.painted = true;
    }

    fn image(
        &mut self,
        meta: &Metafile,
        n: &Numbers,
        masks: &Vec<Option<usize>>,
        names: &Vec<String>,
        i: usize,
    )
        requires
            old(self).wf(),
            i < meta.images@.len(),
        ensures
            final(self).wf(),
            final(self)@ == image_painted(
                old(self)@,
                meta@,
                n@,
                masks@,
                texts(names@),
                i as int,
            ),
    {
        let image: &Image = &meta.images[i];
        let name: &str = get_text(names, i);
        let heads: bool = i < masks.len() && masks[i].is_some();
        if belongs_to_mask(masks, i) || (image.raster_op == RasterOp::SourceInvert && !heads)
            || name.unicode_len() == 0 {
            return;
        }
        self.clip_to(meta, n, (image.clip, image.clip_path), get_text(&n.image_clips, i));
        let place: &str = get_text(&n.images, i);
        if place.unicode_len() == 0 {
            return;
        }
        let stencil: Option<Rgb> = match image.source {
            Source::Inline(k) => if k < meta.rasters.len() {
                proof {
                    assert(meta@.rasters[k as int] == meta.rasters@[k as int]@);
                }
                meta.rasters[k].stencil
            } else {
                None
            },
            Source::Stored { .. } => None,
        };
        if let Some(rgb) = stencil {
            self.colour_to(rgb);
        }
        self.out.append("q ");
        self.out.append(place);
        self.out.append(" cm /");
        self.out.append(name);
        self.out.append(" Do Q\n");
        self.pictures = self.pictures.saturating_add(1);
        self.painted = true;
    }

    fn shape(&mut self, meta: &Metafile, n: &Numbers, i: usize)
        requires
            old(self).wf(),
            i < meta.shapes@.len(),
        ensures
            final(self).wf(),
            final(self)@ == shape_painted(old(self)@, meta@, n@, i as int),
    {
        let s: &Shape = &meta.shapes[i];
        proof {
            assert(meta@.shapes[i as int] == s@);
        }
        self.clip_to(meta, n, (s.clip, None), get_text(&n.shape_clips, i));
        if s.path.figures.len() == 0 {
            return;
        }
        if let Some(rgb) = s.fill {
            self.colour_to(rgb);
        }
        let ghost before = self@.out;
        match s.stroke {
            Some((rgb, _)) => {
                let text = colour(rgb);
                self.out.append(text.as_str());
                self.out.append(" RG ");
                self.out.append(get_text(&n.strokes, i));
                self.out.append(" w\n");
            },
            None => self.out.append(""),
        }
        self.out.append(get_text(&n.shapes, i));
        let operator: &str = match (s.fill.is_some(), s.stroke.is_some(), s.path.even_odd) {
            (true, true, true) => "B*\n",
            (true, true, false) => "B\n",
            (true, false, true) => "f*\n",
            (true, false, false) => "f\n",
            (false, true, _) => "S\n",
            (false, false, _) => "n\n",
        };
        self.out.append(operator);
        self.painted = true;
        proof {
            assert(self@.out =~= before + pen_ops(s@, text_at(n@.strokes, i as int)) + text_at(
                n@.shapes,
                i as int,
            ) + paint_operator(s@.fill is Some, s@.stroke is Some, s@.path.even_odd));
        }
    }

    fn chars(&mut self, t: &Text, n: &TextNumbers, font: Option<&Font>) -> (last: usize)
        requires
            old(self).wf(),
            font matches Some(f) ==> f.wf(),
        ensures
            final(self).wf(),
            (final(self)@, last as int) == chars_painted(
                old(self)@,
                font_of(font),
                t@,
                n@,
                t.chars@.len() as int,
            ),
    {
        let ghost start = self@;
        let mut last: usize = 0;
        let mut i: usize = 0;
        while i < t.chars.len()
            invariant
                self.wf(),
                i <= t.chars@.len(),
                font matches Some(f) ==> f.wf(),
                (self@, last as int) == chars_painted(start, font_of(font), t@, n@, i as int),
            decreases t.chars@.len() - i,
        {
            let c: char = t.chars[i];
            if c != '\0' && get_text(&n.xs, i).unicode_len() > 0 {
                let operand = self.glyphs.operand(font, t.font_kind, c);
                if let Some(hex) = operand {
                    let ops = write_char(t, n, i, hex.as_str());
                    self.out.append(ops.as_str());
                    self.placed = self.placed.saturating_add(1);
                    self.painted = true;
                    last = i + 1;
                }
            }
            i += 1;
        }
        last
    }

    fn text(&mut self, meta: &Metafile, n: &Numbers, font: Option<&Font>, i: usize)
        requires
            old(self).wf(),
            i < meta.text@.len(),
            font matches Some(f) ==> f.wf(),
        ensures
            final(self).wf(),
            final(self)@ == text_painted(old(self)@, meta@, n@, font_of(font), i as int),
    {
        let t: &Text = &meta.text[i];
        proof {
            assert(meta@.text[i as int] == t@);
            reveal_strlit("");
            assert(""@ =~= Seq::<char>::empty());
        }
        self.clip_to(meta, n, (None, None), "");
        if i >= n.texts.len() || !n.texts[i].drawn {
            return;
        }
        let tn: &TextNumbers = &n.texts[i];
        proof {
            assert(n@.texts[i as int] == tn@);
        }
        self.colour_to(t.rgb);
        let last: usize = self.chars(t, tn, font);
        if t.underline && t.escapement == 0 && t.xs.len() > 0 && last > 0 {
            let line = write_underline(t, tn, get_text(&tn.ends, last - 1));
            self.out.append(line.as_str());
        }
    }
}

/// The operators that draw a picture: its width, height, and lower left
/// corner, and the name of its object.
pub open spec fn picture_ops(
    width: Seq<char>,
    height: Seq<char>,
    x: Seq<char>,
    y: Seq<char>,
    name: Seq<char>,
) -> Seq<char> {
    "q "@ + width + " 0 0 "@ + height + " "@ + x + " "@ + y + " cm /"@ + name + " Do Q\n"@
}

/// Appends the operators that draw a picture.
pub fn push_picture(out: &mut String, width: &str, height: &str, x: &str, y: &str, name: &str)
    ensures
        final(out)@ == old(out)@ + picture_ops(width@, height@, x@, y@, name@),
{
    out.append("q ");
    out.append(width);
    out.append(" 0 0 ");
    out.append(height);
    out.append(" ");
    out.append(x);
    out.append(" ");
    out.append(y);
    out.append(" cm /");
    out.append(name);
    out.append(" Do Q\n");
    proof {
        assert(out@ =~= old(out)@ + picture_ops(width@, height@, x@, y@, name@));
    }
}

/// Content in a coordinate system of its own; nothing where there is none.
pub open spec fn turned_content(matrix: Seq<char>, body: Seq<char>) -> Seq<char> {
    if body.len() == 0 {
        ""@
    } else {
        "q "@ + matrix + " cm\n"@ + body + "Q\n"@
    }
}

/// Appends content in a coordinate system of its own. What it changes of the
/// graphics state ends with it.
pub fn push_turned(out: &mut String, matrix: &str, body: &str)
    ensures
        final(out)@ == old(out)@ + turned_content(matrix@, body@),
{
    if body.unicode_len() == 0 {
        out.append("");
    } else {
        out.append("q ");
        out.append(matrix);
        out.append(" cm\n");
        out.append(body);
        out.append("Q\n");
    }
    proof {
        assert(out@ =~= old(out)@ + turned_content(matrix@, body@));
    }
}

/// Turns a drawing into the content of a sheet: its parts in the order of
/// `marks`, with the images drawn from the objects that `names` gives.
pub fn paint(
    meta: &Metafile,
    numbers: &Numbers,
    masks: &Vec<Option<usize>>,
    names: &Vec<String>,
    marks: &Vec<Mark>,
    font: Option<&Font>,
    glyphs: Glyphs,
) -> (r: Painted)
    requires
        marks_valid(meta@, marks@),
        glyphs.wf(),
        font matches Some(f) ==> f.wf(),
    ensures
        r.glyphs.wf(),
        ({
            let p = closed(
                parts_painted(
                    blank_sheet(glyphs@),
                    meta@,
                    numbers@,
                    masks@,
                    texts(names@),
                    font_of(font),
                    marks@,
                    marks@.len() as int,
                ),
            );
            &&& r.content@ == p.out
            &&& r.glyphs@ == p.glyphs
            &&& r.placed == p.placed
            &&& r.pictures == p.pictures
            &&& r.painted == p.painted
        }),
{
    let ghost start = blank_sheet(glyphs@);
    let mut p = Painter {
        out: String::new(),
        clip: None,
        colour: None,
        glyphs,
        placed: 0,
        pictures: 0,
        painted: false,
    };
    proof {
        assert(p@.out =~= Seq::empty());
    }
    let mut k: usize = 0;
    while k < marks.len()
        invariant
            p.wf(),
            k <= marks@.len(),
            marks_valid(meta@, marks@),
            font matches Some(f) ==> f.wf(),
            meta@.fills == meta.fills@,
            meta@.images == meta.images@,
            meta@.shapes.len() == meta.shapes@.len(),
            meta@.text.len() == meta.text@.len(),
            p@ == parts_painted(
                start,
                meta@,
                numbers@,
                masks@,
                texts(names@),
                font_of(font),
                marks@,
                k as int,
            ),
        decreases marks@.len() - k,
    {
        let mark: Mark = marks[k];
        match mark.part {
            Part::Fill => p.fill(meta, numbers, mark.index),
            Part::Image => p.image(meta, numbers, masks, names, mark.index),
            Part::Shape => p.shape(meta, numbers, mark.index),
            Part::Text => p.text(meta, numbers, font, mark.index),
        }
        k += 1;
    }
    let mut content = p.out;
    if p.clip.is_some() {
        content.append("Q\n");
    } else {
        content.append("");
    }
    content.append("0 0 0 rg\n");
    Painted {
        content,
        glyphs: p.glyphs,
        placed: p.placed,
        pictures: p.pictures,
        painted: p.painted,
    }
}

} // verus!
