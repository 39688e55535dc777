//! Pictures as objects of a PDF. JPEG streams go in untouched.
use crate::adapters::masks::{alpha_channel, can_mask, is_mask, mask_alpha};
use crate::adapters::pdf::writer::{stream_body, Writer};
use crate::domain::page::{Page, PageData};
use crate::domain::rendering::{Raster, RasterModel};
use crate::infrastructure::deflate::{zlib, zlib_stream};
use crate::infrastructure::jpeg::{info, jpeg_info, JpegInfo};
use crate::text::{decimal, push_decimal, push_upper_hex, upper_hex};
use vstd::prelude::*;
use vstd::slice::slice_subrange;
use vstd::string::*;

verus! {

/// The size to declare for a JPEG stream: its own, else the one that the page
/// records, else one pixel.
pub open spec fn declared_size(own: Option<JpegInfo>, recorded: Option<(u32, u32)>) -> (u32, u32) {
    match own {
        Some(i) => (i.width, i.height),
        None => match recorded {
            Some(px) => px,
            None => (1u32, 1u32),
        },
    }
}

/// The number of colour components to declare; three where the stream does not
/// say.
pub open spec fn declared_components(own: Option<JpegInfo>) -> u8 {
    match own {
        Some(i) => i.components,
        None => 3u8,
    }
}

/// The colour space for a number of components.
pub open spec fn colour_space(components: u8) -> Seq<char> {
    if components == 1 {
        "/DeviceGray"@
    } else if components == 4 {
        "/DeviceCMYK"@
    } else {
        "/DeviceRGB"@
    }
}

/// The opening of an image dictionary.
pub open spec fn image_head(size: (u32, u32)) -> Seq<char> {
    "<< /Type /XObject /Subtype /Image /Width "@ + decimal(size.0 as nat) + " /Height "@ + decimal(
        size.1 as nat,
    )
}

/// The dictionary of a JPEG stream.
pub open spec fn jpeg_dict(size: (u32, u32), components: u8) -> Seq<char> {
    image_head(size) + " /ColorSpace "@ + colour_space(components)
        + " /BitsPerComponent 8 /Filter /DCTDecode >>"@
}

/// The dictionary of a JPEG stream that is drawn through a mask.
pub open spec fn masked_dict(size: (u32, u32), components: u8, mask_id: nat) -> Seq<char> {
    image_head(size) + " /ColorSpace "@ + colour_space(components)
        + " /BitsPerComponent 8 /Filter /DCTDecode /SMask "@ + decimal(mask_id) + " 0 R >>"@
}

/// The dictionary of an alpha channel.
pub open spec fn alpha_dict(size: (u32, u32)) -> Seq<char> {
    image_head(size) + " /ColorSpace /DeviceGray /BitsPerComponent 8 /Filter /FlateDecode >>"@
}

fn space_name(components: u8) -> (s: &'static str)
    ensures
        s@ == colour_space(components),
{
    if components == 1 {
        "/DeviceGray"
    } else if components == 4 {
        "/DeviceCMYK"
    } else {
        "/DeviceRGB"
    }
}

fn push_head(out: &mut String, size: (u32, u32))
    ensures
        final(out)@ == old(out)@ + image_head(size),
{
    out.append("<< /Type /XObject /Subtype /Image /Width ");
    push_decimal(out, size.0 as u64);
    out.append(" /Height ");
    push_decimal(out, size.1 as u64);
    proof {
        assert(out@ =~= old(out)@ + image_head(size));
    }
}

/// The size and the number of components that are declared for a JPEG stream.
pub fn jpeg_size(stream: &[u8], recorded: Option<(u32, u32)>) -> (r: ((u32, u32), u8))
    ensures
        r.0 == declared_size(jpeg_info(stream@), recorded),
        r.1 == declared_components(jpeg_info(stream@)),
{
    match info(stream) {
        Some(i) => ((i.width, i.height), i.components),
        None => match recorded {
            Some(px) => (px, 3),
            None => ((1, 1), 3),
        },
    }
}

/// Embeds a JPEG stream as it is.
pub fn jpeg_object(w: &mut Writer, stream: &[u8], size: (u32, u32), components: u8) -> (id: usize)
    ensures
        final(w)@ == old(w)@.push(Some(stream_body(jpeg_dict(size, components), stream@))),
        id == final(w)@.len(),
{
    let mut dict = String::new();
    push_head(&mut dict, size);
    dict.append(" /ColorSpace ");
    dict.append(space_name(components));
    dict.append(" /BitsPerComponent 8 /Filter /DCTDecode >>");
    proof {
        assert(dict@ =~= jpeg_dict(size, components));
    }
    w.add_stream(dict.as_str(), stream)
}

/// The entry that names an image object among a page's resources.
pub open spec fn resource_entry(name: Seq<char>, id: nat) -> Seq<char> {
    "/"@ + name + " "@ + decimal(id) + " 0 R "@
}

/// Names an image object among a page's resources.
pub fn push_resource(out: &mut String, name: &str, id: usize)
    ensures
        final(out)@ == old(out)@ + resource_entry(name@, id as nat),
{
    out.append("/");
    out.append(name);
    out.append(" ");
    push_decimal(out, id as u64);
    out.append(" 0 R ");
    proof {
        assert(out@ =~= old(out)@ + resource_entry(name@, id as nat));
    }
}

/// A name made of a tag, a kind and a number.
pub open spec fn tagged(tag: Seq<char>, kind: Seq<char>, n: nat) -> Seq<char> {
    tag + kind + decimal(n)
}

/// A name made of a tag, a kind and a number.
pub fn tagged_name(tag: &str, kind: &str, n: usize) -> (s: String)
    ensures
        s@ == tagged(tag@, kind@, n as nat),
{
    let mut s = String::from_str(tag);
    s.append(kind);
    push_decimal(&mut s, n as u64);
    s
}

/// The octets of a page stored as JPEG, if they lie in the file.
pub open spec fn jpeg_stream(data: Seq<u8>, page: Option<PageData>) -> Option<Seq<u8>> {
    match page {
        Some(PageData::Jpeg { offset, len }) => if offset + len <= data.len() {
            Some(data.subrange(offset as int, offset + len))
        } else {
            None
        },
        _ => None,
    }
}

/// The octets of a page stored as JPEG, if they lie in the file.
pub fn stream_of<'a>(data: &'a [u8], page: &Page) -> (r: Option<&'a [u8]>)
    ensures
        match (r, jpeg_stream(data@, Some(page.data))) {
            (Some(s), Some(t)) => s@ == t,
            (None, None) => true,
            _ => false,
        },
{
    match page.data {
        PageData::Jpeg { offset, len } => {
            if offset > data.len() || len > data.len() - offset {
                return None;
            }
            Some(slice_subrange(data, offset, offset + len))
        },
        _ => None,
    }
}

/// Embeds the picture of a page and names it among the page's resources.
/// Gives its size; none where the page is no picture in the file.
pub fn embed_page_picture(
    w: &mut Writer,
    data: &[u8],
    page: &Page,
    name: &str,
    xobjects: &mut String,
) -> (r: Option<(u32, u32)>)
    ensures
        match jpeg_stream(data@, Some(page.data)) {
            Some(stream) => {
                let own = jpeg_info(stream);
                let size = declared_size(own, page.pixels);
                &&& r == Some(size)
                &&& final(w)@ == old(w)@.push(
                    Some(stream_body(jpeg_dict(size, declared_components(own)), stream)),
                )
                &&& final(xobjects)@ == old(xobjects)@ + resource_entry(name@, old(w)@.len() + 1)
            },
            None => r is None && final(w)@ == old(w)@ && final(xobjects)@ == old(xobjects)@,
        },
{
    match stream_of(data, page) {
        Some(stream) => {
            let (size, components): ((u32, u32), u8) = jpeg_size(stream, page.pixels);
            let id: usize = jpeg_object(w, stream, size, components);
            push_resource(xobjects, name, id);
            Some(size)
        },
        None => None,
    }
}

/// The size at which a masked picture is drawn: the stream's own, else the one
/// that the drawing gives, if it has any pixels.
pub open spec fn masked_size(own: Option<JpegInfo>, source: (u32, u32)) -> Option<(u32, u32)> {
    match own {
        Some(i) => Some((i.width, i.height)),
        None => if source.0 > 0 && source.1 > 0 {
            Some(source)
        } else {
            None
        },
    }
}

/// A picture can be drawn through a mask: it is a JPEG that lies in the file,
/// and the mask has a size to be brought to.
pub open spec fn can_be_masked(
    data: Seq<u8>,
    page: Option<PageData>,
    mask: RasterModel,
    source: (u32, u32),
) -> bool {
    match jpeg_stream(data, page) {
        Some(stream) => match masked_size(jpeg_info(stream), source) {
            Some(size) => is_mask(mask) && size.0 > 0 && size.1 > 0 && size.0 * size.1
                <= usize::MAX,
            None => false,
        },
        None => false,
    }
}

/// Whether a picture can be drawn through a mask.
pub fn is_maskable(data: &[u8], page: &Page, mask: &Raster, source: (u32, u32)) -> (r: bool)
    requires
        mask.measurable(),
    ensures
        r == can_be_masked(data@, Some(page.data), mask@, source),
{
    let stream: &[u8] = match stream_of(data, page) {
        Some(s) => s,
        None => {
            return false;
        },
    };
    let size: (u32, u32) = match info(stream) {
        Some(i) => (i.width, i.height),
        None => source,
    };
    if size.0 == 0 || size.1 == 0 || !can_mask(mask) {
        return false;
    }
    (size.0 as usize).checked_mul(size.1 as usize).is_some()
}

/// The two objects of a masked picture, the alpha channel first.
pub open spec fn masked_objects(
    stream: Seq<u8>,
    mask: RasterModel,
    source: (u32, u32),
    mask_id: nat,
) -> Seq<Option<Seq<u8>>> {
    let own = jpeg_info(stream);
    let size = masked_size(own, source)->0;
    seq![
        Some(
            stream_body(
                alpha_dict(size),
                zlib_stream(alpha_channel(mask, size.0 as nat, size.1 as nat)),
            ),
        ),
        Some(stream_body(masked_dict(size, declared_components(own), mask_id), stream)),
    ]
}

fn alpha_object(w: &mut Writer, alpha: &Vec<u8>, size: (u32, u32)) -> (id: usize)
    ensures
        final(w)@ == old(w)@.push(Some(stream_body(alpha_dict(size), zlib_stream(alpha@)))),
        id == final(w)@.len(),
{
    let body = zlib(alpha.as_slice());
    let mut dict = String::new();
    push_head(&mut dict, size);
    dict.append(" /ColorSpace /DeviceGray /BitsPerComponent 8 /Filter /FlateDecode >>");
    proof {
        assert(dict@ =~= alpha_dict(size));
    }
    w.add_stream(dict.as_str(), body.as_slice())
}

fn masked_object(w: &mut Writer, stream: &[u8], size: (u32, u32), components: u8, mask_id: usize) -> (id:
    usize)
    ensures
        final(w)@ == old(w)@.push(
            Some(stream_body(masked_dict(size, components, mask_id as nat), stream@)),
        ),
        id == final(w)@.len(),
{
    let mut dict = String::new();
    push_head(&mut dict, size);
    dict.append(" /ColorSpace ");
    dict.append(space_name(components));
    dict.append(" /BitsPerComponent 8 /Filter /DCTDecode /SMask ");
    push_decimal(&mut dict, mask_id as u64);
    dict.append(" 0 R >>");
    proof {
        assert(dict@ =~= masked_dict(size, components, mask_id as nat));
    }
    w.add_stream(dict.as_str(), stream)
}

/// Embeds one JPEG with a soft mask derived from a one-bit bitmap, and names
/// it among the page's resources. The mask is often at device resolution while
/// the JPEG is half that size; the two objects have one size.
pub fn masked_jpeg_name(
    w: &mut Writer,
    data: &[u8],
    page: Option<&Page>,
    mask: &Raster,
    source_size: (u32, u32),
    tag: &str,
    image_index: usize,
    xobjects: &mut String,
) -> (r: Option<String>)
    requires
        mask.measurable(),
    ensures
        ({
            let stored = match page {
                Some(p) => Some(p.data),
                None => None,
            };
            let name = tagged(tag@, "Pm"@, image_index as nat);
            if can_be_masked(data@, stored, mask@, source_size) {
                &&& r matches Some(s) && s@ == name
                &&& final(w)@ == old(w)@ + masked_objects(
                    jpeg_stream(data@, stored)->0,
                    mask@,
                    source_size,
                    old(w)@.len() + 1,
                )
                &&& final(xobjects)@ == old(xobjects)@ + resource_entry(name, old(w)@.len() + 2)
            } else {
                r is None && final(w)@ == old(w)@ && final(xobjects)@ == old(xobjects)@
            }
        }),
{
    let p: &Page = match page {
        Some(p) => p,
        None => {
            return None;
        },
    };
    let stream: &[u8] = match stream_of(data, p) {
        Some(s) => s,
        None => {
            return None;
        },
    };
    let own = info(stream);
    let (size, components): ((u32, u32), u8) = match own {
        Some(i) => ((i.width, i.height), i.components),
        None => if source_size.0 > 0 && source_size.1 > 0 {
            (source_size, 3)
        } else {
            return None;
        },
    };
    let alpha = match mask_alpha(mask, size.0, size.1) {
        Some(a) => a,
        None => {
            return None;
        },
    };
    let ghost before = w@;
    let mask_id: usize = alpha_object(w, &alpha, size);
    let image_id: usize = masked_object(w, stream, size, components, mask_id);
    let name = tagged_name(tag, "Pm", image_index);
    push_resource(xobjects, name.as_str(), image_id);
    proof {
        assert(w@ =~= before + masked_objects(stream@, mask@, source_size, before.len() + 1));
    }
    Some(name)
}

/// The colours of a palette in hexadecimal.
pub open spec fn palette_hex(p: Seq<(u8, u8, u8)>) -> Seq<char>
    decreases p.len(),
{
    if p.len() == 0 {
        Seq::empty()
    } else {
        palette_hex(p.drop_last()) + upper_hex(p.last().0 as nat, 2) + upper_hex(
            p.last().1 as nat,
            2,
        ) + upper_hex(p.last().2 as nat, 2)
    }
}

/// The palette is black and white, in either order, and the pixels are bits.
pub open spec fn two_tone(r: RasterModel) -> bool {
    r.bits == 1 && (r.palette == seq![(0u8, 0u8, 0u8), (255u8, 255u8, 255u8)] || r.palette == seq![
        (255u8, 255u8, 255u8),
        (0u8, 0u8, 0u8),
    ])
}

/// The colour space of a bitmap. Black and white goes straight to a one-bit
/// grey image; where white comes first, the samples are read the other way
/// round.
pub open spec fn raster_space(r: RasterModel) -> Seq<char> {
    if r.bits == 24 {
        "/DeviceRGB"@
    } else if two_tone(r) {
        if r.palette[0] == (255u8, 255u8, 255u8) {
            "/DeviceGray /Decode [1 0]"@
        } else {
            "/DeviceGray"@
        }
    } else {
        "[/Indexed /DeviceRGB "@ + decimal(
            if r.palette.len() > 0 {
                (r.palette.len() - 1) as nat
            } else {
                0
            },
        ) + " <"@ + palette_hex(r.palette) + ">]"@
    }
}

/// The dictionary of a bitmap. A stencil paints the fill colour through its
/// zero bits.
pub open spec fn raster_dict(r: RasterModel) -> Seq<char> {
    if r.stencil is Some {
        image_head((r.width, r.height))
            + " /ImageMask true /BitsPerComponent 1 /Decode [0 1] /Filter /FlateDecode >>"@
    } else {
        image_head((r.width, r.height)) + " /ColorSpace "@ + raster_space(r)
            + " /BitsPerComponent "@ + decimal(
            if r.bits == 24 {
                8
            } else {
                r.bits as nat
            },
        ) + " /Filter /FlateDecode >>"@
    }
}

fn push_palette(out: &mut String, p: &Vec<(u8, u8, u8)>)
    ensures
        final(out)@ == old(out)@ + palette_hex(p@),
{
    let mut i: usize = 0;
    proof {
        assert(p@.take(0) =~= Seq::empty());
        assert(out@ =~= old(out)@ + palette_hex(p@.take(0)));
    }
    while i < p.len()
        invariant
            i <= p@.len(),
            out@ == old(out)@ + palette_hex(p@.take(i as int)),
        decreases p@.len() - i,
    {
        let (r, g, b): (u8, u8, u8) = p[i];
        proof {
            assert(p@.take(i + 1).drop_last() =~= p@.take(i as int));
        }
        push_upper_hex(out, r as u32, 2);
        push_upper_hex(out, g as u32, 2);
        push_upper_hex(out, b as u32, 2);
        i += 1;
        proof {
            assert(out@ =~= old(out)@ + palette_hex(p@.take(i as int)));
        }
    }
    proof {
        assert(p@.take(i as int) =~= p@);
    }
}

fn push_space(out: &mut String, r: &Raster)
    ensures
        final(out)@ == old(out)@ + raster_space(r@),
{
    if r.bits == 24 {
        out.append("/DeviceRGB");
    } else if r.is_bilevel() {
        let first: (u8, u8, u8) = r.palette[0];
        if first.0 == 255 && first.1 == 255 && first.2 == 255 {
            out.append("/DeviceGray /Decode [1 0]");
        } else {
            out.append("/DeviceGray");
        }
    } else {
        out.append("[/Indexed /DeviceRGB ");
        push_decimal(
            out,
            if r.palette.len() > 0 {
                (r.palette.len() - 1) as u64
            } else {
                0
            },
        );
        out.append(" <");
        push_palette(out, &r.palette);
        out.append(">]");
        proof {
            assert(out@ =~= old(out)@ + raster_space(r@));
        }
    }
}

/// An image object for a bitmap carried inside the page.
pub fn raster_object(w: &mut Writer, r: &Raster) -> (id: usize)
    ensures
        final(w)@ == old(w)@.push(Some(stream_body(raster_dict(r@), zlib_stream(r.rows@)))),
        id == final(w)@.len(),
{
    let body = zlib(r.rows.as_slice());
    let mut dict = String::new();
    push_head(&mut dict, (r.width, r.height));
    if r.stencil.is_some() {
        dict.append(" /ImageMask true /BitsPerComponent 1 /Decode [0 1] /Filter /FlateDecode >>");
    } else {
        dict.append(" /ColorSpace ");
        push_space(&mut dict, r);
        dict.append(" /BitsPerComponent ");
        push_decimal(
            &mut dict,
            if r.bits == 24 {
                8
            } else {
                r.bits as u64
            },
        );
        dict.append(" /Filter /FlateDecode >>");
    }
    proof {
        assert(dict@ =~= raster_dict(r@));
    }
    w.add_stream(dict.as_str(), body.as_slice())
}

} // verus!
