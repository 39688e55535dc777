//! PNG encoding for the bitmaps a page carries, so an HTML page can show them
//! as data URLs.
use crate::domain::rendering::{row_octets, Raster};
use crate::infrastructure::deflate::{
    be32, crc, crc32, inflate, law_zlib_round_trip, zlib, zlib_stream,
};
use crate::infrastructure::lzh::BIT_WEIGHT;
use crate::infrastructure::octets::append;
use vstd::prelude::*;
use vstd::slice::slice_subrange;

verus! {

pub const SIGNATURE: [u8; 8] = [0x89, 0x50, 0x4E, 0x47, 0x0D, 0x0A, 0x1A, 0x0A];

pub const IHDR: [u8; 4] = [0x49, 0x48, 0x44, 0x52];

pub const PLTE: [u8; 4] = [0x50, 0x4C, 0x54, 0x45];

pub const IDAT: [u8; 4] = [0x49, 0x44, 0x41, 0x54];

pub const IEND: [u8; 4] = [0x49, 0x45, 0x4E, 0x44];

/// A chunk: the length of the body, the kind, the body, and the checksum of
/// kind and body.
pub open spec fn chunk_bytes(kind: Seq<u8>, body: Seq<u8>) -> Seq<u8> {
    be32(body.len()) + kind + body + be32(crc(kind + body) as nat)
}

/// The header of an image: its size, depth and colour type.
pub open spec fn header_bytes(width: u32, height: u32, depth: u8, colour_type: u8) -> Seq<u8> {
    be32(width as nat) + be32(height as nat) + seq![depth, colour_type, 0u8, 0u8, 0u8]
}

/// The palette, three octets a colour.
pub open spec fn palette_bytes(p: Seq<(u8, u8, u8)>) -> Seq<u8>
    decreases p.len(),
{
    if p.len() == 0 {
        Seq::empty()
    } else {
        palette_bytes(p.drop_last()) + seq![p.last().0, p.last().1, p.last().2]
    }
}

/// The rows, each behind the octet that says it is not filtered.
pub open spec fn filtered(rows: Seq<u8>, stride: nat) -> Seq<u8>
    decreases rows.len(),
{
    if rows.len() == 0 || stride == 0 {
        Seq::empty()
    } else if rows.len() <= stride {
        seq![0u8] + rows
    } else {
        seq![0u8] + rows.take(stride as int) + filtered(rows.skip(stride as int), stride)
    }
}

/// The stencil's bit at `x`, `y`: one, which paints nothing, where there is no
/// data.
pub open spec fn stencil_bit(r: Raster, x: int, y: int) -> int {
    let stride = row_octets(r.width as int, r.bits as int);
    if y * stride + stride <= r.rows@.len() && x / 8 < stride {
        (r.rows@[y * stride + x / 8] / BIT_WEIGHT@[x % 8] % 2) as int
    } else {
        1
    }
}

/// The first `n` pixels of a stencil's row: its colour, painted where the bit
/// is zero.
pub open spec fn stencil_pixels(r: Raster, y: int, n: nat) -> Seq<u8>
    decreases n,
{
    if n == 0 {
        Seq::empty()
    } else {
        let c = r.stencil->0;
        stencil_pixels(r, y, (n - 1) as nat) + seq![
            c.0,
            c.1,
            c.2,
            if stencil_bit(r, n - 1, y) == 0 {
                255u8
            } else {
                0u8
            },
        ]
    }
}

/// The first `n` rows of a stencil, each behind its filter octet.
pub open spec fn stencil_rows(r: Raster, n: nat) -> Seq<u8>
    decreases n,
{
    if n == 0 {
        Seq::empty()
    } else {
        stencil_rows(r, (n - 1) as nat) + seq![0u8] + stencil_pixels(r, n - 1, r.width as nat)
    }
}

/// The image data before it is compressed.
pub open spec fn image_data(r: Raster) -> Seq<u8> {
    if r.stencil is Some {
        stencil_rows(r, r.height as nat)
    } else {
        let stride = row_octets(r.width as int, r.bits as int);
        filtered(
            r.rows@,
            (if stride < 1 {
                1
            } else {
                stride
            }) as nat,
        )
    }
}

/// The PNG file of a raster. Indexed rasters keep their palette and bit depth;
/// a stencil is expanded to RGBA so its transparency is explicit.
pub open spec fn png_file(r: Raster) -> Seq<u8> {
    let (depth, colour_type) = if r.stencil is Some {
        (8u8, 6u8)
    } else if r.bits == 24 {
        (8u8, 2u8)
    } else {
        (r.bits, 3u8)
    };
    SIGNATURE@ + chunk_bytes(IHDR@, header_bytes(r.width, r.height, depth, colour_type)) + (
    if colour_type == 3 {
        chunk_bytes(PLTE@, palette_bytes(r.palette@))
    } else {
        Seq::empty()
    }) + chunk_bytes(IDAT@, zlib_stream(image_data(r))) + chunk_bytes(IEND@, Seq::empty())
}

fn push_be32(out: &mut Vec<u8>, v: usize)
    ensures
        final(out)@ == old(out)@ + be32(v as nat),
{
    out.push((v / 0x100_0000 % 256) as u8);
    out.push((v / 0x1_0000 % 256) as u8);
    out.push((v / 0x100 % 256) as u8);
    out.push((v % 256) as u8);
    proof {
        assert(out@ =~= old(out)@ + be32(v as nat));
    }
}

fn chunk(out: &mut Vec<u8>, kind: &[u8], body: &[u8])
    ensures
        final(out)@ == old(out)@ + chunk_bytes(kind@, body@),
{
    push_be32(out, body.len());
    let start: usize = out.len();
    append(out, kind);
    append(out, body);
    let sum: u32 = crc32(slice_subrange(out.as_slice(), start, out.len()));
    proof {
        assert(out@.subrange(start as int, out@.len() as int) =~= kind@ + body@);
    }
    push_be32(out, sum as usize);
    proof {
        assert(out@ =~= old(out)@ + chunk_bytes(kind@, body@));
    }
}

fn push_header(out: &mut Vec<u8>, r: &Raster, depth: u8, colour_type: u8)
    ensures
        final(out)@ == old(out)@ + SIGNATURE@ + chunk_bytes(
            IHDR@,
            header_bytes(r.width, r.height, depth, colour_type),
        ),
{
    append(out, &SIGNATURE);
    let mut ihdr: Vec<u8> = Vec::new();
    push_be32(&mut ihdr, r.width as usize);
    push_be32(&mut ihdr, r.height as usize);
    ihdr.push(depth);
    ihdr.push(colour_type);
    ihdr.push(0);
    ihdr.push(0);
    ihdr.push(0);
    proof {
        assert(ihdr@ =~= header_bytes(r.width, r.height, depth, colour_type));
    }
    chunk(out, &IHDR, ihdr.as_slice());
}

/// The rows behind their filter octets.
fn filter_rows(rows: &Vec<u8>, stride: usize) -> (raw: Vec<u8>)
    requires
        0 < stride,
    ensures
        raw@ == filtered(rows@, stride as nat),
{
    let mut raw: Vec<u8> = Vec::new();
    let mut at: usize = 0;
    proof {
        assert(rows@.skip(0) =~= rows@);
        assert(raw@ + filtered(rows@, stride as nat) =~= filtered(rows@, stride as nat));
    }
    while at < rows.len()
        invariant
            0 < stride,
            at <= rows.len(),
            filtered(rows@, stride as nat) == raw@ + filtered(rows@.skip(at as int), stride as nat),
        decreases rows.len() - at,
    {
        let ghost before = raw@;
        let left: usize = rows.len() - at;
        let n: usize = if left <= stride {
            left
        } else {
            stride
        };
        raw.push(0);
        append(&mut raw, slice_subrange(rows.as_slice(), at, at + n));
        proof {
            let rest = rows@.skip(at as int);
            assert(rest.skip(n as int) =~= rows@.skip(at + n));
            if left <= stride {
                assert(rest =~= rows@.subrange(at as int, at + n));
                assert(rows@.skip(at + n) =~= Seq::<u8>::empty());
            } else {
                assert(rest.take(n as int) =~= rows@.subrange(at as int, at + n));
            }
            assert(raw@ + filtered(rows@.skip(at + n), stride as nat) =~= before + filtered(
                rest,
                stride as nat,
            ));
        }
        at += n;
    }
    proof {
        assert(rows@.skip(at as int) =~= Seq::<u8>::empty());
        assert(raw@ + Seq::<u8>::empty() =~= raw@);
    }
    raw
}

/// The rows of a stencil as RGBA, behind their filter octets.
fn stencil_raw(r: &Raster, colour: (u8, u8, u8)) -> (raw: Vec<u8>)
    requires
        r.measurable(),
        r.stencil == Some(colour),
    ensures
        raw@ == stencil_rows(*r, r.height as nat),
{
    let stride: usize = r.stride();
    let mut raw: Vec<u8> = Vec::new();
    let mut y: u32 = 0;
    while y < r.height
        invariant
            y <= r.height,
            r.stencil == Some(colour),
            stride == row_octets(r.width as int, r.bits as int),
            raw@ == stencil_rows(*r, y as nat),
        decreases r.height - y,
    {
        let ghost before = raw@;
        let start: Option<usize> = match (y as usize).checked_mul(stride) {
            Some(at) => if at <= r.rows.len() && stride <= r.rows.len() - at {
                Some(at)
            } else {
                None
            },
            None => None,
        };
        proof {
            assert(start is Some <==> y * stride + stride <= r.rows.len());
        }
        raw.push(0);
        let ghost open = raw@;
        let mut x: u32 = 0;
        proof {
            assert(open + Seq::<u8>::empty() =~= open);
        }
        while x < r.width
            invariant
                x <= r.width,
                r.stencil == Some(colour),
                stride == row_octets(r.width as int, r.bits as int),
                start is Some <==> y * stride + stride <= r.rows.len(),
                start matches Some(at) ==> at == y * stride,
                raw@ == open + stencil_pixels(*r, y as int, x as nat),
            decreases r.width - x,
        {
            let ghost prior = raw@;
            let bit: u8 = match start {
                Some(at) => if ((x / 8) as usize) < stride {
                    r.rows[at + (x / 8) as usize] / BIT_WEIGHT[(x % 8) as usize] % 2
                } else {
                    1
                },
                None => 1,
            };
            let alpha: u8 = if bit == 0 {
                255
            } else {
                0
            };
            raw.push(colour.0);
            raw.push(colour.1);
            raw.push(colour.2);
            raw.push(alpha);
            proof {
                assert(bit == stencil_bit(*r, x as int, y as int));
                assert(raw@ =~= prior + seq![colour.0, colour.1, colour.2, alpha]);
                assert(raw@ =~= open + stencil_pixels(*r, y as int, (x + 1) as nat));
            }
            x += 1;
        }
        y += 1;
        proof {
            assert(raw@ =~= before + seq![0u8] + stencil_pixels(*r, y - 1, r.width as nat));
        }
    }
    raw
}

fn encode_stencil_rgba(r: &Raster, colour: (u8, u8, u8)) -> (out: Vec<u8>)
    requires
        r.measurable(),
        r.stencil == Some(colour),
    ensures
        out@ == png_file(*r),
{
    let mut out: Vec<u8> = Vec::new();
    push_header(&mut out, r, 8, 6);
    let raw = stencil_raw(r, colour);
    let data = zlib(raw.as_slice());
    chunk(&mut out, &IDAT, data.as_slice());
    let nothing: Vec<u8> = Vec::new();
    chunk(&mut out, &IEND, nothing.as_slice());
    proof {
        assert(nothing@ =~= Seq::<u8>::empty());
        assert(out@ =~= png_file(*r));
    }
    out
}

/// Encode a raster as a PNG file. Indexed rasters keep their palette and bit
/// depth; a stencil is expanded to RGBA so its transparency is explicit even
/// when the PNG is used as an image inside SVG.
pub fn encode(r: &Raster) -> (out: Vec<u8>)
    requires
        r.measurable(),
    ensures
        out@ == png_file(*r),
{
    if let Some(colour) = r.stencil {
        return encode_stencil_rgba(r, colour);
    }
    let mut out: Vec<u8> = Vec::new();
    let direct: bool = r.bits == 24;
    if direct {
        push_header(&mut out, r, 8, 2);
    } else {
        push_header(&mut out, r, r.bits, 3);
        let mut plte: Vec<u8> = Vec::new();
        let mut i: usize = 0;
        while i < r.palette.len()
            invariant
                i <= r.palette@.len(),
                plte@ == palette_bytes(r.palette@.take(i as int)),
            decreases r.palette@.len() - i,
        {
            let ghost before = plte@;
            let c = r.palette[i];
            plte.push(c.0);
            plte.push(c.1);
            plte.push(c.2);
            proof {
                assert(r.palette@.take(i + 1).drop_last() =~= r.palette@.take(i as int));
                assert(plte@ =~= before + seq![c.0, c.1, c.2]);
            }
            i += 1;
        }
        proof {
            assert(r.palette@.take(i as int) =~= r.palette@);
        }
        chunk(&mut out, &PLTE, plte.as_slice());
    }
    let stride: usize = r.stride();
    let raw = filter_rows(
        &r.rows,
        if stride < 1 {
            1
        } else {
            stride
        },
    );
    let data = zlib(raw.as_slice());
    chunk(&mut out, &IDAT, data.as_slice());
    let nothing: Vec<u8> = Vec::new();
    chunk(&mut out, &IEND, nothing.as_slice());
    proof {
        assert(nothing@ =~= Seq::<u8>::empty());
        assert(out@ =~= png_file(*r));
    }
    out
}

/// The rows that a reader takes out of unfiltered image data.
pub open spec fn unfiltered(raw: Seq<u8>, stride: nat) -> Seq<u8>
    decreases raw.len(),
{
    if raw.len() == 0 || stride == 0 {
        Seq::empty()
    } else if raw.len() <= stride + 1 {
        raw.skip(1)
    } else {
        raw.subrange(1, stride as int + 1) + unfiltered(raw.skip(stride as int + 1), stride)
    }
}

/// The pixels survive: what the image data of a picture's file inflates to is,
/// row by row, the picture's own rows.
pub proof fn law_rows_come_back(r: Raster)
    requires
        r.stencil is None,
        row_octets(r.width as int, r.bits as int) > 0,
    ensures
        inflate(zlib_stream(image_data(r))) matches Some(raw) && unfiltered(
            raw,
            row_octets(r.width as int, r.bits as int) as nat,
        ) == r.rows@,
{
    law_zlib_round_trip(image_data(r));
    lemma_unfiltered(r.rows@, row_octets(r.width as int, r.bits as int) as nat);
}

proof fn lemma_unfiltered(rows: Seq<u8>, stride: nat)
    requires
        stride > 0,
    ensures
        unfiltered(filtered(rows, stride), stride) == rows,
    decreases rows.len(),
{
    let raw = filtered(rows, stride);
    if rows.len() == 0 {
        assert(rows =~= Seq::<u8>::empty());
    } else if rows.len() <= stride {
        assert(raw.skip(1) =~= rows);
    } else {
        let rest = rows.skip(stride as int);
        lemma_unfiltered(rest, stride);
        assert(raw.subrange(1, stride as int + 1) =~= rows.take(stride as int));
        assert(raw.skip(stride as int + 1) =~= filtered(rest, stride));
        if filtered(rest, stride).len() == 0 {
            assert(rest.len() == 0);
        }
        assert(rows.take(stride as int) + rest =~= rows);
    }
}

} // verus!
