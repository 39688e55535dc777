//! Reads the frame header and density of a JPEG stream, for placing it.
use crate::infrastructure::octets::{be16_at, be16_of};
use vstd::prelude::*;
use vstd::slice::slice_subrange;

verus! {

/// How many pixels lie along an inch or a centimetre.
#[derive(Debug, Clone, Copy, PartialEq, Eq, Structural)]
pub enum Density {
    PerInch(u16, u16),
    PerCentimetre(u16, u16),
}

/// What a JPEG stream declares about itself.
#[derive(Debug, Clone, Copy, PartialEq, Eq, Structural)]
pub struct JpegInfo {
    pub width: u32,
    pub height: u32,
    pub components: u8,
    /// The density in force; 72 per inch where the stream does not say.
    pub density: Density,
    pub dpi_known: bool,
}

/// `JFIF`, zero-terminated.
pub const JFIF: [u8; 5] = [0x4A, 0x46, 0x49, 0x46, 0x00];

/// The density that an application segment declares.
pub open spec fn segment_density(marker: u8, seg: Seq<u8>) -> Option<Density> {
    if marker == 0xE0 && seg.len() >= 12 && seg.take(5) == JFIF@ {
        match (be16_of(seg, 8), be16_of(seg, 10)) {
            (Some(x), Some(y)) => if x > 0 && y > 0 && seg[7] == 1 {
                Some(Density::PerInch(x, y))
            } else if x > 0 && y > 0 && seg[7] == 2 {
                Some(Density::PerCentimetre(x, y))
            } else {
                None
            },
            _ => None,
        }
    } else {
        None
    }
}

/// A marker that stands alone, with no segment behind it.
pub open spec fn stands_alone(marker: u8) -> bool {
    marker == 0x01 || 0xD0 <= marker <= 0xD7
}

/// A marker that starts a frame.
pub open spec fn starts_frame(marker: u8) -> bool {
    0xC0 <= marker <= 0xCF && marker != 0xC4 && marker != 0xC8 && marker != 0xCC
}

/// What the frame header says, if it says anything usable.
pub open spec fn frame_info(seg: Seq<u8>, known: Option<Density>) -> Option<JpegInfo> {
    if seg.len() < 6 {
        None
    } else {
        match (be16_of(seg, 1), be16_of(seg, 3)) {
            (Some(height), Some(width)) => if width == 0 || height == 0 || seg[5] == 0 {
                None
            } else {
                Some(
                    JpegInfo {
                        width: width as u32,
                        height: height as u32,
                        components: seg[5],
                        density: match known {
                            Some(d) => d,
                            None => Density::PerInch(72, 72),
                        },
                        dpi_known: known is Some,
                    },
                )
            },
            _ => None,
        }
    }
}

/// What the stream says from `i` on, when the segments before declared the
/// density `known`.
pub open spec fn info_from(buf: Seq<u8>, i: int, known: Option<Density>) -> Option<JpegInfo>
    decreases buf.len() - i,
{
    if i < 0 || i + 1 >= buf.len() {
        None
    } else if buf[i] != 0xFF || buf[i + 1] == 0xFF {
        info_from(buf, i + 1, known)
    } else {
        let marker = buf[i + 1];
        if stands_alone(marker) {
            info_from(buf, i + 2, known)
        } else if marker == 0xD9 || marker == 0xDA {
            None
        } else {
            match be16_of(buf, i + 2) {
                None => None,
                Some(n) => if n < 2 || i + 2 + n > buf.len() {
                    None
                } else {
                    let seg = buf.subrange(i + 4, i + 2 + n);
                    let now = match segment_density(marker, seg) {
                        Some(d) => Some(d),
                        None => known,
                    };
                    if starts_frame(marker) {
                        frame_info(seg, now)
                    } else {
                        info_from(buf, i + 2 + n, now)
                    }
                },
            }
        }
    }
}

/// What a JPEG stream declares about itself, if it is one.
pub open spec fn jpeg_info(buf: Seq<u8>) -> Option<JpegInfo> {
    if buf.len() < 4 || buf[0] != 0xFF || buf[1] != 0xD8 {
        None
    } else {
        info_from(buf, 2, None)
    }
}

fn read_density(marker: u8, seg: &[u8]) -> (r: Option<Density>)
    ensures
        r == segment_density(marker, seg@),
{
    if marker != 0xE0 || seg.len() < 12 {
        return None;
    }
    proof {
        let head = seg@.take(5);
        assert(head[0] == seg@[0] && head[1] == seg@[1] && head[2] == seg@[2] && head[3] == seg@[3]
            && head[4] == seg@[4]);
        if seg@[0] == 0x4A && seg@[1] == 0x46 && seg@[2] == 0x49 && seg@[3] == 0x46 && seg@[4]
            == 0 {
            assert(head =~= JFIF@);
        }
    }
    if seg[0] != 0x4A || seg[1] != 0x46 || seg[2] != 0x49 || seg[3] != 0x46 || seg[4] != 0 {
        return None;
    }
    match (be16_at(seg, 8), be16_at(seg, 10)) {
        (Some(x), Some(y)) => {
            if x > 0 && y > 0 && seg[7] == 1 {
                Some(Density::PerInch(x, y))
            } else if x > 0 && y > 0 && seg[7] == 2 {
                Some(Density::PerCentimetre(x, y))
            } else {
                None
            }
        },
        _ => None,
    }
}

fn read_frame(seg: &[u8], known: Option<Density>) -> (r: Option<JpegInfo>)
    ensures
        r == frame_info(seg@, known),
{
    if seg.len() < 6 {
        return None;
    }
    match (be16_at(seg, 1), be16_at(seg, 3)) {
        (Some(height), Some(width)) => {
            if width == 0 || height == 0 || seg[5] == 0 {
                return None;
            }
            let (density, dpi_known) = match known {
                Some(d) => (d, true),
                None => (Density::PerInch(72, 72), false),
            };
            Some(
                JpegInfo {
                    width: width as u32,
                    height: height as u32,
                    components: seg[5],
                    density,
                    dpi_known,
                },
            )
        },
        _ => None,
    }
}

/// Reads the frame header and the JFIF density of a JPEG stream.
pub fn info(buf: &[u8]) -> (r: Option<JpegInfo>)
    ensures
        r == jpeg_info(buf@),
{
    if buf.len() < 4 || buf[0] != 0xFF || buf[1] != 0xD8 {
        return None;
    }
    let mut i: usize = 2;
    let mut known: Option<Density> = None;
    while i < buf.len() && buf.len() - i > 1
        invariant
            i <= buf.len(),
            jpeg_info(buf@) == info_from(buf@, i as int, known),
        decreases buf.len() - i,
    {
        let marker: u8 = buf[i + 1];
        if buf[i] != 0xFF || marker == 0xFF {
            i += 1;
            continue;
        }
        i += 2;
        if marker == 0x01 || (0xD0 <= marker && marker <= 0xD7) {
            continue;
        }
        if marker == 0xD9 || marker == 0xDA {
            return None;
        }
        let n: usize = match be16_at(buf, i) {
            Some(v) => v as usize,
            None => {
                return None;
            },
        };
        if n < 2 || buf.len() - i < n {
            return None;
        }
        let seg = slice_subrange(buf, i + 2, i + n);
        match read_density(marker, seg) {
            Some(d) => {
                known = Some(d);
            },
            None => {},
        }
        if 0xC0 <= marker && marker <= 0xCF && marker != 0xC4 && marker != 0xC8 && marker != 0xCC {
            return read_frame(seg, known);
        }
        i += n;
    }
    None
}

} // verus!
