//! Bitmaps and text layers drawn on the panel.
use vstd::prelude::*;

verus! {

/// Left edge of the lyric area on the panel.
pub const LYRIC_BITMAP_X: u16 = 360;
/// Top edge of the lyric area on the panel.
pub const LYRIC_BITMAP_Y: u16 = 115;
/// Width of the lyric canvas.
pub const LYRIC_BITMAP_WIDTH: u16 = 440;
/// Height of the lyric canvas.
pub const LYRIC_BITMAP_HEIGHT: u16 = 305;
/// Number of lyric lines shown at once.
pub const LYRIC_BITMAP_LINES: usize = 11;
/// Number of frames of a lyric scroll animation.
pub const LYRIC_ANIMATION_FRAMES: usize = 5;

/// A tagged grayscale bitmap placed at (`x`, `y`) on the panel. Each pixel is 0
/// (empty) or a 7-bit coverage level, with the high bit set for the active line.
#[derive(Clone)]
pub struct LyricBitmap {
    pub x: u16,
    pub y: u16,
    pub width: u16,
    pub height: u16,
    pub pixels: Vec<u8>,
}

/// An RGB888 image, row by row, with the theme color picked for it.
pub struct ImageMatrix {
    pub width: u32,
    pub height: u32,
    pub theme_color: (u8, u8, u8),
    pub rgb_data: Vec<u8>,
}

/// A fresh vector with the same bytes.
pub fn copy_bytes(v: &Vec<u8>) -> (out: Vec<u8>)
    ensures
        out@ == v@,
{
    let mut out: Vec<u8> = Vec::new();
    let mut i: usize = 0;
    while i < v.len()
        invariant
            i <= v.len(),
            out@ == v@.take(i as int),
        decreases v.len() - i,
    {
        out.push(v[i]);
        i = i + 1;
        assert(v@.take(i as int) == v@.take(i - 1) + seq![v@[i - 1]]);
    }
    assert(v@.take(i as int) == v@);
    out
}

impl Clone for ImageMatrix {
    fn clone(&self) -> (out: Self)
        ensures
            out.width == self.width,
            out.height == self.height,
            out.theme_color == self.theme_color,
            out.rgb_data@ == self.rgb_data@,
    {
        ImageMatrix {
            width: self.width,
            height: self.height,
            theme_color: self.theme_color,
            rgb_data: copy_bytes(&self.rgb_data),
        }
    }
}

/// A grayscale dot matrix of rendered text.
pub struct TextMatrix {
    pub width: usize,
    pub height: usize,
    pub pixel_data: Vec<u8>,
}

/// A rectangular block of rendered text with its own position and size.
#[derive(Clone)]
pub struct TextLayer {
    pub x: i16,
    pub y: i16,
    pub width: u16,
    pub height: u16,
    pub is_active: u8,
    pub pixel_data: Vec<u8>,
    pub line_index: usize,
}

/// High bit of a lyric pixel: set for pixels of the active (current) line.
pub const LYRIC_PIXEL_ACTIVE_FLAG: u8 = 0x80;
/// Largest coverage level a lyric pixel stores.
pub const LYRIC_PIXEL_LEVEL_MAX: u16 = 0x7F;

/// 7-bit level of an 8-bit coverage: rounded to the nearest of 127 steps, but
/// never below 1.
pub open spec fn coverage_level(coverage: u8) -> u8 {
    let l = (coverage * 127 + 127) / 255;
    if l < 1 {
        1
    } else if l > 127 {
        127
    } else {
        l as u8
    }
}

/// The lyric pixel for a coverage: 0 for none, else its level, tagged with the
/// active flag for the active line.
pub open spec fn lyric_pixel(coverage: u8, is_active: bool) -> u8 {
    if coverage == 0 {
        0
    } else if is_active {
        (0x80u8 | coverage_level(coverage)) as u8
    } else {
        coverage_level(coverage)
    }
}

/// Active flag and 8-bit coverage of a lyric pixel (0 is inactive and empty).
pub open spec fn lyric_pixel_parts(pixel: u8) -> (bool, u8) {
    if pixel == 0 {
        (false, 0)
    } else {
        let is_active = (pixel & 0x80u8) != 0;
        let level = if is_active {
            pixel & 0x7fu8
        } else {
            pixel
        };
        let c = (level * 255 + 63) / 127;
        (is_active, if c > 255 {
            255u8
        } else {
            c as u8
        })
    }
}

/// Encoding a non-zero coverage gives a non-empty pixel that keeps the line tag
/// and is never the bare flag `0x80`.
pub proof fn lyric_pixel_keeps_tag(coverage: u8, is_active: bool)
    requires
        coverage > 0,
    ensures
        lyric_pixel(coverage, is_active) != 0,
        lyric_pixel(coverage, is_active) != 0x80,
        lyric_pixel_parts(lyric_pixel(coverage, is_active)).0 == is_active,
        lyric_pixel_parts(lyric_pixel(coverage, is_active)).1 > 0,
{
    let l = coverage_level(coverage);
    assert(1 <= l <= 127);
    if is_active {
        assert((0x80u8 | l) != 0 && (0x80u8 | l) != 0x80 && ((0x80u8 | l) & 0x80u8) != 0 && ((0x80u8
            | l) & 0x7fu8) == l) by (bit_vector)
            requires
                1 <= l <= 127,
        ;
    } else {
        assert((l & 0x80u8) == 0) by (bit_vector)
            requires
                1 <= l <= 127,
        ;
    }
}

/// Decoding a lyric pixel and encoding it again gives the same pixel, for every
/// pixel but the bare flag `0x80` (which encoding never produces).
pub proof fn lyric_pixel_round_trip(pixel: u8)
    requires
        pixel != 0x80,
    ensures
        lyric_pixel(lyric_pixel_parts(pixel).1, lyric_pixel_parts(pixel).0) == pixel,
{
    if pixel != 0 {
        let a = (pixel & 0x80u8) != 0;
        let level: u8 = if a {
            pixel & 0x7fu8
        } else {
            pixel
        };
        assert(level <= 127 && (a ==> pixel == (0x80u8 | level)) && (a ==> level >= 1)) by (
        bit_vector)
            requires
                pixel != 0,
                pixel != 0x80,
                a == ((pixel & 0x80u8) != 0),
                level == (if a {
                    pixel & 0x7fu8
                } else {
                    pixel
                }),
        ;
        let c = (level * 255 + 63) / 127;
        assert(1 <= level <= 127);
        assert(c <= 255 && c >= 1 && (c * 127 + 127) / 255 == level) by (nonlinear_arith)
            requires
                1 <= level <= 127,
                c == (level * 255 + 63) / 127,
        ;
    }
}

/// Encodes a coverage as a lyric pixel.
pub fn encode_lyric_pixel(coverage: u8, is_active: bool) -> (pixel: u8)
    ensures
        pixel == lyric_pixel(coverage, is_active),
{
    if coverage == 0 {
        return 0;
    }
    let raw: u16 = (coverage as u16 * LYRIC_PIXEL_LEVEL_MAX + 127) / 255;
    let level: u8 = if raw < 1 {
        1
    } else if raw > LYRIC_PIXEL_LEVEL_MAX {
        LYRIC_PIXEL_LEVEL_MAX as u8
    } else {
        raw as u8
    };
    if is_active {
        LYRIC_PIXEL_ACTIVE_FLAG | level
    } else {
        level
    }
}

/// Splits a lyric pixel into its active flag and 8-bit coverage.
pub fn decode_lyric_pixel(pixel: u8) -> (parts: (bool, u8))
    ensures
        parts == lyric_pixel_parts(pixel),
{
    if pixel == 0 {
        return (false, 0);
    }
    let is_active = (pixel & LYRIC_PIXEL_ACTIVE_FLAG) != 0;
    let level: u8 = if is_active {
        pixel & 0x7f
    } else {
        pixel
    };
    let c: u16 = (level as u16 * 255 + LYRIC_PIXEL_LEVEL_MAX / 2) / LYRIC_PIXEL_LEVEL_MAX;
    let coverage: u8 = if c > 255 {
        255
    } else {
        c as u8
    };
    (is_active, coverage)
}

/// The pixel a canvas holds after `pixel` is drawn over `current`: an empty
/// pixel changes nothing, an empty place takes the new pixel, the active line
/// wins over an inactive one, and within the same line the higher coverage wins.
pub open spec fn lyric_over(current: u8, pixel: u8) -> u8 {
    if pixel == 0 {
        current
    } else if current == 0 {
        pixel
    } else {
        let (ca, cc) = lyric_pixel_parts(current);
        let (na, nc) = lyric_pixel_parts(pixel);
        if na && !ca {
            pixel
        } else if na == ca && nc > cc {
            pixel
        } else {
            current
        }
    }
}

/// Draws `pixel` over the canvas pixel at `idx`.
pub fn put_lyric_pixel(canvas: &mut Vec<u8>, idx: usize, pixel: u8)
    requires
        idx < old(canvas)@.len(),
    ensures
        final(canvas)@ == old(canvas)@.update(idx as int, lyric_over(old(canvas)@[idx as int], pixel)),
{
    if pixel == 0 {
        return;
    }
    let current = canvas[idx];
    if current == 0 {
        canvas.set(idx, pixel);
        return;
    }
    let (current_active, current_coverage) = decode_lyric_pixel(current);
    let (next_active, next_coverage) = decode_lyric_pixel(pixel);
    if next_active && !current_active {
        canvas.set(idx, pixel);
    } else if next_active == current_active && next_coverage > current_coverage {
        canvas.set(idx, pixel);
    }
}

/// A lyric pixel with its coverage scaled by `weight`/255, keeping its line tag.
pub open spec fn scaled_lyric_pixel(pixel: u8, weight: u16) -> u8 {
    let (a, c) = lyric_pixel_parts(pixel);
    lyric_pixel(((c * weight) / 255) as u8, a)
}

/// Scales the coverage of a lyric pixel by `weight`/255.
pub fn scale_lyric_pixel(pixel: u8, weight: u16) -> (out: u8)
    requires
        lyric_pixel_parts(pixel).1 * weight <= u16::MAX,
    ensures
        out == scaled_lyric_pixel(pixel, weight),
{
    let (is_active, coverage) = decode_lyric_pixel(pixel);
    encode_lyric_pixel(#[verifier::truncate] (((coverage as u16 * weight) / 255) as u8), is_active)
}

/// Blend of two pixels of a scroll animation: both are scaled by their weights,
/// and the one with the higher scaled coverage is kept (the next one on a tie).
pub open spec fn mixed_lyric_pixel(prev: u8, prev_weight: u16, next: u8, next_weight: u16) -> u8 {
    let p = scaled_lyric_pixel(prev, prev_weight);
    let n = scaled_lyric_pixel(next, next_weight);
    if lyric_pixel_parts(n).1 >= lyric_pixel_parts(p).1 {
        n
    } else {
        p
    }
}

/// Blends a pixel of the previous frame with one of the next.
pub fn mix_transition_pixels(prev_pixel: u8, prev_weight: u16, next_pixel: u8, next_weight: u16) -> (out: u8)
    requires
        lyric_pixel_parts(prev_pixel).1 * prev_weight <= u16::MAX,
        lyric_pixel_parts(next_pixel).1 * next_weight <= u16::MAX,
    ensures
        out == mixed_lyric_pixel(prev_pixel, prev_weight, next_pixel, next_weight),
{
    let prev_scaled = scale_lyric_pixel(prev_pixel, prev_weight);
    let next_scaled = scale_lyric_pixel(next_pixel, next_weight);
    let (_, prev_coverage) = decode_lyric_pixel(prev_scaled);
    let (_, next_coverage) = decode_lyric_pixel(next_scaled);
    if next_coverage >= prev_coverage {
        next_scaled
    } else {
        prev_scaled
    }
}

} // verus!
