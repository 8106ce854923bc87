//! The metadata bitmap: title and artist layers drawn into the cleared area at
//! the top of the panel.
use vstd::prelude::*;
use crate::graphics::{encode_lyric_pixel, lyric_pixel, LyricBitmap, TextLayer};
use crate::link::{META_CLEAR_H, META_CLEAR_W, META_CLEAR_X, META_CLEAR_Y};
use crate::protocol::{
    has_ink, has_ink_at, ink_box, lemma_ink_box_exists, pack_meta_bitmap_cropped, smallest_bitmap_packet,
    PacketType,
};

verus! {

/// Width of the metadata canvas.
pub open spec fn meta_w() -> int {
    480
}

/// Height of the metadata canvas.
pub open spec fn meta_h() -> int {
    115
}

/// Encodes the alpha of a metadata glyph pixel as a tagged pixel (the same coding as lyric pixels).
pub fn encode_meta_pixel(alpha: u8, is_active: bool) -> (pixel: u8)
    ensures
        pixel == lyric_pixel(alpha, is_active),
{
    encode_lyric_pixel(alpha, is_active)
}

/// The pixel a metadata canvas holds after `pixel` is drawn over `current`: an
/// empty pixel changes nothing; otherwise the new pixel wins unless the current
/// one has a strictly higher level.
pub open spec fn meta_over(current: u8, pixel: u8) -> u8 {
    if pixel == 0 {
        current
    } else if current == 0 || (pixel & 0x7fu8) >= (current & 0x7fu8) {
        pixel
    } else {
        current
    }
}

/// Draws `pixel` over the canvas pixel at `idx`.
pub fn put_meta_pixel(canvas: &mut Vec<u8>, idx: usize, pixel: u8)
    requires
        idx < old(canvas)@.len(),
    ensures
        final(canvas)@ == old(canvas)@.update(idx as int, meta_over(old(canvas)@[idx as int], pixel)),
{
    if pixel == 0 {
        return;
    }
    let current = canvas[idx];
    if current == 0 || (pixel & 0x7F) >= (current & 0x7F) {
        canvas.set(idx, pixel);
    }
}

/// The index `k` below 65536 whose 16-bit two's complement value is `d`.
pub open spec fn unwrap16(d: int) -> int {
    if d >= 0 {
        d
    } else {
        d + 65536
    }
}

/// Row of `layer` that lands on metadata canvas row `cy`.
pub open spec fn meta_row(layer: TextLayer, cy: int) -> int {
    unwrap16(cy - layer.y)
}

/// Column of `layer` that lands on metadata canvas column `cx`.
pub open spec fn meta_col(layer: TextLayer, cx: int) -> int {
    unwrap16(cx - (layer.x - 320))
}

/// The pixel a layer puts at metadata canvas position (`cx`, `cy`): its glyph
/// alpha there, encoded, where the alpha is above 10; else 0.
pub open spec fn meta_contribution(layer: TextLayer, cx: int, cy: int) -> u8 {
    let row = meta_row(layer, cy);
    let col = meta_col(layer, cx);
    if layer.width > 0 && layer.height > 0 && row < layer.height && col < layer.width {
        let alpha = layer.pixel_data@[row * layer.width + col];
        if alpha > 10 {
            lyric_pixel(alpha, layer.is_active == 1)
        } else {
            0
        }
    } else {
        0
    }
}

/// Metadata canvas pixel at (`cx`, `cy`) after the first `n` layers are drawn.
pub open spec fn meta_pixel(layers: Seq<TextLayer>, n: int, cx: int, cy: int) -> u8
    decreases n,
{
    if n <= 0 {
        0
    } else {
        meta_over(meta_pixel(layers, n - 1, cx, cy), meta_contribution(layers[n - 1], cx, cy))
    }
}

/// The metadata canvas, row by row, with all layers drawn in order.
pub open spec fn meta_canvas(layers: Seq<TextLayer>) -> Seq<u8> {
    Seq::new(
        (meta_w() * meta_h()) as nat,
        |i: int| meta_pixel(layers, layers.len() as int, i % meta_w(), i / meta_w()),
    )
}

/// The 16-bit two's complement value of an index below 65536.
pub open spec fn wrap16(k: int) -> int {
    if k < 32768 {
        k
    } else {
        k - 65536
    }
}

proof fn lemma_wrap16(u: u16)
    ensures
        (u as i16) as int == wrap16(u as int),
        unwrap16(wrap16(u as int)) == u,
{
    assert((u < 32768u16 ==> (u as i16) as int == u as int) && (u >= 32768u16 ==> (u as i16) as int
        == u as int - 65536)) by (bit_vector);
}

/// Whether a layer can be drawn into the metadata area without 16-bit overflow
/// of its coordinates, and holds every pixel that lands on the area.
pub open spec fn meta_layer_fits(layer: TextLayer) -> bool {
    layer.width > 0 && layer.height > 0 ==> {
        &&& layer.x - 320 >= i16::MIN
        &&& forall|y: int|
            0 <= y < layer.height ==> i16::MIN <= layer.y + #[trigger] wrap16(y) <= i16::MAX
        &&& forall|dx: int|
            0 <= dx < layer.width ==> i16::MIN <= (layer.x - 320) + #[trigger] wrap16(dx)
                <= i16::MAX
        &&& forall|y: int, dx: int|
            0 <= y < layer.height && 0 <= dx < layer.width && 0 <= layer.y + wrap16(y) < meta_h()
                && 0 <= (layer.x - 320) + wrap16(dx) < meta_w() ==> #[trigger] (y * layer.width
                + dx) < layer.pixel_data@.len()
    }
}

/// Whether canvas pixel `i` comes from a place of the layer before (`y`, `dx`) in row-major order.
pub open spec fn meta_drawn_before(layer: TextLayer, i: int, y: int, dx: int) -> bool {
    let r = meta_row(layer, i / meta_w());
    let c = meta_col(layer, i % meta_w());
    r < y || (r == y && c < dx)
}

/// The canvas after the first `k` layers, and the part of layer `k` before (`y`, `dx`).
pub open spec fn meta_partial(layers: Seq<TextLayer>, k: int, y: int, dx: int) -> Seq<u8> {
    Seq::new(
        (meta_w() * meta_h()) as nat,
        |i: int|
            if meta_drawn_before(layers[k], i, y, dx) {
                meta_pixel(layers, k + 1, i % meta_w(), i / meta_w())
            } else {
                meta_pixel(layers, k, i % meta_w(), i / meta_w())
            },
    )
}

proof fn lemma_meta_index(x: int, y: int)
    requires
        0 <= x < meta_w(),
        0 <= y < meta_h(),
    ensures
        0 <= y * meta_w() + x < meta_w() * meta_h(),
        (y * meta_w() + x) % meta_w() == x,
        (y * meta_w() + x) / meta_w() == y,
{
}

/// Draws the metadata layers, in order, into the cleared area at the top of the panel.
pub fn compose_meta_bitmap(layers: &Vec<TextLayer>) -> (bitmap: LyricBitmap)
    requires
        forall|k: int| 0 <= k < layers@.len() ==> meta_layer_fits(#[trigger] layers@[k]),
    ensures
        bitmap.x == META_CLEAR_X,
        bitmap.y == META_CLEAR_Y,
        bitmap.width == META_CLEAR_W,
        bitmap.height == META_CLEAR_H,
        bitmap.pixels@ == meta_canvas(layers@),
{
    let width: usize = META_CLEAR_W as usize;
    let height: usize = META_CLEAR_H as usize;
    let mut pixels: Vec<u8> = vec![0u8; width * height];
    let ghost ls = layers@;
    assert(pixels@ =~= Seq::new((meta_w() * meta_h()) as nat, |i: int| meta_pixel(ls, 0, i % meta_w(), i / meta_w())));
    let mut k: usize = 0;
    while k < layers.len()
        invariant
            ls == layers@,
            k <= ls.len(),
            width == 480,
            height == 115,
            forall|j: int| 0 <= j < ls.len() ==> meta_layer_fits(#[trigger] ls[j]),
            pixels@ == Seq::new(
                (meta_w() * meta_h()) as nat,
                |i: int| meta_pixel(ls, k as int, i % meta_w(), i / meta_w()),
            ),
        decreases ls.len() - k,
    {
        let layer = &layers[k];
        assert(meta_layer_fits(*layer));
        if layer.width == 0 || layer.height == 0 {
            proof {
                assert forall|i: int| 0 <= i < meta_w() * meta_h() implies #[trigger] meta_pixel(ls, k + 1, i % meta_w(), i / meta_w())
                    == meta_pixel(ls, k as int, i % meta_w(), i / meta_w()) by {
                    assert(meta_contribution(ls[k as int], i % meta_w(), i / meta_w()) == 0);
                }
            }
            k = k + 1;
            assert(pixels@ =~= Seq::new(
                (meta_w() * meta_h()) as nat,
                |i: int| meta_pixel(ls, k as int, i % meta_w(), i / meta_w()),
            ));
            continue;
        }
        let draw_w: usize = layer.width as usize;
        let draw_x0: i16 = layer.x - META_CLEAR_X as i16;
        let is_active = layer.is_active == 1;
        assert(pixels@ =~= meta_partial(ls, k as int, 0, 0));
        let mut y: u16 = 0;
        while y < layer.height
            invariant
                ls == layers@,
                k < ls.len(),
                *layer == ls[k as int],
                meta_layer_fits(*layer),
                layer.width > 0,
                draw_w == layer.width,
                draw_x0 == layer.x - 320,
                is_active == (layer.is_active == 1),
                width == 480,
                height == 115,
                y <= layer.height,
                pixels@ == meta_partial(ls, k as int, y as int, 0),
            decreases layer.height - y,
        {
            proof {
                lemma_wrap16(y);
                assert(i16::MIN <= layer.y + wrap16(y as int) <= i16::MAX);
            }
            let dst_y: i16 = layer.y + (#[verifier::truncate] (y as i16));
            if dst_y < META_CLEAR_Y as i16 || dst_y >= (META_CLEAR_Y + META_CLEAR_H) as i16 {
                proof {
                    assert forall|i: int| 0 <= i < meta_w() * meta_h() implies #[trigger] pixels@[i] == meta_partial(ls, k as int, y + 1, 0)[i] by {
                        if meta_row(*layer, i / meta_w()) == y {
                            assert(i / meta_w() == dst_y);
                        }
                    }
                }
                y = y + 1;
                assert(pixels@ =~= meta_partial(ls, k as int, y as int, 0));
                continue;
            }
            let mut dx: usize = 0;
            while dx < draw_w
                invariant
                    ls == layers@,
                    k < ls.len(),
                    *layer == ls[k as int],
                    meta_layer_fits(*layer),
                    layer.width > 0,
                    draw_w == layer.width,
                    draw_x0 == layer.x - 320,
                    is_active == (layer.is_active == 1),
                    width == 480,
                    height == 115,
                    y < layer.height,
                    dx <= draw_w,
                    dst_y == layer.y + wrap16(y as int),
                    0 <= dst_y < 115,
                    pixels@ == meta_partial(ls, k as int, y as int, dx as int),
                decreases draw_w - dx,
            {
                proof {
                    lemma_wrap16(dx as u16);
                    assert(i16::MIN <= (layer.x - 320) + wrap16(dx as int) <= i16::MAX);
                }
                let dst_x: i16 = draw_x0 + (#[verifier::truncate] (dx as i16));
                if dst_x >= 0 && dst_x < META_CLEAR_W as i16 {
                    proof {
                        assert((dx as int * layer.width as int) / (draw_w as int) == dx) by (nonlinear_arith)
                            requires
                                draw_w == layer.width,
                                draw_w > 0,
                        ;
                        assert(dx * (layer.width as int) <= 65535 * 65535) by (nonlinear_arith)
                            requires
                                dx < layer.width,
                                layer.width <= 65535,
                        ;
                    }
                    let scaled: u32 = (dx as u32 * layer.width as u32) / draw_w as u32;
                    let src_x: usize = if scaled < layer.width as u32 - 1 {
                        scaled as usize
                    } else {
                        (layer.width as u32 - 1) as usize
                    };
                    assert(src_x == dx);
                    assert(y as int * layer.width as int + dx < layer.pixel_data@.len());
                    let n = layer.pixel_data.len();
                    assert(y as int * layer.width as int >= 0) by (nonlinear_arith)
                        requires
                            y >= 0,
                    ;
                    let src_idx: usize = y as usize * layer.width as usize + src_x;
                    let alpha = layer.pixel_data[src_idx];
                    let ghost before = pixels@;
                    let dst_idx: usize = dst_y as usize * width + dst_x as usize;
                    proof {
                        lemma_meta_index(dst_x as int, dst_y as int);
                        assert(meta_row(*layer, dst_y as int) == y);
                        assert(meta_col(*layer, dst_x as int) == dx);
                    }
                    if alpha > 10 {
                        let pixel = encode_meta_pixel(alpha, is_active);
                        assert(meta_contribution(*layer, dst_x as int, dst_y as int) == pixel);
                        put_meta_pixel(&mut pixels, dst_idx, pixel);
                    } else {
                        assert(meta_contribution(*layer, dst_x as int, dst_y as int) == 0);
                    }
                    proof {
                        assert forall|i: int| 0 <= i < meta_w() * meta_h() implies #[trigger] pixels@[i] == meta_partial(ls, k as int, y as int, dx + 1)[i] by {
                            if i != dst_idx {
                                if meta_drawn_before(*layer, i, y as int, dx + 1) && !meta_drawn_before(*layer, i, y as int, dx as int) {
                                    assert(meta_row(*layer, i / meta_w()) == y);
                                    assert(meta_col(*layer, i % meta_w()) == dx);
                                    assert(i / meta_w() == dst_y);
                                    assert(i % meta_w() == dst_x);
                                    assert(i == (i / meta_w()) * meta_w() + i % meta_w());
                                }
                            }
                        }
                    }
                } else {
                    proof {
                        assert forall|i: int| 0 <= i < meta_w() * meta_h() implies #[trigger] pixels@[i] == meta_partial(ls, k as int, y as int, dx + 1)[i] by {
                            if meta_drawn_before(*layer, i, y as int, dx + 1) && !meta_drawn_before(*layer, i, y as int, dx as int) {
                                assert(meta_col(*layer, i % meta_w()) == dx);
                                assert(i % meta_w() == dst_x);
                            }
                        }
                    }
                }
                dx = dx + 1;
                assert(pixels@ =~= meta_partial(ls, k as int, y as int, dx as int));
            }
            proof {
                assert forall|i: int| 0 <= i < meta_w() * meta_h() implies #[trigger] pixels@[i] == meta_partial(ls, k as int, y + 1, 0)[i] by {
                    if meta_row(*layer, i / meta_w()) == y && meta_col(*layer, i % meta_w()) >= layer.width {
                        assert(meta_contribution(*layer, i % meta_w(), i / meta_w()) == 0);
                    }
                }
            }
            y = y + 1;
            assert(pixels@ =~= meta_partial(ls, k as int, y as int, 0));
        }
        proof {
            assert forall|i: int| 0 <= i < meta_w() * meta_h() implies #[trigger] pixels@[i] == meta_pixel(ls, k + 1, i % meta_w(), i / meta_w()) by {
                if !meta_drawn_before(*layer, i, layer.height as int, 0) {
                    assert(meta_contribution(*layer, i % meta_w(), i / meta_w()) == 0);
                }
            }
        }
        k = k + 1;
        assert(pixels@ =~= Seq::new(
            (meta_w() * meta_h()) as nat,
            |i: int| meta_pixel(ls, k as int, i % meta_w(), i / meta_w()),
        ));
    }
    LyricBitmap { x: META_CLEAR_X, y: META_CLEAR_Y, width: META_CLEAR_W, height: META_CLEAR_H, pixels }
}


/// The metadata bitmap of the panel's cleared top area drawn from `layers`.
pub open spec fn is_meta_bitmap_of(bitmap: LyricBitmap, layers: Seq<TextLayer>) -> bool {
    &&& bitmap.x == META_CLEAR_X
    &&& bitmap.y == META_CLEAR_Y
    &&& bitmap.width == META_CLEAR_W
    &&& bitmap.height == META_CLEAR_H
    &&& bitmap.pixels@ == meta_canvas(layers)
}

/// Packs the metadata layers as the cropped metadata packet queued for the panel.
pub fn pack_meta_layers(layers: &Vec<TextLayer>) -> (packet: Vec<u8>)
    requires
        forall|k: int| 0 <= k < layers@.len() ==> meta_layer_fits(#[trigger] layers@[k]),
    ensures
        exists|bitmap: LyricBitmap|
            #[trigger] is_meta_bitmap_of(bitmap, layers@)
                && packet@ == smallest_bitmap_packet(bitmap, PacketType::MetaBitmap),
{
    let bitmap = compose_meta_bitmap(layers);
    proof {
        if has_ink(bitmap) {
            lemma_ink_box_exists(bitmap);
            let b = ink_box(bitmap);
            let yl = choose|y: int| #[trigger] has_ink_at(bitmap, b.0, y);
            let xt = choose|x: int| #[trigger] has_ink_at(bitmap, x, b.1);
        }
        assert(is_meta_bitmap_of(bitmap, layers@));
    }
    pack_meta_bitmap_cropped(&bitmap)
}

} // verus!
