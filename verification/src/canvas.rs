//! The lyric canvas: text layers drawn onto a fixed-size tagged bitmap, its
//! feathered top and bottom edges, and the frames of a scroll animation.
use vstd::prelude::*;
use crate::text::{normalize_lyric_entry, normalized_entry};
use crate::lyrics::{all_blank, all_lines_blank};
use crate::protocol::{
    has_ink, has_ink_at, ink_box, lemma_ink_box_exists, pack_lyric_bitmap_cropped,
    pack_lyric_bitmap_refresh_cropped, smallest_bitmap_packet, PacketType,
};
use crate::graphics::{
    lyric_pixel_keeps_tag, lyric_pixel_round_trip,
    mix_transition_pixels, mixed_lyric_pixel, scale_lyric_pixel, scaled_lyric_pixel, LYRIC_ANIMATION_FRAMES,
    decode_lyric_pixel, encode_lyric_pixel, lyric_over, lyric_pixel, lyric_pixel_parts,
    put_lyric_pixel, LyricBitmap, TextLayer, LYRIC_BITMAP_HEIGHT, LYRIC_BITMAP_WIDTH,
    LYRIC_BITMAP_X, LYRIC_BITMAP_Y,
};

verus! {

/// Width of the lyric canvas.
pub open spec fn canvas_w() -> int {
    440
}

/// Height of the lyric canvas.
pub open spec fn canvas_h() -> int {
    305
}

/// Source byte of a layer at (`row`, `col`); a layer whose pixel data is too short
/// for its size reads as empty there.
pub open spec fn layer_source(layer: TextLayer, row: int, col: int) -> u8 {
    let i = row * layer.width + col;
    if 0 <= i < layer.pixel_data@.len() {
        layer.pixel_data@[i]
    } else {
        0
    }
}

/// The lyric pixel a layer puts at canvas position (`dx`, `dy`), or 0 where it does not reach.
pub open spec fn layer_contribution(layer: TextLayer, dx: int, dy: int) -> u8 {
    let row = dy + 115 - layer.y;
    let col = dx + 360 - layer.x;
    if 0 <= row < layer.height && 0 <= col < layer.width {
        lyric_pixel(layer_source(layer, row, col), layer.is_active == 1)
    } else {
        0
    }
}

/// Canvas pixel at (`dx`, `dy`) after the first `n` layers are drawn in order.
pub open spec fn composed_pixel(layers: Seq<TextLayer>, n: int, dx: int, dy: int) -> u8
    decreases n,
{
    if n <= 0 {
        0
    } else {
        lyric_over(composed_pixel(layers, n - 1, dx, dy), layer_contribution(layers[n - 1], dx, dy))
    }
}

/// The canvas, row by row, with all layers drawn in order.
pub open spec fn composed_canvas(layers: Seq<TextLayer>) -> Seq<u8> {
    Seq::new(
        (canvas_w() * canvas_h()) as nat,
        |i: int| composed_pixel(layers, layers.len() as int, i % canvas_w(), i / canvas_w()),
    )
}

/// Whether the canvas pixel `i` comes from a layer place before (`row`, `col`) in
/// row-major order.
pub open spec fn drawn_before(layer: TextLayer, i: int, row: int, col: int) -> bool {
    let r = i / canvas_w() + 115 - layer.y;
    let c = i % canvas_w() + 360 - layer.x;
    r < row || (r == row && c < col)
}

proof fn lemma_canvas_index(x: int, y: int)
    requires
        0 <= x < canvas_w(),
        0 <= y < canvas_h(),
    ensures
        0 <= y * canvas_w() + x < canvas_w() * canvas_h(),
        (y * canvas_w() + x) % canvas_w() == x,
        (y * canvas_w() + x) / canvas_w() == y,
{
}

/// Draws all layers, in order, on an empty canvas.
pub fn compose_lyric_canvas(layers: &Vec<TextLayer>) -> (canvas: Vec<u8>)
    ensures
        canvas@ == composed_canvas(layers@),
{
    let w: usize = LYRIC_BITMAP_WIDTH as usize;
    let h: usize = LYRIC_BITMAP_HEIGHT as usize;
    let mut canvas: Vec<u8> = vec![0u8; w * h];
    let ghost ls = layers@;
    let mut k: usize = 0;
    assert(canvas@ =~= Seq::new((canvas_w() * canvas_h()) as nat, |i: int| composed_pixel(ls, 0, i % canvas_w(), i / canvas_w())));
    while k < layers.len()
        invariant
            ls == layers@,
            k <= layers.len(),
            w == 440,
            h == 305,
            canvas@ == Seq::new(
                (canvas_w() * canvas_h()) as nat,
                |i: int| composed_pixel(ls, k as int, i % canvas_w(), i / canvas_w()),
            ),
        decreases layers.len() - k,
    {
        let layer = &layers[k];
        let is_active = layer.is_active == 1;
        let mut row: u16 = 0;
        while row < layer.height
            invariant
                ls == layers@,
                k < layers.len(),
                *layer == ls[k as int],
                is_active == (layer.is_active == 1),
                w == 440,
                h == 305,
                row <= layer.height,
                canvas@.len() == canvas_w() * canvas_h(),
                forall|i: int|
                    0 <= i < canvas_w() * canvas_h() ==> #[trigger] canvas@[i] == if drawn_before(
                        *layer,
                        i,
                        row as int,
                        0,
                    ) {
                        composed_pixel(ls, k + 1, i % canvas_w(), i / canvas_w())
                    } else {
                        composed_pixel(ls, k as int, i % canvas_w(), i / canvas_w())
                    },
            decreases layer.height - row,
        {
            let dst_y: i32 = layer.y as i32 + row as i32 - LYRIC_BITMAP_Y as i32;
            if dst_y >= 0 && dst_y < LYRIC_BITMAP_HEIGHT as i32 {
                let mut col: u16 = 0;
                while col < layer.width
                    invariant
                        ls == layers@,
                        k < layers.len(),
                        *layer == ls[k as int],
                        is_active == (layer.is_active == 1),
                        w == 440,
                        h == 305,
                        row < layer.height,
                        col <= layer.width,
                        dst_y == layer.y + row - 115,
                        0 <= dst_y < 305,
                        canvas@.len() == canvas_w() * canvas_h(),
                        forall|i: int|
                            0 <= i < canvas_w() * canvas_h() ==> #[trigger] canvas@[i] == if drawn_before(
                                *layer,
                                i,
                                row as int,
                                col as int,
                            ) {
                                composed_pixel(ls, k + 1, i % canvas_w(), i / canvas_w())
                            } else {
                                composed_pixel(ls, k as int, i % canvas_w(), i / canvas_w())
                            },
                    decreases layer.width - col,
                {
                    let dst_x: i32 = layer.x as i32 + col as i32 - LYRIC_BITMAP_X as i32;
                    if dst_x >= 0 && dst_x < LYRIC_BITMAP_WIDTH as i32 {
                        assert(row as int * layer.width as int + col as int <= 65535 * 65535) by (nonlinear_arith)
                            requires
                                row < 65535,
                                col < layer.width,
                                layer.width <= 65535,
                        ;
                        let src_idx: usize = row as usize * layer.width as usize + col as usize;
                        let source: u8 = if src_idx < layer.pixel_data.len() {
                            layer.pixel_data[src_idx]
                        } else {
                            0
                        };
                        let pixel = encode_lyric_pixel(source, is_active);
                        let dst_idx: usize = dst_y as usize * w + dst_x as usize;
                        proof {
                            lemma_canvas_index(dst_x as int, dst_y as int);
                            assert(layer_contribution(*layer, dst_x as int, dst_y as int) == pixel);
                        }
                        let ghost before = canvas@;
                        put_lyric_pixel(&mut canvas, dst_idx, pixel);
                        proof {
                            assert forall|i: int| 0 <= i < canvas_w() * canvas_h() implies #[trigger] canvas@[i] == if drawn_before(
                                *layer,
                                i,
                                row as int,
                                col + 1,
                            ) {
                                composed_pixel(ls, k + 1, i % canvas_w(), i / canvas_w())
                            } else {
                                composed_pixel(ls, k as int, i % canvas_w(), i / canvas_w())
                            } by {
                                if i == dst_idx {
                                } else {
                                    assert(before[i] == canvas@[i]);
                                    if drawn_before(*layer, i, row as int, col + 1) && !drawn_before(*layer, i, row as int, col as int) {
                                        // same source place would mean the same canvas place
                                        assert(i / canvas_w() == dst_y);
                                        assert(i % canvas_w() == dst_x);
                                        assert(i == (i / canvas_w()) * canvas_w() + i % canvas_w());
                                    }
                                }
                            }
                        }
                    } else {
                        proof {
                            assert forall|i: int| 0 <= i < canvas_w() * canvas_h() implies #[trigger] canvas@[i] == if drawn_before(
                                *layer,
                                i,
                                row as int,
                                col + 1,
                            ) {
                                composed_pixel(ls, k + 1, i % canvas_w(), i / canvas_w())
                            } else {
                                composed_pixel(ls, k as int, i % canvas_w(), i / canvas_w())
                            } by {
                                if drawn_before(*layer, i, row as int, col + 1) && !drawn_before(*layer, i, row as int, col as int) {
                                    assert(i % canvas_w() == dst_x);
                                }
                            }
                        }
                    }
                    col = col + 1;
                }
                proof {
                    assert forall|i: int| 0 <= i < canvas_w() * canvas_h() implies #[trigger] canvas@[i] == if drawn_before(
                        *layer,
                        i,
                        row + 1,
                        0,
                    ) {
                        composed_pixel(ls, k + 1, i % canvas_w(), i / canvas_w())
                    } else {
                        composed_pixel(ls, k as int, i % canvas_w(), i / canvas_w())
                    } by {
                        let c = i % canvas_w() + 360 - layer.x;
                        let r = i / canvas_w() + 115 - layer.y;
                        if r == row && c >= layer.width {
                            // outside the layer: it leaves the pixel alone
                            assert(layer_contribution(*layer, i % canvas_w(), i / canvas_w()) == 0);
                        }
                        if r == row && c < 0 {
                            assert(layer_contribution(*layer, i % canvas_w(), i / canvas_w()) == 0);
                        }
                    }
                }
            } else {
                proof {
                    assert forall|i: int| 0 <= i < canvas_w() * canvas_h() implies #[trigger] canvas@[i] == if drawn_before(
                        *layer,
                        i,
                        row + 1,
                        0,
                    ) {
                        composed_pixel(ls, k + 1, i % canvas_w(), i / canvas_w())
                    } else {
                        composed_pixel(ls, k as int, i % canvas_w(), i / canvas_w())
                    } by {
                        let r = i / canvas_w() + 115 - layer.y;
                        if r == row {
                            assert(i / canvas_w() == dst_y);
                        }
                    }
                }
            }
            row = row + 1;
        }
        proof {
            assert forall|i: int| 0 <= i < canvas_w() * canvas_h() implies #[trigger] canvas@[i] == composed_pixel(
                ls,
                k + 1,
                i % canvas_w(),
                i / canvas_w(),
            ) by {
                let r = i / canvas_w() + 115 - layer.y;
                if !drawn_before(*layer, i, layer.height as int, 0) {
                    assert(r >= layer.height);
                    assert(layer_contribution(*layer, i % canvas_w(), i / canvas_w()) == 0);
                }
            }
        }
        k = k + 1;
        assert(canvas@ =~= Seq::new(
            (canvas_w() * canvas_h()) as nat,
            |i: int| composed_pixel(ls, k as int, i % canvas_w(), i / canvas_w()),
        ));
    }
    canvas
}

/// Coverage `coverage` faded by the smoothstep ramp `t²(3h - 2t)/h³` at step `t` of
/// `h`, rounded to the nearest integer (halves up).
pub open spec fn ramp(coverage: int, t: int, h: int) -> int {
    (2 * coverage * (t * t * (3 * h - 2 * t)) + h * h * h) / (2 * (h * h * h))
}

/// A lyric pixel faded by the ramp at step `t` of `h`, keeping its line tag.
pub open spec fn faded(pixel: u8, t: int, h: int) -> u8 {
    let (a, c) = lyric_pixel_parts(pixel);
    lyric_pixel(ramp(c as int, t, h) as u8, a)
}

/// A feather height, capped at half the canvas height.
pub open spec fn feather_cap(n: int) -> int {
    if n < 152 {
        n
    } else {
        152
    }
}

/// Canvas pixel of row `y` after feathering: rows within `top` of the top edge
/// fade in along the ramp, rows within `bottom` of the bottom edge fade out, and
/// the rest stay as they are.
pub open spec fn feather_pixel(pixel: u8, y: int, top: int, bottom: int) -> u8 {
    let top = feather_cap(top);
    let bottom = feather_cap(bottom);
    if top > 0 && y < top {
        faded(pixel, y, top)
    } else if bottom > 0 && canvas_h() - 1 - y < bottom {
        faded(pixel, canvas_h() - 1 - y, bottom)
    } else {
        pixel
    }
}

/// The whole canvas after feathering; bytes past the canvas stay as they are.
pub open spec fn feathered_canvas(canvas: Seq<u8>, top: int, bottom: int) -> Seq<u8> {
    Seq::new(
        canvas.len(),
        |i: int|
            if i < canvas_w() * canvas_h() {
                feather_pixel(canvas[i], i / canvas_w(), top, bottom)
            } else {
                canvas[i]
            },
    )
}

fn fade_pixel(pixel: u8, t: u64, h: u64) -> (out: u8)
    requires
        1 <= h <= 152,
        t < h,
    ensures
        out == faded(pixel, t as int, h as int),
{
    let (is_active, coverage) = decode_lyric_pixel(pixel);
    let c = coverage as u64;
    assert(t * t <= 152 * 152) by (nonlinear_arith)
        requires
            t < 152,
    ;
    let tt: u64 = t * t;
    assert(tt * (3 * h - 2 * t) <= 152 * 152 * 456) by (nonlinear_arith)
        requires
            tt <= 152 * 152,
            3 * h - 2 * t <= 456,
    ;
    let shape: u64 = tt * (3 * h - 2 * t);
    assert(2 * c * shape <= 2 * 255 * (152 * 152 * 456)) by (nonlinear_arith)
        requires
            c <= 255,
            shape <= 152 * 152 * 456,
    ;
    assert(h * h <= 152 * 152) by (nonlinear_arith)
        requires
            h <= 152,
    ;
    let hh: u64 = h * h;
    assert(hh * h <= 152 * 152 * 152 && hh * h >= 1) by (nonlinear_arith)
        requires
            1 <= h <= 152,
            hh == h * h,
    ;
    let cube: u64 = hh * h;
    let value: u64 = (2 * c * shape + cube) / (2 * cube);
    assert(tt * (3 * h - 2 * t) == t * t * (3 * h - 2 * t));
    encode_lyric_pixel(#[verifier::truncate] (value as u8), is_active)
}

/// Fades the top `top_feather_height` and bottom `bottom_feather_height` rows of a
/// lyric canvas (each capped at half its height) along a smoothstep ramp.
pub fn apply_vertical_edge_feather(
    canvas: &mut Vec<u8>,
    top_feather_height: usize,
    bottom_feather_height: usize,
)
    requires
        old(canvas)@.len() >= canvas_w() * canvas_h(),
    ensures
        final(canvas)@ == feathered_canvas(
            old(canvas)@,
            top_feather_height as int,
            bottom_feather_height as int,
        ),
{
    let ghost start = canvas@;
    if top_feather_height == 0 && bottom_feather_height == 0 {
        assert(canvas@ =~= feathered_canvas(start, 0, 0));
        return;
    }
    let width: usize = LYRIC_BITMAP_WIDTH as usize;
    let height: usize = LYRIC_BITMAP_HEIGHT as usize;
    let top: usize = if top_feather_height < height / 2 {
        top_feather_height
    } else {
        height / 2
    };
    let bottom: usize = if bottom_feather_height < height / 2 {
        bottom_feather_height
    } else {
        height / 2
    };
    let mut i: usize = 0;
    while i < width * height
        invariant
            width == 440,
            height == 305,
            top == feather_cap(top_feather_height as int),
            bottom == feather_cap(bottom_feather_height as int),
            i <= width * height,
            start.len() >= width * height,
            canvas@.len() == start.len(),
            forall|j: int|
                0 <= j < canvas@.len() ==> #[trigger] canvas@[j] == if j < i {
                    feathered_canvas(start, top_feather_height as int, bottom_feather_height as int)[j]
                } else {
                    start[j]
                },
        decreases width * height - i,
    {
        let y = i / width;
        let pixel = canvas[i];
        let out: u8 = if top > 0 && y < top {
            fade_pixel(pixel, y as u64, top as u64)
        } else if bottom > 0 && height - 1 - y < bottom {
            fade_pixel(pixel, (height - 1 - y) as u64, bottom as u64)
        } else {
            pixel
        };
        canvas.set(i, out);
        i = i + 1;
    }
    assert(canvas@ =~= feathered_canvas(start, top_feather_height as int, bottom_feather_height as int));
}

/// Height of the faded band at the top of the lyric canvas: half an inactive
/// line (26 px text at 1.3 line height), rounded.
pub const LYRIC_TOP_FEATHER: usize = 17;
/// Height of the faded band at the bottom of the lyric canvas: one inactive line, rounded.
pub const LYRIC_BOTTOM_FEATHER: usize = 34;

/// The layers a renderer's answer stands for: none when it could not render.
pub open spec fn rendered_layers(r: Option<Vec<TextLayer>>) -> Seq<TextLayer> {
    match r {
        Some(v) => v@,
        None => Seq::empty(),
    }
}

/// Pixels of the lyric bitmap drawn from `layers`: the layers composed on the
/// canvas, then its edges feathered.
pub open spec fn lyric_bitmap_pixels(layers: Seq<TextLayer>) -> Seq<u8> {
    feathered_canvas(composed_canvas(layers), 17, 34)
}

/// Whether `normalized` holds the normalized form of each entry of `lines`.
pub open spec fn normalizes(lines: Seq<String>, normalized: Seq<String>) -> bool {
    &&& normalized.len() == lines.len()
    &&& forall|i: int| 0 <= i < lines.len() ==> #[trigger] normalized[i]@ == normalized_entry(lines[i]@)
}

/// Normalizes every lyric entry (see `normalize_lyric_entry`).
pub fn normalize_lyric_lines(lines: &Vec<String>) -> (out: Vec<String>)
    ensures
        normalizes(lines@, out@),
{
    let mut out: Vec<String> = Vec::new();
    let mut i: usize = 0;
    while i < lines.len()
        invariant
            i <= lines.len(),
            out@.len() == i,
            forall|j: int| 0 <= j < i ==> #[trigger] out@[j]@ == normalized_entry(lines@[j]@),
        decreases lines.len() - i,
    {
        out.push(normalize_lyric_entry(lines[i].as_str()));
        i = i + 1;
    }
    out
}

/// Draws the lyric bitmap for `lines` (the centre entry is the active line):
/// normalizes the entries, asks `render` for their text layers, draws them on the
/// fixed canvas, and feathers its top and bottom edges. A renderer that gives no
/// layers leaves the canvas empty.
pub fn generate_lyric_bitmap<F: Fn(&Vec<String>) -> Option<Vec<TextLayer>>>(
    lines: &Vec<String>,
    render: F,
) -> (bitmap: LyricBitmap)
    requires
        forall|v: &Vec<String>| #[trigger] call_requires(render, (v,)),
    ensures
        bitmap.x == LYRIC_BITMAP_X,
        bitmap.y == LYRIC_BITMAP_Y,
        bitmap.width == LYRIC_BITMAP_WIDTH,
        bitmap.height == LYRIC_BITMAP_HEIGHT,
        drawn_from(render, lines@, bitmap),
{
    let normalized = normalize_lyric_lines(lines);
    let rendered = render(&normalized);
    let layers: Vec<TextLayer> = match rendered {
        Some(v) => v,
        None => Vec::new(),
    };
    let mut canvas = compose_lyric_canvas(&layers);
    apply_vertical_edge_feather(&mut canvas, LYRIC_TOP_FEATHER, LYRIC_BOTTOM_FEATHER);
    let bitmap = LyricBitmap {
        x: LYRIC_BITMAP_X,
        y: LYRIC_BITMAP_Y,
        width: LYRIC_BITMAP_WIDTH,
        height: LYRIC_BITMAP_HEIGHT,
        pixels: canvas,
    };
    assert(is_lyric_bitmap_of(bitmap, rendered_layers(rendered)));
    bitmap
}

/// Whether `bitmap` is a lyric bitmap that `generate_lyric_bitmap` may draw for
/// `lines` with `render`: the one drawn from the renderer's answer on the
/// normalized lines.
pub open spec fn drawn_from<F: Fn(&Vec<String>) -> Option<Vec<TextLayer>>>(
    render: F,
    lines: Seq<String>,
    bitmap: LyricBitmap,
) -> bool {
    exists|normalized: Vec<String>, r: Option<Vec<TextLayer>>|
        #![trigger call_ensures(render, (&normalized,), r)]
        normalizes(lines, normalized@) && call_ensures(render, (&normalized,), r) && is_lyric_bitmap_of(
            bitmap,
            rendered_layers(r),
        )
}

/// Whether two lists of lines hold the same texts.
pub open spec fn same_texts(a: Seq<String>, b: Seq<String>) -> bool {
    a.len() == b.len() && forall|i: int| 0 <= i < a.len() ==> #[trigger] a[i]@ == b[i]@
}

/// Whether two lists of lyric entries normalize to the same texts.
pub open spec fn normalize_alike(a: Seq<String>, b: Seq<String>) -> bool {
    a.len() == b.len() && forall|i: int| 0 <= i < a.len() ==> #[trigger] normalized_entry(a[i]@) == normalized_entry(
        b[i]@,
    )
}

/// Whether two lists of text layers have the same places, sizes, tags and pixels.
pub open spec fn same_layers(a: Seq<TextLayer>, b: Seq<TextLayer>) -> bool {
    &&& a.len() == b.len()
    &&& forall|i: int|
        0 <= i < a.len() ==> {
            &&& (#[trigger] a[i]).x == b[i].x
            &&& a[i].y == b[i].y
            &&& a[i].width == b[i].width
            &&& a[i].height == b[i].height
            &&& a[i].is_active == b[i].is_active
            &&& a[i].pixel_data@ == b[i].pixel_data@
        }
}

/// Whether a renderer draws the same layers for lines with the same texts.
pub open spec fn answers_alike<F: Fn(&Vec<String>) -> Option<Vec<TextLayer>>>(render: F) -> bool {
    forall|v1: &Vec<String>, v2: &Vec<String>, r1: Option<Vec<TextLayer>>, r2: Option<Vec<TextLayer>>|
        #![trigger call_ensures(render, (v1,), r1), call_ensures(render, (v2,), r2)]
        same_texts(v1@, v2@) && call_ensures(render, (v1,), r1) && call_ensures(render, (v2,), r2)
            ==> same_layers(rendered_layers(r1), rendered_layers(r2))
}

proof fn lemma_same_layers_compose(a: Seq<TextLayer>, b: Seq<TextLayer>, n: int, dx: int, dy: int)
    requires
        same_layers(a, b),
        n <= a.len(),
    ensures
        composed_pixel(a, n, dx, dy) == composed_pixel(b, n, dx, dy),
    decreases n,
{
    if n > 0 {
        lemma_same_layers_compose(a, b, n - 1, dx, dy);
        let la = a[n - 1];
        let lb = b[n - 1];
        assert(la.x == lb.x && la.y == lb.y && la.width == lb.width && la.height == lb.height);
        assert(layer_contribution(la, dx, dy) == layer_contribution(lb, dx, dy));
    }
}

/// Lines that normalize to the same texts draw the same lyric bitmap, with a
/// renderer that draws the same layers for the same texts.
pub proof fn alike_lines_draw_alike<F: Fn(&Vec<String>) -> Option<Vec<TextLayer>>>(
    render: F,
    lines: Seq<String>,
    other: Seq<String>,
    bitmap: LyricBitmap,
    other_bitmap: LyricBitmap,
)
    requires
        normalize_alike(lines, other),
        answers_alike(render),
        drawn_from(render, lines, bitmap),
        drawn_from(render, other, other_bitmap),
    ensures
        bitmap.pixels@ == other_bitmap.pixels@,
        bitmap.x == other_bitmap.x && bitmap.y == other_bitmap.y,
        bitmap.width == other_bitmap.width && bitmap.height == other_bitmap.height,
{
    let (n1, r1) = choose|normalized: Vec<String>, r: Option<Vec<TextLayer>>|
        #![trigger call_ensures(render, (&normalized,), r)]
        normalizes(lines, normalized@) && call_ensures(render, (&normalized,), r) && is_lyric_bitmap_of(
            bitmap,
            rendered_layers(r),
        );
    let (n2, r2) = choose|normalized: Vec<String>, r: Option<Vec<TextLayer>>|
        #![trigger call_ensures(render, (&normalized,), r)]
        normalizes(other, normalized@) && call_ensures(render, (&normalized,), r) && is_lyric_bitmap_of(
            other_bitmap,
            rendered_layers(r),
        );
    assert(same_texts(n1@, n2@)) by {
        assert forall|i: int| 0 <= i < n1@.len() implies #[trigger] n1@[i]@ == n2@[i]@ by {
            assert(n1@[i]@ == normalized_entry(lines[i]@));
            assert(n2@[i]@ == normalized_entry(other[i]@));
            assert(normalized_entry(lines[i]@) == normalized_entry(other[i]@));
        }
    }
    assert(call_ensures(render, (&n1,), r1));
    assert(call_ensures(render, (&n2,), r2));
    let la = rendered_layers(r1);
    let lb = rendered_layers(r2);
    assert(same_layers(la, lb));
    assert(composed_canvas(la) =~= composed_canvas(lb)) by {
        assert forall|i: int| 0 <= i < composed_canvas(la).len() implies #[trigger] composed_canvas(la)[i]
            == composed_canvas(lb)[i] by {
            lemma_same_layers_compose(la, lb, la.len() as int, i % canvas_w(), i / canvas_w());
        }
    }
}

/// A lyric bitmap of the fixed size and place whose pixels are drawn from `layers`.
pub open spec fn is_lyric_bitmap_of(bitmap: LyricBitmap, layers: Seq<TextLayer>) -> bool {
    &&& bitmap.x == LYRIC_BITMAP_X
    &&& bitmap.y == LYRIC_BITMAP_Y
    &&& bitmap.width == LYRIC_BITMAP_WIDTH
    &&& bitmap.height == LYRIC_BITMAP_HEIGHT
    &&& bitmap.pixels@ == lyric_bitmap_pixels(layers)
}

/// Packet kind of a lyric message: a refresh packet redraws in place.
pub open spec fn lyric_message_kind(refresh_only: bool) -> PacketType {
    if refresh_only {
        PacketType::LyricBitmapRefresh
    } else {
        PacketType::LyricBitmap
    }
}

/// Packs the lines of one lyric message: nothing when every line is blank, else
/// the lyric bitmap drawn from them (see `generate_lyric_bitmap`) as a cropped
/// lyric packet, or as a refresh packet when `refresh_only`.
pub fn pack_lyric_message<F: Fn(&Vec<String>) -> Option<Vec<TextLayer>>>(
    lines: &Vec<String>,
    refresh_only: bool,
    render: F,
) -> (packet: Option<Vec<u8>>)
    requires
        forall|v: &Vec<String>| #[trigger] call_requires(render, (v,)),
    ensures
        packet is None <==> all_blank(lines@),
        packet matches Some(p) ==> exists|normalized: Vec<String>, r: Option<Vec<TextLayer>>, bitmap: LyricBitmap|
            #![trigger call_ensures(render, (&normalized,), r), is_lyric_bitmap_of(bitmap, rendered_layers(r))]
            normalizes(lines@, normalized@) && call_ensures(render, (&normalized,), r)
                && is_lyric_bitmap_of(bitmap, rendered_layers(r))
                && p@ == smallest_bitmap_packet(bitmap, lyric_message_kind(refresh_only)),
{
    if all_lines_blank(lines) {
        return None;
    }
    let bitmap = generate_lyric_bitmap(lines, render);
    proof {
        let (normalized, r) = choose|normalized: Vec<String>, r: Option<Vec<TextLayer>>|
            #![trigger call_ensures(render, (&normalized,), r)]
            normalizes(lines@, normalized@) && call_ensures(render, (&normalized,), r)
                && is_lyric_bitmap_of(bitmap, rendered_layers(r));
        lyric_bitmap_has_fixed_size(rendered_layers(r));
        if has_ink(bitmap) {
            lemma_ink_box_exists(bitmap);
            let b = ink_box(bitmap);
            let yl = choose|y: int| #[trigger] has_ink_at(bitmap, b.0, y);
            let xt = choose|x: int| #[trigger] has_ink_at(bitmap, x, b.1);
        }
        assert(is_lyric_bitmap_of(bitmap, rendered_layers(r)));
    }
    let packet = if refresh_only {
        pack_lyric_bitmap_refresh_cropped(&bitmap)
    } else {
        pack_lyric_bitmap_cropped(&bitmap)
    };
    Some(packet)
}

/// Pixel of `bitmap` at column `x` and row `src_y`; rows outside the bitmap read as empty.
pub open spec fn sample_at(bitmap: LyricBitmap, x: int, src_y: int) -> u8 {
    if 0 <= src_y < bitmap.height {
        bitmap.pixels@[src_y * bitmap.width + x]
    } else {
        0
    }
}

/// Whether every row of `bitmap` up to `last_row` can be read across the canvas width.
pub open spec fn rows_readable(bitmap: LyricBitmap, last_row: int) -> bool {
    forall|r: int|
        0 <= r < bitmap.height && r <= last_row ==> #[trigger] (r * bitmap.width) + canvas_w()
            <= bitmap.pixels@.len()
}

/// Reads the pixel at (`x`, `y` shifted down by `y_offset`); rows outside the bitmap read as empty.
pub fn sample_shifted_pixel(bitmap: &LyricBitmap, x: usize, y: usize, y_offset: i32) -> (pixel: u8)
    requires
        i32::MIN <= (#[verifier::truncate] (y as i32)) + y_offset <= i32::MAX,
        0 <= (#[verifier::truncate] (y as i32)) + y_offset < bitmap.height ==> ((#[verifier::truncate] (y as i32)) + y_offset) * bitmap.width + x
            < bitmap.pixels@.len(),
    ensures
        pixel == sample_at(*bitmap, x as int, (#[verifier::truncate] (y as i32)) + y_offset),
{
    let yy: i32 = #[verifier::truncate] (y as i32);
    let src_y: i32 = yy + y_offset;
    if src_y < 0 || src_y >= bitmap.height as i32 {
        return 0;
    }
    let row: usize = src_y as usize;
    assert(row as int == src_y as int);
    assert((row as int) * (bitmap.width as int) + (x as int) < bitmap.pixels@.len());
    assert((row as int) * (bitmap.width as int) >= 0) by (nonlinear_arith)
        requires
            row >= 0,
    ;
    let n = bitmap.pixels.len();
    let base: usize = row * bitmap.width as usize;
    bitmap.pixels[base + x]
}

/// Weight of the next frame at animation step `step` (1 to 5): the ease-out cubic
/// progress `1 - (1 - step/5)³`, times 255, rounded.
pub open spec fn step_weight(step: int) -> u16 {
    if step == 1 {
        124
    } else if step == 2 {
        200
    } else if step == 3 {
        239
    } else if step == 4 {
        253
    } else {
        255
    }
}

/// How far the previous lyrics have scrolled up at step `step`: the eased progress
/// times the 42-pixel scroll distance, rounded.
pub open spec fn prev_shift(step: int) -> i32 {
    if step == 1 {
        20
    } else if step == 2 {
        33
    } else if step == 3 {
        39
    } else {
        42
    }
}

/// How far below its place the next lyrics still are at step `step`: the
/// remaining progress times the 42-pixel scroll distance, rounded.
pub open spec fn next_shift(step: int) -> i32 {
    if step == 1 {
        22
    } else if step == 2 {
        9
    } else if step == 3 {
        3
    } else {
        0
    }
}

fn step_schedule(step: usize) -> (r: (u16, i32, i32))
    requires
        1 <= step <= 5,
    ensures
        r == (step_weight(step as int), prev_shift(step as int), next_shift(step as int)),
{
    if step == 1 {
        (124, 20, 22)
    } else if step == 2 {
        (200, 33, 9)
    } else if step == 3 {
        (239, 39, 3)
    } else if step == 4 {
        (253, 42, 0)
    } else {
        (255, 42, 0)
    }
}

/// Pixels of frame `step` of the animation towards `target`. With a previous
/// bitmap, the previous lyrics scroll up and fade out while the next ones scroll
/// into place and fade in, over the canvas (bytes past it are cleared). Without
/// one, the target fades in, and the last frame is the target itself.
pub open spec fn transition_pixels(previous: Option<LyricBitmap>, target: LyricBitmap, step: int) -> Seq<u8> {
    let w = step_weight(step);
    match previous {
        Some(prev) => Seq::new(
            target.pixels@.len(),
            |i: int|
                if i < canvas_w() * canvas_h() {
                    mixed_lyric_pixel(
                        sample_at(prev, i % canvas_w(), i / canvas_w() + prev_shift(step)),
                        (255 - w) as u16,
                        sample_at(target, i % canvas_w(), i / canvas_w() - next_shift(step)),
                        w,
                    )
                } else {
                    0
                },
        ),
        None => if step != 5 {
            target.pixels@.map_values(|p: u8| scaled_lyric_pixel(p, w))
        } else {
            target.pixels@
        },
    }
}

fn transition_frame(previous: Option<&LyricBitmap>, target: &LyricBitmap, step: usize) -> (frame: LyricBitmap)
    requires
        1 <= step <= 5,
        previous matches Some(prev) ==> rows_readable(*prev, 346),
        previous is Some ==> target.pixels@.len() >= canvas_w() * canvas_h() && rows_readable(*target, 304),
    ensures
        frame.x == target.x,
        frame.y == target.y,
        frame.width == target.width,
        frame.height == target.height,
        frame.pixels@ == transition_pixels(
            match previous {
                Some(p) => Some(*p),
                None => None,
            },
            *target,
            step as int,
        ),
{
    let ghost prev_spec: Option<LyricBitmap> = match previous {
        Some(p) => Some(*p),
        None => None,
    };
    let (next_weight, prev_offset, next_offset) = step_schedule(step);
    let prev_weight: u16 = 255 - next_weight;
    let mut pixels: Vec<u8> = Vec::new();
    match previous {
        Some(prev) => {
            let n = target.pixels.len();
            let mut i: usize = 0;
            while i < n
                invariant
                    n == target.pixels@.len(),
                    n >= canvas_w() * canvas_h(),
                    1 <= step <= 5,
                    prev_spec == Some(*prev),
                    rows_readable(*prev, 346),
                    rows_readable(*target, 304),
                    next_weight == step_weight(step as int),
                    prev_weight == 255 - next_weight,
                    prev_offset == prev_shift(step as int),
                    next_offset == next_shift(step as int),
                    i <= n,
                    pixels@ == transition_pixels(prev_spec, *target, step as int).take(i as int),
                decreases n - i,
            {
                let value: u8 = if i < 134200 {
                    let x = i % 440;
                    let y = i / 440;
                    assert(y < 305);
                    let a = sample_shifted_pixel(prev, x, y, prev_offset);
                    let b = sample_shifted_pixel(target, x, y, -next_offset);
                    assert(lyric_pixel_parts(a).1 * prev_weight <= 255 * 255) by (nonlinear_arith)
                        requires
                            lyric_pixel_parts(a).1 <= 255,
                            prev_weight <= 255,
                    ;
                    assert(lyric_pixel_parts(b).1 * next_weight <= 255 * 255) by (nonlinear_arith)
                        requires
                            lyric_pixel_parts(b).1 <= 255,
                            next_weight <= 255,
                    ;
                    mix_transition_pixels(a, prev_weight, b, next_weight)
                } else {
                    0
                };
                pixels.push(value);
                i = i + 1;
                assert(pixels@ =~= transition_pixels(prev_spec, *target, step as int).take(i as int));
            }
        },
        None => {
            let n = target.pixels.len();
            let mut i: usize = 0;
            while i < n
                invariant
                    n == target.pixels@.len(),
                    1 <= step <= 5,
                    prev_spec is None,
                    next_weight == step_weight(step as int),
                    i <= n,
                    pixels@ == transition_pixels(prev_spec, *target, step as int).take(i as int),
                decreases n - i,
            {
                let p = target.pixels[i];
                let value: u8 = if step != 5 {
                    assert(lyric_pixel_parts(p).1 * next_weight <= 255 * 255) by (nonlinear_arith)
                        requires
                            lyric_pixel_parts(p).1 <= 255,
                            next_weight <= 255,
                    ;
                    scale_lyric_pixel(p, next_weight)
                } else {
                    p
                };
                pixels.push(value);
                i = i + 1;
                assert(pixels@ =~= transition_pixels(prev_spec, *target, step as int).take(i as int));
            }
        },
    }
    assert(pixels@ =~= transition_pixels(prev_spec, *target, step as int));
    LyricBitmap { x: target.x, y: target.y, width: target.width, height: target.height, pixels }
}

/// The frames of the scroll animation from `previous` to `final_frame`, one per step.
pub fn generate_lyric_bitmap_transition(previous: Option<&LyricBitmap>, final_frame: LyricBitmap) -> (frames: Vec<LyricBitmap>)
    requires
        previous matches Some(prev) ==> rows_readable(*prev, 346),
        previous is Some ==> final_frame.pixels@.len() >= canvas_w() * canvas_h() && rows_readable(final_frame, 304),
    ensures
        frames@.len() == 5,
        forall|k: int|
            0 <= k < 5 ==> {
                &&& #[trigger] frames@[k].x == final_frame.x
                &&& frames@[k].y == final_frame.y
                &&& frames@[k].width == final_frame.width
                &&& frames@[k].height == final_frame.height
                &&& frames@[k].pixels@ == transition_pixels(
                    match previous {
                        Some(p) => Some(*p),
                        None => None,
                    },
                    final_frame,
                    k + 1,
                )
            },
{
    let mut frames: Vec<LyricBitmap> = Vec::new();
    let mut step: usize = 1;
    while step <= LYRIC_ANIMATION_FRAMES
        invariant
            1 <= step <= 6,
            frames@.len() == step - 1,
            previous matches Some(prev) ==> rows_readable(*prev, 346),
            previous is Some ==> final_frame.pixels@.len() >= canvas_w() * canvas_h() && rows_readable(final_frame, 304),
            forall|k: int|
                0 <= k < step - 1 ==> {
                    &&& #[trigger] frames@[k].x == final_frame.x
                    &&& frames@[k].y == final_frame.y
                    &&& frames@[k].width == final_frame.width
                    &&& frames@[k].height == final_frame.height
                    &&& frames@[k].pixels@ == transition_pixels(
                        match previous {
                            Some(p) => Some(*p),
                            None => None,
                        },
                        final_frame,
                        k + 1,
                    )
                },
        decreases 6 - step,
    {
        let frame = transition_frame(previous, &final_frame, step);
        frames.push(frame);
        step = step + 1;
    }
    frames
}

proof fn lemma_lyric_pixel_not_flag(c: u8, a: bool)
    ensures
        lyric_pixel(c, a) != 0x80,
{
    if c > 0 {
        lyric_pixel_keeps_tag(c, a);
    }
}

proof fn lemma_composed_not_flag(layers: Seq<TextLayer>, n: int, dx: int, dy: int)
    ensures
        composed_pixel(layers, n, dx, dy) != 0x80,
    decreases n,
{
    if n > 0 {
        lemma_composed_not_flag(layers, n - 1, dx, dy);
        let l = layers[n - 1];
        let row = dy + 115 - l.y;
        let col = dx + 360 - l.x;
        lemma_lyric_pixel_not_flag(layer_source(l, row, col), l.is_active == 1);
    }
}

proof fn lemma_ramp_at_edge(c: int, h: int)
    requires
        1 <= h <= 152,
    ensures
        ramp(c, 0, h) == 0,
{
    assert(0 * 0 * (3 * h - 2 * 0) == 0) by (nonlinear_arith);
    assert(2 * c * 0 == 0) by (nonlinear_arith);
    assert(h * h * h >= 1) by (nonlinear_arith)
        requires
            h >= 1,
    ;
    assert((h * h * h) / (2 * (h * h * h)) == 0) by (nonlinear_arith)
        requires
            h * h * h >= 1,
    ;
}

/// A lyric bitmap always covers the whole fixed canvas, however much text is drawn on it.
pub proof fn lyric_bitmap_has_fixed_size(layers: Seq<TextLayer>)
    ensures
        lyric_bitmap_pixels(layers).len() == LYRIC_BITMAP_WIDTH * LYRIC_BITMAP_HEIGHT,
{
}

/// The first and last rows of a lyric bitmap are always empty: the feathered
/// edges fade to nothing there.
pub proof fn lyric_bitmap_edges_are_empty(layers: Seq<TextLayer>, x: int)
    requires
        0 <= x < canvas_w(),
    ensures
        lyric_bitmap_pixels(layers)[x] == 0,
        lyric_bitmap_pixels(layers)[(canvas_h() - 1) * canvas_w() + x] == 0,
{
    let c = composed_canvas(layers);
    lemma_canvas_index(x, 0);
    lemma_canvas_index(x, canvas_h() - 1);
    lemma_ramp_at_edge(lyric_pixel_parts(c[x]).1 as int, 17);
    let j = (canvas_h() - 1) * canvas_w() + x;
    lemma_ramp_at_edge(lyric_pixel_parts(c[j]).1 as int, 34);
}

/// No pixel of a lyric bitmap is the bare flag `0x80`: each is empty or a tagged
/// coverage level.
pub proof fn lyric_bitmap_pixels_are_tagged_levels(layers: Seq<TextLayer>, i: int)
    requires
        0 <= i < canvas_w() * canvas_h(),
    ensures
        lyric_bitmap_pixels(layers)[i] != 0x80,
{
    let c = composed_canvas(layers);
    lemma_composed_not_flag(layers, layers.len() as int, i % canvas_w(), i / canvas_w());
    let p = c[i];
    let (a, cov) = lyric_pixel_parts(p);
    let y = i / canvas_w();
    if y < 17 {
        lemma_lyric_pixel_not_flag(ramp(cov as int, y, 17) as u8, a);
    } else if canvas_h() - 1 - y < 34 {
        lemma_lyric_pixel_not_flag(ramp(cov as int, canvas_h() - 1 - y, 34) as u8, a);
    }
}

/// The last frame of a scroll animation is the target bitmap itself, when the
/// target fills the canvas exactly and holds only tagged levels (as every lyric
/// bitmap does).
pub proof fn transition_ends_at_target(previous: Option<LyricBitmap>, target: LyricBitmap)
    requires
        target.width == LYRIC_BITMAP_WIDTH,
        target.height == LYRIC_BITMAP_HEIGHT,
        target.pixels@.len() == canvas_w() * canvas_h(),
        forall|i: int| 0 <= i < target.pixels@.len() ==> #[trigger] target.pixels@[i] != 0x80,
    ensures
        transition_pixels(previous, target, 5) == target.pixels@,
{
    if let Some(prev) = previous {
        let t = transition_pixels(previous, target, 5);
        assert forall|i: int| 0 <= i < t.len() implies #[trigger] t[i] == target.pixels@[i] by {
            let x = i % canvas_w();
            let y = i / canvas_w();
            assert(0 <= y < canvas_h());
            assert(y * canvas_w() + x == i);
            let q = target.pixels@[i];
            assert(sample_at(target, x, y - 0) == q);
            lyric_pixel_round_trip(q);
            let pp = sample_at(prev, x, y + 42);
            let (pa, pc) = lyric_pixel_parts(pp);
            assert((pc * 0u16) / 255 == 0);
            let (qa, qc) = lyric_pixel_parts(q);
            assert((qc * 255u16) / 255 == qc);
        }
        assert(t =~= target.pixels@);
    }
}

} // verus!
