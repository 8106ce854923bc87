//! Icons of the media control buttons (previous, play/pause, next).
use vstd::prelude::*;
use crate::graphics::TextLayer;

verus! {

/// Distance of `y` from the icon's middle row 20.
pub open spec fn from_middle(y: int) -> int {
    if y >= 20 {
        y - 20
    } else {
        20 - y
    }
}

/// Whether the play/pause icon is lit at (`x`, `y`): two bars when playing
/// (shown as pause), else a right-pointing triangle.
pub open spec fn play_icon_at(is_play: bool, x: int, y: int) -> bool {
    if is_play {
        6 <= y < 34 && ((8 <= x < 16) || (24 <= x < 32))
    } else {
        6 <= y < 34 && 10 <= x < 34 && 7 * x < 224 - 11 * from_middle(y)
    }
}

/// Whether the previous-track icon is lit at (`x`, `y`): a bar and a left-pointing triangle.
pub open spec fn prev_icon_at(x: int, y: int) -> bool {
    10 <= y < 30 && ((6 <= x < 10) || (10 <= x < 34 && x > 12 + 2 * from_middle(y)))
}

/// Whether the next-track icon is lit at (`x`, `y`): a right-pointing triangle and a bar.
pub open spec fn next_icon_at(x: int, y: int) -> bool {
    10 <= y < 30 && ((30 <= x < 34) || (6 <= x < 30 && x < 28 - 2 * from_middle(y)))
}

/// A 40x40 icon, row by row: 255 where `lit` holds, else 0.
pub open spec fn icon_pixels(lit: spec_fn(int, int) -> bool) -> Seq<u8> {
    Seq::new(1600, |i: int| if lit(i % 40, i / 40) { 255u8 } else { 0u8 })
}

fn icon_layer(x: i16, which: u8, is_play: bool) -> (layer: TextLayer)
    requires
        which < 3,
    ensures
        layer.x == x,
        layer.y == 380,
        layer.width == 40,
        layer.height == 40,
        layer.is_active == 1,
        layer.line_index == 0,
        which == 0 ==> layer.pixel_data@ == icon_pixels(|xx: int, yy: int| play_icon_at(is_play, xx, yy)),
        which == 1 ==> layer.pixel_data@ == icon_pixels(|xx: int, yy: int| prev_icon_at(xx, yy)),
        which == 2 ==> layer.pixel_data@ == icon_pixels(|xx: int, yy: int| next_icon_at(xx, yy)),
{
    let mut data: Vec<u8> = Vec::new();
    let mut i: usize = 0;
    while i < 1600
        invariant
            which < 3,
            i <= 1600,
            data@.len() == i,
            forall|j: int| 0 <= j < i ==> #[trigger] data@[j] == if (which == 0 && play_icon_at(is_play, j % 40, j / 40)) || (which == 1 && prev_icon_at(j % 40, j / 40)) || (which == 2 && next_icon_at(j % 40, j / 40)) { 255u8 } else { 0u8 },
        decreases 1600 - i,
    {
        let x: i32 = (i % 40) as i32;
        let y: i32 = (i / 40) as i32;
        let half: i32 = if y >= 20 { y - 20 } else { 20 - y };
        let lit = if which == 0 {
            if is_play {
                6 <= y && y < 34 && ((8 <= x && x < 16) || (24 <= x && x < 32))
            } else {
                6 <= y && y < 34 && 10 <= x && x < 34 && 7 * x < 224 - 11 * half
            }
        } else if which == 1 {
            10 <= y && y < 30 && ((6 <= x && x < 10) || (10 <= x && x < 34 && x > 12 + 2 * half))
        } else {
            10 <= y && y < 30 && ((30 <= x && x < 34) || (6 <= x && x < 30 && x < 28 - 2 * half))
        };
        data.push(if lit { 255 } else { 0 });
        i = i + 1;
    }
    proof {
        if which == 0 {
            assert(data@ =~= icon_pixels(|xx: int, yy: int| play_icon_at(is_play, xx, yy)));
        } else if which == 1 {
            assert(data@ =~= icon_pixels(|xx: int, yy: int| prev_icon_at(xx, yy)));
        } else {
            assert(data@ =~= icon_pixels(|xx: int, yy: int| next_icon_at(xx, yy)));
        }
    }
    TextLayer { x, y: 380, width: 40, height: 40, is_active: 1, pixel_data: data, line_index: 0 }
}

/// The three media control icons as text layers on row 380: play/pause
/// (centred at 160), previous (at 80) and next (at 240), in that order.
pub fn generate_media_controls_layers(is_play: bool) -> (layers: Vec<TextLayer>)
    ensures
        layers@.len() == 3,
        layers@[0].x == 140 && layers@[1].x == 60 && layers@[2].x == 220,
        forall|k: int| 0 <= k < 3 ==> {
            &&& (#[trigger] layers@[k]).y == 380
            &&& layers@[k].width == 40
            &&& layers@[k].height == 40
            &&& layers@[k].is_active == 1
            &&& layers@[k].line_index == 0
        },
        layers@[0].pixel_data@ == icon_pixels(|xx: int, yy: int| play_icon_at(is_play, xx, yy)),
        layers@[1].pixel_data@ == icon_pixels(|xx: int, yy: int| prev_icon_at(xx, yy)),
        layers@[2].pixel_data@ == icon_pixels(|xx: int, yy: int| next_icon_at(xx, yy)),
{
    let play = icon_layer(160 - 20, 0, is_play);
    let prev = icon_layer(80 - 20, 1, is_play);
    let next = icon_layer(240 - 20, 2, is_play);
    let mut layers: Vec<TextLayer> = Vec::new();
    layers.push(play);
    layers.push(prev);
    layers.push(next);
    layers
}


/// Pixel (`x`, `y`) of a 40x40 icon is lit (255) exactly where the icon's shape
/// holds, and dark (0) elsewhere.
pub proof fn icon_pixel_at(lit: spec_fn(int, int) -> bool, x: int, y: int)
    requires
        0 <= x < 40,
        0 <= y < 40,
    ensures
        icon_pixels(lit)[y * 40 + x] == if lit(x, y) { 255u8 } else { 0u8 },
{
    assert((y * 40 + x) % 40 == x && (y * 40 + x) / 40 == y) by (nonlinear_arith)
        requires
            0 <= x < 40,
            0 <= y < 40,
    ;
}

/// The next-track icon is a triangle pointing right at a bar: on its middle row
/// it is lit from column 6 up to the apex at column 27, dark on columns 28 and 29,
/// and lit on the bar, columns 30 to 33; every lit triangle pixel has its left
/// neighbour lit down to the base on column 6; rows mirror about row 20; and
/// nothing is lit outside rows 10 to 29.
pub proof fn next_icon_points_right(x: int, y: int)
    ensures
        next_icon_at(x, 20) <==> (6 <= x < 28 || 30 <= x < 34),
        7 <= x < 30 && next_icon_at(x, y) ==> next_icon_at(x - 1, y),
        11 <= y <= 29 ==> (next_icon_at(x, y) <==> next_icon_at(x, 40 - y)),
        !(10 <= y < 30) ==> !next_icon_at(x, y),
{
}

/// The previous-track icon is a bar and a triangle pointing left at it: on its
/// middle row it is lit on the bar, columns 6 to 9, dark on columns 10 to 12, and
/// lit from the apex at column 13 to column 33; every lit triangle pixel has its
/// right neighbour lit up to column 33; rows mirror about row 20; and nothing is
/// lit outside rows 10 to 29.
pub proof fn prev_icon_points_left(x: int, y: int)
    ensures
        prev_icon_at(x, 20) <==> (6 <= x < 10 || 13 <= x < 34),
        10 <= x < 33 && prev_icon_at(x, y) ==> prev_icon_at(x + 1, y),
        11 <= y <= 29 ==> (prev_icon_at(x, y) <==> prev_icon_at(x, 40 - y)),
        !(10 <= y < 30) ==> !prev_icon_at(x, y),
{
}

/// While playing, the play/pause button shows pause: two bars, columns 8 to 15
/// and 24 to 31, on rows 6 to 33. While paused it shows play: a triangle pointing
/// right whose middle row is lit from column 10 to the apex at column 31, every
/// lit pixel having its left neighbour lit down to column 10, rows mirrored about
/// row 20, nothing lit outside rows 6 to 33.
pub proof fn play_icon_shapes(x: int, y: int)
    ensures
        play_icon_at(true, x, y) <==> (6 <= y < 34 && (8 <= x < 16 || 24 <= x < 32)),
        play_icon_at(false, x, 20) <==> (10 <= x < 32),
        11 <= x < 34 && play_icon_at(false, x, y) ==> play_icon_at(false, x - 1, y),
        7 <= y <= 33 ==> (play_icon_at(false, x, y) <==> play_icon_at(false, x, 40 - y)),
        !(6 <= y < 34) ==> !play_icon_at(false, x, y),
{
}

} // verus!
