//! Packets sent to the display board.
use vstd::prelude::*;
use crate::wire::{
    build_packet_raw, checksum, frame, from_le16, from_le32, le16, lemma_le16_round_trip,
    lemma_le32_round_trip, push_all, push_le16,
};
use crate::graphics::{ImageMatrix, LyricBitmap, TextLayer, TextMatrix};
use crate::rle::{encode_rle_grayscale, lemma_rle_encoding, rle_decode, rle_encode, rle_round_trip};

verus! {

/// The kinds of packet understood by the display board.
#[derive(Clone, Copy, PartialEq, Eq, Debug)]
pub enum PacketType {
    CoverRgb888,
    TextGrayscale,
    ClearRect,
    TextLayer,
    Progress,
    LyricBitmap,
    CoverRgb565Block,
    LyricBitmapRefresh,
    MetaBitmap,
}

/// The type byte of each kind of packet.
pub open spec fn packet_code(t: PacketType) -> u8 {
    match t {
        PacketType::CoverRgb888 => 0x01,
        PacketType::TextGrayscale => 0x02,
        PacketType::ClearRect => 0x03,
        PacketType::TextLayer => 0x04,
        PacketType::Progress => 0x05,
        PacketType::LyricBitmap => 0x06,
        PacketType::CoverRgb565Block => 0x07,
        PacketType::LyricBitmapRefresh => 0x08,
        PacketType::MetaBitmap => 0x09,
    }
}

impl PacketType {
    /// The type byte that stands for this kind of packet on the wire.
    pub fn code(self) -> (c: u8)
        ensures
            c == packet_code(self),
    {
        match self {
            PacketType::CoverRgb888 => 0x01,
            PacketType::TextGrayscale => 0x02,
            PacketType::ClearRect => 0x03,
            PacketType::TextLayer => 0x04,
            PacketType::Progress => 0x05,
            PacketType::LyricBitmap => 0x06,
            PacketType::CoverRgb565Block => 0x07,
            PacketType::LyricBitmapRefresh => 0x08,
            PacketType::MetaBitmap => 0x09,
        }
    }
}

/// Frames `payload` as a packet of the given kind.
pub fn build_packet(kind: PacketType, payload: &[u8]) -> (packet: Vec<u8>)
    ensures
        packet@ == frame(packet_code(kind), payload@),
{
    build_packet_raw(kind.code(), payload)
}

/// Payload of a clear-rectangle packet.
pub open spec fn clear_rect_payload(x: u16, y: u16, width: u16, height: u16) -> Seq<u8> {
    le16(x) + le16(y) + le16(width) + le16(height)
}

/// Packet that clears a rectangle of the screen.
pub fn pack_clear_rect(x: u16, y: u16, width: u16, height: u16) -> (packet: Vec<u8>)
    ensures
        packet@ == frame(packet_code(PacketType::ClearRect), clear_rect_payload(x, y, width, height)),
{
    let mut payload: Vec<u8> = Vec::new();
    push_le16(&mut payload, x);
    push_le16(&mut payload, y);
    push_le16(&mut payload, width);
    push_le16(&mut payload, height);
    build_packet(PacketType::ClearRect, payload.as_slice())
}

/// Packet that reports playback progress in permille.
pub fn pack_progress(permille: u16) -> (packet: Vec<u8>)
    ensures
        packet@ == frame(packet_code(PacketType::Progress), le16(permille)),
{
    let mut payload: Vec<u8> = Vec::new();
    push_le16(&mut payload, permille);
    build_packet(PacketType::Progress, payload.as_slice())
}

/// Payload of a text-layer packet: position (two's complement), size, active
/// flag, then the grayscale pixels.
pub open spec fn text_layer_payload(layer: TextLayer) -> Seq<u8> {
    le16(layer.x as u16) + le16(layer.y as u16) + le16(layer.width) + le16(layer.height) + seq![
        layer.is_active,
    ] + layer.pixel_data@
}

/// Packet that draws a block of grayscale text.
pub fn pack_text_layer(layer: &TextLayer) -> (packet: Vec<u8>)
    ensures
        packet@ == frame(packet_code(PacketType::TextLayer), text_layer_payload(*layer)),
{
    let mut payload: Vec<u8> = Vec::new();
    push_le16(&mut payload, #[verifier::truncate] (layer.x as u16));
    push_le16(&mut payload, #[verifier::truncate] (layer.y as u16));
    push_le16(&mut payload, layer.width);
    push_le16(&mut payload, layer.height);
    payload.push(layer.is_active);
    push_all(&mut payload, layer.pixel_data.as_slice());
    assert(payload@ =~= text_layer_payload(*layer));
    build_packet(PacketType::TextLayer, payload.as_slice())
}

/// Position and size of a bitmap, as they open its payload.
pub open spec fn bitmap_header(x: u16, y: u16, width: u16, height: u16) -> Seq<u8> {
    le16(x) + le16(y) + le16(width) + le16(height)
}

/// Whether pixels travel run-length coded: only when that is strictly shorter
/// than the raw pixels.
pub open spec fn uses_rle(pixels: Seq<u8>) -> bool {
    rle_encode(pixels).len() < pixels.len()
}

/// Payload of a bitmap packet: the header, an encoding byte (1 for run-length
/// coded, 0 for raw), then the pixel data.
pub open spec fn bitmap_payload(x: u16, y: u16, width: u16, height: u16, pixels: Seq<u8>) -> Seq<u8> {
    if uses_rle(pixels) {
        bitmap_header(x, y, width, height) + seq![1u8] + rle_encode(pixels)
    } else {
        bitmap_header(x, y, width, height) + seq![0u8] + pixels
    }
}

/// The packet that carries a bitmap as the given kind of packet.
pub open spec fn bitmap_packet(bitmap: LyricBitmap, kind: PacketType) -> Seq<u8> {
    frame(
        packet_code(kind),
        bitmap_payload(bitmap.x, bitmap.y, bitmap.width, bitmap.height, bitmap.pixels@),
    )
}

/// Packs a bitmap as the given kind of packet, run-length coded where that is shorter.
pub fn pack_lyric_bitmap_as(bitmap: &LyricBitmap, kind: PacketType) -> (packet: Vec<u8>)
    ensures
        packet@ == bitmap_packet(*bitmap, kind),
{
    let rle = encode_rle_grayscale(bitmap.pixels.as_slice());
    let use_rle = rle.len() < bitmap.pixels.len();
    let mut payload: Vec<u8> = Vec::new();
    push_le16(&mut payload, bitmap.x);
    push_le16(&mut payload, bitmap.y);
    push_le16(&mut payload, bitmap.width);
    push_le16(&mut payload, bitmap.height);
    if use_rle {
        payload.push(1);
        push_all(&mut payload, rle.as_slice());
    } else {
        payload.push(0);
        push_all(&mut payload, bitmap.pixels.as_slice());
    }
    assert(payload@ =~= bitmap_payload(bitmap.x, bitmap.y, bitmap.width, bitmap.height, bitmap.pixels@));
    build_packet(kind, payload.as_slice())
}

/// Packet that draws a whole lyric bitmap.
pub fn pack_lyric_bitmap(bitmap: &LyricBitmap) -> (packet: Vec<u8>)
    ensures
        packet@ == bitmap_packet(*bitmap, PacketType::LyricBitmap),
{
    pack_lyric_bitmap_as(bitmap, PacketType::LyricBitmap)
}

/// Packet that redraws a lyric bitmap in place, without animation.
pub fn pack_lyric_bitmap_refresh(bitmap: &LyricBitmap) -> (packet: Vec<u8>)
    ensures
        packet@ == bitmap_packet(*bitmap, PacketType::LyricBitmapRefresh),
{
    pack_lyric_bitmap_as(bitmap, PacketType::LyricBitmapRefresh)
}

/// Payload of a cover packet: size (truncated to 16 bits), theme color, RGB888 data.
pub open spec fn cover_payload(matrix: ImageMatrix) -> Seq<u8> {
    le16(matrix.width as u16) + le16(matrix.height as u16) + seq![
        matrix.theme_color.0,
        matrix.theme_color.1,
        matrix.theme_color.2,
    ] + matrix.rgb_data@
}

/// Packet that carries a whole RGB888 cover image.
pub fn pack_cover_matrix(matrix: &ImageMatrix) -> (packet: Vec<u8>)
    ensures
        packet@ == frame(packet_code(PacketType::CoverRgb888), cover_payload(*matrix)),
{
    let mut payload: Vec<u8> = Vec::new();
    push_le16(&mut payload, #[verifier::truncate] (matrix.width as u16));
    push_le16(&mut payload, #[verifier::truncate] (matrix.height as u16));
    payload.push(matrix.theme_color.0);
    payload.push(matrix.theme_color.1);
    payload.push(matrix.theme_color.2);
    push_all(&mut payload, matrix.rgb_data.as_slice());
    assert(payload@ =~= cover_payload(*matrix));
    build_packet(PacketType::CoverRgb888, payload.as_slice())
}

/// Payload of a text-matrix packet: size (truncated to 16 bits), then pixels.
pub open spec fn text_matrix_payload(matrix: TextMatrix) -> Seq<u8> {
    le16(matrix.width as u16) + le16(matrix.height as u16) + matrix.pixel_data@
}

/// Packet that carries a grayscale dot matrix of text.
pub fn pack_text_matrix(matrix: &TextMatrix) -> (packet: Vec<u8>)
    ensures
        packet@ == frame(packet_code(PacketType::TextGrayscale), text_matrix_payload(*matrix)),
{
    let mut payload: Vec<u8> = Vec::new();
    push_le16(&mut payload, #[verifier::truncate] (matrix.width as u16));
    push_le16(&mut payload, #[verifier::truncate] (matrix.height as u16));
    push_all(&mut payload, matrix.pixel_data.as_slice());
    assert(payload@ =~= text_matrix_payload(*matrix));
    build_packet(PacketType::TextGrayscale, payload.as_slice())
}

/// RGB565 value of an RGB888 color: the top 5, 6 and 5 bits of red, green and blue.
pub open spec fn rgb565(r: u8, g: u8, b: u8) -> u16 {
    ((((r >> 3u8) as u16) << 11u16) | (((g >> 2u8) as u16) << 5u16) | ((b >> 3u8) as u16)) as u16
}

/// Converts one RGB888 color to its RGB565 bytes, least significant first.
fn rgb888_to_rgb565_le(r: u8, g: u8, b: u8) -> (bytes: [u8; 2])
    ensures
        bytes@ == le16(rgb565(r, g, b)),
{
    let value: u16 = (((r >> 3u8) as u16) << 11u16) | (((g >> 2u8) as u16) << 5u16) | ((b
        >> 3u8) as u16);
    [(value & 0xff) as u8, (value >> 8) as u8]
}

/// RGB565 bytes of `count` consecutive pixels of an RGB888 buffer, starting at pixel `from`.
pub open spec fn rgb565_bytes(data: Seq<u8>, from: int, count: nat) -> Seq<u8>
    decreases count,
{
    if count == 0 {
        Seq::empty()
    } else {
        let p = from + count - 1;
        rgb565_bytes(data, from, (count - 1) as nat) + le16(
            rgb565(data[3 * p], data[3 * p + 1], data[3 * p + 2]),
        )
    }
}

/// Whether a cover can be sent in blocks: non-empty, and with enough RGB data.
pub open spec fn cover_is_sendable(matrix: ImageMatrix) -> bool {
    matrix.width > 0 && matrix.height > 0 && matrix.rgb_data@.len() >= matrix.width * matrix.height
        * 3
}

/// Number of blocks a cover of the given height is cut into.
pub open spec fn block_count(height: nat) -> nat {
    ((height + 15) / 16) as nat
}

/// First row of block `k`.
pub open spec fn block_first_row(k: int) -> int {
    16 * k
}

/// Number of rows of block `k`: 16, or what is left for the last one.
pub open spec fn block_height(height: nat, k: int) -> int {
    if height - 16 * k < 16 {
        height - 16 * k
    } else {
        16
    }
}

/// Payload of block `k` of a cover: full size, theme color, first row and row
/// count (each truncated to 16 bits), then the RGB565 pixels of its rows.
pub open spec fn cover_block_payload(matrix: ImageMatrix, k: int) -> Seq<u8> {
    let w = matrix.width as int;
    let y0 = block_first_row(k);
    let ch = block_height(matrix.height as nat, k);
    le16(matrix.width as u16) + le16(matrix.height as u16) + seq![
        matrix.theme_color.0,
        matrix.theme_color.1,
        matrix.theme_color.2,
    ] + le16(y0 as u16) + le16(ch as u16) + rgb565_bytes(matrix.rgb_data@, y0 * w, (ch * w) as nat)
}

/// Whether `width * height * 3` can be computed in a `usize`.
pub open spec fn cover_size_fits(matrix: ImageMatrix) -> bool {
    matrix.width == 0 || matrix.height == 0 || matrix.width * matrix.height * 3 <= usize::MAX
}

proof fn lemma_block_bounds(w: nat, h: nat, y0: nat, ch: nat)
    requires
        y0 + ch <= h,
        w * h * 3 <= usize::MAX,
    ensures
        y0 * w + ch * w == (y0 + ch) * w,
        (y0 + ch) * w <= w * h,
        3 * ((y0 + ch) * w) <= usize::MAX,
        ch * w * 2 <= usize::MAX,
{
    assert(y0 * w + ch * w == (y0 + ch) * w) by (nonlinear_arith);
    assert((y0 + ch) * w <= h * w) by (nonlinear_arith)
        requires
            y0 + ch <= h,
    ;
    assert(h * w == w * h) by (nonlinear_arith);
    assert(ch * w <= (y0 + ch) * w) by (nonlinear_arith);
}

/// Cuts a cover into packets of at most 16 RGB565 rows each, top to bottom. A cover
/// that is empty or has too little RGB data gives no packet.
pub fn pack_cover_matrix_rgb565_blocks(matrix: &ImageMatrix) -> (packets: Vec<Vec<u8>>)
    requires
        cover_size_fits(*matrix),
    ensures
        !cover_is_sendable(*matrix) ==> packets@.len() == 0,
        cover_is_sendable(*matrix) ==> packets@.len() == block_count(matrix.height as nat),
        forall|k: int|
            0 <= k < packets@.len() ==> #[trigger] packets@[k]@ == frame(
                packet_code(PacketType::CoverRgb565Block),
                cover_block_payload(*matrix, k),
            ),
{
    let width = matrix.width as usize;
    let height = matrix.height as usize;
    let mut packets: Vec<Vec<u8>> = Vec::new();
    if width == 0 || height == 0 || matrix.rgb_data.len() < width * height * 3 {
        return packets;
    }
    let ghost w = width as nat;
    let ghost h = height as nat;
    assert(h <= w * h) by (nonlinear_arith)
        requires
            w >= 1,
    ;
    let mut chunk_y: usize = 0;
    let mut k: usize = 0;
    while chunk_y < height
        invariant
            width == matrix.width,
            height == matrix.height,
            w == width,
            h == height,
            cover_is_sendable(*matrix),
            w * h * 3 <= usize::MAX,
            h <= w * h,
            chunk_y == 16 * k,
            chunk_y <= height + 15,
            packets@.len() == k,
            k <= block_count(h),
            chunk_y < height ==> k < block_count(h),
            chunk_y >= height ==> k == block_count(h),
            forall|j: int|
                0 <= j < packets@.len() ==> #[trigger] packets@[j]@ == frame(
                    packet_code(PacketType::CoverRgb565Block),
                    cover_block_payload(*matrix, j),
                ),
        decreases height + 16 - chunk_y,
    {
        let chunk_h: usize = if height - chunk_y < 16 {
            height - chunk_y
        } else {
            16
        };
        proof {
            lemma_block_bounds(w, h, chunk_y as nat, chunk_h as nat);
        }
        let mut payload: Vec<u8> = Vec::new();
        push_le16(&mut payload, #[verifier::truncate] (matrix.width as u16));
        push_le16(&mut payload, #[verifier::truncate] (matrix.height as u16));
        payload.push(matrix.theme_color.0);
        payload.push(matrix.theme_color.1);
        payload.push(matrix.theme_color.2);
        push_le16(&mut payload, #[verifier::truncate] (chunk_y as u16));
        push_le16(&mut payload, #[verifier::truncate] (chunk_h as u16));
        let ghost head = payload@;
        let start = chunk_y * width;
        let end = start + chunk_h * width;
        let mut p = start;
        while p < end
            invariant
                start <= p <= end,
                start == chunk_y * width,
                end == start + chunk_h * width,
                3 * end <= usize::MAX,
                3 * end <= matrix.rgb_data@.len(),
                payload@ == head + rgb565_bytes(matrix.rgb_data@, start as int, (p - start) as nat),
            decreases end - p,
        {
            let idx = 3 * p;
            let bytes = rgb888_to_rgb565_le(
                matrix.rgb_data[idx],
                matrix.rgb_data[idx + 1],
                matrix.rgb_data[idx + 2],
            );
            payload.push(bytes[0]);
            payload.push(bytes[1]);
            p = p + 1;
            assert(payload@ =~= head + rgb565_bytes(matrix.rgb_data@, start as int, (p - start) as nat));
        }
        assert(payload@ =~= cover_block_payload(*matrix, k as int));
        let packet = build_packet(PacketType::CoverRgb565Block, payload.as_slice());
        packets.push(packet);
        proof {
            assert(packets@[k as int]@ == frame(
                packet_code(PacketType::CoverRgb565Block),
                cover_block_payload(*matrix, k as int),
            ));
        }
        chunk_y = chunk_y + 16;
        k = k + 1;
    }
    packets
}

/// Whether the pixel at (`x`, `y`) of a bitmap holds ink (is not 0).
pub open spec fn has_ink_at(bitmap: LyricBitmap, x: int, y: int) -> bool {
    0 <= x < bitmap.width && 0 <= y < bitmap.height && bitmap.pixels@[y * bitmap.width + x] != 0
}

/// Whether any pixel of a bitmap holds ink.
pub open spec fn has_ink(bitmap: LyricBitmap) -> bool {
    exists|x: int, y: int| #[trigger] has_ink_at(bitmap, x, y)
}

/// Whether `(left, top, right, bottom)` is the tightest box around the ink of a
/// bitmap: every inked pixel lies inside it, and each of its edges touches ink.
pub open spec fn is_ink_box(bitmap: LyricBitmap, left: int, top: int, right: int, bottom: int) -> bool {
    &&& forall|x: int, y: int|
        #[trigger] has_ink_at(bitmap, x, y) ==> left <= x <= right && top <= y <= bottom
    &&& exists|y: int| #[trigger] has_ink_at(bitmap, left, y)
    &&& exists|y: int| #[trigger] has_ink_at(bitmap, right, y)
    &&& exists|x: int| #[trigger] has_ink_at(bitmap, x, top)
    &&& exists|x: int| #[trigger] has_ink_at(bitmap, x, bottom)
}

/// The tightest box around the ink of a bitmap that has ink.
pub open spec fn ink_box(bitmap: LyricBitmap) -> (int, int, int, int) {
    choose|b: (int, int, int, int)| is_ink_box(bitmap, b.0, b.1, b.2, b.3)
}

/// There is only one tightest box around the ink.
pub proof fn ink_box_is_unique(bitmap: LyricBitmap, a: (int, int, int, int), b: (int, int, int, int))
    requires
        is_ink_box(bitmap, a.0, a.1, a.2, a.3),
        is_ink_box(bitmap, b.0, b.1, b.2, b.3),
    ensures
        a == b,
{
    let ya = choose|y: int| #[trigger] has_ink_at(bitmap, a.0, y);
    let yb = choose|y: int| #[trigger] has_ink_at(bitmap, b.0, y);
    assert(b.0 <= a.0 && a.0 <= b.0);
    let ya2 = choose|y: int| #[trigger] has_ink_at(bitmap, a.2, y);
    let yb2 = choose|y: int| #[trigger] has_ink_at(bitmap, b.2, y);
    assert(b.2 >= a.2 && a.2 >= b.2);
    let xa = choose|x: int| #[trigger] has_ink_at(bitmap, x, a.1);
    let xb = choose|x: int| #[trigger] has_ink_at(bitmap, x, b.1);
    assert(b.1 <= a.1 && a.1 <= b.1);
    let xa2 = choose|x: int| #[trigger] has_ink_at(bitmap, x, a.3);
    let xb2 = choose|x: int| #[trigger] has_ink_at(bitmap, x, b.3);
    assert(b.3 >= a.3 && a.3 >= b.3);
}

/// Rows `top .. top + rows` of a bitmap, columns `left .. left + cols`, row after row.
pub open spec fn crop_rows(bitmap: LyricBitmap, left: int, cols: int, top: int, rows: nat) -> Seq<u8>
    decreases rows,
{
    if rows == 0 {
        Seq::empty()
    } else {
        let y = top + rows - 1;
        crop_rows(bitmap, left, cols, top, (rows - 1) as nat) + bitmap.pixels@.subrange(
            y * bitmap.width + left,
            y * bitmap.width + left + cols,
        )
    }
}

/// The packet for the part of a bitmap inside the tightest box around its ink,
/// placed where it was on the panel; a bitmap without ink shrinks to one empty
/// pixel at its origin.
pub open spec fn cropped_packet(bitmap: LyricBitmap, kind: PacketType) -> Seq<u8> {
    if !has_ink(bitmap) {
        frame(packet_code(kind), bitmap_payload(bitmap.x, bitmap.y, 1, 1, seq![0u8]))
    } else {
        let (left, top, right, bottom) = ink_box(bitmap);
        frame(
            packet_code(kind),
            bitmap_payload(
                (bitmap.x + left) as u16,
                (bitmap.y + top) as u16,
                (right - left + 1) as u16,
                (bottom - top + 1) as u16,
                crop_rows(bitmap, left, right - left + 1, top, (bottom - top + 1) as nat),
            ),
        )
    }
}

/// The packet a bitmap is sent as: the cropped one when it has no ink or is
/// strictly shorter than the packet of the whole bitmap, else the whole one.
pub open spec fn smallest_bitmap_packet(bitmap: LyricBitmap, kind: PacketType) -> Seq<u8> {
    if !has_ink(bitmap) || cropped_packet(bitmap, kind).len() < bitmap_packet(bitmap, kind).len() {
        cropped_packet(bitmap, kind)
    } else {
        bitmap_packet(bitmap, kind)
    }
}

/// The area of the panel (x, y, width, height) that `smallest_bitmap_packet`
/// sends for a bitmap.
pub open spec fn sent_area(bitmap: LyricBitmap, kind: PacketType) -> (int, int, int, int) {
    if !has_ink(bitmap) {
        (bitmap.x as int, bitmap.y as int, 1, 1)
    } else if cropped_packet(bitmap, kind).len() < bitmap_packet(bitmap, kind).len() {
        let (left, top, right, bottom) = ink_box(bitmap);
        (bitmap.x + left, bitmap.y + top, right - left + 1, bottom - top + 1)
    } else {
        (bitmap.x as int, bitmap.y as int, bitmap.width as int, bitmap.height as int)
    }
}

/// Whether a bitmap holds the pixels its size promises.
pub open spec fn bitmap_is_complete(bitmap: LyricBitmap) -> bool {
    bitmap.width * bitmap.height <= bitmap.pixels@.len()
}

/// Whether moving a bitmap's origin to its ink stays within 16-bit coordinates.
pub open spec fn ink_origin_fits(bitmap: LyricBitmap) -> bool {
    has_ink(bitmap) ==> bitmap.x + ink_box(bitmap).0 <= u16::MAX && bitmap.y + ink_box(bitmap).1
        <= u16::MAX
}

proof fn lemma_row_index(w: int, h: int, x: int, y: int)
    requires
        0 <= x < w,
        0 <= y < h,
    ensures
        0 <= y * w + x < w * h,
        y * w + x + (w - x) <= w * h,
{
    assert(y * w + x < w * h) by (nonlinear_arith)
        requires
            0 <= x < w,
            0 <= y < h,
    ;
    assert(y * w + w <= w * h) by (nonlinear_arith)
        requires
            0 <= y < h,
            w >= 0,
    ;
    assert(y * w >= 0) by (nonlinear_arith)
        requires
            y >= 0,
            w >= 0,
    ;
}

/// Finds the tightest box around the ink of a bitmap.
fn find_ink_box(bitmap: &LyricBitmap) -> (r: Option<(usize, usize, usize, usize)>)
    requires
        bitmap_is_complete(*bitmap),
    ensures
        r is None <==> !has_ink(*bitmap),
        r matches Some(b) ==> is_ink_box(*bitmap, b.0 as int, b.1 as int, b.2 as int, b.3 as int)
            && b.0 <= b.2 < bitmap.width && b.1 <= b.3 < bitmap.height,
{
    let width = bitmap.width as usize;
    let height = bitmap.height as usize;
    let mut min_x = width;
    let mut min_y = height;
    let mut max_x: usize = 0;
    let mut max_y: usize = 0;
    let n = bitmap.pixels.len();
    let ghost mut ly: int = 0;
    let ghost mut ry: int = 0;
    let ghost mut tx: int = 0;
    let ghost mut bx: int = 0;
    let mut y: usize = 0;
    while y < height
        invariant
            width == bitmap.width,
            height == bitmap.height,
            n == bitmap.pixels@.len(),
            bitmap_is_complete(*bitmap),
            min_x <= width,
            y <= height,
            (min_x < width) <==> (exists|xx: int, yy: int|
                yy < y && #[trigger] has_ink_at(*bitmap, xx, yy)),
            min_x < width ==> {
                &&& min_y < height && max_x < width && max_y < height
                &&& min_y < y
                &&& forall|xx: int, yy: int|
                    yy < y && #[trigger] has_ink_at(*bitmap, xx, yy) ==> min_x <= xx <= max_x && min_y
                        <= yy <= max_y
                &&& has_ink_at(*bitmap, min_x as int, ly)
                &&& has_ink_at(*bitmap, max_x as int, ry)
                &&& has_ink_at(*bitmap, tx, min_y as int)
                &&& has_ink_at(*bitmap, bx, max_y as int)
            },
        decreases height - y,
    {
        let mut x: usize = 0;
        while x < width
            invariant
                width == bitmap.width,
                height == bitmap.height,
                n == bitmap.pixels@.len(),
                bitmap_is_complete(*bitmap),
                min_x <= width,
                y < height,
                x <= width,
                (min_x < width) <==> (exists|xx: int, yy: int|
                    (yy < y || (yy == y && xx < x)) && #[trigger] has_ink_at(*bitmap, xx, yy)),
                min_x < width ==> {
                    &&& min_y < height && max_x < width && max_y < height
                    &&& min_y <= y
                    &&& forall|xx: int, yy: int|
                        (yy < y || (yy == y && xx < x)) && #[trigger] has_ink_at(*bitmap, xx, yy)
                            ==> min_x <= xx <= max_x && min_y <= yy <= max_y
                    &&& has_ink_at(*bitmap, min_x as int, ly)
                    &&& has_ink_at(*bitmap, max_x as int, ry)
                    &&& has_ink_at(*bitmap, tx, min_y as int)
                    &&& has_ink_at(*bitmap, bx, max_y as int)
                },
            decreases width - x,
        {
            proof {
                lemma_row_index(width as int, height as int, x as int, y as int);
            }
            let idx = y * width + x;
            let ghost old_min_x = min_x;
            let ghost old_min_y = min_y;
            let ghost old_max_x = max_x;
            let ghost old_max_y = max_y;
            if bitmap.pixels[idx] != 0 {
                assert(has_ink_at(*bitmap, x as int, y as int));
                if min_x == width {
                    min_x = x;
                    max_x = x;
                    min_y = y;
                    max_y = y;
                    proof {
                        ly = y as int;
                        ry = y as int;
                        tx = x as int;
                        bx = x as int;
                    }
                } else {
                    if x < min_x {
                        min_x = x;
                        proof {
                            ly = y as int;
                        }
                    }
                    if x > max_x {
                        max_x = x;
                        proof {
                            ry = y as int;
                        }
                    }
                    if y > max_y {
                        max_y = y;
                        proof {
                            bx = x as int;
                        }
                    }
                }
            }
            proof {
                let inked = has_ink_at(*bitmap, x as int, y as int);
                assert(inked == (bitmap.pixels@[idx as int] != 0));
                assert forall|xx: int, yy: int|
                    (yy < y || (yy == y && xx < x + 1)) && #[trigger] has_ink_at(*bitmap, xx, yy)
                        implies min_x <= xx <= max_x && min_y <= yy <= max_y by {
                    if yy == y && xx == x {
                        assert(inked);
                        if old_min_x < width {
                            assert(old_min_y <= y);
                            assert(min_y == old_min_y);
                            assert(min_x <= x);
                            assert(max_x >= x);
                            assert(max_y >= y);
                            assert(min_y <= yy);
                        } else {
                            assert(min_x == x);
                            assert(min_y == y);
                            assert(min_y <= yy);
                        }
                    } else {
                        assert(old_min_x < width);
                        assert(old_min_x <= xx <= old_max_x && old_min_y <= yy <= old_max_y);
                        assert(min_x <= old_min_x);
                        assert(max_x >= old_max_x);
                        assert(min_y <= old_min_y);
                        assert(max_y >= old_max_y);
                        assert(min_y <= yy);
                    }
                }
                if inked {
                    assert(exists|xx: int, yy: int|
                        (yy < y || (yy == y && xx < x + 1)) && #[trigger] has_ink_at(*bitmap, xx, yy)) by {
                        assert(has_ink_at(*bitmap, x as int, y as int));
                    }
                } else {
                    assert((exists|xx: int, yy: int|
                        (yy < y || (yy == y && xx < x + 1)) && #[trigger] has_ink_at(*bitmap, xx, yy))
                        ==> (exists|xx: int, yy: int|
                        (yy < y || (yy == y && xx < x)) && #[trigger] has_ink_at(*bitmap, xx, yy)));
                }
            }
            x = x + 1;
        }
        y = y + 1;
    }
    if min_x == width {
        assert(!has_ink(*bitmap)) by {
            if has_ink(*bitmap) {
                let (xx, yy) = choose|xx: int, yy: int| #[trigger] has_ink_at(*bitmap, xx, yy);
                assert(yy < y);
            }
        }
        return None;
    }
    assert(has_ink_at(*bitmap, min_x as int, ly));
    Some((min_x, min_y, max_x, max_y))
}

/// Packs a bitmap as the given kind of packet, cropped to the box around its ink
/// where that makes the packet strictly shorter (see `smallest_bitmap_packet`).
pub fn pack_lyric_bitmap_cropped_as(bitmap: &LyricBitmap, kind: PacketType) -> (packet: Vec<u8>)
    requires
        bitmap_is_complete(*bitmap),
        ink_origin_fits(*bitmap),
    ensures
        packet@ == smallest_bitmap_packet(*bitmap, kind),
{
    let found = find_ink_box(bitmap);
    match found {
        None => {
            let empty = LyricBitmap { x: bitmap.x, y: bitmap.y, width: 1, height: 1, pixels: vec![0u8] };
            assert(empty.pixels@ =~= seq![0u8]);
            pack_lyric_bitmap_as(&empty, kind)
        },
        Some((min_x, min_y, max_x, max_y)) => {
            proof {
                let b = (min_x as int, min_y as int, max_x as int, max_y as int);
                assert(is_ink_box(*bitmap, b.0, b.1, b.2, b.3));
                ink_box_is_unique(*bitmap, b, ink_box(*bitmap));
            }
            let width = bitmap.width as usize;
            let n = bitmap.pixels.len();
            let crop_w = max_x - min_x + 1;
            let crop_h = max_y - min_y + 1;
            let mut pixels: Vec<u8> = Vec::new();
            let mut y = min_y;
            while y <= max_y
                invariant
                    width == bitmap.width,
                    n == bitmap.pixels@.len(),
                    bitmap_is_complete(*bitmap),
                    min_x <= max_x < bitmap.width,
                    min_y <= max_y < bitmap.height,
                    crop_w == max_x - min_x + 1,
                    min_y <= y <= max_y + 1,
                    pixels@ == crop_rows(*bitmap, min_x as int, crop_w as int, min_y as int, (y - min_y) as nat),
                decreases max_y + 1 - y,
            {
                proof {
                    lemma_row_index(width as int, bitmap.height as int, min_x as int, y as int);
                    lemma_row_index(width as int, bitmap.height as int, max_x as int, y as int);
                }
                let row_start = y * width + min_x;
                let ghost before = pixels@;
                let mut j: usize = 0;
                while j < crop_w
                    invariant
                        n == bitmap.pixels@.len(),
                        row_start + crop_w <= bitmap.pixels@.len(),
                        j <= crop_w,
                        pixels@ == before + bitmap.pixels@.subrange(row_start as int, row_start + j),
                    decreases crop_w - j,
                {
                    pixels.push(bitmap.pixels[row_start + j]);
                    j = j + 1;
                    assert(pixels@ =~= before + bitmap.pixels@.subrange(row_start as int, row_start + j));
                }
                y = y + 1;
                assert(pixels@ == crop_rows(*bitmap, min_x as int, crop_w as int, min_y as int, (y - min_y) as nat));
            }
            let cropped = LyricBitmap {
                x: bitmap.x + min_x as u16,
                y: bitmap.y + min_y as u16,
                width: crop_w as u16,
                height: crop_h as u16,
                pixels,
            };
            let full_packet = pack_lyric_bitmap_as(bitmap, kind);
            let cropped_packet = pack_lyric_bitmap_as(&cropped, kind);
            if cropped_packet.len() < full_packet.len() {
                cropped_packet
            } else {
                full_packet
            }
        },
    }
}

/// Lyric bitmap packet, cropped to its ink where that is shorter.
pub fn pack_lyric_bitmap_cropped(bitmap: &LyricBitmap) -> (packet: Vec<u8>)
    requires
        bitmap_is_complete(*bitmap),
        ink_origin_fits(*bitmap),
    ensures
        packet@ == smallest_bitmap_packet(*bitmap, PacketType::LyricBitmap),
{
    pack_lyric_bitmap_cropped_as(bitmap, PacketType::LyricBitmap)
}

/// Lyric refresh packet, cropped to its ink where that is shorter.
pub fn pack_lyric_bitmap_refresh_cropped(bitmap: &LyricBitmap) -> (packet: Vec<u8>)
    requires
        bitmap_is_complete(*bitmap),
        ink_origin_fits(*bitmap),
    ensures
        packet@ == smallest_bitmap_packet(*bitmap, PacketType::LyricBitmapRefresh),
{
    pack_lyric_bitmap_cropped_as(bitmap, PacketType::LyricBitmapRefresh)
}

/// Metadata bitmap packet, cropped to its ink where that is shorter.
pub fn pack_meta_bitmap_cropped(bitmap: &LyricBitmap) -> (packet: Vec<u8>)
    requires
        bitmap_is_complete(*bitmap),
        ink_origin_fits(*bitmap),
    ensures
        packet@ == smallest_bitmap_packet(*bitmap, PacketType::MetaBitmap),
{
    pack_lyric_bitmap_cropped_as(bitmap, PacketType::MetaBitmap)
}

/// A packet reads back as what was framed: sync bytes, type, the payload length,
/// the payload, and its checksum last (for payloads shorter than 2^32 bytes).
pub proof fn frame_reads_back(kind: u8, payload: Seq<u8>)
    requires
        payload.len() <= u32::MAX,
    ensures
        frame(kind, payload).len() == payload.len() + 8,
        frame(kind, payload)[0] == 0xAA,
        frame(kind, payload)[1] == 0x55,
        frame(kind, payload)[2] == kind,
        from_le32(
            frame(kind, payload)[3],
            frame(kind, payload)[4],
            frame(kind, payload)[5],
            frame(kind, payload)[6],
        ) == payload.len(),
        frame(kind, payload).subrange(7, 7 + payload.len() as int) == payload,
        frame(kind, payload).last() == checksum(payload),
{
    let p = frame(kind, payload);
    lemma_le32_round_trip(payload.len() as u32);
    assert(p.subrange(7, 7 + payload.len() as int) =~= payload);
}

/// The pixels a bitmap payload carries: run-length decoded when its encoding
/// byte is 1, raw otherwise.
pub open spec fn payload_pixels(payload: Seq<u8>) -> Seq<u8> {
    if payload[8] == 1 {
        rle_decode(payload.skip(9))
    } else {
        payload.skip(9)
    }
}

/// A bitmap payload reads back as its position, its size and exactly its
/// pixels, whichever encoding was chosen.
pub proof fn bitmap_payload_reads_back(x: u16, y: u16, width: u16, height: u16, pixels: Seq<u8>)
    ensures
        from_le16(bitmap_payload(x, y, width, height, pixels)[0], bitmap_payload(x, y, width, height, pixels)[1]) == x,
        from_le16(bitmap_payload(x, y, width, height, pixels)[2], bitmap_payload(x, y, width, height, pixels)[3]) == y,
        from_le16(bitmap_payload(x, y, width, height, pixels)[4], bitmap_payload(x, y, width, height, pixels)[5]) == width,
        from_le16(bitmap_payload(x, y, width, height, pixels)[6], bitmap_payload(x, y, width, height, pixels)[7]) == height,
        payload_pixels(bitmap_payload(x, y, width, height, pixels)) == pixels,
{
    let q = bitmap_payload(x, y, width, height, pixels);
    lemma_le16_round_trip(x);
    lemma_le16_round_trip(y);
    lemma_le16_round_trip(width);
    lemma_le16_round_trip(height);
    rle_round_trip(pixels);
    if uses_rle(pixels) {
        assert(q.skip(9) =~= rle_encode(pixels));
    } else {
        assert(q.skip(9) =~= pixels);
    }
}

/// A bitmap packet reads back as the bitmap: its type, the bitmap's position and
/// size, and exactly its pixels (for bitmaps whose payload fits the 32-bit length).
pub proof fn bitmap_packet_reads_back(bitmap: LyricBitmap, kind: PacketType)
    requires
        bitmap.pixels@.len() + 9 <= u32::MAX,
    ensures
        bitmap_packet(bitmap, kind)[0] == 0xAA,
        bitmap_packet(bitmap, kind)[1] == 0x55,
        bitmap_packet(bitmap, kind)[2] == packet_code(kind),
        from_le16(bitmap_packet(bitmap, kind)[7], bitmap_packet(bitmap, kind)[8]) == bitmap.x,
        from_le16(bitmap_packet(bitmap, kind)[9], bitmap_packet(bitmap, kind)[10]) == bitmap.y,
        from_le16(bitmap_packet(bitmap, kind)[11], bitmap_packet(bitmap, kind)[12]) == bitmap.width,
        from_le16(bitmap_packet(bitmap, kind)[13], bitmap_packet(bitmap, kind)[14]) == bitmap.height,
        payload_pixels(
            bitmap_packet(bitmap, kind).subrange(
                7,
                7 + from_le32(
                    bitmap_packet(bitmap, kind)[3],
                    bitmap_packet(bitmap, kind)[4],
                    bitmap_packet(bitmap, kind)[5],
                    bitmap_packet(bitmap, kind)[6],
                ),
            ),
        ) == bitmap.pixels@,
{
    let payload = bitmap_payload(bitmap.x, bitmap.y, bitmap.width, bitmap.height, bitmap.pixels@);
    bitmap_payload_reads_back(bitmap.x, bitmap.y, bitmap.width, bitmap.height, bitmap.pixels@);
    assert(payload.len() <= bitmap.pixels@.len() + 9);
    frame_reads_back(packet_code(kind), payload);
    let p = frame(packet_code(kind), payload);
    assert(forall|i: int| 0 <= i < 8 ==> p[7 + i] == #[trigger] payload[i]);
}

proof fn lemma_least(p: spec_fn(int) -> bool, n: int)
    requires
        exists|i: int| 0 <= i < n && #[trigger] p(i),
    ensures
        exists|m: int| 0 <= m < n && #[trigger] p(m) && forall|j: int| 0 <= j < m ==> !#[trigger] p(j),
    decreases n,
{
    if exists|i: int| 0 <= i < n - 1 && #[trigger] p(i) {
        lemma_least(p, n - 1);
        let m = choose|m: int| 0 <= m < n - 1 && #[trigger] p(m) && forall|j: int| 0 <= j < m ==> !#[trigger] p(j);
        assert(0 <= m < n && p(m));
    } else {
        assert(p(n - 1));
        assert(forall|j: int| 0 <= j < n - 1 ==> !#[trigger] p(j));
    }
}

proof fn lemma_greatest(p: spec_fn(int) -> bool, n: int)
    requires
        exists|i: int| 0 <= i < n && #[trigger] p(i),
    ensures
        exists|m: int| 0 <= m < n && #[trigger] p(m) && forall|j: int| m < j < n ==> !#[trigger] p(j),
    decreases n,
{
    if p(n - 1) {
        assert(0 <= n - 1 < n && p(n - 1));
    } else {
        let i = choose|i: int| 0 <= i < n && #[trigger] p(i);
        assert(0 <= i < n - 1 && p(i));
        lemma_greatest(p, n - 1);
        let m = choose|m: int| 0 <= m < n - 1 && #[trigger] p(m) && forall|j: int| m < j < n - 1 ==> !#[trigger] p(j);
        assert(0 <= m < n && p(m));
    }
}

/// Whether column `x` of a bitmap holds ink.
pub open spec fn ink_in_column(bitmap: LyricBitmap, x: int) -> bool {
    exists|y: int| #[trigger] has_ink_at(bitmap, x, y)
}

/// Whether row `y` of a bitmap holds ink.
pub open spec fn ink_in_row(bitmap: LyricBitmap, y: int) -> bool {
    exists|x: int| #[trigger] has_ink_at(bitmap, x, y)
}

proof fn least_ink_column(bitmap: LyricBitmap) -> (l: int)
    requires
        has_ink(bitmap),
    ensures
        ink_in_column(bitmap, l),
        forall|x: int| #[trigger] ink_in_column(bitmap, x) ==> l <= x,
{
    let (xa, ya) = choose|xa: int, ya: int| #[trigger] has_ink_at(bitmap, xa, ya);
    let col = |x: int| ink_in_column(bitmap, x);
    assert(col(xa));
    lemma_least(col, bitmap.width as int);
    let l = choose|m: int| 0 <= m < bitmap.width && #[trigger] col(m) && forall|j: int| 0 <= j < m ==> !#[trigger] col(j);
    assert forall|x: int| #[trigger] ink_in_column(bitmap, x) implies l <= x by {
        let y = choose|y: int| #[trigger] has_ink_at(bitmap, x, y);
        assert(col(x));
    }
    l
}

proof fn greatest_ink_column(bitmap: LyricBitmap) -> (r: int)
    requires
        has_ink(bitmap),
    ensures
        ink_in_column(bitmap, r),
        forall|x: int| #[trigger] ink_in_column(bitmap, x) ==> x <= r,
{
    let (xa, ya) = choose|xa: int, ya: int| #[trigger] has_ink_at(bitmap, xa, ya);
    let col = |x: int| ink_in_column(bitmap, x);
    assert(col(xa));
    lemma_greatest(col, bitmap.width as int);
    let r = choose|m: int| 0 <= m < bitmap.width && #[trigger] col(m) && forall|j: int| m < j < bitmap.width ==> !#[trigger] col(j);
    assert forall|x: int| #[trigger] ink_in_column(bitmap, x) implies x <= r by {
        let y = choose|y: int| #[trigger] has_ink_at(bitmap, x, y);
        assert(col(x));
    }
    r
}

proof fn least_ink_row(bitmap: LyricBitmap) -> (t: int)
    requires
        has_ink(bitmap),
    ensures
        ink_in_row(bitmap, t),
        forall|y: int| #[trigger] ink_in_row(bitmap, y) ==> t <= y,
{
    let (xa, ya) = choose|xa: int, ya: int| #[trigger] has_ink_at(bitmap, xa, ya);
    let row = |y: int| ink_in_row(bitmap, y);
    assert(row(ya));
    lemma_least(row, bitmap.height as int);
    let t = choose|m: int| 0 <= m < bitmap.height && #[trigger] row(m) && forall|j: int| 0 <= j < m ==> !#[trigger] row(j);
    assert forall|y: int| #[trigger] ink_in_row(bitmap, y) implies t <= y by {
        let x = choose|x: int| #[trigger] has_ink_at(bitmap, x, y);
        assert(row(y));
    }
    t
}

proof fn greatest_ink_row(bitmap: LyricBitmap) -> (b: int)
    requires
        has_ink(bitmap),
    ensures
        ink_in_row(bitmap, b),
        forall|y: int| #[trigger] ink_in_row(bitmap, y) ==> y <= b,
{
    let (xa, ya) = choose|xa: int, ya: int| #[trigger] has_ink_at(bitmap, xa, ya);
    let row = |y: int| ink_in_row(bitmap, y);
    assert(row(ya));
    lemma_greatest(row, bitmap.height as int);
    let b = choose|m: int| 0 <= m < bitmap.height && #[trigger] row(m) && forall|j: int| m < j < bitmap.height ==> !#[trigger] row(j);
    assert forall|y: int| #[trigger] ink_in_row(bitmap, y) implies y <= b by {
        let x = choose|x: int| #[trigger] has_ink_at(bitmap, x, y);
        assert(row(y));
    }
    b
}

/// A bitmap with ink has a tightest box around it.
pub proof fn lemma_ink_box_exists(bitmap: LyricBitmap)
    requires
        has_ink(bitmap),
    ensures
        is_ink_box(bitmap, ink_box(bitmap).0, ink_box(bitmap).1, ink_box(bitmap).2, ink_box(bitmap).3),
{
    let l = least_ink_column(bitmap);
    let r = greatest_ink_column(bitmap);
    let t = least_ink_row(bitmap);
    let b = greatest_ink_row(bitmap);
    assert forall|x: int, y: int| #[trigger] has_ink_at(bitmap, x, y) implies l <= x <= r && t <= y <= b by {
        assert(ink_in_column(bitmap, x));
        assert(ink_in_row(bitmap, y));
    }
    let bx = (l, t, r, b);
    assert(is_ink_box(bitmap, bx.0, bx.1, bx.2, bx.3));
}

proof fn lemma_crop_rows_len(bitmap: LyricBitmap, left: int, cols: int, top: int, rows: nat)
    requires
        0 <= left,
        0 <= cols,
        0 <= top,
        rows > 0 ==> (top + rows - 1) * bitmap.width + left + cols <= bitmap.pixels@.len(),
    ensures
        crop_rows(bitmap, left, cols, top, rows).len() == rows * cols,
    decreases rows,
{
    if rows > 0 {
        let w = bitmap.width as int;
        if rows > 1 {
            assert((top + rows - 2) * w + left + cols <= (top + rows - 1) * w + left + cols) by (nonlinear_arith)
                requires
                    w >= 0,
            ;
        }
        lemma_crop_rows_len(bitmap, left, cols, top, (rows - 1) as nat);
        let y = top + rows - 1;
        assert(y * w >= 0) by (nonlinear_arith)
            requires
                y >= 0,
                w >= 0,
        ;
        assert((rows - 1) * cols + cols == rows * cols) by (nonlinear_arith);
        let seg = bitmap.pixels@.subrange(y * w + left, y * w + left + cols);
        assert(seg.len() == cols);
        assert(crop_rows(bitmap, left, cols, top, rows) == crop_rows(bitmap, left, cols, top, (rows - 1) as nat) + seg);
    } else {
        assert(0 * cols == 0) by (nonlinear_arith);
    }
}

proof fn lemma_crop_rows_at(bitmap: LyricBitmap, left: int, cols: int, top: int, rows: nat, r: int, c: int)
    requires
        0 <= left,
        0 <= cols,
        0 <= top,
        (top + rows - 1) * bitmap.width + left + cols <= bitmap.pixels@.len(),
        0 <= r < rows,
        0 <= c < cols,
    ensures
        crop_rows(bitmap, left, cols, top, rows)[r * cols + c] == bitmap.pixels@[(top + r) * bitmap.width + left + c],
    decreases rows,
{
    let w = bitmap.width as int;
    let y = top + rows - 1;
    assert(y * w >= 0) by (nonlinear_arith)
        requires
            y >= 0,
            w >= 0,
    ;
    let prev = crop_rows(bitmap, left, cols, top, (rows - 1) as nat);
    if rows > 1 {
        assert((top + rows - 2) * w + left + cols <= (top + rows - 1) * w + left + cols) by (nonlinear_arith)
            requires
                w >= 0,
        ;
    }
    lemma_crop_rows_len(bitmap, left, cols, top, (rows - 1) as nat);
    if r < rows - 1 {
        lemma_crop_rows_at(bitmap, left, cols, top, (rows - 1) as nat, r, c);
        assert(r * cols + c < (rows - 1) * cols) by (nonlinear_arith)
            requires
                0 <= r < rows - 1,
                0 <= c < cols,
        ;
        assert(r * cols + c >= 0) by (nonlinear_arith)
            requires
                0 <= r,
                0 <= c,
                0 <= cols,
        ;
    } else {
        assert(r * cols + c - prev.len() == c) by (nonlinear_arith)
            requires
                r == rows - 1,
                prev.len() == (rows - 1) * cols,
        ;
    }
}

/// Cropping loses no ink: the cropped pixels hold, at each inked place's
/// position within the box, exactly that pixel, and every place outside the
/// box is empty.
pub proof fn crop_keeps_ink(bitmap: LyricBitmap, x: int, y: int)
    requires
        bitmap_is_complete(bitmap),
        has_ink(bitmap),
        0 <= x < bitmap.width,
        0 <= y < bitmap.height,
    ensures
        ({
            let (left, top, right, bottom) = ink_box(bitmap);
            let cols = right - left + 1;
            let rows = bottom - top + 1;
            let crop = crop_rows(bitmap, left, cols, top, rows as nat);
            &&& 0 <= left <= right < bitmap.width
            &&& 0 <= top <= bottom < bitmap.height
            &&& crop.len() == cols * rows
            &&& (left <= x <= right && top <= y <= bottom ==> crop[(y - top) * cols + (x - left)]
                == bitmap.pixels@[y * bitmap.width + x])
            &&& (!(left <= x <= right && top <= y <= bottom) ==> bitmap.pixels@[y * bitmap.width + x] == 0)
        }),
{
    lemma_ink_box_exists(bitmap);
    let (l, t, r, b) = ink_box(bitmap);
    let wl = choose|yy: int| #[trigger] has_ink_at(bitmap, l, yy);
    let wr = choose|yy: int| #[trigger] has_ink_at(bitmap, r, yy);
    let wt = choose|xx: int| #[trigger] has_ink_at(bitmap, xx, t);
    let wb = choose|xx: int| #[trigger] has_ink_at(bitmap, xx, b);
    let w = bitmap.width as int;
    let h = bitmap.height as int;
    assert(b * w + l + (r - l + 1) <= w * h) by (nonlinear_arith)
        requires
            0 <= b < h,
            0 <= l <= r < w,
    ;
    lemma_crop_rows_len(bitmap, l, r - l + 1, t, (b - t + 1) as nat);
    assert((r - l + 1) * (b - t + 1) == (b - t + 1) * (r - l + 1)) by (nonlinear_arith);
    if !(l <= x <= r && t <= y <= b) {
        if bitmap.pixels@[y * w + x] != 0 {
            assert(has_ink_at(bitmap, x, y));
        }
    } else {
        lemma_crop_rows_at(bitmap, l, r - l + 1, t, (b - t + 1) as nat, y - t, x - l);
        assert((t + (y - t)) * w + l + (x - l) == y * w + x);
    }
}


/// A bitmap packet never reaches outside the area of the bitmap it was cut from,
/// and its header names exactly the area it covers.
pub proof fn sent_area_stays_inside(bitmap: LyricBitmap, kind: PacketType)
    requires
        bitmap.width >= 1,
        bitmap.height >= 1,
        ink_origin_fits(bitmap),
    ensures
        bitmap.x <= sent_area(bitmap, kind).0,
        bitmap.y <= sent_area(bitmap, kind).1,
        sent_area(bitmap, kind).0 + sent_area(bitmap, kind).2 <= bitmap.x + bitmap.width,
        sent_area(bitmap, kind).1 + sent_area(bitmap, kind).3 <= bitmap.y + bitmap.height,
        from_le16(smallest_bitmap_packet(bitmap, kind)[7], smallest_bitmap_packet(bitmap, kind)[8])
            == sent_area(bitmap, kind).0,
        from_le16(smallest_bitmap_packet(bitmap, kind)[9], smallest_bitmap_packet(bitmap, kind)[10])
            == sent_area(bitmap, kind).1,
        from_le16(smallest_bitmap_packet(bitmap, kind)[11], smallest_bitmap_packet(bitmap, kind)[12])
            == sent_area(bitmap, kind).2,
        from_le16(smallest_bitmap_packet(bitmap, kind)[13], smallest_bitmap_packet(bitmap, kind)[14])
            == sent_area(bitmap, kind).3,
{
    let p = smallest_bitmap_packet(bitmap, kind);
    let a = sent_area(bitmap, kind);
    if has_ink(bitmap) {
        lemma_ink_box_exists(bitmap);
        let (left, top, right, bottom) = ink_box(bitmap);
        let yl = choose|y: int| #[trigger] has_ink_at(bitmap, left, y);
        let yr = choose|y: int| #[trigger] has_ink_at(bitmap, right, y);
        let xt = choose|x: int| #[trigger] has_ink_at(bitmap, x, top);
        let xb = choose|x: int| #[trigger] has_ink_at(bitmap, x, bottom);
    }
    let payload = bitmap_payload(a.0 as u16, a.1 as u16, a.2 as u16, a.3 as u16, if !has_ink(bitmap) {
        seq![0u8]
    } else if cropped_packet(bitmap, kind).len() < bitmap_packet(bitmap, kind).len() {
        let (left, top, right, bottom) = ink_box(bitmap);
        crop_rows(bitmap, left, right - left + 1, top, (bottom - top + 1) as nat)
    } else {
        bitmap.pixels@
    });
    assert(p == frame(packet_code(kind), payload));
    bitmap_payload_reads_back(a.0 as u16, a.1 as u16, a.2 as u16, a.3 as u16, if !has_ink(bitmap) {
        seq![0u8]
    } else if cropped_packet(bitmap, kind).len() < bitmap_packet(bitmap, kind).len() {
        let (left, top, right, bottom) = ink_box(bitmap);
        crop_rows(bitmap, left, right - left + 1, top, (bottom - top + 1) as nat)
    } else {
        bitmap.pixels@
    });
    assert(payload.len() >= 8);
    assert(forall|i: int| 0 <= i < 8 ==> p[7 + i] == #[trigger] payload[i]);
}


/// The pixel at (`x`, `y`) of a bitmap rebuilt from a part `pixels` of size
/// `w` x `h` placed at offset (`ox`, `oy`): the part's pixel inside it, 0 outside.
pub open spec fn placed_pixel(pixels: Seq<u8>, ox: int, oy: int, w: int, h: int, x: int, y: int) -> u8 {
    if ox <= x < ox + w && oy <= y < oy + h {
        pixels[(y - oy) * w + (x - ox)]
    } else {
        0
    }
}

/// The packet a bitmap is sent as (cropped or whole) reads back as the bitmap:
/// it has the requested type, is no longer than the whole bitmap's packet, names
/// an area inside the bitmap, and its pixels, placed in that area on an empty
/// bitmap, give back every pixel of the bitmap.
pub proof fn sent_packet_reads_back(bitmap: LyricBitmap, kind: PacketType)
    requires
        bitmap.width >= 1,
        bitmap.height >= 1,
        bitmap.pixels@.len() == bitmap.width * bitmap.height,
        bitmap.x + bitmap.width <= 65535,
        bitmap.y + bitmap.height <= 65535,
    ensures
        ({
            let p = smallest_bitmap_packet(bitmap, kind);
            let sx = from_le16(p[7], p[8]);
            let sy = from_le16(p[9], p[10]);
            let sw = from_le16(p[11], p[12]);
            let sh = from_le16(p[13], p[14]);
            let pixels = payload_pixels(p.subrange(7, 7 + from_le32(p[3], p[4], p[5], p[6])));
            &&& p[2] == packet_code(kind)
            &&& p.len() <= bitmap_packet(bitmap, kind).len()
            &&& bitmap.x <= sx && bitmap.y <= sy
            &&& sx + sw <= bitmap.x + bitmap.width && sy + sh <= bitmap.y + bitmap.height
            &&& pixels.len() == sw * sh
            &&& forall|x: int, y: int|
                0 <= x < bitmap.width && 0 <= y < bitmap.height ==> #[trigger] bitmap.pixels@[y * bitmap.width + x]
                    == placed_pixel(pixels, sx - bitmap.x, sy - bitmap.y, sw, sh, x, y)
        }),
{
    let w = bitmap.width as int;
    let h = bitmap.height as int;
    let p = smallest_bitmap_packet(bitmap, kind);
    assert(1 <= w * h <= 65535 * 65535) by (nonlinear_arith)
        requires
            1 <= w <= 65535,
            1 <= h <= 65535,
    ;
    if has_ink(bitmap) {
        lemma_ink_box_exists(bitmap);
        let b = ink_box(bitmap);
        let yl = choose|y: int| #[trigger] has_ink_at(bitmap, b.0, y);
        let xt = choose|x: int| #[trigger] has_ink_at(bitmap, x, b.1);
    }
    sent_area_stays_inside(bitmap, kind);
    let a = sent_area(bitmap, kind);
    let chosen = if !has_ink(bitmap) {
        seq![0u8]
    } else if cropped_packet(bitmap, kind).len() < bitmap_packet(bitmap, kind).len() {
        let (left, top, right, bottom) = ink_box(bitmap);
        crop_rows(bitmap, left, right - left + 1, top, (bottom - top + 1) as nat)
    } else {
        bitmap.pixels@
    };
    let payload = bitmap_payload(a.0 as u16, a.1 as u16, a.2 as u16, a.3 as u16, chosen);
    assert(p == frame(packet_code(kind), payload));
    bitmap_payload_reads_back(a.0 as u16, a.1 as u16, a.2 as u16, a.3 as u16, chosen);
    if has_ink(bitmap) && cropped_packet(bitmap, kind).len() < bitmap_packet(bitmap, kind).len() {
        crop_keeps_ink(bitmap, 0, 0);
        let (left, top, right, bottom) = ink_box(bitmap);
        let cols = right - left + 1;
        let rows = bottom - top + 1;
        assert(cols * rows <= w * h) by (nonlinear_arith)
            requires
                1 <= cols <= w,
                1 <= rows <= h,
        ;
        assert(a.2 == cols && a.3 == rows);
        assert(chosen.len() == cols * rows);
    } else if has_ink(bitmap) {
        assert(a.2 == w && a.3 == h);
        assert(chosen.len() == w * h);
    } else {
        assert(a.2 == 1 && a.3 == 1);
        assert(chosen.len() == 1);
    }
    assert(chosen.len() == a.2 * a.3);
    assert(chosen.len() <= w * h);
    assert(payload.len() <= chosen.len() + 9);
    frame_reads_back(packet_code(kind), payload);
    let full = bitmap_payload(bitmap.x, bitmap.y, bitmap.width, bitmap.height, bitmap.pixels@);
    if !has_ink(bitmap) {
        // the whole bitmap's payload holds at least one pixel or one 3-byte run
        lemma_rle_encoding(bitmap.pixels@);
        if uses_rle(bitmap.pixels@) {
            assert(rle_encode(bitmap.pixels@).len() >= 3) by {
                if rle_encode(bitmap.pixels@).len() < 3 {
                    assert(rle_decode(rle_encode(bitmap.pixels@)) =~= Seq::<u8>::empty());
                }
            }
        }
        assert(full.len() >= 10);
        assert(!uses_rle(seq![0u8])) by {
            lemma_rle_encoding(seq![0u8]);
            if rle_encode(seq![0u8]).len() < 1 {
                assert(rle_decode(rle_encode(seq![0u8])) =~= Seq::<u8>::empty());
            }
        }
        assert(payload.len() == 10);
        assert(frame(packet_code(kind), full).len() == full.len() + 8);
        assert forall|x: int, y: int|
            0 <= x < w && 0 <= y < h implies #[trigger] bitmap.pixels@[y * w + x] == placed_pixel(
                seq![0u8],
                0,
                0,
                1,
                1,
                x,
                y,
            ) by {
            assert(!has_ink_at(bitmap, x, y));
        }
    } else if cropped_packet(bitmap, kind).len() < bitmap_packet(bitmap, kind).len() {
        let (left, top, right, bottom) = ink_box(bitmap);
        assert forall|x: int, y: int|
            0 <= x < w && 0 <= y < h implies #[trigger] bitmap.pixels@[y * w + x] == placed_pixel(
                chosen,
                left,
                top,
                right - left + 1,
                bottom - top + 1,
                x,
                y,
            ) by {
            crop_keeps_ink(bitmap, x, y);
        }
    } else {
        assert forall|x: int, y: int|
            0 <= x < w && 0 <= y < h implies #[trigger] bitmap.pixels@[y * w + x] == placed_pixel(
                chosen,
                0,
                0,
                w,
                h,
                x,
                y,
            ) by {
        }
    }
}

} // verus!
