use lyric_panel::graphics::{ImageMatrix, LyricBitmap, TextLayer, TextMatrix};
use lyric_panel::link::parse_cover_block_info;
use lyric_panel::protocol::{
    pack_clear_rect, pack_cover_matrix, pack_cover_matrix_rgb565_blocks, pack_lyric_bitmap,
    pack_lyric_bitmap_cropped, pack_lyric_bitmap_refresh, pack_lyric_bitmap_refresh_cropped,
    pack_meta_bitmap_cropped, pack_progress, pack_text_layer, pack_text_matrix, PacketType,
};
use lyric_panel::rle::encode_rle_grayscale;

fn decode_rle(encoded: &[u8]) -> Vec<u8> {
    let mut decoded = Vec::new();
    for chunk in encoded.chunks_exact(3) {
        let len = u16::from_le_bytes([chunk[0], chunk[1]]) as usize;
        decoded.extend(std::iter::repeat_n(chunk[2], len));
    }
    decoded
}

fn unpack_lyric_bitmap_pixels(packet: &[u8]) -> Vec<u8> {
    assert_eq!(packet[0], 0xAA);
    assert_eq!(packet[1], 0x55);
    assert!(
        packet[2] == PacketType::LyricBitmap.code()
            || packet[2] == PacketType::LyricBitmapRefresh.code()
    );
    let len = u32::from_le_bytes([packet[3], packet[4], packet[5], packet[6]]) as usize;
    let payload = &packet[7..7 + len];
    let encoding = payload[8];
    let data = &payload[9..];

    if encoding == 1 {
        decode_rle(data)
    } else {
        data.to_vec()
    }
}

#[test]
fn rle_encodes_empty_canvas() {
    assert!(encode_rle_grayscale(&[]).is_empty());
}

#[test]
fn rle_round_trips_repeated_pixels() {
    let pixels = vec![0; 1000];
    let encoded = encode_rle_grayscale(&pixels);
    assert!(encoded.len() < pixels.len());
    assert_eq!(decode_rle(&encoded), pixels);
}

#[test]
fn rle_round_trips_mixed_pixels() {
    let pixels: Vec<u8> = (0..2048).map(|i| ((i * 37 + 11) % 251) as u8).collect();
    assert_eq!(decode_rle(&encode_rle_grayscale(&pixels)), pixels);
}

#[test]
fn lyric_bitmap_packet_preserves_tagged_pixels() {
    let bitmap = LyricBitmap {
        x: 360,
        y: 115,
        width: 4,
        height: 2,
        pixels: vec![0, 1, 0x7F, 0x80, 0x81, 0xFF, 0, 0x42],
    };

    let packet = pack_lyric_bitmap(&bitmap);

    assert_eq!(unpack_lyric_bitmap_pixels(&packet), bitmap.pixels);
}

#[test]
fn lyric_bitmap_refresh_packet_uses_refresh_type() {
    let bitmap = LyricBitmap {
        x: 360,
        y: 115,
        width: 2,
        height: 2,
        pixels: vec![1, 2, 3, 4],
    };

    let packet = pack_lyric_bitmap_refresh_cropped(&bitmap);

    assert_eq!(packet[2], PacketType::LyricBitmapRefresh.code());
    assert_eq!(unpack_lyric_bitmap_pixels(&packet), bitmap.pixels);
}

#[test]
fn lyric_bitmap_cropped_packet_reduces_empty_edges() {
    let bitmap = LyricBitmap {
        x: 360,
        y: 115,
        width: 8,
        height: 6,
        pixels: vec![
            0, 0, 0, 0, 0, 0, 0, 0, 0, 0, 0, 0, 0, 0, 0, 0, 0, 0, 4, 5, 0, 0, 0, 0, 0, 0, 6, 7,
            0, 0, 0, 0, 0, 0, 0, 0, 0, 0, 0, 0, 0, 0, 0, 0, 0, 0, 0, 0,
        ],
    };

    let packet = pack_lyric_bitmap_cropped(&bitmap);
    let len = u32::from_le_bytes([packet[3], packet[4], packet[5], packet[6]]) as usize;
    let payload = &packet[7..7 + len];

    assert_eq!(u16::from_le_bytes([payload[0], payload[1]]), 362);
    assert_eq!(u16::from_le_bytes([payload[2], payload[3]]), 117);
    assert_eq!(u16::from_le_bytes([payload[4], payload[5]]), 2);
    assert_eq!(u16::from_le_bytes([payload[6], payload[7]]), 2);
    assert_eq!(unpack_lyric_bitmap_pixels(&packet), vec![4, 5, 6, 7]);
}

#[test]
fn cover_rgb565_blocks_preserve_dimensions_and_reduce_payload() {
    let matrix = ImageMatrix {
        width: 2,
        height: 17,
        theme_color: (10, 20, 30),
        rgb_data: (0..2 * 17)
            .flat_map(|i| {
                let v = i as u8;
                [v, v.wrapping_add(1), v.wrapping_add(2)]
            })
            .collect(),
    };

    let packets = pack_cover_matrix_rgb565_blocks(&matrix);
    assert_eq!(packets.len(), 2);
    assert_eq!(packets[0][2], PacketType::CoverRgb565Block.code());

    let len =
        u32::from_le_bytes([packets[0][3], packets[0][4], packets[0][5], packets[0][6]]) as usize;
    let payload = &packets[0][7..7 + len];
    assert_eq!(u16::from_le_bytes([payload[0], payload[1]]), 2);
    assert_eq!(u16::from_le_bytes([payload[2], payload[3]]), 17);
    assert_eq!(&payload[4..7], &[10, 20, 30]);
    assert_eq!(u16::from_le_bytes([payload[7], payload[8]]), 0);
    assert_eq!(u16::from_le_bytes([payload[9], payload[10]]), 16);
    assert_eq!(payload.len(), 11 + 2 * 16 * 2);
}

#[test]
fn progress_packet_frames_permille() {
    let packet = pack_progress(0x0102);
    assert_eq!(packet, vec![0xAA, 0x55, 0x05, 2, 0, 0, 0, 0x02, 0x01, 0x03]);
}

#[test]
fn clear_rect_packet_carries_rectangle() {
    let packet = pack_clear_rect(20, 445, 70, 20);
    let payload: Vec<u8> = vec![20, 0, 0xBD, 0x01, 70, 0, 20, 0];
    let sum = payload.iter().fold(0u8, |a, &b| a.wrapping_add(b));
    let mut expected = vec![0xAA, 0x55, 0x03, 8, 0, 0, 0];
    expected.extend_from_slice(&payload);
    expected.push(sum);
    assert_eq!(packet, expected);
}

#[test]
fn text_layer_packet_writes_negative_positions_in_twos_complement() {
    let layer = TextLayer {
        x: -2,
        y: 447,
        width: 2,
        height: 1,
        is_active: 1,
        pixel_data: vec![9, 250],
        line_index: 3,
    };
    let packet = pack_text_layer(&layer);
    assert_eq!(packet[2], 0x04);
    assert_eq!(&packet[7..18], &[0xFE, 0xFF, 0xBF, 0x01, 2, 0, 1, 0, 1, 9, 250]);
    assert_eq!(packet[18], 0xFEu8.wrapping_add(0xFF).wrapping_add(0xBF).wrapping_add(1).wrapping_add(2).wrapping_add(1).wrapping_add(1).wrapping_add(9).wrapping_add(250));
}

#[test]
fn cover_and_text_matrix_packets_carry_sizes() {
    let cover = ImageMatrix { width: 1, height: 1, theme_color: (1, 2, 3), rgb_data: vec![7, 8, 9] };
    let packet = pack_cover_matrix(&cover);
    assert_eq!(&packet[0..3], &[0xAA, 0x55, 0x01]);
    assert_eq!(&packet[7..17], &[1, 0, 1, 0, 1, 2, 3, 7, 8, 9]);

    let text = TextMatrix { width: 70000, height: 1, pixel_data: vec![5] };
    let packet = pack_text_matrix(&text);
    assert_eq!(packet[2], 0x02);
    // the width is truncated to 16 bits: 70000 - 65536 = 4464
    assert_eq!(&packet[7..12], &[0x70, 0x11, 1, 0, 5]);
}

#[test]
fn raw_pixels_are_sent_when_rle_is_not_shorter() {
    let bitmap = LyricBitmap { x: 1, y: 2, width: 3, height: 1, pixels: vec![1, 2, 3] };
    let packet = pack_lyric_bitmap_refresh(&bitmap);
    assert_eq!(packet[2], 0x08);
    assert_eq!(packet[7 + 8], 0);
    let bitmap = LyricBitmap { x: 1, y: 2, width: 8, height: 1, pixels: vec![0; 8] };
    let packet = pack_lyric_bitmap(&bitmap);
    assert_eq!(packet[7 + 8], 1);
    assert_eq!(&packet[16..19], &[8, 0, 0]);
}

#[test]
fn empty_bitmap_crops_to_one_empty_pixel() {
    let bitmap = LyricBitmap { x: 320, y: 0, width: 4, height: 3, pixels: vec![0; 12] };
    let packet = pack_meta_bitmap_cropped(&bitmap);
    assert_eq!(packet[2], 0x09);
    assert_eq!(&packet[7..15], &[0x40, 0x01, 0, 0, 1, 0, 1, 0]);
    assert_eq!(unpack_raw_pixels(&packet), vec![0]);
}

fn unpack_raw_pixels(packet: &[u8]) -> Vec<u8> {
    let len = u32::from_le_bytes([packet[3], packet[4], packet[5], packet[6]]) as usize;
    let payload = &packet[7..7 + len];
    if payload[8] == 1 { decode_rle(&payload[9..]) } else { payload[9..].to_vec() }
}

#[test]
fn full_packet_kept_when_cropping_does_not_shrink_it() {
    let bitmap = LyricBitmap { x: 5, y: 6, width: 2, height: 2, pixels: vec![1, 0, 0, 2] };
    let packet = pack_lyric_bitmap_cropped(&bitmap);
    assert_eq!(u16::from_le_bytes([packet[7], packet[8]]), 5);
    assert_eq!(u16::from_le_bytes([packet[11], packet[12]]), 2);
    assert_eq!(unpack_raw_pixels(&packet), vec![1, 0, 0, 2]);
}

#[test]
fn cover_blocks_read_back_their_headers() {
    let matrix = ImageMatrix {
        width: 3,
        height: 40,
        theme_color: (0, 0, 0),
        rgb_data: vec![255; 3 * 40 * 3],
    };
    let packets = pack_cover_matrix_rgb565_blocks(&matrix);
    assert_eq!(packets.len(), 3);
    let infos: Vec<(u16, u16, u16, u16)> = packets
        .iter()
        .map(|p| {
            let i = parse_cover_block_info(p).unwrap();
            (i.width, i.height, i.chunk_y, i.chunk_h)
        })
        .collect();
    assert_eq!(infos, vec![(3, 40, 0, 16), (3, 40, 16, 16), (3, 40, 32, 8)]);
    // white in RGB565 is 0xFFFF
    assert_eq!(&packets[2][18..20], &[0xFF, 0xFF]);
    assert!(parse_cover_block_info(&pack_progress(3)).is_none());
}

#[test]
fn rgb565_keeps_the_high_bits_of_each_channel() {
    let matrix = ImageMatrix { width: 1, height: 1, theme_color: (0, 0, 0), rgb_data: vec![0xF8, 0x04, 0x1F] };
    let packets = pack_cover_matrix_rgb565_blocks(&matrix);
    // r = 31, g = 1, b = 3: (31 << 11) | (1 << 5) | 3 = 0xF823
    assert_eq!(&packets[0][18..20], &[0x23, 0xF8]);
}

#[test]
fn unsendable_covers_give_no_blocks() {
    let empty = ImageMatrix { width: 0, height: 5, theme_color: (0, 0, 0), rgb_data: vec![] };
    assert!(pack_cover_matrix_rgb565_blocks(&empty).is_empty());
    let short = ImageMatrix { width: 2, height: 2, theme_color: (0, 0, 0), rgb_data: vec![0; 11] };
    assert!(pack_cover_matrix_rgb565_blocks(&short).is_empty());
}

#[test]
fn rle_splits_runs_longer_than_u16() {
    let pixels = vec![7u8; 65536];
    let encoded = encode_rle_grayscale(&pixels);
    assert_eq!(encoded, vec![0xFF, 0xFF, 7, 1, 0, 7]);
}

fn rebuild_from_packet(packet: &[u8], bitmap: &LyricBitmap) -> Vec<u8> {
    let sx = u16::from_le_bytes([packet[7], packet[8]]) as usize;
    let sy = u16::from_le_bytes([packet[9], packet[10]]) as usize;
    let sw = u16::from_le_bytes([packet[11], packet[12]]) as usize;
    let sh = u16::from_le_bytes([packet[13], packet[14]]) as usize;
    let pixels = unpack_lyric_bitmap_pixels(packet);
    assert_eq!(pixels.len(), sw * sh);
    let (w, h) = (bitmap.width as usize, bitmap.height as usize);
    let (ox, oy) = (sx - bitmap.x as usize, sy - bitmap.y as usize);
    assert!(ox + sw <= w && oy + sh <= h);
    let mut out = vec![0u8; w * h];
    for y in 0..sh {
        for x in 0..sw {
            out[(oy + y) * w + ox + x] = pixels[y * sw + x];
        }
    }
    out
}

#[test]
fn sent_packets_rebuild_the_bitmap() {
    let mut sparse = vec![0u8; 30 * 20];
    sparse[5 * 30 + 7] = 0x85;
    sparse[12 * 30 + 21] = 0x12;
    let mut noisy = vec![0u8; 6 * 4];
    for (i, p) in noisy.iter_mut().enumerate() {
        *p = (i as u8).wrapping_mul(37) | 1;
    }
    for pixels in [sparse, noisy, vec![0u8; 9 * 3]] {
        let (w, h) = match pixels.len() {
            600 => (30, 20),
            24 => (6, 4),
            _ => (9, 3),
        };
        let bitmap = LyricBitmap { x: 100, y: 50, width: w, height: h, pixels };
        let packet = pack_lyric_bitmap_cropped(&bitmap);
        assert_eq!(packet[2], PacketType::LyricBitmap.code());
        assert!(packet.len() <= pack_lyric_bitmap(&bitmap).len());
        assert_eq!(rebuild_from_packet(&packet, &bitmap), bitmap.pixels);
    }
}
