use lyric_panel::canvas::pack_lyric_message;
use lyric_panel::graphics::{
    encode_lyric_pixel, TextLayer, LYRIC_BITMAP_HEIGHT, LYRIC_BITMAP_X, LYRIC_BITMAP_Y,
};
use lyric_panel::link::{
    format_clock, lyric_line_at, packet_to_send, parse_cover_block_info, song_credits, CoverBlockInfo,
    HwDecoder, SerialPacket,
    HwEvent,
    LYRIC_BACKTRACK_SUPPRESS_MS, META_BASE_X, META_CLEAR_H, META_CLEAR_W, META_CLEAR_X,
    META_CLEAR_Y,
};
use lyric_panel::lyrics::centered_lyric_lines;
use lyric_panel::meta::{compose_meta_bitmap, encode_meta_pixel, pack_meta_layers, put_meta_pixel};
use lyric_panel::protocol::{build_packet, PacketType};

/// Stands in for the font renderer the application supplies: each non-blank
/// entry becomes a solid block in an equal band of the lyric area.
fn block_layers(lines: &Vec<String>) -> Option<Vec<TextLayer>> {
    let n = lines.len();
    let mut layers = Vec::new();
    for (i, line) in lines.iter().enumerate() {
        let glyphs = line.trim().chars().count();
        if glyphs == 0 {
            continue;
        }
        let width = (glyphs * 8).min(410) as u16;
        layers.push(TextLayer {
            x: LYRIC_BITMAP_X as i16 + 15,
            y: LYRIC_BITMAP_Y as i16 + (LYRIC_BITMAP_HEIGHT as usize * i / n) as i16,
            width,
            height: 20,
            is_active: if i == n / 2 { 1 } else { 0 },
            pixel_data: vec![255; width as usize * 20],
            line_index: i,
        });
    }
    Some(layers)
}

fn bitmap_packet_bounds(packet: &[u8]) -> (u16, u16, u16, u16) {
    assert_eq!(packet[0], 0xAA);
    assert_eq!(packet[1], 0x55);
    assert_eq!(packet[2], PacketType::MetaBitmap.code());
    (
        u16::from_le_bytes([packet[7], packet[8]]),
        u16::from_le_bytes([packet[9], packet[10]]),
        u16::from_le_bytes([packet[11], packet[12]]),
        u16::from_le_bytes([packet[13], packet[14]]),
    )
}

#[test]
fn meta_clear_rect_covers_left_up_animation_bounds() {
    assert!(META_CLEAR_X <= META_BASE_X as u16);
    assert_eq!(META_CLEAR_X + META_CLEAR_W, 800);
    assert_eq!(META_CLEAR_Y, 0);
    assert_eq!(META_CLEAR_H, 115);
}

#[test]
fn lyric_backtrack_suppression_covers_delayed_song_switch() {
    assert!(LYRIC_BACKTRACK_SUPPRESS_MS >= 3000);
}

#[test]
fn lyric_refresh_message_uses_refresh_packet_type() {
    let lines = centered_lyric_lines("hello");
    let normal = pack_lyric_message(&lines, false, block_layers).unwrap();
    let refresh = pack_lyric_message(&lines, true, block_layers).unwrap();

    assert_eq!(normal[2], PacketType::LyricBitmap.code());
    assert_eq!(refresh[2], PacketType::LyricBitmapRefresh.code());
}

#[test]
fn blank_lyric_message_is_not_packed() {
    let lines = centered_lyric_lines("   ");
    assert!(pack_lyric_message(&lines, false, block_layers).is_none());
    assert!(pack_lyric_message(&Vec::new(), true, block_layers).is_none());
}

#[test]
fn lyric_message_is_cropped_to_its_ink() {
    let lines = centered_lyric_lines("hello");
    let packet = pack_lyric_message(&lines, false, block_layers).unwrap();
    let x = u16::from_le_bytes([packet[7], packet[8]]);
    let y = u16::from_le_bytes([packet[9], packet[10]]);
    let w = u16::from_le_bytes([packet[11], packet[12]]);
    let h = u16::from_le_bytes([packet[13], packet[14]]);
    assert_eq!((x, w), (LYRIC_BITMAP_X + 15, 40));
    assert_eq!(y, LYRIC_BITMAP_Y + 138);
    assert_eq!(h, 20);
}

#[test]
fn meta_packet_stays_inside_cleared_area() {
    let meta_layer = TextLayer {
        x: META_BASE_X,
        y: 10,
        width: 1,
        height: 1,
        is_active: 0,
        pixel_data: vec![255],
        line_index: 0,
    };
    let packet = pack_meta_layers(&vec![meta_layer]);
    let (x, y, w, h) = bitmap_packet_bounds(&packet);
    assert!(x >= META_CLEAR_X);
    assert!(y >= META_CLEAR_Y);
    assert!(w <= META_CLEAR_W);
    assert!(h <= META_CLEAR_H);
    assert!((x as u32 + w as u32) <= (META_CLEAR_X + META_CLEAR_W) as u32);
    assert!((y as u32 + h as u32) <= (META_CLEAR_Y + META_CLEAR_H) as u32);
    assert_eq!((x, y, w, h), (META_BASE_X as u16, 10, 1, 1));
}

#[test]
fn meta_bitmap_skips_faint_and_outside_pixels() {
    let layer = TextLayer {
        x: META_CLEAR_X as i16 - 1,
        y: -1,
        width: 3,
        height: 2,
        is_active: 1,
        pixel_data: vec![255, 255, 5, 255, 200, 10],
        line_index: 0,
    };
    let bitmap = compose_meta_bitmap(&vec![layer]);
    assert_eq!(bitmap.width, META_CLEAR_W);
    assert_eq!(bitmap.height, META_CLEAR_H);
    assert_eq!(bitmap.pixels.len(), 480 * 115);
    assert_eq!(bitmap.pixels[0], encode_lyric_pixel(200, true));
    assert_eq!(bitmap.pixels[1], 0);
    assert_eq!(bitmap.pixels.iter().filter(|&&p| p != 0).count(), 1);
}

#[test]
fn meta_pixels_use_lyric_coding() {
    assert_eq!(encode_meta_pixel(255, true), encode_lyric_pixel(255, true));
    assert_eq!(encode_meta_pixel(0, false), 0);
    let mut canvas = vec![0u8; 2];
    put_meta_pixel(&mut canvas, 0, encode_meta_pixel(80, false));
    put_meta_pixel(&mut canvas, 0, 0);
    assert_eq!(canvas[0], encode_meta_pixel(80, false));
}

#[test]
fn decoder_reads_commands_seeks_and_clicks() {
    let mut decoder = HwDecoder::new();
    let events = decoder.feed_bytes(&[b'P', b'S', 0xF4, 0x01, b'x', b'C', 0x2C, 0x01, b'L', b'N', b'E']);
    assert_eq!(
        events,
        vec![
            HwEvent::Command(b'P'),
            HwEvent::Seek(500),
            HwEvent::LyricClick(300),
            HwEvent::Command(b'L'),
            HwEvent::Command(b'N'),
        ]
    );
    assert_eq!(decoder.rx_state, 0);
    assert_eq!((decoder.seek_permille, decoder.click_y), (500, 300));
}

#[test]
fn decoder_keeps_state_across_reads() {
    let mut decoder = HwDecoder::new();
    assert_eq!(decoder.feed(b'S'), None);
    assert_eq!(decoder.feed(0x10), None);
    assert!(decoder.feed_bytes(&[]).is_empty());
    assert_eq!(decoder.feed(0x00), Some(HwEvent::Seek(0x10)));
    assert_eq!(decoder.feed(b'C'), None);
    assert_eq!(decoder.feed_bytes(&[0x34, 0x12]), vec![HwEvent::LyricClick(0x1234)]);
    assert_eq!(decoder.rx_state, 0);
}

#[test]
fn cover_block_header_is_read_back() {
    let payload: Vec<u8> = vec![17, 0, 10, 0, 1, 2, 3, 4, 0, 3, 0, 0, 0, 0, 0, 0, 0];
    let packet = build_packet(PacketType::CoverRgb565Block, &payload);
    assert_eq!(
        parse_cover_block_info(&packet),
        Some(CoverBlockInfo { width: 17, height: 10, chunk_y: 4, chunk_h: 3 })
    );
    let other = build_packet(PacketType::LyricBitmap, &payload);
    assert_eq!(parse_cover_block_info(&other), None);
    assert_eq!(parse_cover_block_info(&packet[..packet.len() - 1]), None);
    assert_eq!(parse_cover_block_info(&[]), None);
}

#[test]
fn lyric_rows_map_to_eleven_bands() {
    assert_eq!(lyric_line_at(114), None);
    assert_eq!(lyric_line_at(115), Some(0));
    assert_eq!(lyric_line_at(115 + 27), Some(0));
    assert_eq!(lyric_line_at(115 + 28), Some(1));
    assert_eq!(lyric_line_at(267), Some(5));
    assert_eq!(lyric_line_at(419), Some(10));
    assert_eq!(lyric_line_at(420), None);
}

#[test]
fn clock_shows_minutes_and_seconds() {
    assert_eq!(format_clock(0), "00:00");
    assert_eq!(format_clock(65), "01:05");
    assert_eq!(format_clock(600), "10:00");
    assert_eq!(format_clock(3599), "59:59");
    assert_eq!(format_clock(6000), "100:00");
}

#[test]
fn song_credits_fall_back_to_alternative_listings() {
    let s = |v: &str| Some(v.to_string());
    assert_eq!(song_credits(&s("Artist"), &s("Other"), &s("Album"), &None), "Artist - Album");
    assert_eq!(song_credits(&s(""), &s("Other"), &None, &s("Alt Album")), "Other - Alt Album");
    assert_eq!(song_credits(&None, &None, &s(""), &None), "- - -");
    assert_eq!(song_credits(&None, &s(""), &s("A"), &None), " - A");
}

#[test]
fn decoder_result_does_not_depend_on_read_split() {
    let stream = [b'S', 0x20, 0x03, b'N', b'C', 0x00, 0x01, b'P', b'S', 0x05];
    let mut whole = HwDecoder::new();
    let all = whole.feed_bytes(&stream);
    for split in 0..=stream.len() {
        let mut parts = HwDecoder::new();
        let mut events = parts.feed_bytes(&stream[..split]);
        events.extend(parts.feed_bytes(&stream[split..]));
        assert_eq!(events, all);
        assert_eq!(parts, whole);
    }
    assert_eq!(all, vec![HwEvent::Seek(0x0320), HwEvent::Command(b'N'), HwEvent::LyricClick(0x0100), HwEvent::Command(b'P')]);
    assert_eq!(whole.rx_state, 2);
}

#[test]
fn stale_tagged_packets_are_skipped() {
    assert_eq!(packet_to_send(SerialPacket::Data(vec![1, 2]), 7), Some(vec![1, 2]));
    assert_eq!(
        packet_to_send(SerialPacket::Tagged { generation: 7, packet: vec![3] }, 7),
        Some(vec![3])
    );
    assert_eq!(packet_to_send(SerialPacket::Tagged { generation: 6, packet: vec![4] }, 7), None);
}
