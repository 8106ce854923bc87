use lyric_panel::canvas::{
    apply_vertical_edge_feather, compose_lyric_canvas, generate_lyric_bitmap,
    generate_lyric_bitmap_transition, normalize_lyric_lines, sample_shifted_pixel,
};
use lyric_panel::graphics::{
    decode_lyric_pixel, encode_lyric_pixel, mix_transition_pixels, put_lyric_pixel,
    scale_lyric_pixel, LyricBitmap, TextLayer, LYRIC_ANIMATION_FRAMES, LYRIC_BITMAP_HEIGHT,
    LYRIC_BITMAP_LINES, LYRIC_BITMAP_WIDTH, LYRIC_BITMAP_X, LYRIC_BITMAP_Y,
    LYRIC_PIXEL_ACTIVE_FLAG,
};
use lyric_panel::text::{normalize_lyric_entry, normalize_single_lyric_line};

/// Stands in for the font renderer the application supplies: each non-blank
/// entry becomes a solid block, eight pixels per character wide and 20 rows
/// high, in an equal band of the lyric area; the middle entry is the active one.
fn block_layers(lines: &Vec<String>) -> Option<Vec<TextLayer>> {
    let n = lines.len();
    let center = n / 2;
    let mut layers = Vec::new();
    for (i, line) in lines.iter().enumerate() {
        let glyphs = line.trim().chars().count();
        if glyphs == 0 {
            continue;
        }
        let width = (glyphs * 8).min(410) as u16;
        let height = 20u16;
        layers.push(TextLayer {
            x: LYRIC_BITMAP_X as i16 + 15,
            y: LYRIC_BITMAP_Y as i16 + (LYRIC_BITMAP_HEIGHT as usize * i / n) as i16,
            width,
            height,
            is_active: if i == center { 1 } else { 0 },
            pixel_data: vec![255; width as usize * height as usize],
            line_index: i,
        });
    }
    Some(layers)
}

fn no_layers(_lines: &Vec<String>) -> Option<Vec<TextLayer>> {
    None
}

#[test]
fn lyric_bitmap_has_fixed_canvas_size() {
    let lines = vec![
        "short".to_string(),
        "这是一句很长很长的中文歌词，用来确认第一版固定画布不会因为文本长度改变尺寸".to_string(),
        "日本語の歌詞もここに入ります".to_string(),
        "한국어 가사도 들어갑니다".to_string(),
        "line 4".to_string(),
        "active center lyric".to_string(),
        "line 6".to_string(),
        "line 7".to_string(),
        "line 8".to_string(),
        "line 9".to_string(),
        "line 10".to_string(),
    ];
    let bitmap = generate_lyric_bitmap(&lines, block_layers);
    assert_eq!(bitmap.width, LYRIC_BITMAP_WIDTH);
    assert_eq!(bitmap.height, LYRIC_BITMAP_HEIGHT);
    assert_eq!(
        bitmap.pixels.len(),
        LYRIC_BITMAP_WIDTH as usize * LYRIC_BITMAP_HEIGHT as usize
    );
}

#[test]
fn lyric_bitmap_accepts_overscan_lines() {
    let lines: Vec<String> = (0..LYRIC_BITMAP_LINES + 2)
        .map(|i| format!("overscan lyric line {i}"))
        .collect();
    let bitmap = generate_lyric_bitmap(&lines, block_layers);

    assert_eq!(bitmap.width, LYRIC_BITMAP_WIDTH);
    assert_eq!(bitmap.height, LYRIC_BITMAP_HEIGHT);
    assert!(bitmap
        .pixels
        .iter()
        .any(|&pixel| (pixel & LYRIC_PIXEL_ACTIVE_FLAG) != 0));
    assert!(bitmap
        .pixels
        .iter()
        .any(|&pixel| pixel > 0 && pixel < LYRIC_PIXEL_ACTIVE_FLAG));
}

#[test]
fn lyric_bitmap_feathers_edge_lines() {
    let lines: Vec<String> = (0..LYRIC_BITMAP_LINES + 2)
        .map(|i| format!("lyric line {i}"))
        .collect();
    let bitmap = generate_lyric_bitmap(&lines, block_layers);
    let width = LYRIC_BITMAP_WIDTH as usize;

    assert!(bitmap.pixels[..width].iter().all(|&pixel| pixel == 0));
    assert!(bitmap.pixels[..width * 64].iter().any(|&pixel| pixel > 0));
    assert!(bitmap.pixels[width * (LYRIC_BITMAP_HEIGHT as usize - 1)..]
        .iter()
        .all(|&pixel| pixel == 0));
    assert!(bitmap.pixels[width * (LYRIC_BITMAP_HEIGHT as usize - 64)..]
        .iter()
        .any(|&pixel| pixel > 0));
}

#[test]
fn lyric_bitmap_preserves_active_and_inactive_color_tags() {
    let lines: Vec<String> = (0..LYRIC_BITMAP_LINES)
        .map(|i| format!("lyric line {i}"))
        .collect();
    let bitmap = generate_lyric_bitmap(&lines, block_layers);

    assert!(bitmap
        .pixels
        .iter()
        .any(|&pixel| (pixel & LYRIC_PIXEL_ACTIVE_FLAG) != 0));
    assert!(bitmap
        .pixels
        .iter()
        .any(|&pixel| pixel > 0 && pixel < LYRIC_PIXEL_ACTIVE_FLAG));
}

#[test]
fn lyric_transition_preserves_color_tags() {
    let previous = generate_lyric_bitmap(
        &(0..LYRIC_BITMAP_LINES)
            .map(|i| format!("previous lyric line {i}"))
            .collect::<Vec<_>>(),
        block_layers,
    );
    let final_frame = generate_lyric_bitmap(
        &(0..LYRIC_BITMAP_LINES)
            .map(|i| format!("next lyric line {i}"))
            .collect::<Vec<_>>(),
        block_layers,
    );

    let frames = generate_lyric_bitmap_transition(Some(&previous), final_frame.clone());

    assert!(frames.iter().all(|frame| {
        frame
            .pixels
            .iter()
            .any(|&pixel| (pixel & LYRIC_PIXEL_ACTIVE_FLAG) != 0)
    }));
    assert!(frames.iter().all(|frame| {
        frame
            .pixels
            .iter()
            .any(|&pixel| pixel > 0 && pixel < LYRIC_PIXEL_ACTIVE_FLAG)
    }));
    assert_ne!(
        frames.first().map(|frame| &frame.pixels),
        Some(&final_frame.pixels)
    );
    assert_eq!(
        frames.last().map(|frame| &frame.pixels),
        Some(&final_frame.pixels)
    );
}

#[test]
fn lyric_normalization_removes_cjk_internal_spaces_but_keeps_latin_word_spaces() {
    assert_eq!(normalize_single_lyric_line("你  好\u{3000}世\t界"), "你好世界");
    assert_eq!(
        normalize_single_lyric_line("hello   beautiful\tworld"),
        "hello beautiful world"
    );
}

#[test]
fn normalization_trims_and_collapses_mixed_lines() {
    assert_eq!(normalize_single_lyric_line("   "), "");
    assert_eq!(normalize_single_lyric_line("  a\u{00A0}\u{00A0}b  "), "a b");
    assert_eq!(normalize_single_lyric_line("日本 語"), "日本語");
    assert_eq!(normalize_single_lyric_line(" \t a \r\n b\u{3000}\u{3000}c  "), "a b c");
    assert_eq!(
        normalize_lyric_entry("  first  line \n 第 二 行 "),
        "first line\n第二行"
    );
    let out = normalize_lyric_lines(&vec!["a  b".to_string(), " 你 好 ".to_string()]);
    assert_eq!(out, vec!["a b".to_string(), "你好".to_string()]);
}

#[test]
fn pixel_coding_tags_and_levels() {
    assert_eq!(encode_lyric_pixel(0, true), 0);
    assert_eq!(encode_lyric_pixel(255, false), 0x7F);
    assert_eq!(encode_lyric_pixel(255, true), 0xFF);
    assert_eq!(decode_lyric_pixel(0xFF), (true, 255));
    assert_eq!(decode_lyric_pixel(0x7F), (false, 255));
    assert_eq!(decode_lyric_pixel(0), (false, 0));
    for coverage in 0..=255u8 {
        for active in [false, true] {
            let pixel = encode_lyric_pixel(coverage, active);
            if pixel != 0 {
                assert_eq!(decode_lyric_pixel(pixel).0, active);
                assert_eq!(encode_lyric_pixel(decode_lyric_pixel(pixel).1, active), pixel);
            }
        }
    }
}

#[test]
fn pixel_put_prefers_active_then_stronger_coverage() {
    let mut canvas = vec![0u8; 4];
    put_lyric_pixel(&mut canvas, 1, encode_lyric_pixel(100, false));
    assert_eq!(canvas[1], encode_lyric_pixel(100, false));
    put_lyric_pixel(&mut canvas, 1, encode_lyric_pixel(50, false));
    assert_eq!(canvas[1], encode_lyric_pixel(100, false));
    put_lyric_pixel(&mut canvas, 1, encode_lyric_pixel(50, true));
    assert_eq!(canvas[1], encode_lyric_pixel(50, true));
    put_lyric_pixel(&mut canvas, 1, encode_lyric_pixel(200, false));
    assert_eq!(canvas[1], encode_lyric_pixel(50, true));
    put_lyric_pixel(&mut canvas, 1, encode_lyric_pixel(200, true));
    assert_eq!(canvas[1], encode_lyric_pixel(200, true));
    put_lyric_pixel(&mut canvas, 2, 0);
    assert_eq!(canvas[2], 0);
}

#[test]
fn pixel_scaling_and_mixing() {
    let full = encode_lyric_pixel(255, true);
    assert_eq!(scale_lyric_pixel(full, 255), full);
    assert_eq!(scale_lyric_pixel(full, 0), 0);
    assert_eq!(scale_lyric_pixel(0, 255), 0);
    assert_eq!(mix_transition_pixels(0, 255, full, 255), full);
    assert_eq!(mix_transition_pixels(full, 0, 0, 255), 0);
}

#[test]
fn canvas_without_layers_is_empty() {
    let bitmap = generate_lyric_bitmap(&vec!["a".to_string(); 11], no_layers);
    assert_eq!(bitmap.x, LYRIC_BITMAP_X);
    assert_eq!(bitmap.y, LYRIC_BITMAP_Y);
    assert!(bitmap.pixels.iter().all(|&p| p == 0));
    assert_eq!(compose_lyric_canvas(&Vec::new()).len(), 440 * 305);
}

#[test]
fn canvas_layer_lands_at_its_place() {
    let layer = TextLayer {
        x: 370,
        y: 215,
        width: 2,
        height: 1,
        is_active: 1,
        pixel_data: vec![255, 0],
        line_index: 0,
    };
    let canvas = compose_lyric_canvas(&vec![layer]);
    assert_eq!(canvas[100 * 440 + 10], encode_lyric_pixel(255, true));
    assert_eq!(canvas[100 * 440 + 11], 0);
    assert_eq!(canvas.iter().filter(|&&p| p != 0).count(), 1);
}

#[test]
fn feather_fades_edges_only() {
    let mut canvas = vec![encode_lyric_pixel(255, false); 440 * 305];
    apply_vertical_edge_feather(&mut canvas, 17, 34);
    assert_eq!(canvas[5], 0);
    assert_eq!(canvas[304 * 440 + 7], 0);
    assert_eq!(canvas[150 * 440], encode_lyric_pixel(255, false));
    let mid_top = decode_lyric_pixel(canvas[8 * 440]).1;
    assert!(mid_top > 0 && mid_top < 255);
}

#[test]
fn shifted_samples_read_empty_outside() {
    let mut pixels = vec![0u8; 440 * 305];
    pixels[10 * 440 + 3] = 0x42;
    let bitmap = LyricBitmap {
        x: LYRIC_BITMAP_X,
        y: LYRIC_BITMAP_Y,
        width: LYRIC_BITMAP_WIDTH,
        height: LYRIC_BITMAP_HEIGHT,
        pixels,
    };
    assert_eq!(sample_shifted_pixel(&bitmap, 3, 10, 0), 0x42);
    assert_eq!(sample_shifted_pixel(&bitmap, 3, 5, 5), 0x42);
    assert_eq!(sample_shifted_pixel(&bitmap, 3, 300, 10), 0);
    assert_eq!(sample_shifted_pixel(&bitmap, 3, 0, -1), 0);
}

#[test]
fn transition_without_previous_fades_in_to_the_target() {
    let target = generate_lyric_bitmap(
        &(0..LYRIC_BITMAP_LINES).map(|i| format!("line {i}")).collect::<Vec<_>>(),
        block_layers,
    );
    let frames = generate_lyric_bitmap_transition(None, target.clone());
    assert_eq!(frames.len(), LYRIC_ANIMATION_FRAMES);
    assert_eq!(frames[LYRIC_ANIMATION_FRAMES - 1].pixels, target.pixels);
    let faded_in = frames[0].pixels.iter().filter(|&&p| p != 0).count();
    assert!(faded_in <= target.pixels.iter().filter(|&&p| p != 0).count());

    let with_previous = generate_lyric_bitmap_transition(Some(&target), target.clone());
    assert_eq!(with_previous.len(), LYRIC_ANIMATION_FRAMES);
    assert_eq!(with_previous[LYRIC_ANIMATION_FRAMES - 1].pixels, target.pixels);
}

#[test]
fn normalizing_twice_changes_nothing_and_keeps_the_words() {
    for line in ["  hello   beautiful\tworld ", "你  好\u{3000}世\t界", "a\u{00A0}b", "", " \t "] {
        let once = normalize_single_lyric_line(line);
        assert_eq!(normalize_single_lyric_line(&once), once);
        let visible = |s: &str| s.chars().filter(|c| !c.is_whitespace()).collect::<String>();
        assert_eq!(visible(&once), visible(line));
    }
}

#[test]
fn lines_that_normalize_alike_draw_alike() {
    let mut a: Vec<String> = (0..LYRIC_BITMAP_LINES).map(|i| format!("line {i}")).collect();
    let mut b = a.clone();
    a[3] = "hello   world".to_string();
    b[3] = "hello world".to_string();
    a[5] = "a\n\nb".to_string();
    b[5] = "a\nb".to_string();
    let left = generate_lyric_bitmap(&a, block_layers);
    let right = generate_lyric_bitmap(&b, block_layers);
    assert_eq!(left.pixels, right.pixels);
}
