use lyric_panel::cache::CoverCache;
use lyric_panel::controls::generate_media_controls_layers;
use lyric_panel::cover::{build_cover_matrix, decode_cover, RgbPicture};
use lyric_panel::graphics::ImageMatrix;

fn matrix(tag: u8) -> ImageMatrix {
    ImageMatrix { width: 1, height: 1, theme_color: (tag, 0, 0), rgb_data: vec![tag, tag, tag] }
}

fn png_bytes(width: u32, height: u32, rgb: [u8; 3]) -> Vec<u8> {
    let img = image::RgbImage::from_pixel(width, height, image::Rgb(rgb));
    let mut bytes = Vec::new();
    image::DynamicImage::ImageRgb8(img)
        .write_to(&mut std::io::Cursor::new(&mut bytes), image::ImageFormat::Png)
        .unwrap();
    bytes
}

#[test]
fn cache_finds_what_was_inserted() {
    let mut cache = CoverCache::new(2);
    assert!(cache.get("a").is_none());
    cache.insert("a".to_string(), matrix(1));
    let found = cache.get("a").unwrap();
    assert_eq!(found.theme_color, (1, 0, 0));
    assert_eq!(found.rgb_data, vec![1, 1, 1]);
}

#[test]
fn cache_drops_the_oldest_when_full() {
    let mut cache = CoverCache::new(2);
    cache.insert("a".to_string(), matrix(1));
    cache.insert("b".to_string(), matrix(2));
    cache.insert("a".to_string(), matrix(9));
    assert_eq!(cache.get("a").unwrap().theme_color, (1, 0, 0));
    cache.insert("c".to_string(), matrix(3));
    assert!(cache.get("a").is_none());
    assert_eq!(cache.get("b").unwrap().theme_color, (2, 0, 0));
    assert_eq!(cache.get("c").unwrap().theme_color, (3, 0, 0));
}

#[test]
fn cache_of_no_capacity_still_keeps_the_last() {
    let mut cache = CoverCache::new(0);
    cache.insert("a".to_string(), matrix(1));
    cache.insert("b".to_string(), matrix(2));
    assert!(cache.get("a").is_none());
    assert_eq!(cache.get("b").unwrap().theme_color, (2, 0, 0));
}

#[test]
fn media_controls_are_three_icons() {
    let playing = generate_media_controls_layers(true);
    assert_eq!(playing.len(), 3);
    assert_eq!(
        playing.iter().map(|l| l.x).collect::<Vec<_>>(),
        vec![140, 60, 220]
    );
    assert!(playing.iter().all(|l| l.y == 380 && l.width == 40 && l.height == 40));
    assert!(playing.iter().all(|l| l.pixel_data.len() == 1600 && l.is_active == 1));
    assert_eq!(playing[0].pixel_data[20 * 40 + 10], 255);
    assert_eq!(playing[0].pixel_data[20 * 40 + 20], 0);
    assert_eq!(playing[1].pixel_data[15 * 40 + 7], 255);
    assert_eq!(playing[2].pixel_data[15 * 40 + 31], 255);
    assert_eq!(playing[1].pixel_data[0], 0);

    let paused = generate_media_controls_layers(false);
    assert_eq!(paused[0].pixel_data[20 * 40 + 12], 255);
    assert_eq!(paused[0].pixel_data[20 * 40 + 20], 255);
    assert_eq!(paused[0].pixel_data[20 * 40 + 36], 0);
    assert_eq!(paused[1].pixel_data, playing[1].pixel_data);
}

#[test]
fn cover_is_decoded_and_scaled() {
    let bytes = png_bytes(4, 2, [10, 20, 30]);
    let picture = decode_cover(&bytes).unwrap();
    assert_eq!((picture.width, picture.height), (4, 2));
    assert_eq!(picture.data.len(), 4 * 2 * 3);
    assert_eq!(&picture.data[..3], &[10, 20, 30]);

    let scaled = build_cover_matrix(&picture, 2, 1, (7, 8, 9));
    assert_eq!((scaled.width, scaled.height), (2, 1));
    assert_eq!(scaled.theme_color, (7, 8, 9));
    assert_eq!(scaled.rgb_data.len(), 2 * 1 * 3);
    assert!(scaled.rgb_data.chunks(3).all(|px| px == [10, 20, 30]));
}

#[test]
fn garbage_is_no_cover() {
    assert!(decode_cover(&[1, 2, 3, 4]).is_none());
    assert!(decode_cover(&[]).is_none());
}

#[test]
fn cover_of_the_target_size_keeps_its_pixels() {
    let data: Vec<u8> = (0..3 * 2 * 3).map(|i| (i * 13) as u8).collect();
    let mut longer = data.clone();
    longer.extend_from_slice(&[9, 9, 9]);
    let picture = RgbPicture { width: 3, height: 2, data: longer };
    let matrix = build_cover_matrix(&picture, 3, 2, (1, 2, 3));
    assert_eq!(matrix.rgb_data, data);
}

#[test]
fn empty_picture_gives_a_black_cover() {
    let picture = RgbPicture { width: 0, height: 0, data: Vec::new() };
    let matrix = build_cover_matrix(&picture, 2, 2, (0, 0, 0));
    assert_eq!(matrix.rgb_data, vec![0u8; 12]);
}
