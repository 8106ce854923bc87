use lyric_panel::memscan::{
    decode_memory_string, decode_utf16_lossy, find_pattern_offsets, matching_locations,
    next_caught_lyric, search_targets, utf16_units_until_nul, utf16le_bytes, MemoryTracker,
    TrackAction,
};

#[test]
fn pattern_offsets_include_overlaps() {
    assert_eq!(find_pattern_offsets(b"abcabc", b"bc"), vec![1, 4]);
    assert_eq!(find_pattern_offsets(b"aaaa", b"aa"), vec![0, 1, 2]);
    assert!(find_pattern_offsets(b"abc", b"").is_empty());
    assert!(find_pattern_offsets(b"ab", b"abc").is_empty());
    assert_eq!(find_pattern_offsets(b"abc", b"abc"), vec![0]);
}

#[test]
fn text_is_encoded_as_utf16le() {
    assert_eq!(utf16le_bytes(&vec!['a', '你']), vec![0x61, 0x00, 0x60, 0x4F]);
    assert_eq!(utf16le_bytes(&vec!['😀']), vec![0x3D, 0xD8, 0x00, 0xDE]);
}

#[test]
fn spaced_lyrics_are_also_searched_with_ideographic_spaces() {
    assert_eq!(
        search_targets("a b"),
        vec![vec![0x61, 0, 0x20, 0, 0x62, 0], vec![0x61, 0, 0x00, 0x30, 0x62, 0]]
    );
    assert_eq!(search_targets("ab"), vec![vec![0x61, 0, 0x62, 0]]);
}

#[test]
fn units_stop_at_the_first_nul() {
    assert_eq!(utf16_units_until_nul(&[0x61, 0, 0x62, 0, 0, 0, 0x63, 0]), vec![0x61, 0x62]);
    assert_eq!(utf16_units_until_nul(&[0x61, 0, 0x62]), vec![0x61]);
    assert!(utf16_units_until_nul(&[]).is_empty());
}

#[test]
fn unpaired_surrogates_decode_as_replacement() {
    assert_eq!(decode_utf16_lossy(&vec![0xD83D, 0xDE00]), vec!['😀']);
    assert_eq!(decode_utf16_lossy(&vec![0xD83D, 0x61]), vec!['\u{FFFD}', 'a']);
    assert_eq!(decode_utf16_lossy(&vec![0xDE00]), vec!['\u{FFFD}']);
}

#[test]
fn memory_string_is_trimmed_lyric_text() {
    let mut bytes = Vec::new();
    for unit in [0x20u16, 0x3000, 0x4F60, 0x597D, 0x3000, 0x20, 0, 0x61] {
        bytes.extend_from_slice(&unit.to_le_bytes());
    }
    let (text, units) = decode_memory_string(&bytes);
    assert_eq!(text, "你好");
    assert_eq!(units, vec![0x20, 0x3000, 0x4F60, 0x597D, 0x3000, 0x20]);
}

fn readings(items: &[(usize, usize, Option<&str>)]) -> Vec<((usize, usize), Option<String>)> {
    items
        .iter()
        .map(|&(h, a, t)| ((h, a), t.map(|s| s.to_string())))
        .collect()
}

#[test]
fn tracker_narrows_candidates_lyric_by_lyric() {
    let lyrics: Vec<String> = vec!["one".to_string(), "two".to_string()];
    let mut tracker = MemoryTracker::new();
    assert_eq!(tracker.action(lyrics.len()), TrackAction::Scan);

    assert!(!tracker.after_scan(&lyrics, &readings(&[(1, 10, Some("other")), (1, 20, None)])));
    assert_eq!(tracker.action(lyrics.len()), TrackAction::Scan);

    assert!(tracker.after_scan(
        &lyrics,
        &readings(&[(1, 10, Some("one")), (1, 20, Some("onex")), (2, 30, Some("one"))])
    ));
    assert_eq!(tracker.candidates, vec![(1, 10), (2, 30)]);
    assert_eq!(tracker.action(lyrics.len()), TrackAction::Reread);

    assert!(!tracker.after_reread(&lyrics, &readings(&[(1, 10, Some("one")), (2, 30, None)]), false));
    assert_eq!(tracker.candidates, vec![(1, 10), (2, 30)]);
    assert_eq!(tracker.next_lyric, 1);

    assert!(tracker.after_reread(&lyrics, &readings(&[(1, 10, Some("one")), (2, 30, Some("two"))]), false));
    assert_eq!(tracker.candidates, vec![(2, 30)]);
    assert_eq!(tracker.action(lyrics.len()), TrackAction::Listen);
}

#[test]
fn tracker_starts_over_after_a_timeout() {
    let lyrics: Vec<String> = vec!["one".to_string(), "two".to_string()];
    let mut tracker = MemoryTracker::new();
    assert!(tracker.after_scan(&lyrics, &readings(&[(1, 10, Some("one"))])));
    assert!(!tracker.after_reread(&lyrics, &readings(&[(1, 10, Some("one"))]), true));
    assert!(tracker.candidates.is_empty());
    assert_eq!(tracker.next_lyric, 0);
    assert_eq!(tracker.action(lyrics.len()), TrackAction::Scan);
}

#[test]
fn newly_caught_lyric_is_the_first_new_text() {
    let texts = vec![String::new(), "same".to_string(), "new".to_string(), "later".to_string()];
    assert_eq!(next_caught_lyric(&texts, &"same".to_string()), Some("new".to_string()));
    assert_eq!(next_caught_lyric(&texts, &String::new()), Some("same".to_string()));
    assert_eq!(next_caught_lyric(&vec!["same".to_string()], &"same".to_string()), None);
    assert_eq!(next_caught_lyric(&Vec::new(), &String::new()), None);
}

#[test]
fn kept_locations_are_those_reading_the_lyric() {
    let found = readings(&[(1, 1, Some("a")), (1, 2, Some("b")), (3, 4, Some("a")), (5, 6, None)]);
    assert_eq!(matching_locations(&found, &"a".to_string()), vec![(1, 1), (3, 4)]);
    assert!(matching_locations(&found, &"c".to_string()).is_empty());
}
