use lyric_panel::lyrics::{
    all_lines_blank, centered_lyric_lines, display_text, lyric_window, ncm_song_id, split_lrc_tags,
    trim_chars, web_lyric_text,
};

fn strings(items: &[&str]) -> Vec<String> {
    items.iter().map(|s| s.to_string()).collect()
}

#[test]
fn lone_lyric_sits_in_the_middle() {
    let lines = centered_lyric_lines("  hi there ");
    assert_eq!(lines.len(), 11);
    assert_eq!(lines[5], "hi there");
    assert!(lines.iter().enumerate().all(|(i, l)| i == 5 || l.is_empty()));
}

#[test]
fn blank_lines_are_detected() {
    assert!(all_lines_blank(&strings(&["", "  ", "\t"])));
    assert!(all_lines_blank(&Vec::new()));
    assert!(!all_lines_blank(&strings(&["", " x "])));
}

#[test]
fn trimming_drops_outer_white_space_only() {
    let chars: Vec<char> = "\u{3000} a b \n".chars().collect();
    assert_eq!(trim_chars(&chars), vec!['a', ' ', 'b']);
    assert!(trim_chars(&vec![' ', '\t']).is_empty());
}

#[test]
fn window_surrounds_the_target_lyric() {
    let texts = strings(&["a", "b", "c"]);
    let lines = lyric_window(&texts, 1, "B".to_string());
    assert_eq!(lines, strings(&["", "", "", "", "a", "B", "c", "", "", "", ""]));

    let many: Vec<String> = (0..20).map(|i| format!("l{i}")).collect();
    let lines = lyric_window(&many, 10, "now".to_string());
    assert_eq!(
        lines,
        strings(&["l5", "l6", "l7", "l8", "l9", "now", "l11", "l12", "l13", "l14", "l15"])
    );
}

#[test]
fn translation_goes_on_a_second_line() {
    assert_eq!(display_text(&"hi".to_string(), &Some("你好".to_string())), "hi\n你好");
    assert_eq!(display_text(&"hi".to_string(), &None), "hi");
}

#[test]
fn web_text_takes_the_middle_line() {
    assert_eq!(web_lyric_text("a\nb", &None), "a - b");
    let mut eleven = vec![String::new(); 11];
    eleven[5] = "x\ny".to_string();
    assert_eq!(web_lyric_text("raw", &Some(eleven)), "x - y");
    let mut thirteen = vec![String::new(); 13];
    thirteen[6] = "mid".to_string();
    assert_eq!(web_lyric_text("raw", &Some(thirteen)), "mid");
    assert_eq!(web_lyric_text("raw", &Some(strings(&["a", "b", "c"]))), "raw");
}

#[test]
fn lrc_tags_are_split_from_the_text() {
    let (tags, text) = split_lrc_tags("  [00:12.34][01:02.00] hello world ");
    assert_eq!(tags, strings(&["00:12.34", "01:02.00"]));
    assert_eq!(text, "hello world");

    let (tags, text) = split_lrc_tags("no tags");
    assert!(tags.is_empty());
    assert_eq!(text, "no tags");

    let (tags, text) = split_lrc_tags("[open");
    assert!(tags.is_empty());
    assert_eq!(text, "[open");

    let (tags, text) = split_lrc_tags("[ti:Song]");
    assert_eq!(tags, strings(&["ti:Song"]));
    assert_eq!(text, "");
}

#[test]
fn song_id_comes_from_the_first_ncm_genre() {
    assert_eq!(ncm_song_id(&strings(&["Pop", "NCM-12345", "NCM-9"])), Some("12345".to_string()));
    assert_eq!(ncm_song_id(&strings(&["NCM-1NCM-2"])), Some("12".to_string()));
    assert_eq!(ncm_song_id(&strings(&["NCM-"])), Some(String::new()));
    assert_eq!(ncm_song_id(&strings(&["Pop", "ncm-1", "NCM"])), None);
    assert_eq!(ncm_song_id(&Vec::new()), None);
}
