use overlay_music::text::{
    chars_of, decimal_text, find_last, find_text, has_ending, join_texts, padded_text, push_all,
    push_text, same_text, split_text, text_of, trim_text,
};

fn list(v: &[&str]) -> Vec<String> {
    v.iter().map(|s| s.to_string()).collect()
}

#[test]
fn numbers_become_digits() {
    assert_eq!(decimal_text(0), "0");
    assert_eq!(decimal_text(44100), "44100");
    assert_eq!(decimal_text(u128::MAX), u128::MAX.to_string());
    assert_eq!(padded_text(7, 3), "007");
    assert_eq!(padded_text(1234, 3), "1234");
    assert_eq!(padded_text(0, 2), "00");
}

#[test]
fn texts_are_joined_and_split() {
    assert_eq!(join_texts(&list(&["a", "b", "c"]), ";"), "a;b;c");
    assert_eq!(join_texts(&list(&[]), ";"), "");
    assert_eq!(split_text("00:01:30", ':'), ["00", "01", "30"]);
    assert_eq!(split_text("", ':'), [""]);
    assert_eq!(split_text("::", ':'), ["", "", ""]);
}

#[test]
fn lists_grow() {
    let mut v = list(&["a"]);
    push_text(&mut v, "b");
    push_all(&mut v, &list(&["c", "d"]));
    assert_eq!(v, ["a", "b", "c", "d"]);
}

#[test]
fn white_space_is_trimmed() {
    for s in ["  a b \n", "\u{a0}x\u{3000}", "", " \t ", "\u{2003}n\r\n", "\u{85}y\u{2028}"] {
        assert_eq!(trim_text(s), s.trim());
    }
}

#[test]
fn parts_are_found() {
    let chars = chars_of("size= 1kB time=00:01");
    assert_eq!(find_text(&chars, "time="), Some(10));
    assert_eq!(find_text(&chars, "bitrate"), None);
    assert_eq!(find_last(&chars, chars.len(), '='), Some(14));
    assert_eq!(find_last(&chars, 14, '='), Some(4));
    assert_eq!(find_last(&chars, 4, '='), None);
    assert_eq!(text_of(&chars, 15, 20), "00:01");
}

#[test]
fn texts_are_compared() {
    assert!(same_text("ä", "ä"));
    assert!(!same_text("a", "A"));
    assert!(has_ending("cover.png", ".png"));
    assert!(!has_ending("cover.jpg", ".png"));
    assert!(!has_ending("png", ".png"));
    assert!(has_ending("x", ""));
}
