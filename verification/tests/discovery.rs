use overlay_music::discovery::{
    append_extension, collect_sorted, collect_unsorted, default_output_dir, is_audio, natural_sort,
    sanitize_filename, sibling_dir,
};

fn list(v: &[&str]) -> Vec<String> {
    v.iter().map(|s| s.to_string()).collect()
}

#[test]
fn audio_files_are_recognised() {
    for e in ["mp3", "wav", "ogg", "flac", "aac", "m4a", "m4b", "wma", "opus", "webm", "MP3", "M4b"] {
        assert!(is_audio(&format!("dir/x.{e}")), "{e}");
    }
    for p in ["x", "mp3", ".mp3", "x.mp3.txt", "x.jpg", "x.", "dir.mp3/x", ""] {
        assert!(!is_audio(p), "{p}");
    }
}

#[test]
fn other_files_are_left_out() {
    let found = list(&["b.mp3", "cover.jpg", "a.OGG", "notes.txt", "c.flac"]);
    assert_eq!(collect_unsorted(&found), ["b.mp3", "a.OGG", "c.flac"]);
    assert!(collect_unsorted(&list(&[])).is_empty());
}

#[test]
fn input_comes_in_natural_order() {
    let found = list(&["ch10.mp3", "ch9.mp3", "x.txt", "ch1.mp3", "Ch2.mp3", "ch 3.mp3"]);
    assert_eq!(
        collect_sorted(&found),
        ["Ch2.mp3", "ch1.mp3", "ch 3.mp3", "ch9.mp3", "ch10.mp3"]
    );
}

#[test]
fn sorting_agrees_with_a_stable_sort() {
    let found = list(&[
        "a 1", "a1", "b", "a01", "a10", "a9", "", "a 01", "a001", "aa", "A1", "1", "12", "2", "0x", "a1b2",
        "a1b10", "a  1", "ä1", "-1",
    ]);
    let mut expected = found.clone();
    expected.sort_by(|a, b| natord::compare(a, b));
    assert_eq!(natural_sort(&found), expected);
}

#[test]
fn sorting_is_stable_and_settled() {
    // White space does not count, so these are equal and stay as they came.
    let found = list(&["a 1", "a1", "a  1"]);
    assert_eq!(natural_sort(&found), ["a 1", "a1", "a  1"]);
    let twice = natural_sort(&natural_sort(&list(&["b", "a2", "a10"])));
    assert_eq!(twice, ["a2", "a10", "b"]);
}

#[test]
fn extensions_are_appended() {
    assert_eq!(append_extension("/tmp", "track.mp3", "wav"), "/tmp/track.mp3.wav");
    assert_eq!(append_extension("/tmp", "track.flac", "wav"), "/tmp/track.flac.wav");
    assert_eq!(append_extension("/tmp", "a/b/track.mp3", "chapter.wav"), "/tmp/a/b/track.mp3.chapter.wav");
    assert_eq!(append_extension("t", "", "wav"), "t/.wav");
}

#[test]
fn appending_keeps_files_apart() {
    assert_ne!(
        append_extension("/tmp", "track.mp3", "wav"),
        append_extension("/tmp", "track.flac", "wav")
    );
}

#[test]
fn appending_keeps_files_of_all_directories_apart() {
    let files = ["a", "b", "a/b", "ab", "a/b.mp3", "a/b.wav", "b/a", "a.wav", "a.wav/b", "..", "../a", "a/.b"];
    for x in files {
        for y in files {
            let same = append_extension("/tmp", x, "wav") == append_extension("/tmp", y, "wav");
            assert_eq!(same, x == y, "{x} {y}");
        }
    }
}

#[test]
fn output_goes_beside_the_input() {
    assert_eq!(default_output_dir("recordings/"), "recordings_processed");
    assert_eq!(default_output_dir("/data/episodes"), "/data/episodes_processed");
    assert_eq!(default_output_dir("./audiobook"), "./audiobook_processed");
    assert_eq!(default_output_dir("/"), "/_processed");
    assert_eq!(default_output_dir(".."), ".._processed");
    assert_eq!(sibling_dir("a/b", "_x"), "a/b_x");
}

#[test]
fn unsafe_characters_are_replaced() {
    assert_eq!(sanitize_filename("a/b\\c:d*e?f\"g<h>i|j"), "a_b_c_d_e_f_g_h_i_j");
    assert_eq!(sanitize_filename("Größe 1.5 – ok"), "Größe 1.5 – ok");
    let once = sanitize_filename("What? Why: <x>");
    assert_eq!(sanitize_filename(&once), once);
}
