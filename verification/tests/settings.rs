use overlay_music::chapters::Chapter;
use overlay_music::cli::{
    error_message, expand_chapters, filter_resume, output_path, validate_args, ArgError, Args,
    InputItem, Notice, Surroundings,
};
use overlay_music::ffmpeg::OutputFormat;
use overlay_music::number::parse_number;

const S: i64 = 1_000_000;

fn args() -> Args {
    Args {
        input: "./books".into(),
        music: "./music".into(),
        output: None,
        loudness_drop: 3 * S,
        threads: 48,
        pause: 0,
        crossfade: 0,
        format: OutputFormat::Ogg,
        quality: 6,
        sample_rate: 44100,
        loudness_i: parse_number("-16").unwrap(),
        loudness_tp: parse_number("-1.5").unwrap(),
        loudness_lra: parse_number("11").unwrap(),
        music_fade_in: 0,
        music_fade_out: 0,
        normalize_input: true,
        normalize_music: false,
        normalize_music_output: None,
        force_normalize_music: false,
        resume: false,
        dry_run: false,
        split_chapters: true,
        log: None,
        speed: S,
    }
}

const ALL: Surroundings =
    Surroundings { input_is_dir: true, music_is_dir: true, has_ffmpeg: true, has_ffprobe: true };

fn error(a: &Args, s: &Surroundings) -> Option<ArgError> {
    validate_args(a, s).1.err()
}

#[test]
fn good_settings_pass() {
    let (notices, r) = validate_args(&args(), &ALL);
    assert!(notices.is_empty());
    assert_eq!(r, Ok(()));
}

#[test]
fn every_value_is_checked() {
    assert_eq!(error(&Args { loudness_drop: 0, ..args() }, &ALL), Some(ArgError::LoudnessDrop));
    assert_eq!(error(&Args { threads: 0, ..args() }, &ALL), Some(ArgError::Threads));
    assert_eq!(error(&Args { pause: -1, ..args() }, &ALL), Some(ArgError::Pause));
    assert_eq!(error(&Args { crossfade: -1, ..args() }, &ALL), Some(ArgError::Crossfade));
    assert_eq!(error(&Args { quality: 11, ..args() }, &ALL), Some(ArgError::Quality));
    let flac = Args { quality: 11, format: OutputFormat::Flac, ..args() };
    assert_eq!(error(&flac, &ALL), None);
    assert_eq!(error(&Args { music_fade_in: -1, ..args() }, &ALL), Some(ArgError::MusicFades));
    assert_eq!(error(&Args { music_fade_out: -1, ..args() }, &ALL), Some(ArgError::MusicFades));
    assert_eq!(error(&Args { speed: 499_999, ..args() }, &ALL), Some(ArgError::Speed));
    assert_eq!(error(&Args { speed: 100 * S + 1, ..args() }, &ALL), Some(ArgError::Speed));
    assert_eq!(error(&Args { speed: 500_000, ..args() }, &ALL), None);
    assert_eq!(error(&Args { speed: 100 * S, ..args() }, &ALL), None);
}

#[test]
fn surroundings_are_checked_in_order() {
    let none =
        Surroundings { input_is_dir: false, music_is_dir: false, has_ffmpeg: false, has_ffprobe: false };
    assert_eq!(error(&args(), &none), Some(ArgError::InputMissing));
    let s = Surroundings { input_is_dir: true, ..none };
    assert_eq!(error(&args(), &s), Some(ArgError::MusicMissing));
    let s = Surroundings { music_is_dir: true, ..s };
    assert_eq!(error(&args(), &s), Some(ArgError::FfmpegMissing));
    let s = Surroundings { has_ffmpeg: true, ..s };
    assert_eq!(error(&args(), &s), Some(ArgError::FfprobeMissing));
    assert_eq!(error(&Args { threads: 0, ..args() }, &none), Some(ArgError::Threads));
}

#[test]
fn ignored_settings_are_pointed_out() {
    let a = Args {
        pause: S,
        crossfade: S,
        normalize_music_output: Some("n".into()),
        force_normalize_music: true,
        ..args()
    };
    assert_eq!(
        validate_args(&a, &ALL).0,
        [
            Notice::CrossfadeSupersedesPause,
            Notice::OutputWithoutNormalizeMusic,
            Notice::ForceWithoutNormalizeMusic
        ]
    );
    let gone = Surroundings { music_is_dir: false, ..ALL };
    assert_eq!(validate_args(&a, &gone).0, [Notice::CrossfadeSupersedesPause]);
    assert!(validate_args(&Args { threads: 0, ..a }, &ALL).0.is_empty());
}

#[test]
fn errors_are_explained() {
    assert_eq!(error_message(ArgError::Quality, OutputFormat::Flac), "--quality must be 0–12 for Flac");
    assert_eq!(error_message(ArgError::Quality, OutputFormat::Mp3), "--quality must be 0–10 for Mp3");
    assert_eq!(error_message(ArgError::Threads, OutputFormat::Ogg), "--threads must be ≥ 1");
    assert_eq!(
        error_message(ArgError::FfprobeMissing, OutputFormat::Ogg),
        "`ffprobe` not found in PATH. Please install FFmpeg."
    );
}

fn chapter(title: &str, start: i64, end: i64) -> Chapter {
    Chapter { title: title.into(), start, end }
}

fn relatives(items: &[InputItem]) -> Vec<&str> {
    items.iter().map(|i| i.relative.as_str()).collect()
}

#[test]
fn books_are_split_by_chapters() {
    let files = vec!["./books/a/Book.m4b".to_string(), "./books/plain.mp3".to_string()];
    let chaps = vec![vec![chapter("Intro", 0, S), chapter("What/Why?", S, 2 * S)], vec![]];
    let items = expand_chapters(&args(), &files, &chaps);
    assert_eq!(
        relatives(&items),
        ["a/Book - 001 - Intro", "a/Book - 002 - What_Why_", "plain.mp3"]
    );
    assert_eq!(items[1].source, "./books/a/Book.m4b");
    assert_eq!(items[1].chapter.as_ref().unwrap().start, S);
    assert!(items[2].chapter.is_none());
}

#[test]
fn without_splitting_every_file_is_one_item() {
    let a = Args { split_chapters: false, ..args() };
    let files = vec!["./books/a/Book.m4b".to_string(), "/elsewhere/x.mp3".to_string()];
    let items = expand_chapters(&a, &files, &vec![]);
    assert_eq!(relatives(&items), ["a/Book.m4b", "/elsewhere/x.mp3"]);
}

#[test]
fn chapters_get_outputs_of_their_own() {
    let files = vec!["./books/Book.m4b".to_string()];
    let chaps = vec![vec![chapter("Same", 0, S), chapter("Same", S, 2 * S)]];
    let items = expand_chapters(&args(), &files, &chaps);
    let outputs: Vec<String> =
        items.iter().map(|i| output_path("out", i, OutputFormat::Mp3)).collect();
    assert_eq!(outputs, ["out/Book - 001 - Same.mp3", "out/Book - 002 - Same.mp3"]);
}

fn chapter_outputs(file: &str, titles: &[&str]) -> Vec<String> {
    let chaps = vec![titles.iter().map(|t| chapter(t, 0, S)).collect()];
    let items = expand_chapters(&args(), &vec![format!("./books/{file}")], &chaps);
    items.iter().map(|i| output_path("out", i, OutputFormat::Ogg)).collect()
}

#[test]
fn a_dot_in_the_name_of_a_book_stays() {
    assert_eq!(
        chapter_outputs("x/Vol. 1.m4b", &["One", "Two"]),
        ["out/x/Vol. 1 - 001 - One.ogg", "out/x/Vol. 1 - 002 - Two.ogg"]
    );
}

#[test]
fn a_dot_in_a_title_starts_the_extension() {
    assert_eq!(
        chapter_outputs("b.m4b", &["A. B", "A. B", "End.", ".", "..."]),
        [
            "out/b - 001 - A.ogg",
            "out/b - 002 - A.ogg",
            "out/b - 003 - End.ogg",
            "out/b - 004 - .ogg",
            "out/b - 005 - ...ogg",
        ]
    );
    assert_eq!(
        chapter_outputs("Vol. 1.m4b", &["One", "2.5 Two"]),
        ["out/Vol. 1 - 001 - One.ogg", "out/Vol. 1 - 002 - 2.ogg"]
    );
}

#[test]
fn files_change_their_extension() {
    assert_eq!(output_path("out", &item("a/b.mp3"), OutputFormat::Opus), "out/a/b.opus");
    assert_eq!(output_path("out", &item("a.b/c"), OutputFormat::Mp3), "out/a.b/c.mp3");
}

fn item(relative: &str) -> InputItem {
    InputItem { source: format!("in/{relative}"), relative: relative.into(), chapter: None }
}

#[test]
fn resuming_skips_what_is_there() {
    let a = Args { resume: true, ..args() };
    let mut skipped = vec!["before".to_string()];
    let mut items = vec![item("a.mp3"), item("b.mp3"), item("c.mp3")];
    items.push(InputItem { chapter: Some(chapter("x", 0, S)), ..item("B. 2 - 001 - x") });
    items.push(InputItem { chapter: Some(chapter("y", S, 2 * S)), ..item("B. 2 - 002 - y") });
    items.push(InputItem { chapter: Some(chapter("A. B", 0, S)), ..item("b - 001 - A. B") });
    let existing: Vec<String> = [
        "out/c.ogg",
        "out/a.ogg",
        "out/B. 2 - 001 - x.ogg",
        "out/b.mp3",
        "out/b - 001 - A.ogg",
    ]
        .iter()
        .map(|s| s.to_string())
        .collect();
    let left = filter_resume(&a, "out", items, &existing, &mut skipped);
    assert_eq!(relatives(&left), ["b.mp3", "B. 2 - 002 - y"]);
    assert_eq!(skipped, ["before", "a.mp3", "c.mp3", "B. 2 - 001 - x", "b - 001 - A. B"]);
}

#[test]
fn without_resuming_nothing_is_skipped() {
    let mut skipped = vec![];
    let existing = vec!["out/a.ogg".to_string()];
    let left = filter_resume(&args(), "out", vec![item("a.mp3")], &existing, &mut skipped);
    assert_eq!(relatives(&left), ["a.mp3"]);
    assert!(skipped.is_empty());
}

#[test]
fn settings_are_logged() {
    let a = Args { format: OutputFormat::Opus, normalize_music_output: Some("n".into()), ..args() };
    let s = a.log_settings();
    assert_eq!(s.format, "opus");
    assert_eq!(s.threads, 48);
    assert_eq!(s.loudness_drop, 3 * S);
    assert_eq!(s.normalize_music_output, Some("n".to_string()));
    assert!(s.normalize_input && !s.normalize_music && s.split_chapters);
}
