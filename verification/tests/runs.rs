use overlay_music::assembly::{
    adjusted_durations, assemble_plans, audio_config, ffmpeg_threads, find_collisions, music_input,
    ready_items, total_duration, usable_music,
};
use overlay_music::chapters::Chapter;
use overlay_music::cli::{Args, InputItem};
use overlay_music::ffmpeg::{LoudnormMeasurement, OutputFormat};
use overlay_music::images::{copy_images_and_extract_covers, cover_dirs, is_image, skip_existing};
use overlay_music::music_norm::MusicNormResult;
use overlay_music::number::{parse_number, Number};
use overlay_music::pipeline::{
    plan_music, process_one_file, run_pipeline, Action, Event, FilePlan, Move, Outcome,
    PipelineAudioConfig, PipelineCtx, PipelineStart, Step,
};
use overlay_music::plan::MusicPiece;

const S: i64 = 1_000_000;

fn n(s: &str) -> Number {
    parse_number(s).unwrap()
}

fn args() -> Args {
    Args {
        input: "in".into(),
        music: "music".into(),
        output: None,
        loudness_drop: 3 * S,
        threads: 48,
        pause: 0,
        crossfade: 0,
        format: OutputFormat::Ogg,
        quality: 6,
        sample_rate: 44100,
        loudness_i: n("-16"),
        loudness_tp: n("-1.5"),
        loudness_lra: n("11"),
        music_fade_in: 0,
        music_fade_out: 0,
        normalize_input: true,
        normalize_music: false,
        normalize_music_output: None,
        force_normalize_music: false,
        resume: false,
        dry_run: false,
        split_chapters: true,
        log: None,
        speed: S,
    }
}

fn item(relative: &str) -> InputItem {
    InputItem { source: format!("in/{relative}"), relative: relative.into(), chapter: None }
}

fn chapter_item(relative: &str, start: i64, end: i64) -> InputItem {
    let chapter = Chapter { title: "t".into(), start, end };
    InputItem { source: "in/book.m4b".into(), relative: relative.into(), chapter: Some(chapter) }
}

fn plan_of(item: InputItem) -> FilePlan {
    FilePlan { item, source_duration: 60 * S, output: "out/x.ogg".into(), plan_index: 0 }
}

fn audio(a: &Args) -> PipelineAudioConfig {
    audio_config(a, 100)
}

fn measurement() -> LoudnormMeasurement {
    LoudnormMeasurement {
        input_i: n("-20"),
        input_tp: n("-3"),
        input_lra: n("5"),
        input_thresh: n("-30"),
        target_offset: n("0.5"),
    }
}

fn go(fp: &FilePlan, a: &Args, step: Step, event: Event<'_>) -> Move {
    let audio = audio(a);
    let ctx = PipelineCtx { cli: a, tmp: "/tmp/t", audio: &audio };
    process_one_file(fp, &ctx, step, event)
}

fn failure(m: &Move) -> (String, String, Option<String>) {
    match &m.action {
        Action::Finish(Outcome::Failed(Some(e))) => {
            (e.file.clone(), e.error.clone().unwrap(), e.command.clone())
        }
        other => panic!("{other:?}"),
    }
}

// ─── One file ──────────────────────────────────────────────────

#[test]
fn a_file_goes_through_all_steps() {
    let a = args();
    let fp = plan_of(item("x.mp3"));
    let m = go(&fp, &a, Step::Start, Event::Begin { cancelled: false });
    assert!(matches!(&m.action, Action::Probe { path } if path == "in/x.mp3"));
    let m = go(&fp, &a, m.step, Event::Probed(Some(50 * S)));
    match &m.action {
        Action::Measure { duration, args } => {
            assert_eq!(*duration, 50 * S);
            assert_eq!(args[3], "in/x.mp3");
        }
        other => panic!("{other:?}"),
    }
    let m = go(&fp, &a, m.step, Event::Measured(Some(measurement())));
    match &m.action {
        Action::Normalize { output, duration, args } => {
            assert_eq!(output, "/tmp/t/x.mp3.wav");
            assert_eq!(*duration, 50 * S);
            assert!(args[5].contains("measured_I=-20:"));
        }
        other => panic!("{other:?}"),
    }
    let m = go(&fp, &a, m.step, Event::Normalized(true));
    assert!(m.remove.is_none());
    assert!(matches!(&m.action, Action::Probe { path } if path == "/tmp/t/x.mp3.wav"));
    let m = go(&fp, &a, m.step, Event::Probed(None));
    assert!(matches!(m.action, Action::AwaitMusic));
    let plans = Some(vec![vec![MusicPiece::Silence { duration: 7 }]]);
    let m = go(&fp, &a, m.step, Event::MusicReady(&plans));
    match &m.action {
        Action::Mix { task } => {
            assert_eq!(task.normalized, "/tmp/t/x.mp3.wav");
            assert_eq!(task.output, "out/x.ogg");
            assert_eq!(task.duration, 60 * S);
            assert_eq!(task.pieces.len(), 1);
        }
        other => panic!("{other:?}"),
    }
    let m = go(&fp, &a, m.step, Event::Mixed(&Ok(())));
    match &m.action {
        Action::Finish(Outcome::Processed(e)) => {
            assert_eq!(e.file, "x.mp3");
            assert!(e.error.is_none() && e.command.is_none());
        }
        other => panic!("{other:?}"),
    }
    assert!(matches!(m.step, Step::Done));
}

#[test]
fn a_chapter_is_cut_out_and_cleaned_up() {
    let a = args();
    let fp = plan_of(chapter_item("book - 001 - t", 5 * S, 65_500_000));
    let m = go(&fp, &a, Step::Start, Event::Begin { cancelled: false });
    match &m.action {
        Action::Extract { output, args } => {
            assert_eq!(output, "/tmp/t/book - 001 - t.chapter.wav");
            assert_eq!(
                *args,
                [
                    "-y", "-i", "in/book.m4b", "-ss", "5.000000", "-t", "60.500000", "-vn", "-ar", "44100",
                    "-ac", "2", "/tmp/t/book - 001 - t.chapter.wav"
                ]
            );
        }
        other => panic!("{other:?}"),
    }
    let m = go(&fp, &a, m.step, Event::Extracted(true));
    assert!(matches!(&m.action, Action::Probe { path } if path == "/tmp/t/book - 001 - t.chapter.wav"));
    let m = go(&fp, &a, m.step, Event::Probed(Some(60 * S)));
    let failed = go(&fp, &a, m.step, Event::Measured(None));
    assert_eq!(failed.remove.as_deref(), Some("/tmp/t/book - 001 - t.chapter.wav"));
    assert_eq!(failure(&failed).1, "loudness measurement failed");
    let m = go(&fp, &a, m.step, Event::Measured(Some(measurement())));
    assert!(m.remove.is_none());
    let failed = go(&fp, &a, m.step, Event::Normalized(false));
    assert_eq!(failed.remove.as_deref(), Some("/tmp/t/book - 001 - t.chapter.wav"));
    let (file, error, command) = failure(&failed);
    assert_eq!(file, "book - 001 - t");
    assert_eq!(error, "normalization failed");
    assert!(command.unwrap().starts_with("ffmpeg -y -i /tmp/t/book - 001 - t.chapter.wav -vn"));
    let m = go(&fp, &a, m.step, Event::Normalized(true));
    assert_eq!(m.remove.as_deref(), Some("/tmp/t/book - 001 - t.chapter.wav"));
}

#[test]
fn without_normalization_the_source_is_mixed() {
    let a = Args { normalize_input: false, speed: 1_500_000, ..args() };
    let fp = plan_of(item("x.mp3"));
    let m = go(&fp, &a, Step::Start, Event::Begin { cancelled: false });
    assert!(matches!(m.step, Step::ProbingVoice));
    let m = go(&fp, &a, m.step, Event::Probed(Some(3_600 * S)));
    let m = go(&fp, &a, m.step, Event::MusicReady(&Some(vec![vec![]])));
    match &m.action {
        Action::Mix { task } => {
            assert_eq!(task.normalized, "in/x.mp3");
            assert_eq!(task.duration, 2_400 * S);
        }
        other => panic!("{other:?}"),
    }
    let fp = plan_of(chapter_item("c", 0, 10 * S));
    let m = go(&fp, &a, Step::Extracting, Event::Extracted(true));
    assert!(m.remove.is_none());
    assert!(matches!(&m.action, Action::Probe { path } if path == "/tmp/t/c.chapter.wav"));
}

#[test]
fn bad_chapters_are_refused() {
    let a = args();
    let fp = plan_of(chapter_item("c", 2 * S, 1_500_000));
    let m = go(&fp, &a, Step::Start, Event::Begin { cancelled: false });
    assert_eq!(failure(&m).1, "invalid chapter range: start=2.000 >= end=1.500");
    let fp = plan_of(chapter_item("c", 2 * S, 2_009_000));
    let m = go(&fp, &a, Step::Start, Event::Begin { cancelled: false });
    assert_eq!(failure(&m).1, "invalid chapter duration: 0.009s (start=2.000, end=2.009)");
    let fp = plan_of(chapter_item("c", 2 * S, 2_010_000));
    let m = go(&fp, &a, Step::Start, Event::Begin { cancelled: false });
    assert!(matches!(m.action, Action::Extract { .. }));
    let m = go(&fp, &a, m.step, Event::Extracted(false));
    assert_eq!(failure(&m).1, "chapter extraction failed");
}

#[test]
fn other_failures() {
    let a = args();
    let mut fp = plan_of(item("x.mp3"));
    let m = go(&fp, &a, Step::Start, Event::Begin { cancelled: true });
    assert!(matches!(m.action, Action::Finish(Outcome::NotBegun)));
    let m = go(&fp, &a, Step::ProbingVoice, Event::Probed(Some(9_999)));
    assert!(matches!(m.action, Action::Finish(Outcome::Failed(None))));
    let m = go(&fp, &a, Step::ProbingVoice, Event::Probed(Some(10_000)));
    assert!(matches!(m.step, Step::AwaitingMusic { duration: 10_000 }));
    let m = go(&fp, &a, Step::AwaitingMusic { duration: S }, Event::MusicReady(&None));
    assert!(matches!(m.action, Action::Finish(Outcome::Failed(None))));
    fp.plan_index = 3;
    let m = go(&fp, &a, Step::AwaitingMusic { duration: S }, Event::MusicReady(&Some(vec![vec![]])));
    assert_eq!(failure(&m).1, "music plan index 3 out of range (1)");
    let m = go(&fp, &a, Step::Mixing, Event::Mixed(&Err(("e".into(), "c".into()))));
    assert_eq!(failure(&m), ("x.mp3".into(), "e".into(), Some("c".into())));
    let m = go(&fp, &a, Step::Mixing, Event::Mixed(&Err(("Cancelled".into(), String::new()))));
    assert_eq!(failure(&m), ("x.mp3".into(), "Cancelled".into(), None));
}

#[test]
fn unasked_events_change_nothing() {
    let a = args();
    let fp = plan_of(item("x.mp3"));
    let m = go(&fp, &a, Step::Mixing, Event::Probed(None));
    assert!(matches!(m.action, Action::Ignore) && matches!(m.step, Step::Mixing));
    let m = go(&fp, &a, Step::Done, Event::Begin { cancelled: false });
    assert!(matches!(m.action, Action::Ignore) && matches!(m.step, Step::Done));
}

// ─── A whole run ───────────────────────────────────────────────

#[test]
fn dry_runs_only_tell() {
    let a = Args { dry_run: true, ..args() };
    let files = vec![plan_of(item("a.mp3")), plan_of(item("b.mp3"))];
    match run_pipeline(&a, &files) {
        PipelineStart::DryRun { lines } => assert_eq!(
            lines,
            [
                "🔊  [DRY RUN] Would normalize 2 files",
                "🎶  [DRY RUN] Would overlay & encode 2 files:",
                "      a.mp3 → out/x.ogg",
                "      b.mp3 → out/x.ogg"
            ]
        ),
        other => panic!("{other:?}"),
    }
    assert!(matches!(run_pipeline(&args(), &files), PipelineStart::Run { label: "Normalizing & encoding" }));
    let a = Args { normalize_input: false, ..args() };
    assert!(matches!(run_pipeline(&a, &files), PipelineStart::Run { label: "Encoding" }));
}

#[test]
fn music_is_planned_from_what_is_left_of_it() {
    let a = args();
    let timed = vec![(item("x.mp3"), 4 * S)];
    let music = music_input(&a, vec!["m.mp3".into()], vec![10 * S], &timed);
    assert_eq!(music.volume, 333_333);
    let file = |plans: Option<Vec<Vec<MusicPiece>>>| match &plans.unwrap()[0][0] {
        MusicPiece::Segment { file, duration, .. } => (file.clone(), *duration),
        other => panic!("{other:?}"),
    };
    assert_eq!(file(plan_music(&music, &Ok(None))), ("m.mp3".to_string(), 4 * S));
    let n = MusicNormResult { files: vec!["n.wav".into()], durations: vec![3 * S] };
    assert_eq!(file(plan_music(&music, &Ok(Some(n)))), ("n.wav".to_string(), 3 * S));
    assert!(plan_music(&music, &Err("no".into())).is_none());
}

// ─── Assembling ────────────────────────────────────────────────

#[test]
fn usable_music_is_kept() {
    let files: Vec<String> = ["a", "b", "c", "d"].iter().map(|s| s.to_string()).collect();
    let (kept, durations) = usable_music(&files, &vec![Some(S), None, Some(9_999), Some(10_000)]);
    assert_eq!(kept, ["a", "d"]);
    assert_eq!(durations, [S, 10_000]);
}

#[test]
fn durations_add_up() {
    assert_eq!(total_duration(&vec![]), 0);
    assert_eq!(total_duration(&vec![1, 2, -3, 10]), 10);
    assert_eq!(total_duration(&vec![i64::MAX, i64::MAX]), i64::MAX);
    assert_eq!(total_duration(&vec![i64::MIN, i64::MIN, i64::MAX]), i64::MIN);
}

#[test]
fn items_need_a_duration() {
    let items = vec![item("a"), item("b"), chapter_item("c", S, 5 * S)];
    let timed = ready_items(&items, &vec![Some(7 * S), None, None]);
    assert_eq!(timed.len(), 2);
    assert_eq!((timed[0].0.relative.as_str(), timed[0].1), ("a", 7 * S));
    assert_eq!((timed[1].0.relative.as_str(), timed[1].1), ("c", 4 * S));
    assert_eq!(adjusted_durations(&timed, 2 * S), [3_500_000, 2 * S]);
}

#[test]
fn plans_are_assembled() {
    let timed = vec![(item("a/x.mp3"), S), (item("b.flac"), 2 * S)];
    let plans = assemble_plans(&timed, "out", OutputFormat::Opus);
    assert_eq!(plans[0].output, "out/a/x.opus");
    assert_eq!(plans[1].output, "out/b.opus");
    assert_eq!((plans[1].plan_index, plans[1].source_duration), (1, 2 * S));
    assert_eq!(plans[1].item.relative, "b.flac");
}

#[test]
fn collisions_are_found() {
    let timed = vec![(item("a.mp3"), S), (item("b.mp3"), S), (item("a.flac"), S), (item("b.ogg"), S), (item("c"), S)];
    let plans = assemble_plans(&timed, "out", OutputFormat::Ogg);
    let found = find_collisions(&plans);
    assert_eq!(found.len(), 2);
    assert_eq!(found[0].0, "out/a.ogg");
    assert_eq!(found[0].1, ["a.mp3", "a.flac"]);
    assert_eq!(found[1].0, "out/b.ogg");
    assert_eq!(found[1].1, ["b.mp3", "b.ogg"]);
}

#[test]
fn threads_are_shared_out() {
    assert_eq!(ffmpeg_threads(48, 3), 16);
    assert_eq!(ffmpeg_threads(48, 200), 1);
    assert_eq!(ffmpeg_threads(48, 48), 1);
    assert_eq!(ffmpeg_threads(8, 3), 2);
    assert_eq!(ffmpeg_threads(1, 5), 1);
    for files in 1..60 {
        assert!(ffmpeg_threads(48, files) as usize * files.min(48) <= 48);
    }
}

#[test]
fn audio_settings_follow_the_arguments() {
    let a = Args { loudness_drop: 4 * S, music_fade_in: S, ..args() };
    let c = audio_config(&a, 3);
    assert_eq!(c.overlay.volume, 250_000);
    assert_eq!((c.norm.ffmpeg_threads, c.overlay.ffmpeg_threads), (16, 16));
    assert_eq!(c.overlay.music_fade_in, S);
    assert_eq!(c.norm.target.tp, n("-1.5"));
}

// ─── Images ────────────────────────────────────────────────────

#[test]
fn images_are_recognised() {
    for e in ["jpg", "jpeg", "png", "bmp", "gif", "webp", "tiff", "tif", "svg", "PNG"] {
        assert!(is_image(&format!("a.{e}")));
    }
    assert!(!is_image("a.mp3") && !is_image("jpg") && !is_image(""));
}

#[test]
fn images_keep_their_place() {
    let found: Vec<String> =
        ["in/folder.png", "in/a.mp3", "in/sub/cover.jpg"].iter().map(|s| s.to_string()).collect();
    let copies = copy_images_and_extract_covers("in", "out", &found, false);
    assert_eq!(
        copies,
        [
            ("in/folder.png".to_string(), "out/folder.png".to_string()),
            ("in/sub/cover.jpg".to_string(), "out/sub/cover.jpg".to_string())
        ]
    );
    assert!(copy_images_and_extract_covers("in", "out", &found, true).is_empty());
}

#[test]
fn each_directory_gets_one_cover() {
    let timed = vec![(item("a/1.mp3"), S), (item("2.mp3"), S), (item("a/3.mp3"), S)];
    let plans = assemble_plans(&timed, "out", OutputFormat::Ogg);
    assert_eq!(
        cover_dirs(&plans, "out"),
        [
            ("out/a".to_string(), "in/a/1.mp3".to_string()),
            ("out".to_string(), "in/2.mp3".to_string())
        ]
    );
}

#[test]
fn existing_images_are_skipped() {
    let pair = |s: &str| (format!("in/{s}"), format!("out/{s}"));
    let copies = vec![pair("a.png"), pair("b.png"), pair("c.png")];
    assert_eq!(skip_existing(&copies, &vec![true, false, true]), [pair("b.png")]);
    assert!(skip_existing(&copies, &vec![true; 3]).is_empty());
}
