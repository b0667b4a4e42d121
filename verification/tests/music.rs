use overlay_music::cli::Args;
use overlay_music::ffmpeg::{LoudnessTarget, LoudnormMeasurement, NormConfig, OutputFormat};
use overlay_music::music_norm::{
    can_use_cache, check_already_normalized, continue_with_temp_dir, default_normalize_music_dir, is_valid_cached,
    music_norm_start, normalize_music, normalize_track, normalized_music_path, MusicNormStart, Track,
    TrackAction, TrackEvent, TrackStep,
};
use overlay_music::number::{parse_number, Number};

const S: i64 = 1_000_000;

fn n(s: &str) -> Number {
    parse_number(s).unwrap()
}

fn args() -> Args {
    Args {
        input: "in".into(),
        music: "./music".into(),
        output: None,
        loudness_drop: 3 * S,
        threads: 48,
        pause: 0,
        crossfade: 0,
        format: OutputFormat::Ogg,
        quality: 6,
        sample_rate: 44100,
        loudness_i: n("-16"),
        loudness_tp: n("-1.5"),
        loudness_lra: n("11"),
        music_fade_in: 0,
        music_fade_out: 0,
        normalize_input: true,
        normalize_music: true,
        normalize_music_output: None,
        force_normalize_music: false,
        resume: false,
        dry_run: false,
        split_chapters: true,
        log: None,
        speed: S,
    }
}

fn names(v: &[&str]) -> Vec<String> {
    v.iter().map(|s| s.to_string()).collect()
}

#[test]
fn normalized_music_has_a_place() {
    assert_eq!(default_normalize_music_dir("./music"), "./music_normalized");
    assert_eq!(default_normalize_music_dir("./path/to/bgm"), "./path/to/bgm_normalized");
    assert_eq!(
        normalized_music_path("./music_normalized", "./music", "./music/ambient/track1.mp3"),
        "./music_normalized/ambient/track1.wav"
    );
}

#[test]
fn normalization_starts_where_it_is_asked_for() {
    let off = Args { normalize_music: false, ..args() };
    assert!(matches!(music_norm_start(&off), MusicNormStart::Disabled));
    let dry = Args { dry_run: true, ..args() };
    assert!(matches!(music_norm_start(&dry), MusicNormStart::DryRun));
    assert!(matches!(music_norm_start(&args()), MusicNormStart::Into(d) if d == "./music_normalized"));
    let own = Args { normalize_music_output: Some("bgm".into()), ..args() };
    assert!(matches!(music_norm_start(&own), MusicNormStart::Into(d) if d == "bgm"));
}

#[test]
fn the_user_may_decline() {
    let abort = Err("Aborted by user.".to_string());
    assert_eq!(continue_with_temp_dir(&None), abort);
    for s in ["n", "N\n", " no ", "NO\r\n", "nO"] {
        assert_eq!(continue_with_temp_dir(&Some(s.into())), abort, "{s:?}");
    }
    for s in ["", "\n", "y", "yes", "nope", "n o"] {
        assert_eq!(continue_with_temp_dir(&Some(s.into())), Ok(()), "{s:?}");
    }
}

#[test]
fn normalized_files_have_to_match() {
    assert!(is_valid_cached(Some(100 * S), 100 * S));
    assert!(is_valid_cached(Some(102 * S), 100 * S));
    assert!(is_valid_cached(Some(105 * S), 100 * S));
    assert!(!is_valid_cached(Some(105 * S + 1), 100 * S));
    assert!(is_valid_cached(Some(12 * S), 10 * S));
    assert!(!is_valid_cached(Some(7 * S), 10 * S));
    assert!(!is_valid_cached(Some(9_999), 10_000));
    assert!(!is_valid_cached(None, S));
}

#[test]
fn valid_files_are_reused() {
    let files = names(&["./music/a.mp3", "./music/b.mp3", "./music/c.mp3"]);
    let durs = vec![60 * S, 60 * S, 60 * S];
    let cached = vec![Some(60 * S), None, Some(30 * S)];
    let (done, todo) = check_already_normalized(&args(), false, "norm", &files, &durs, &cached);
    assert_eq!(done, [("norm/a.wav".to_string(), 60 * S)]);
    assert_eq!(todo.len(), 2);
    assert_eq!((todo[0].source.as_str(), todo[0].normalized.as_str()), ("./music/b.mp3", "norm/b.wav"));
    assert_eq!(todo[1].source, "./music/c.mp3");
}

#[test]
fn forcing_and_temporary_directories_reuse_nothing() {
    let files = names(&["./music/a.mp3"]);
    let force = Args { force_normalize_music: true, ..args() };
    assert!(can_use_cache(&args(), false));
    assert!(!can_use_cache(&args(), true) && !can_use_cache(&force, false));
    for (a, is_temp) in [(&force, false), (&args(), true)] {
        let (done, todo) =
            check_already_normalized(a, is_temp, "norm", &files, &vec![S], &vec![Some(S)]);
        assert!(done.is_empty());
        assert_eq!(todo.len(), 1);
    }
}

fn track() -> Track {
    Track { source: "m.mp3".into(), normalized: "norm/m.wav".into() }
}

fn config() -> NormConfig {
    NormConfig {
        target: LoudnessTarget { i: n("-16"), tp: n("-1.5"), lra: n("11") },
        sample_rate: 44100,
        ffmpeg_threads: 1,
    }
}

fn measurement() -> LoudnormMeasurement {
    LoudnormMeasurement {
        input_i: n("-20"),
        input_tp: n("-3"),
        input_lra: n("5"),
        input_thresh: n("-30"),
        target_offset: n("0.5"),
    }
}

#[test]
fn a_track_is_normalized() {
    let (t, c) = (track(), config());
    let (step, action) = normalize_track(&t, &c, TrackStep::Start, TrackEvent::Begin { cancelled: false });
    assert!(matches!(action, TrackAction::Probe { path } if path == "m.mp3"));
    let (step, action) = normalize_track(&t, &c, step, TrackEvent::Probed(None));
    assert!(matches!(action, TrackAction::Measure { duration: 0, .. }));
    let (step, action) = normalize_track(&t, &c, step, TrackEvent::Measured(Some(measurement())));
    match action {
        TrackAction::Normalize { output, args, .. } => {
            assert_eq!(output, "norm/m.wav");
            assert_eq!(args.last().unwrap(), "norm/m.wav");
        }
        other => panic!("{other:?}"),
    }
    let (step, action) = normalize_track(&t, &c, step, TrackEvent::Normalized(true));
    assert!(matches!(action, TrackAction::Probe { path } if path == "norm/m.wav"));
    let (_, action) = normalize_track(&t, &c, step, TrackEvent::Probed(Some(5 * S)));
    assert!(matches!(action, TrackAction::Finish(Some(d)) if d == 5 * S));
}

#[test]
fn tracks_that_cannot_be_used() {
    let (t, c) = (track(), config());
    let end = |step, event| match normalize_track(&t, &c, step, event).1 {
        TrackAction::Finish(d) => d,
        other => panic!("{other:?}"),
    };
    assert_eq!(end(TrackStep::Start, TrackEvent::Begin { cancelled: true }), None);
    assert_eq!(end(TrackStep::Measuring { duration: S }, TrackEvent::Measured(None)), None);
    assert_eq!(end(TrackStep::Normalizing, TrackEvent::Normalized(false)), None);
    assert_eq!(end(TrackStep::ProbingResult, TrackEvent::Probed(None)), None);
    assert_eq!(end(TrackStep::ProbingResult, TrackEvent::Probed(Some(9_999))), None);
    assert_eq!(end(TrackStep::ProbingResult, TrackEvent::Probed(Some(10_000))), Some(10_000));
}

#[test]
fn what_is_left_is_put_together() {
    let tracks = vec![track(), Track { source: "x".into(), normalized: "norm/x.wav".into() }];
    let done = vec![("norm/a.wav".to_string(), 3 * S)];
    let r = normalize_music(&done, &tracks, &vec![None, Some(4 * S)]).unwrap();
    assert_eq!(r.files, ["norm/a.wav", "norm/x.wav"]);
    assert_eq!(r.durations, [3 * S, 4 * S]);
}

#[test]
fn some_music_has_to_be_left() {
    let r = normalize_music(&vec![], &vec![track()], &vec![None]);
    assert_eq!(r.err().as_deref(), Some("All music normalization failed."));
}
