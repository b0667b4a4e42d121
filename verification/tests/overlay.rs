use overlay_music::ffmpeg::{
    build_atempo_chain, command_text, measure_loudness_args, normalize_two_pass, overlay_music,
    overlay_result, FileTask, LoudnessTarget, LoudnormMeasurement, NormConfig, OutputFormat,
    OverlayConfig, OverlayEvent,
};
use overlay_music::number::{parse_number, Number};
use overlay_music::plan::MusicPiece;

const S: i64 = 1_000_000;

fn n(s: &str) -> Number {
    parse_number(s).unwrap()
}

fn target() -> LoudnessTarget {
    LoudnessTarget { i: n("-16.0"), tp: n("-1.5"), lra: n("11.0") }
}

fn config() -> OverlayConfig {
    OverlayConfig {
        volume: 333_333,
        format: OutputFormat::Ogg,
        quality: 6,
        sample_rate: 44100,
        speed: S,
        music_fade_in: 0,
        music_fade_out: 0,
        ffmpeg_threads: 1,
    }
}

fn task(pieces: Vec<MusicPiece>) -> FileTask {
    FileTask { normalized: "/tmp/v.wav".into(), output: "out/v.ogg".into(), duration: 10 * S, pieces }
}

fn segment(file: &str, start: i64, duration: i64) -> MusicPiece {
    MusicPiece::Segment { file: file.into(), start, duration }
}

#[test]
fn tempo_chains() {
    assert_eq!(build_atempo_chain(S), "");
    assert_eq!(build_atempo_chain(1_500_000), "atempo=1.500000");
    assert_eq!(build_atempo_chain(3 * S), "atempo=2.0,atempo=1.500000");
    assert_eq!(build_atempo_chain(300_000), "atempo=0.5,atempo=0.600000");
    assert_eq!(build_atempo_chain(2 * S), "atempo=2.000000");
    assert_eq!(build_atempo_chain(500_000), "atempo=0.500000");
    assert_eq!(build_atempo_chain(999_500), "");
    assert_eq!(build_atempo_chain(998_000), "atempo=0.998000");
    assert_eq!(
        build_atempo_chain(100 * S),
        "atempo=2.0,atempo=2.0,atempo=2.0,atempo=2.0,atempo=2.0,atempo=2.0,atempo=1.562500"
    );
}

#[test]
fn tempo_factors_are_accepted_and_multiply() {
    for speed in [300_000, 499_999, 500_001, 1_250_000, 2_000_500, 2_001_000, 7_000_000, 99_999_999] {
        let chain = build_atempo_chain(speed);
        let mut product = 1.0;
        for part in chain.split(',') {
            let f: f64 = part.strip_prefix("atempo=").unwrap().parse().unwrap();
            assert!((0.5..=2.0).contains(&f), "{chain}");
            product *= f;
        }
        assert!((product * 1e6 - speed as f64).abs() <= 32.0, "{chain}");
    }
}

#[test]
fn tempo_chains_are_as_short_as_they_can_be() {
    for speed in [1, 62_500, 62_499, 499_999, 500_000, 2 * S, 2 * S + 1, 4 * S, 4 * S + 1, 100 * S] {
        let filters = build_atempo_chain(speed).split(',').count();
        let (mut top, mut needed) = (2 * S, 1);
        while top < speed || S * S > speed * top {
            top *= 2;
            needed += 1;
        }
        assert_eq!(filters, needed, "{speed}");
    }
}

#[test]
fn the_tempo_is_the_voice_s_alone() {
    for (speed, found) in [(S, 0), (1_500_000, 1), (5 * S, 3)] {
        let c = OverlayConfig { speed, music_fade_in: S, music_fade_out: S, ..config() };
        let pieces = vec![
            segment("a.mp3", 0, 3 * S),
            MusicPiece::Silence { duration: S },
            MusicPiece::Crossfade {
                file1: "a.mp3".into(),
                start1: 3 * S,
                dur1: S,
                file2: "b.mp3".into(),
                start2: 0,
                dur2: S,
                overlap: S,
            },
        ];
        let args = overlay_music(&task(pieces), &c).args;
        let at = args.iter().position(|a| a == "-filter_complex").unwrap();
        let text = &args[at + 1];
        assert_eq!(args.join(" ").matches("atempo").count(), found);
        assert_eq!(text.matches("atempo").count(), found);
        let (music, rest) = text.split_once("[mv];[0:a]").unwrap();
        let (voice, mix) = rest.split_once("[v];").unwrap();
        assert_eq!(voice.matches("atempo").count(), found);
        assert!(!music.contains("atempo") && !mix.contains("atempo"));
    }
}

#[test]
fn loudness_is_measured() {
    assert_eq!(
        measure_loudness_args("in.mp3", &target(), 1),
        ["-hide_banner", "-y", "-i", "in.mp3", "-af", "loudnorm=I=-16:TP=-1.5:LRA=11:print_format=json", "-f", "null", "-"]
    );
    assert_eq!(measure_loudness_args("in.mp3", &target(), 16)[2..4], ["-threads", "16"]);
}

#[test]
fn loudness_is_applied() {
    let m = LoudnormMeasurement {
        input_i: n("-27.61"),
        input_tp: n("-4.47"),
        input_lra: n("18.06"),
        input_thresh: n("-39.20"),
        target_offset: n("0.58"),
    };
    let c = NormConfig { target: target(), sample_rate: 48000, ffmpeg_threads: 2 };
    assert_eq!(
        normalize_two_pass("in.mp3", "out.wav", &c, &m),
        [
            "-y", "-threads", "2", "-i", "in.mp3", "-vn", "-af",
            "loudnorm=I=-16:TP=-1.5:LRA=11:measured_I=-27.61:measured_TP=-4.47:measured_LRA=18.06:measured_thresh=-39.2:offset=0.58:linear=true",
            "-ar", "48000", "-ac", "2", "out.wav"
        ]
    );
}

#[test]
fn silence_is_measured_as_infinite() {
    let m = LoudnormMeasurement {
        input_i: n("-inf"),
        input_tp: n("-inf"),
        input_lra: n("0.00"),
        input_thresh: n("-70.00"),
        target_offset: n("inf"),
    };
    let c = NormConfig { target: target(), sample_rate: 44100, ffmpeg_threads: 1 };
    let args = normalize_two_pass("a", "b", &c, &m);
    assert!(args[5].contains(":measured_I=-inf:measured_TP=-inf:measured_LRA=0:measured_thresh=-70:offset=inf:"));
}

#[test]
fn voice_without_music() {
    let c = OverlayConfig { speed: 1_500_000, ..config() };
    let r = overlay_music(&task(vec![]), &c);
    assert!(r.script.is_none());
    assert_eq!(
        r.args,
        [
            "-y", "-i", "/tmp/v.wav", "-af",
            "aresample=44100,aformat=sample_fmts=fltp:channel_layouts=stereo,atempo=1.500000",
            "-codec:a", "libvorbis", "-q:a", "6", "out/v.ogg"
        ]
    );
}

#[test]
fn one_segment_needs_no_concat() {
    let c = OverlayConfig { music_fade_in: 2 * S, music_fade_out: 3 * S, ffmpeg_threads: 4, ..config() };
    let r = overlay_music(&task(vec![segment("m.mp3", 1_500_000, 10 * S)]), &c);
    let f = "aresample=44100,aformat=sample_fmts=fltp:channel_layouts=stereo";
    let filter = format!(
        "[1:a]{f},asetpts=PTS-STARTPTS[m1];\
         [m1]afade=t=in:d=2.000000,afade=t=out:st=7.000000:d=3.000000,volume=0.333333[mv];\
         [0:a]{f}[v];\
         [v][mv]amix=inputs=2:duration=first:normalize=0,alimiter=limit=1[out]"
    );
    assert_eq!(
        r.args,
        [
            "-y", "-threads", "4", "-i", "/tmp/v.wav", "-ss", "1.500000", "-t", "10.000000", "-i",
            "m.mp3", "-filter_complex", filter.as_str(), "-map", "[out]", "-codec:a", "libvorbis",
            "-q:a", "6", "out/v.ogg"
        ]
    );
}

#[test]
fn pieces_are_joined_in_order() {
    let pieces = vec![
        segment("a.mp3", 0, 4 * S),
        MusicPiece::Silence { duration: S },
        MusicPiece::Crossfade {
            file1: "b.mp3".into(),
            start1: 7 * S,
            dur1: 3 * S,
            file2: "c.mp3".into(),
            start2: 0,
            dur2: 3 * S,
            overlap: 3 * S,
        },
        segment("c.mp3", 3 * S, 2 * S),
    ];
    let r = overlay_music(&task(pieces), &config());
    let f = "aresample=44100,aformat=sample_fmts=fltp:channel_layouts=stereo";
    let filter = format!(
        "[1:a]{f},asetpts=PTS-STARTPTS[m1];\
         anullsrc=r=44100:cl=stereo[z0r];[z0r]atrim=0:1.000000,asetpts=PTS-STARTPTS,aformat=sample_fmts=fltp:channel_layouts=stereo[z0];\
         [2:a]{f},asetpts=PTS-STARTPTS[cf0a];\
         [3:a]{f},asetpts=PTS-STARTPTS[cf0b];\
         [cf0a][cf0b]acrossfade=d=3.000000:c1=tri:c2=tri[cf0];\
         [4:a]{f},asetpts=PTS-STARTPTS[m4];\
         [m1][z0][cf0][m4]concat=n=4:v=0:a=1[mc];[mc]volume=0.333333[mv];\
         [0:a]{f}[v];[v][mv]amix=inputs=2:duration=first:normalize=0,alimiter=limit=1[out]"
    );
    assert_eq!(r.args[r.args.len() - 8], filter);
    assert_eq!(r.args.iter().filter(|a| *a == "-i").count(), 5);
    assert!(r.script.is_none());
}

#[test]
fn a_fade_is_no_longer_than_the_file() {
    let c = OverlayConfig { music_fade_out: 30 * S, ..config() };
    let r = overlay_music(&task(vec![segment("m", 0, S)]), &c);
    assert!(r.args.iter().any(|a| a.contains("afade=t=out:st=0.000000:d=30.000000,volume=")));
}

#[test]
fn long_filters_go_into_a_file() {
    let pieces: Vec<MusicPiece> = (0..100).map(|i| segment(&format!("m{i}"), 0, S)).collect();
    let r = overlay_music(&task(pieces), &config());
    let script = r.script.unwrap();
    assert_eq!(script.path, "out/v.filter.txt");
    assert!(script.filter.len() > 8000);
    assert!(script.filter.contains("concat=n=100:v=0:a=1[mc]"));
    let k = r.args.iter().position(|a| a == "-filter_complex_script").unwrap();
    assert_eq!(r.args[k + 1], "out/v.filter.txt");
    assert!(!r.args.contains(&"-filter_complex".to_string()));
}

#[test]
fn outcomes_are_reported() {
    let args = vec!["-y".to_string(), "-i".to_string(), "x".to_string()];
    assert_eq!(command_text(&args), "ffmpeg -y -i x");
    assert_eq!(overlay_result(&OverlayEvent::Finished(true), &args), Ok(()));
    assert_eq!(
        overlay_result(&OverlayEvent::Finished(false), &args),
        Err(("ffmpeg failed".to_string(), "ffmpeg -y -i x".to_string()))
    );
    assert_eq!(
        overlay_result(&OverlayEvent::Cancelled, &args),
        Err(("Cancelled".to_string(), String::new()))
    );
    assert_eq!(
        overlay_result(&OverlayEvent::ScriptFailed("disk full".into()), &args),
        Err(("Failed to write filter script: disk full".to_string(), String::new()))
    );
}

#[test]
fn music_ignores_the_speed_of_the_voice() {
    let pieces = || vec![segment("a.mp3", 0, 4 * S), segment("b.mp3", 0, 6 * S)];
    let slow = overlay_music(&task(pieces()), &config());
    let fast = overlay_music(&task(pieces()), &OverlayConfig { speed: 2 * S, ..config() });
    let at = slow.args.iter().position(|a| a == "-filter_complex").unwrap() + 1;
    assert_eq!(fast.args[at].replace(",atempo=2.000000", ""), slow.args[at]);
    assert_ne!(fast.args[at], slow.args[at]);
    assert_eq!(fast.args[..at], slow.args[..at]);
    assert_eq!(fast.args[at + 1..], slow.args[at + 1..]);
}
