use overlay_music::number::parse_number;
use overlay_music::stderr::{
    extract_progress_time, last_json_block, measure_loudness, parse_ffmpeg_time, update_progress,
    StderrReader,
};

const S: i64 = 1_000_000;

#[test]
fn times_are_read() {
    assert_eq!(parse_ffmpeg_time("00:01:30.00"), Some(90 * S));
    assert_eq!(parse_ffmpeg_time(" 01:00:00.5 "), Some(3_600_500_000));
    assert_eq!(parse_ffmpeg_time("01:30"), None);
    assert_eq!(parse_ffmpeg_time("a:b:c"), None);
    assert_eq!(parse_ffmpeg_time("1:2:3:4"), None);
}

#[test]
fn progress_is_found_in_a_line() {
    let line = "size=  1024kB time=00:01:30.00 bitrate=128.0kbits/s speed=2.5x";
    assert_eq!(extract_progress_time(line), Some(90 * S));
    assert_eq!(extract_progress_time("time=N/A bitrate=N/A"), None);
    assert_eq!(extract_progress_time("time=-577014:32:22.77 bitrate"), None);
    assert_eq!(extract_progress_time("no progress"), None);
    assert_eq!(extract_progress_time("time=00:00:01.25"), Some(1_250_000));
}

#[test]
fn bars_follow_the_time() {
    assert_eq!(update_progress(90 * S, 300 * S), Some(90_000));
    assert_eq!(update_progress(400 * S, 300 * S), Some(300_000));
    assert_eq!(update_progress(90 * S, 0), None);
    assert_eq!(update_progress(S, 1_000), None);
}

fn read(chunks: &[&[u8]], capture: bool) -> (Option<i64>, String) {
    let mut r = StderrReader::new(capture);
    for c in chunks {
        r.feed(c);
    }
    r.end();
    (r.latest(), r.output().to_string())
}

#[test]
fn lines_end_at_returns_and_feeds() {
    let (t, out) = read(&[b"a\r\n\rtime=00:00:01.00 x\r", b"time=00:00:02.00 x\nlast"], true);
    assert_eq!(t, Some(2 * S));
    assert_eq!(out, "a\ntime=00:00:01.00 x\ntime=00:00:02.00 x\nlast\n");
    let (t, out) = read(&[b"time=00:00:01.00 x\r"], false);
    assert_eq!(t, Some(S));
    assert_eq!(out, "");
}

#[test]
fn chunks_do_not_matter() {
    let all: &[u8] = "Grüße\rtime=00:00:03.50 y\n".as_bytes();
    let whole = read(&[all], true);
    for k in 0..all.len() {
        assert_eq!(read(&[&all[..k], &all[k..]], true), whole);
    }
    assert_eq!(whole.1, "Grüße\ntime=00:00:03.50 y\n");
}

#[test]
fn lines_come_out_as_their_text() {
    for line in ["plain", "Größe – ♫ 音楽 🎵", "tab\there", "e\u{301}"] {
        let mut bytes = line.as_bytes().to_vec();
        bytes.push(b'\r');
        assert_eq!(read(&[&bytes], true).1, format!("{line}\n"));
        assert_eq!(read(&[line.as_bytes()], true).1, format!("{line}\n"));
    }
}

#[test]
fn broken_characters_are_replaced() {
    let (_, out) = read(&[b"a\xffb\n"], true);
    assert_eq!(out, "a\u{fffd}b\n");
}

const PRINTED: &str = r#"Metadata { "x": 1 }
[Parsed_loudnorm_0 @ 0x1]
{
	"input_i" : "-27.61",
	"input_tp" : "-4.47",
	"input_lra" : "18.06",
	"input_thresh" : "-39.20",
	"output_i" : "-16.58",
	"normalization_type" : "dynamic",
	"target_offset" : "0.58"
}
"#;

#[test]
fn the_last_block_is_measured() {
    let block = last_json_block(PRINTED).unwrap();
    assert!(block.starts_with("{\n\t\"input_i\"") && block.ends_with('}'));
    let m = measure_loudness(PRINTED).unwrap();
    assert_eq!(Some(m.input_i), parse_number("-27.61"));
    assert_eq!(Some(m.input_tp), parse_number("-4.47"));
    assert_eq!(Some(m.input_lra), parse_number("18.06"));
    assert_eq!(Some(m.input_thresh), parse_number("-39.2"));
    assert_eq!(Some(m.target_offset), parse_number("0.58"));
}

#[test]
fn what_cannot_be_measured() {
    assert!(measure_loudness("").is_none());
    assert!(measure_loudness("} {").is_none());
    assert!(measure_loudness("{ not json }").is_none());
    assert!(measure_loudness(r#"{"input_i": "-1"}"#).is_none());
    assert!(measure_loudness(&PRINTED.replace("\"18.06\"", "18.06")).is_none());
    assert!(measure_loudness(&PRINTED.replace("18.06", "n/a")).is_none());
}
