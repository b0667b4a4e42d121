//! What ffmpeg is called with: two-pass loudness normalization, music overlay, speed
//! control, and audio formats.

use crate::number;
use crate::number::{fixed6_text, plain_text, Number, TICK};
use crate::path;
use crate::path::set_extension;
use crate::plan;
use crate::plan::{MusicPiece, Piece};
use crate::text;
use crate::text::{decimal_text, join_texts, push_all, push_text};
use vstd::prelude::*;

verus! {

// ─── Output Format ─────────────────────────────────────────────

/// Supported output audio formats.
#[derive(Debug, Clone, Copy, PartialEq, Eq, Structural)]
pub enum OutputFormat {
    Ogg,
    Mp3,
    Opus,
    Flac,
}

/// The encoder arguments for a format and a quality.
pub open spec fn encoder_arguments(f: OutputFormat, quality: int) -> Seq<Seq<char>> {
    match f {
        OutputFormat::Ogg => seq![
            "-codec:a"@,
            "libvorbis"@,
            "-q:a"@,
            text::decimal(quality as nat),
        ],
        OutputFormat::Mp3 => seq![
            "-codec:a"@,
            "libmp3lame"@,
            "-q:a"@,
            text::decimal(quality as nat),
        ],
        OutputFormat::Opus => seq![
            "-codec:a"@,
            "libopus"@,
            "-b:a"@,
            text::decimal((64 + quality * 16) as nat) + "k"@,
        ],
        OutputFormat::Flac => seq![
            "-codec:a"@,
            "flac"@,
            "-compression_level"@,
            text::decimal(quality as nat),
        ],
    }
}

impl OutputFormat {
    /// The file extension of the format.
    pub open spec fn spec_extension(self) -> Seq<char> {
        match self {
            OutputFormat::Ogg => "ogg"@,
            OutputFormat::Mp3 => "mp3"@,
            OutputFormat::Opus => "opus"@,
            OutputFormat::Flac => "flac"@,
        }
    }

    /// The largest valid quality of the format.
    pub open spec fn spec_max_quality(self) -> int {
        if self == OutputFormat::Flac {
            12
        } else {
            10
        }
    }

    /// File extension for this format.
    pub fn extension(&self) -> (r: &'static str)
        ensures
            r@ == self.spec_extension(),
    {
        match self {
            OutputFormat::Ogg => "ogg",
            OutputFormat::Mp3 => "mp3",
            OutputFormat::Opus => "opus",
            OutputFormat::Flac => "flac",
        }
    }

    /// FFmpeg encoder arguments for this format at the given quality level.
    pub fn encoder_args(&self, quality: u8) -> (r: Vec<String>)
        ensures
            text::texts(r@) == encoder_arguments(*self, quality as int),
    {
        let mut args: Vec<String> = Vec::new();
        assert(text::texts(args@) =~= seq![]);
        push_text(&mut args, "-codec:a");
        match self {
            OutputFormat::Ogg => {
                push_text(&mut args, "libvorbis");
                push_text(&mut args, "-q:a");
                push_text(&mut args, decimal_text(quality as u128).as_str());
            },
            OutputFormat::Mp3 => {
                push_text(&mut args, "libmp3lame");
                push_text(&mut args, "-q:a");
                push_text(&mut args, decimal_text(quality as u128).as_str());
            },
            OutputFormat::Opus => {
                push_text(&mut args, "libopus");
                push_text(&mut args, "-b:a");
                let mut rate = decimal_text(64 + quality as u128 * 16);
                rate.append("k");
                push_text(&mut args, rate.as_str());
            },
            OutputFormat::Flac => {
                push_text(&mut args, "flac");
                push_text(&mut args, "-compression_level");
                push_text(&mut args, decimal_text(quality as u128).as_str());
            },
        }
        assert(text::texts(args@) =~= encoder_arguments(*self, quality as int));
        args
    }

    /// Maximum valid quality value for this format.
    pub fn max_quality(&self) -> (r: u8)
        ensures
            r == self.spec_max_quality(),
    {
        match self {
            OutputFormat::Flac => 12,
            _ => 10,
        }
    }
}

// ─── Audio Format String ───────────────────────────────────────

/// The filter that gives a stream the common sample rate, sample format and channels.
pub open spec fn common_format(sample_rate: int) -> Seq<char> {
    "aresample="@ + text::decimal(sample_rate as nat)
        + ",aformat=sample_fmts=fltp:channel_layouts=stereo"@
}

/// Build the canonical audio format filter string for the given sample rate.
///
/// This ensures every stream entering `concat` / `amix` has identical
/// sample rate, sample format (`fltp`), and channel layout (`stereo`).
pub fn afmt(sample_rate: u32) -> (r: String)
    ensures
        r@ == common_format(sample_rate as int),
{
    let mut s = "aresample=".to_owned();
    s.append(decimal_text(sample_rate as u128).as_str());
    s.append(",aformat=sample_fmts=fltp:channel_layouts=stereo");
    s
}

// ─── Two-Pass Loudnorm ─────────────────────────────────────────

/// EBU R128 loudness target parameters.
#[derive(Debug, Clone, Copy)]
pub struct LoudnessTarget {
    /// Integrated loudness in LUFS.
    pub i: Number,
    /// True peak limit in dBTP.
    pub tp: Number,
    /// Loudness range in LU.
    pub lra: Number,
}

/// Measurements from loudnorm pass 1.
#[derive(Debug, Clone, Copy)]
pub struct LoudnormMeasurement {
    pub input_i: Number,
    pub input_tp: Number,
    pub input_lra: Number,
    pub input_thresh: Number,
    pub target_offset: Number,
}

/// Combined normalization settings — loudness target plus encoding params.
#[derive(Debug, Clone, Copy)]
pub struct NormConfig {
    pub target: LoudnessTarget,
    pub sample_rate: u32,
    pub ffmpeg_threads: u32,
}

/// The arguments that give ffmpeg more than one thread.
pub open spec fn thread_arguments(threads: int) -> Seq<Seq<char>> {
    if threads > 1 {
        seq!["-threads"@, text::decimal(threads as nat)]
    } else {
        seq![]
    }
}

/// Adds the arguments that give ffmpeg more than one thread.
pub fn push_threads(args: &mut Vec<String>, threads: u32)
    ensures
        text::texts(final(args)@) == text::texts(old(args)@) + thread_arguments(threads as int),
{
    let ghost before = text::texts(args@);
    if threads > 1 {
        push_text(args, "-threads");
        push_text(args, decimal_text(threads as u128).as_str());
    }
    assert(text::texts(args@) =~= before + thread_arguments(threads as int));
}

/// The target in the words of the loudnorm filter.
pub open spec fn target_options(t: LoudnessTarget) -> Seq<char> {
    "loudnorm=I="@ + number::plain(t.i) + ":TP="@ + number::plain(t.tp) + ":LRA="@ + number::plain(
        t.lra,
    )
}

fn target_text(t: &LoudnessTarget) -> (r: String)
    ensures
        r@ == target_options(*t),
{
    let mut s = "loudnorm=I=".to_owned();
    s.append(plain_text(t.i).as_str());
    s.append(":TP=");
    s.append(plain_text(t.tp).as_str());
    s.append(":LRA=");
    s.append(plain_text(t.lra).as_str());
    s
}

/// The arguments of pass 1: measure, and print the measurement as JSON.
pub open spec fn measure_arguments(
    input: Seq<char>,
    target: LoudnessTarget,
    threads: int,
) -> Seq<Seq<char>> {
    seq!["-hide_banner"@, "-y"@] + thread_arguments(threads) + seq![
        "-i"@,
        input,
        "-af"@,
        target_options(target) + ":print_format=json"@,
        "-f"@,
        "null"@,
        "-"@,
    ]
}

/// Pass 1: the ffmpeg arguments that measure loudness characteristics and print them as
/// a JSON block to stderr.
pub fn measure_loudness_args(input: &str, target: &LoudnessTarget, ffmpeg_threads: u32) -> (r: Vec<
    String,
>)
    ensures
        text::texts(r@) == measure_arguments(input@, *target, ffmpeg_threads as int),
{
    let mut args: Vec<String> = Vec::new();
    assert(text::texts(args@) =~= seq![]);
    push_text(&mut args, "-hide_banner");
    push_text(&mut args, "-y");
    push_threads(&mut args, ffmpeg_threads);
    push_text(&mut args, "-i");
    push_text(&mut args, input);
    push_text(&mut args, "-af");
    let mut filter = target_text(target);
    filter.append(":print_format=json");
    push_text(&mut args, filter.as_str());
    push_text(&mut args, "-f");
    push_text(&mut args, "null");
    push_text(&mut args, "-");
    assert(text::texts(args@) =~= measure_arguments(input@, *target, ffmpeg_threads as int));
    args
}

/// The measured values in the words of the loudnorm filter.
pub open spec fn measured_options(m: LoudnormMeasurement) -> Seq<char> {
    ":measured_I="@ + number::plain(m.input_i) + ":measured_TP="@ + number::plain(m.input_tp)
        + ":measured_LRA="@ + number::plain(m.input_lra) + ":measured_thresh="@ + number::plain(
        m.input_thresh,
    ) + ":offset="@ + number::plain(m.target_offset) + ":linear=true"@
}

/// The arguments of pass 2: apply the measured values.
pub open spec fn normalize_arguments(
    input: Seq<char>,
    output: Seq<char>,
    config: NormConfig,
    m: LoudnormMeasurement,
) -> Seq<Seq<char>> {
    seq!["-y"@] + thread_arguments(config.ffmpeg_threads as int) + seq![
        "-i"@,
        input,
        "-vn"@,
        "-af"@,
        target_options(config.target) + measured_options(m),
        "-ar"@,
        text::decimal(config.sample_rate as nat),
        "-ac"@,
        "2"@,
        output,
    ]
}

/// Pass 2: the ffmpeg arguments that apply loudnorm with measured values and
/// `linear=true`. They are kept, so that they can be logged on failure.
pub fn normalize_two_pass(
    input: &str,
    output: &str,
    config: &NormConfig,
    measurement: &LoudnormMeasurement,
) -> (r: Vec<String>)
    ensures
        text::texts(r@) == normalize_arguments(input@, output@, *config, *measurement),
{
    let mut filter = target_text(&config.target);
    let ghost front = filter@;
    filter.append(":measured_I=");
    filter.append(plain_text(measurement.input_i).as_str());
    filter.append(":measured_TP=");
    filter.append(plain_text(measurement.input_tp).as_str());
    filter.append(":measured_LRA=");
    filter.append(plain_text(measurement.input_lra).as_str());
    filter.append(":measured_thresh=");
    filter.append(plain_text(measurement.input_thresh).as_str());
    filter.append(":offset=");
    filter.append(plain_text(measurement.target_offset).as_str());
    filter.append(":linear=true");
    assert(filter@ =~= front + measured_options(*measurement));
    let mut args: Vec<String> = Vec::new();
    assert(text::texts(args@) =~= seq![]);
    push_text(&mut args, "-y");
    push_threads(&mut args, config.ffmpeg_threads);
    push_text(&mut args, "-i");
    push_text(&mut args, input);
    push_text(&mut args, "-vn");
    push_text(&mut args, "-af");
    push_text(&mut args, filter.as_str());
    push_text(&mut args, "-ar");
    push_text(&mut args, decimal_text(config.sample_rate as u128).as_str());
    push_text(&mut args, "-ac");
    push_text(&mut args, "2");
    push_text(&mut args, output);
    assert(text::texts(args@) =~= normalize_arguments(input@, output@, *config, *measurement));
    args
}

// ─── Speed (atempo) ────────────────────────────────────────────

/// How often `limit` has to be doubled to reach `speed`.
pub open spec fn doublings(speed: int, limit: int) -> nat
    decreases 2 * speed - limit,
{
    if 0 < limit < speed {
        1 + doublings(speed, 2 * limit)
    } else {
        0
    }
}

/// How often a positive `speed` has to be doubled to reach one half.
pub open spec fn raises(speed: int) -> nat
    decreases 1_000_000 - speed,
{
    if 0 < speed < 500_000 {
        1 + raises(2 * speed)
    } else {
        0
    }
}

pub open spec fn power2(n: nat) -> int
    decreases n,
{
    if n == 0 {
        1
    } else {
        2 * power2((n - 1) as nat)
    }
}

/// The factors of a speed in millionths, each of which one `atempo` filter can take.
pub open spec fn tempo_factors(speed: int) -> Seq<int> {
    if speed > 2_000_000 {
        let n = doublings(speed, 2_000_000);
        Seq::new(n, |i: int| 2_000_000).push(number::nearest_quotient(speed, power2(n)))
    } else {
        let n = raises(speed);
        Seq::new(n, |i: int| 500_000).push(speed * power2(n))
    }
}

/// The text of the factor at place `i` of the chain.
pub open spec fn tempo_part(speed: int, i: int) -> Seq<char> {
    let factors = tempo_factors(speed);
    if i < factors.len() - 1 {
        if speed > 2_000_000 {
            "atempo=2.0"@
        } else {
            "atempo=0.5"@
        }
    } else {
        "atempo="@ + number::fixed6(factors[i])
    }
}

/// Whether a speed is as good as normal: less than a thousandth away from one. In binary, 1.001
/// minus one is a little less than a thousandth and one minus 0.999 a little more, so the upper
/// end counts as normal and the lower end does not.
pub open spec fn is_normal_speed(speed: int) -> bool {
    999_000 < speed <= 1_001_000
}

/// The filter chain for a speed in millionths; empty where the speed is about one.
pub open spec fn tempo_chain(speed: int) -> Seq<char> {
    if is_normal_speed(speed) {
        seq![]
    } else {
        text::joined(
            Seq::new(tempo_factors(speed).len(), |i: int| tempo_part(speed, i)),
            ","@,
        )
    }
}

/// Powers of two are positive.
pub proof fn lemma_power2(n: nat)
    ensures
        power2(n) >= 1,
    decreases n,
{
    if n > 0 {
        lemma_power2((n - 1) as nat);
    }
}

/// The doublings of the limit reach the speed, and no earlier than needed.
pub proof fn lemma_doublings(speed: int, limit: int)
    requires
        0 < limit,
    ensures
        speed <= limit * power2(doublings(speed, limit)),
        doublings(speed, limit) > 0 ==> limit * power2(doublings(speed, limit)) < 2 * speed,
    decreases 2 * speed - limit,
{
    if limit < speed {
        let n = doublings(speed, 2 * limit);
        lemma_doublings(speed, 2 * limit);
        assert(limit * power2(n + 1) == (2 * limit) * power2(n)) by (nonlinear_arith)
            requires
                power2(n + 1) == 2 * power2(n),
        ;
        if n == 0 {
            assert(power2(0) == 1);
        }
    } else {
        assert(power2(0) == 1);
    }
}

/// The doublings of the speed reach one half, and no earlier than needed.
pub proof fn lemma_raises(speed: int)
    requires
        0 < speed,
    ensures
        speed * power2(raises(speed)) >= 500_000,
        raises(speed) > 0 ==> speed * power2(raises(speed)) < 1_000_000,
    decreases 1_000_000 - speed,
{
    assert(power2(0) == 1);
    if speed < 500_000 {
        let n = raises(2 * speed);
        lemma_raises(2 * speed);
        assert(speed * power2(n + 1) == (2 * speed) * power2(n)) by (nonlinear_arith)
            requires
                power2(n + 1) == 2 * power2(n),
        ;
    }
}

/// Build an atempo filter chain for the given speed.
///
/// FFmpeg's `atempo` filter only accepts values between 0.5 and 2.0
/// per instance, so we chain multiple filters for values outside
/// that range.
///
/// Examples:
/// - `speed=1.0` → `""` (empty, no filter needed)
/// - `speed=1.5` → `"atempo=1.500000"`
/// - `speed=3.0` → `"atempo=2.0,atempo=1.500000"`
/// - `speed=0.3` → `"atempo=0.5,atempo=0.600000"`
///
/// Returns empty string if speed ≈ 1.0.
pub fn build_atempo_chain(speed: i64) -> (r: String)
    requires
        speed > 0,
    ensures
        r@ == tempo_chain(speed as int),
{
    if 999_000 < speed && speed <= 1_001_000 {
        return String::new();
    }
    let mut parts: Vec<String> = Vec::new();
    assert(text::texts(parts@) =~= seq![]);
    let ghost wanted = Seq::new(
        tempo_factors(speed as int).len(),
        |i: int| tempo_part(speed as int, i),
    );
    let last: i64;
    if speed > 2_000_000 {
        let ghost n = doublings(speed as int, 2_000_000);
        let mut limit: i128 = 2_000_000;
        let mut scale: i128 = 1;
        let ghost mut done: nat = 0;
        while limit < speed as i128
            invariant
                limit == 2_000_000 * scale,
                1 <= scale <= limit < 2 * speed,
                scale == power2(done),
                done + doublings(speed as int, limit as int) == n,
                n == doublings(speed as int, 2_000_000),
                text::texts(parts@) == Seq::new(done, |i: int| "atempo=2.0"@),
                speed > 2_000_000,
            decreases 2 * speed - limit,
        {
            push_text(&mut parts, "atempo=2.0");
            limit = limit * 2;
            scale = scale * 2;
            proof {
                done = done + 1;
                assert(text::texts(parts@) =~= Seq::new(done, |i: int| "atempo=2.0"@));
            }
        }
        proof {
            assert(done == n);
            lemma_doublings(speed as int, 2_000_000);
        }
        let q: i128 = (2 * speed as i128 + scale) / (2 * scale);
        assert(q == number::nearest_quotient(speed as int, power2(n)));
        proof {
            lemma_last_factor(speed as int, scale as int);
        }
        last = q as i64;
        assert(tempo_factors(speed as int).last() == last);
        assert(text::texts(parts@) =~= wanted.drop_last());
    } else {
        let ghost n = raises(speed as int);
        let mut rest: i64 = speed;
        let ghost mut done: nat = 0;
        assert(power2(0) == 1);
        while rest < 500_000
            invariant
                0 < rest,
                rest == speed * power2(done),
                done + raises(rest as int) == n,
                n == raises(speed as int),
                text::texts(parts@) == Seq::new(done, |i: int| "atempo=0.5"@),
            decreases 1_000_000 - rest,
        {
            push_text(&mut parts, "atempo=0.5");
            assert(2 * (speed * power2(done)) == speed * power2(done + 1)) by (nonlinear_arith)
                requires
                    power2(done + 1) == 2 * power2(done),
            ;
            rest = rest * 2;
            proof {
                done = done + 1;
                assert(text::texts(parts@) =~= Seq::new(done, |i: int| "atempo=0.5"@));
            }
        }
        last = rest;
        assert(tempo_factors(speed as int).last() == last);
        assert(text::texts(parts@) =~= wanted.drop_last());
    }
    let mut part = "atempo=".to_owned();
    part.append(fixed6_text(last).as_str());
    push_text(&mut parts, part.as_str());
    assert(text::texts(parts@) =~= wanted);
    join_texts(&parts, ",")
}

/// A speed above two, brought down by `scale`, rounds to a factor from one to two.
proof fn lemma_last_factor(speed: int, scale: int)
    requires
        scale >= 1,
        1_000_000 * scale < speed <= 2_000_000 * scale,
    ensures
        1_000_000 <= number::nearest_quotient(speed, scale) <= 2_000_000,
{
    let q = number::nearest_quotient(speed, scale);
    assert(1_000_000 <= q <= 2_000_000) by (nonlinear_arith)
        requires
            scale >= 1,
            1_000_000 * scale < speed <= 2_000_000 * scale,
            q == (2 * speed + scale) / (2 * scale),
    ;
}

/// Every factor of the chain is one that an `atempo` filter accepts: from 0.5 to 2.0.
pub proof fn law_tempo_factors_accepted(speed: int, i: int)
    requires
        speed > 0,
        0 <= i < tempo_factors(speed).len(),
    ensures
        500_000 <= tempo_factors(speed)[i] <= 2_000_000,
{
    if speed > 2_000_000 {
        let n = doublings(speed, 2_000_000);
        lemma_doublings(speed, 2_000_000);
        lemma_power2(n);
        lemma_last_factor(speed, power2(n));
    } else {
        lemma_raises(speed);
        assert(power2(0) == 1);
    }
}

/// The factors of the chain multiply to the speed, up to the rounding of the last one.
pub proof fn law_tempo_factors_multiply(speed: int)
    requires
        speed > 0,
    ensures
        ({
            let factors = tempo_factors(speed);
            let scale = power2((factors.len() - 1) as nat);
            if speed > 2_000_000 {
                -scale <= 2 * (factors.last() * scale - speed) <= scale
            } else {
                factors.last() == speed * scale
            }
        }),
{
    let n = doublings(speed, 2_000_000);
    let scale = power2(n);
    lemma_power2(n);
    let q = number::nearest_quotient(speed, scale);
    assert(-scale <= 2 * (q * scale - speed) <= scale) by (nonlinear_arith)
        requires
            scale >= 1,
            q == (2 * speed + scale) / (2 * scale),
    ;
}

// ─── File Task ─────────────────────────────────────────────────

/// All information needed to produce one output file.
#[derive(Debug)]
pub struct FileTask {
    /// Normalised WAV in the temp directory.
    pub normalized: String,
    /// Final output path.
    pub output: String,
    /// Output duration (after speed adjustment) in microseconds — used for fades.
    pub duration: i64,
    /// Music pieces to overlay on this file.
    pub pieces: Vec<MusicPiece>,
}

/// Configuration for the overlay + encode step. Volume and speed are millionths, times
/// are microseconds.
#[derive(Debug, Clone, Copy)]
pub struct OverlayConfig {
    pub volume: i64,
    pub format: OutputFormat,
    pub quality: u8,
    pub sample_rate: u32,
    pub speed: i64,
    pub music_fade_in: i64,
    pub music_fade_out: i64,
    /// Number of threads for each ffmpeg subprocess.
    pub ffmpeg_threads: u32,
}

// ─── Filter Graph ──────────────────────────────────────────────

/// The arguments that open a part of a file, with seeking at the input.
pub open spec fn seek_arguments(start: int, duration: int, file: Seq<char>) -> Seq<Seq<char>> {
    seq!["-ss"@, number::fixed6(start), "-t"@, number::fixed6(duration), "-i"@, file]
}

/// The filter that brings input `n` into the common format under a label.
pub open spec fn input_filter(n: nat, format: Seq<char>, label: Seq<char>) -> Seq<char> {
    "["@ + text::decimal(n) + ":a]"@ + format + ",asetpts=PTS-STARTPTS["@ + label + "]"@
}

/// The filter that generates silence in the common format under a label.
pub open spec fn silence_filter(rate: int, duration: int, label: Seq<char>) -> Seq<char> {
    "anullsrc=r="@ + text::decimal(rate as nat) + ":cl=stereo["@ + label + "r];["@ + label
        + "r]atrim=0:"@ + number::fixed6(duration)
        + ",asetpts=PTS-STARTPTS,aformat=sample_fmts=fltp:channel_layouts=stereo["@ + label + "]"@
}

/// The filter that fades from one label into another.
pub open spec fn crossfade_filter(
    from: Seq<char>,
    into: Seq<char>,
    overlap: int,
    label: Seq<char>,
) -> Seq<char> {
    "["@ + from + "]["@ + into + "]acrossfade=d="@ + number::fixed6(overlap) + ":c1=tri:c2=tri["@
        + label + "]"@
}

/// A filter graph for music: the arguments that open its inputs, its lines, the label of
/// each piece, and the numbers that the next pieces get. Input 0 is the voice.
pub struct Graph {
    pub arguments: Seq<Seq<char>>,
    pub lines: Seq<Seq<char>>,
    pub labels: Seq<Seq<char>>,
    pub next_input: nat,
    pub silences: nat,
    pub crossfades: nat,
}

pub open spec fn bracketed(label: Seq<char>) -> Seq<char> {
    "["@ + label + "]"@
}

/// The graph with one piece more.
pub open spec fn add_piece(g: Graph, p: Piece, format: Seq<char>, rate: int) -> Graph {
    match p {
        Piece::Segment { file, start, duration } => {
            let label = "m"@ + text::decimal(g.next_input);
            Graph {
                arguments: g.arguments + seek_arguments(start, duration, file),
                lines: g.lines.push(input_filter(g.next_input, format, label)),
                labels: g.labels.push(bracketed(label)),
                next_input: g.next_input + 1,
                ..g
            }
        },
        Piece::Silence { duration } => {
            let label = "z"@ + text::decimal(g.silences);
            Graph {
                lines: g.lines.push(silence_filter(rate, duration, label)),
                labels: g.labels.push(bracketed(label)),
                silences: g.silences + 1,
                ..g
            }
        },
        Piece::Crossfade { file1, start1, dur1, file2, start2, dur2, overlap } => {
            let label = "cf"@ + text::decimal(g.crossfades);
            let from = label + "a"@;
            let into = label + "b"@;
            Graph {
                arguments: g.arguments + seek_arguments(start1, dur1, file1) + seek_arguments(
                    start2,
                    dur2,
                    file2,
                ),
                lines: g.lines.push(input_filter(g.next_input, format, from)).push(
                    input_filter(g.next_input + 1, format, into),
                ).push(crossfade_filter(from, into, overlap, label)),
                labels: g.labels.push(bracketed(label)),
                next_input: g.next_input + 2,
                crossfades: g.crossfades + 1,
                ..g
            }
        },
    }
}

/// The graph of a sequence of pieces.
pub open spec fn music_graph(pieces: Seq<Piece>, format: Seq<char>, rate: int) -> Graph
    decreases pieces.len(),
{
    if pieces.len() == 0 {
        Graph {
            arguments: seq![],
            lines: seq![],
            labels: seq![],
            next_input: 1,
            silences: 0,
            crossfades: 0,
        }
    } else {
        add_piece(music_graph(pieces.drop_last(), format, rate), pieces.last(), format, rate)
    }
}

fn push_seek(args: &mut Vec<String>, start: i64, duration: i64, file: &str)
    ensures
        text::texts(final(args)@) == text::texts(old(args)@) + seek_arguments(
            start as int,
            duration as int,
            file@,
        ),
{
    let ghost before = text::texts(args@);
    push_text(args, "-ss");
    push_text(args, fixed6_text(start).as_str());
    push_text(args, "-t");
    push_text(args, fixed6_text(duration).as_str());
    push_text(args, "-i");
    push_text(args, file);
    assert(text::texts(args@) =~= before + seek_arguments(start as int, duration as int, file@));
}

fn input_filter_text(n: u128, format: &str, label: &str) -> (r: String)
    ensures
        r@ == input_filter(n as nat, format@, label@),
{
    let mut s = "[".to_owned();
    s.append(decimal_text(n).as_str());
    s.append(":a]");
    s.append(format);
    s.append(",asetpts=PTS-STARTPTS[");
    s.append(label);
    s.append("]");
    s
}

fn silence_filter_text(rate: u32, duration: i64, label: &str) -> (r: String)
    ensures
        r@ == silence_filter(rate as int, duration as int, label@),
{
    let mut s = "anullsrc=r=".to_owned();
    s.append(decimal_text(rate as u128).as_str());
    s.append(":cl=stereo[");
    s.append(label);
    s.append("r];[");
    s.append(label);
    s.append("r]atrim=0:");
    s.append(fixed6_text(duration).as_str());
    s.append(",asetpts=PTS-STARTPTS,aformat=sample_fmts=fltp:channel_layouts=stereo[");
    s.append(label);
    s.append("]");
    s
}

fn crossfade_filter_text(from: &str, into: &str, overlap: i64, label: &str) -> (r: String)
    ensures
        r@ == crossfade_filter(from@, into@, overlap as int, label@),
{
    let mut s = "[".to_owned();
    s.append(from);
    s.append("][");
    s.append(into);
    s.append("]acrossfade=d=");
    s.append(fixed6_text(overlap).as_str());
    s.append(":c1=tri:c2=tri[");
    s.append(label);
    s.append("]");
    s
}

fn numbered(name: &str, n: u128) -> (r: String)
    ensures
        r@ == name@ + text::decimal(n as nat),
{
    let mut s = name.to_owned();
    s.append(decimal_text(n).as_str());
    s
}

fn with_suffix(label: &str, suffix: &str) -> (r: String)
    ensures
        r@ == label@ + suffix@,
{
    let mut s = label.to_owned();
    s.append(suffix);
    s
}

fn bracketed_text(label: &str) -> (r: String)
    ensures
        r@ == bracketed(label@),
{
    let mut s = "[".to_owned();
    s.append(label);
    s.append("]");
    s
}

/// A filter graph that is being written.
struct GraphWriter {
    arguments: Vec<String>,
    lines: Vec<String>,
    labels: Vec<String>,
    next_input: u128,
    silences: u128,
    crossfades: u128,
}

impl GraphWriter {
    spec fn graph(&self) -> Graph {
        Graph {
            arguments: text::texts(self.arguments@),
            lines: text::texts(self.lines@),
            labels: text::texts(self.labels@),
            next_input: self.next_input as nat,
            silences: self.silences as nat,
            crossfades: self.crossfades as nat,
        }
    }

    fn new() -> (r: GraphWriter)
        ensures
            r.graph() == music_graph(seq![], seq![], 0),
            r.next_input == 1,
            r.silences == 0,
            r.crossfades == 0,
    {
        let w = GraphWriter {
            arguments: Vec::new(),
            lines: Vec::new(),
            labels: Vec::new(),
            next_input: 1,
            silences: 0,
            crossfades: 0,
        };
        assert(text::texts(w.arguments@) =~= seq![]);
        assert(text::texts(w.lines@) =~= seq![]);
        assert(text::texts(w.labels@) =~= seq![]);
        w
    }

    fn add_piece(&mut self, piece: &MusicPiece, format: &str, rate: u32)
        requires
            old(self).next_input < u128::MAX - 2,
            old(self).silences < u128::MAX - 2,
            old(self).crossfades < u128::MAX - 2,
        ensures
            final(self).graph() == add_piece(old(self).graph(), piece@, format@, rate as int),
    {
        let ghost before = self.graph();
        match piece {
            MusicPiece::Segment { file, start, duration } => {
                let label = numbered("m", self.next_input);
                push_seek(&mut self.arguments, *start, *duration, file.as_str());
                let line = input_filter_text(self.next_input, format, label.as_str());
                push_text(&mut self.lines, line.as_str());
                push_text(&mut self.labels, bracketed_text(label.as_str()).as_str());
                self.next_input = self.next_input + 1;
            },
            MusicPiece::Silence { duration } => {
                let label = numbered("z", self.silences);
                let line = silence_filter_text(rate, *duration, label.as_str());
                push_text(&mut self.lines, line.as_str());
                push_text(&mut self.labels, bracketed_text(label.as_str()).as_str());
                self.silences = self.silences + 1;
            },
            MusicPiece::Crossfade { file1, start1, dur1, file2, start2, dur2, overlap } => {
                let label = numbered("cf", self.crossfades);
                let from = with_suffix(label.as_str(), "a");
                let into = with_suffix(label.as_str(), "b");
                push_seek(&mut self.arguments, *start1, *dur1, file1.as_str());
                let line1 = input_filter_text(self.next_input, format, from.as_str());
                push_text(&mut self.lines, line1.as_str());
                push_seek(&mut self.arguments, *start2, *dur2, file2.as_str());
                let line2 = input_filter_text(self.next_input + 1, format, into.as_str());
                push_text(&mut self.lines, line2.as_str());
                let line3 = crossfade_filter_text(
                    from.as_str(),
                    into.as_str(),
                    *overlap,
                    label.as_str(),
                );
                push_text(&mut self.lines, line3.as_str());
                push_text(&mut self.labels, bracketed_text(label.as_str()).as_str());
                self.next_input = self.next_input + 2;
                self.crossfades = self.crossfades + 1;
            },
        }
    }
}

/// Writes the graph of all the pieces.
fn write_graph(pieces: &Vec<MusicPiece>, format: &str, rate: u32) -> (w: GraphWriter)
    ensures
        w.graph() == music_graph(plan::pieces_view(pieces@), format@, rate as int),
{
    let mut w = GraphWriter::new();
    let ghost all = plan::pieces_view(pieces@);
    let mut i: usize = 0;
    assert(all.take(0) =~= seq![]);
    while i < pieces.len()
        invariant
            i <= pieces.len(),
            all == plan::pieces_view(pieces@),
            w.graph() == music_graph(all.take(i as int), format@, rate as int),
            w.next_input <= 1 + 2 * i,
            w.silences <= i,
            w.crossfades <= i,
        decreases pieces.len() - i,
    {
        w.add_piece(&pieces[i], format, rate);
        i += 1;
        proof {
            assert(all.take(i as int).drop_last() =~= all.take(i - 1));
            assert(all.take(i as int).last() == pieces@[i - 1]@);
        }
    }
    assert(all.take(i as int) =~= all);
    w
}

/// Every piece has a label, and each input of the graph is opened by its own six arguments.
pub proof fn law_graph_is_complete(pieces: Seq<Piece>, format: Seq<char>, rate: int)
    ensures
        music_graph(pieces, format, rate).labels.len() == pieces.len(),
        music_graph(pieces, format, rate).arguments.len() == 6 * (music_graph(
            pieces,
            format,
            rate,
        ).next_input - 1),
    decreases pieces.len(),
{
    if pieces.len() > 0 {
        law_graph_is_complete(pieces.drop_last(), format, rate);
    }
}

/// Whether a label is one that the graph has used for a piece.
spec fn is_label_of(g: Graph, label: Seq<char>) -> bool {
    ||| exists|n: nat| n < g.next_input && label == bracketed("m"@ + #[trigger] text::decimal(n))
    ||| exists|n: nat| n < g.silences && label == bracketed("z"@ + #[trigger] text::decimal(n))
    ||| exists|n: nat| n < g.crossfades && label == bracketed("cf"@ + #[trigger] text::decimal(n))
}

/// Numbered labels are different where their names or their numbers are.
proof fn lemma_labels_differ(a: nat, b: nat)
    ensures
        bracketed("m"@ + text::decimal(a)) != bracketed("z"@ + text::decimal(b)),
        bracketed("m"@ + text::decimal(a)) != bracketed("cf"@ + text::decimal(b)),
        bracketed("z"@ + text::decimal(a)) != bracketed("cf"@ + text::decimal(b)),
        a != b ==> bracketed("m"@ + text::decimal(a)) != bracketed("m"@ + text::decimal(b)),
        a != b ==> bracketed("z"@ + text::decimal(a)) != bracketed("z"@ + text::decimal(b)),
        a != b ==> bracketed("cf"@ + text::decimal(a)) != bracketed("cf"@ + text::decimal(b)),
{
    reveal_strlit("[");
    reveal_strlit("]");
    reveal_strlit("m");
    reveal_strlit("z");
    reveal_strlit("cf");
    text::lemma_decimal(a);
    text::lemma_decimal(b);
    assert(bracketed("m"@ + text::decimal(a))[1] == 'm');
    assert(bracketed("z"@ + text::decimal(a))[1] == 'z');
    assert(bracketed("z"@ + text::decimal(b))[1] == 'z');
    assert(bracketed("cf"@ + text::decimal(b))[1] == 'c');
    lemma_number_in_label("m"@, a);
    lemma_number_in_label("m"@, b);
    lemma_number_in_label("z"@, a);
    lemma_number_in_label("z"@, b);
    lemma_number_in_label("cf"@, a);
    lemma_number_in_label("cf"@, b);
}

proof fn lemma_number_in_label(name: Seq<char>, n: nat)
    ensures
        ({
            let label = bracketed(name + text::decimal(n));
            label.subrange(name.len() as int + 1, label.len() - 1) == text::decimal(n)
        }),
{
    reveal_strlit("[");
    reveal_strlit("]");
    let label = bracketed(name + text::decimal(n));
    assert(label.subrange(name.len() as int + 1, label.len() - 1) =~= text::decimal(n));
}

proof fn lemma_labels_stay(g: Graph, p: Piece, format: Seq<char>, rate: int, label: Seq<char>)
    requires
        is_label_of(g, label),
    ensures
        is_label_of(add_piece(g, p, format, rate), label),
        label != add_piece(g, p, format, rate).labels.last(),
{
    if exists|n: nat| n < g.next_input && label == bracketed("m"@ + #[trigger] text::decimal(n)) {
        let n = choose|n: nat|
            n < g.next_input && label == bracketed("m"@ + #[trigger] text::decimal(n));
        lemma_labels_differ(n, g.next_input);
        lemma_labels_differ(n, g.silences);
        lemma_labels_differ(n, g.crossfades);
    } else if exists|n: nat|
        n < g.silences && label == bracketed("z"@ + #[trigger] text::decimal(n)) {
        let n = choose|n: nat|
            n < g.silences && label == bracketed("z"@ + #[trigger] text::decimal(n));
        lemma_labels_differ(g.next_input, n);
        lemma_labels_differ(n, g.silences);
        lemma_labels_differ(n, g.crossfades);
    } else {
        let n = choose|n: nat|
            n < g.crossfades && label == bracketed("cf"@ + #[trigger] text::decimal(n));
        lemma_labels_differ(g.next_input, n);
        lemma_labels_differ(g.silences, n);
        lemma_labels_differ(n, g.crossfades);
    }
}

proof fn lemma_labels(pieces: Seq<Piece>, format: Seq<char>, rate: int)
    ensures
        ({
            let g = music_graph(pieces, format, rate);
            &&& g.labels.len() == pieces.len()
            &&& forall|i: int| 0 <= i < g.labels.len() ==> is_label_of(g, #[trigger] g.labels[i])
            &&& forall|i: int, j: int|
                0 <= i < j < g.labels.len() ==> #[trigger] g.labels[i] != #[trigger] g.labels[j]
        }),
    decreases pieces.len(),
{
    if pieces.len() > 0 {
        let before = music_graph(pieces.drop_last(), format, rate);
        let g = music_graph(pieces, format, rate);
        lemma_labels(pieces.drop_last(), format, rate);
        assert forall|i: int| 0 <= i < g.labels.len() implies is_label_of(
            g,
            #[trigger] g.labels[i],
        ) by {
            if i < before.labels.len() {
                assert(g.labels[i] == before.labels[i]);
                lemma_labels_stay(before, pieces.last(), format, rate, before.labels[i]);
            } else {
                match pieces.last() {
                    Piece::Segment { .. } => {
                        assert(g.labels[i] == bracketed("m"@ + text::decimal(before.next_input)));
                    },
                    Piece::Silence { .. } => {
                        assert(g.labels[i] == bracketed("z"@ + text::decimal(before.silences)));
                    },
                    Piece::Crossfade { .. } => {
                        assert(g.labels[i] == bracketed("cf"@ + text::decimal(before.crossfades)));
                    },
                }
            }
        }
        assert forall|i: int, j: int| 0 <= i < j < g.labels.len() implies #[trigger] g.labels[i]
            != #[trigger] g.labels[j] by {
            assert(g.labels[i] == before.labels[i]);
            if j < before.labels.len() {
                assert(g.labels[j] == before.labels[j]);
            } else {
                lemma_labels_stay(before, pieces.last(), format, rate, before.labels[i]);
            }
        }
    }
}

/// No two pieces share a label.
pub proof fn law_labels_are_distinct(
    pieces: Seq<Piece>,
    format: Seq<char>,
    rate: int,
    i: int,
    j: int,
)
    requires
        0 <= i < j < pieces.len(),
    ensures
        music_graph(pieces, format, rate).labels[i] != music_graph(pieces, format, rate).labels[j],
{
    lemma_labels(pieces, format, rate);
}

// ─── Overlay + Encode ──────────────────────────────────────────

/// The filter on the voice: the common format, then the speed where it is not normal.
pub open spec fn voice_filter(c: OverlayConfig) -> Seq<char> {
    let format = common_format(c.sample_rate as int);
    let tempo = tempo_chain(c.speed as int);
    if tempo.len() == 0 {
        format
    } else {
        format + ","@ + tempo
    }
}

/// The chain that the labelled pieces enter: one piece as it is, several joined.
pub open spec fn music_chain(labels: Seq<Seq<char>>) -> Seq<char> {
    if labels.len() == 1 {
        labels[0]
    } else {
        text::joined(labels, ""@) + "concat=n="@ + text::decimal(labels.len())
            + ":v=0:a=1[mc];[mc]"@
    }
}

/// The fades on the music: in at the start of the file, out at its end.
pub open spec fn fade_filters(c: OverlayConfig, duration: int) -> Seq<char> {
    let fade_in = if c.music_fade_in > TICK {
        "afade=t=in:d="@ + number::fixed6(c.music_fade_in as int) + ","@
    } else {
        seq![]
    };
    let fade_out = if c.music_fade_out > TICK {
        "afade=t=out:st="@ + number::fixed6(plan::max(duration - c.music_fade_out, 0)) + ":d="@ + number::fixed6(c.music_fade_out as int) + ","@
    } else {
        seq![]
    };
    fade_in + fade_out
}

/// The whole filter graph: the music pieces joined, faded and set to their volume, the
/// voice, and both mixed. The voice determines the length.
pub open spec fn overlay_filter(pieces: Seq<Piece>, c: OverlayConfig, duration: int) -> Seq<char> {
    let g = music_graph(pieces, common_format(c.sample_rate as int), c.sample_rate as int);
    text::joined(g.lines, ";"@) + ";"@ + music_chain(g.labels) + fade_filters(c, duration)
        + "volume="@ + number::fixed6(c.volume as int) + "[mv];[0:a]"@ + voice_filter(c)
        + "[v];[v][mv]amix=inputs=2:duration=first:normalize=0,alimiter=limit=1[out]"@
}

/// The music's part of the filter.
pub open spec fn music_filter(pieces: Seq<Piece>, c: OverlayConfig, duration: int) -> Seq<char> {
    let g = music_graph(pieces, common_format(c.sample_rate as int), c.sample_rate as int);
    text::joined(g.lines, ";"@) + ";"@ + music_chain(g.labels) + fade_filters(c, duration)
        + "volume="@ + number::fixed6(c.volume as int) + "[mv];[0:a]"@
}

/// The music plays at its own tempo, whatever the speed of the voice: of two filters that
/// differ in the speed, only the voice's part differs.
pub proof fn law_music_ignores_speed(
    pieces: Seq<Piece>,
    c: OverlayConfig,
    d: OverlayConfig,
    duration: int,
)
    requires
        d == (OverlayConfig { speed: d.speed, ..c }),
    ensures
        overlay_filter(pieces, c, duration) == music_filter(pieces, c, duration) + voice_filter(c)
            + "[v];[v][mv]amix=inputs=2:duration=first:normalize=0,alimiter=limit=1[out]"@,
        overlay_filter(pieces, d, duration) == music_filter(pieces, c, duration) + voice_filter(d)
            + "[v];[v][mv]amix=inputs=2:duration=first:normalize=0,alimiter=limit=1[out]"@,
{
}

/// A filter longer than this many bytes is handed over in a file.
pub const MAX_INLINE_FILTER: usize = 8000;

/// Whether a filter is too long for the command line.
pub open spec fn needs_script(filter: Seq<char>) -> bool {
    vstd::utf8::encode_utf8(filter).len() as usize > MAX_INLINE_FILTER
}

/// The file that a long filter is handed over in.
pub open spec fn script_path(output: Seq<char>) -> Seq<char> {
    path::with_extension(output, "filter.txt"@)
}

/// The arguments that mix the voice with the music pieces and encode the result.
pub open spec fn overlay_arguments(
    normalized: Seq<char>,
    output: Seq<char>,
    duration: int,
    pieces: Seq<Piece>,
    c: OverlayConfig,
) -> Seq<Seq<char>> {
    let g = music_graph(pieces, common_format(c.sample_rate as int), c.sample_rate as int);
    let filter = overlay_filter(pieces, c, duration);
    let front = seq!["-y"@] + thread_arguments(c.ffmpeg_threads as int) + seq!["-i"@, normalized];
    let back = encoder_arguments(c.format, c.quality as int) + seq![output];
    if pieces.len() == 0 {
        front + seq!["-af"@, voice_filter(c)] + back
    } else {
        front + g.arguments + (if needs_script(filter) {
            seq!["-filter_complex_script"@, script_path(output)]
        } else {
            seq!["-filter_complex"@, filter]
        }) + seq!["-map"@, "[out]"@] + back
    }
}

/// A filter that is written to a file before ffmpeg runs, and removed after it.
#[derive(Debug)]
pub struct FilterScript {
    pub path: String,
    pub filter: String,
}

/// How ffmpeg is called to produce one output file.
#[derive(Debug)]
pub struct OverlayCommand {
    pub args: Vec<String>,
    pub script: Option<FilterScript>,
}

fn voice_filter_text(config: &OverlayConfig) -> (r: String)
    requires
        config.speed > 0,
    ensures
        r@ == voice_filter(*config),
{
    let mut s = afmt(config.sample_rate);
    let tempo = build_atempo_chain(config.speed);
    if !tempo.as_str().is_empty() {
        s.append(",");
        s.append(tempo.as_str());
    }
    s
}

fn music_chain_text(labels: &Vec<String>) -> (r: String)
    ensures
        r@ == music_chain(text::texts(labels@)),
{
    if labels.len() == 1 {
        return labels[0].clone();
    }
    let mut s = join_texts(labels, "");
    s.append("concat=n=");
    s.append(decimal_text(labels.len() as u128).as_str());
    s.append(":v=0:a=1[mc];[mc]");
    s
}

fn fade_filters_text(config: &OverlayConfig, duration: i64) -> (r: String)
    ensures
        r@ == fade_filters(*config, duration as int),
{
    let mut s = String::new();
    if config.music_fade_in > TICK {
        s.append("afade=t=in:d=");
        s.append(fixed6_text(config.music_fade_in).as_str());
        s.append(",");
    }
    if config.music_fade_out > TICK {
        let start: i64 = if duration <= config.music_fade_out {
            0
        } else {
            duration - config.music_fade_out
        };
        s.append("afade=t=out:st=");
        s.append(fixed6_text(start).as_str());
        s.append(":d=");
        s.append(fixed6_text(config.music_fade_out).as_str());
        s.append(",");
    }
    assert(s@ =~= fade_filters(*config, duration as int));
    s
}

fn overlay_filter_text(w: &GraphWriter, config: &OverlayConfig, duration: i64, pieces: Ghost<
    Seq<Piece>,
>) -> (r: String)
    requires
        config.speed > 0,
        w.graph() == music_graph(
            pieces@,
            common_format(config.sample_rate as int),
            config.sample_rate as int,
        ),
    ensures
        r@ == overlay_filter(pieces@, *config, duration as int),
{
    let mut s = join_texts(&w.lines, ";");
    s.append(";");
    s.append(music_chain_text(&w.labels).as_str());
    s.append(fade_filters_text(config, duration).as_str());
    s.append("volume=");
    s.append(fixed6_text(config.volume).as_str());
    s.append("[mv];[0:a]");
    s.append(voice_filter_text(config).as_str());
    s.append("[v];[v][mv]amix=inputs=2:duration=first:normalize=0,alimiter=limit=1[out]");
    s
}

fn voice_input(task: &FileTask, config: &OverlayConfig) -> (args: Vec<String>)
    ensures
        text::texts(args@) == seq!["-y"@] + thread_arguments(config.ffmpeg_threads as int) + seq![
            "-i"@,
            task.normalized@,
        ],
{
    let mut args: Vec<String> = Vec::new();
    assert(text::texts(args@) =~= seq![]);
    push_text(&mut args, "-y");
    push_threads(&mut args, config.ffmpeg_threads);
    push_text(&mut args, "-i");
    push_text(&mut args, task.normalized.as_str());
    assert(text::texts(args@) =~= seq!["-y"@] + thread_arguments(config.ffmpeg_threads as int)
        + seq!["-i"@, task.normalized@]);
    args
}

fn push_output(args: &mut Vec<String>, task: &FileTask, config: &OverlayConfig)
    ensures
        text::texts(final(args)@) == text::texts(old(args)@) + (encoder_arguments(
            config.format,
            config.quality as int,
        ) + seq![task.output@]),
{
    let ghost before = text::texts(args@);
    let encoder = config.format.encoder_args(config.quality);
    push_all(args, &encoder);
    push_text(args, task.output.as_str());
    assert(text::texts(args@) =~= before + (encoder_arguments(config.format, config.quality as int)
        + seq![task.output@]));
}

/// Whether ffmpeg is called as it should be to produce this file.
pub open spec fn is_overlay_command(
    r: OverlayCommand,
    task: FileTask,
    config: OverlayConfig,
) -> bool {
    let pieces = plan::pieces_view(task.pieces@);
    let filter = overlay_filter(pieces, config, task.duration as int);
    &&& text::texts(r.args@) == overlay_arguments(
        task.normalized@,
        task.output@,
        task.duration as int,
        pieces,
        config,
    )
    &&& match r.script {
        Some(script) => {
            &&& pieces.len() > 0 && needs_script(filter)
            &&& script.path@ == script_path(task.output@)
            &&& script.filter@ == filter
        },
        None => pieces.len() == 0 || !needs_script(filter),
    }
}

/// Build the ffmpeg command that mixes the normalised voice file with the required music
/// segments and writes the final encoded output.
///
/// The voice track gets the `atempo` speed filter (if speed ≠ 1.0).
/// The music track is unaffected by speed — it plays at its original
/// tempo. Without music the voice is only brought into the common format.
#[verifier::spinoff_prover]
#[verifier::rlimit(60)]
pub fn overlay_music(task: &FileTask, config: &OverlayConfig) -> (r: OverlayCommand)
    requires
        config.speed > 0,
    ensures
        is_overlay_command(r, *task, *config),
{
    let ghost pieces = plan::pieces_view(task.pieces@);
    let mut args = voice_input(task, config);
    let ghost front = text::texts(args@);
    let ghost back = encoder_arguments(config.format, config.quality as int) + seq![task.output@];
    if task.pieces.len() == 0 {
        push_text(&mut args, "-af");
        push_text(&mut args, voice_filter_text(config).as_str());
        push_output(&mut args, task, config);
        assert(text::texts(args@) =~= front + seq!["-af"@, voice_filter(*config)] + back);
        return OverlayCommand { args, script: None };
    }
    let format = afmt(config.sample_rate);
    let w = write_graph(&task.pieces, format.as_str(), config.sample_rate);
    let filter = overlay_filter_text(&w, config, task.duration, Ghost(pieces));
    push_all(&mut args, &w.arguments);
    let long = filter.as_str().len() > MAX_INLINE_FILTER;
    let mut script: Option<FilterScript> = None;
    let ghost handed;
    if long {
        let path = set_extension(task.output.as_str(), "filter.txt");
        push_text(&mut args, "-filter_complex_script");
        push_text(&mut args, path.as_str());
        proof {
            handed = seq!["-filter_complex_script"@, script_path(task.output@)];
        }
        script = Some(FilterScript { path, filter });
    } else {
        push_text(&mut args, "-filter_complex");
        push_text(&mut args, filter.as_str());
        proof {
            handed = seq!["-filter_complex"@, filter@];
        }
    }
    push_text(&mut args, "-map");
    push_text(&mut args, "[out]");
    push_output(&mut args, task, config);
    assert(text::texts(args@) =~= front + text::texts(w.arguments@) + handed + seq![
        "-map"@,
        "[out]"@,
    ] + back);
    OverlayCommand { args, script }
}

/// How producing one output file went.
#[derive(Debug)]
pub enum OverlayEvent {
    /// The run was cancelled before the command was built.
    Cancelled,
    /// The filter script could not be written, with the reason.
    ScriptFailed(String),
    /// ffmpeg ran, successfully or not.
    Finished(bool),
}

/// A command line as it is logged.
pub open spec fn command_line(args: Seq<Seq<char>>) -> Seq<char> {
    "ffmpeg "@ + text::joined(args, " "@)
}

/// A command line as it is logged.
pub fn command_text(args: &Vec<String>) -> (r: String)
    ensures
        r@ == command_line(text::texts(args@)),
{
    let mut s = "ffmpeg ".to_owned();
    s.append(join_texts(args, " ").as_str());
    s
}

/// Whether this is what is reported of an output file.
pub open spec fn is_overlay_result(
    event: OverlayEvent,
    args: Seq<Seq<char>>,
    r: Result<(), (String, String)>,
) -> bool {
    match event {
        OverlayEvent::Cancelled => r matches Err(e) && e.0@ == "Cancelled"@ && e.1@.len() == 0,
        OverlayEvent::ScriptFailed(reason) => r matches Err(e) && e.0@
            == "Failed to write filter script: "@ + reason@ && e.1@.len() == 0,
        OverlayEvent::Finished(ok) => if ok {
            r is Ok
        } else {
            r matches Err(e) && e.0@ == "ffmpeg failed"@ && e.1@ == command_line(args)
        },
    }
}

/// What is reported of an output file: `Ok(())` on success, or
/// `Err((error_message, full_command))`, so that the caller can log the failing command.
pub fn overlay_result(event: &OverlayEvent, args: &Vec<String>) -> (r: Result<(), (String, String)>)
    ensures
        is_overlay_result(*event, text::texts(args@), r),
{
    match event {
        OverlayEvent::Cancelled => Err(("Cancelled".to_owned(), String::new())),
        OverlayEvent::ScriptFailed(reason) => {
            let mut s = "Failed to write filter script: ".to_owned();
            s.append(reason.as_str());
            Err((s, String::new()))
        },
        OverlayEvent::Finished(ok) => {
            if *ok {
                Ok(())
            } else {
                Err(("ffmpeg failed".to_owned(), command_text(args)))
            }
        },
    }
}

} // verus!
