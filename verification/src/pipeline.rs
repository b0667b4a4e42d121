//! Per-file streaming pipeline: extract the chapter, normalize, and overlay each file
//! independently. What is to be done next is decided here; doing it is left to the caller,
//! who reports back what came of it.

use crate::chapters::Chapter;
use crate::cli::{Args, InputItem};
use crate::discovery;
use crate::discovery::append_extension;
use crate::ffmpeg;
use crate::ffmpeg::{
    command_text, measure_loudness_args, normalize_two_pass, push_threads, FileTask,
    LoudnormMeasurement, NormConfig, OverlayConfig,
};
use crate::limits::MIN_DURATION;
use crate::log;
use crate::log::{EntryView, LogEntry};
use crate::music_norm::MusicNormResult;
use crate::number;
use crate::number::{divide, fixed3_text, fixed6_text};
use crate::plan;
use crate::plan::{build_music_plan, MusicPiece, Piece};
use crate::text;
use crate::text::{decimal_text, push_text};
use vstd::prelude::*;

verus! {

// ─── Plans ─────────────────────────────────────────────────────

/// Pre-computed plan for one output file.
///
/// Created after scanning and probing so that each file knows its
/// music overlay, expected duration, and output path before the
/// streaming pipeline begins.
#[derive(Debug)]
pub struct FilePlan {
    pub item: InputItem,
    /// Raw source duration (or chapter segment duration) in microseconds.
    pub source_duration: i64,
    pub output: String,
    /// Index into the music plan for this file.
    pub plan_index: usize,
}

/// Music-related data needed for the concurrent pipeline.
#[derive(Debug)]
pub struct MusicInput {
    pub files: Vec<String>,
    pub durations: Vec<i64>,
    /// Pre-computed adjusted durations for input files (after speed).
    pub adjusted_input_durations: Vec<i64>,
    pub pause: i64,
    pub crossfade: i64,
    pub volume: i64,
}

/// Audio processing settings for the pipeline.
#[derive(Debug, Clone, Copy)]
pub struct PipelineAudioConfig {
    pub norm: NormConfig,
    pub overlay: OverlayConfig,
}

/// Shared context for the streaming pipeline.
#[derive(Debug)]
pub struct PipelineCtx<'a> {
    pub cli: &'a Args,
    /// Directory for temporary files.
    pub tmp: &'a str,
    pub audio: &'a PipelineAudioConfig,
}

// ─── One file: steps, events and actions ───────────────────────

/// How far a file has come.
#[derive(Debug, Clone, Copy)]
pub enum Step {
    Start,
    Extracting,
    ProbingSource,
    Measuring { duration: i64 },
    Normalizing { measurement: LoudnormMeasurement },
    ProbingVoice,
    AwaitingMusic { duration: i64 },
    Mixing,
    Done,
}

/// What came of the last action.
#[derive(Debug)]
pub enum Event<'a> {
    /// A worker takes the file up, unless the run was cancelled.
    Begin { cancelled: bool },
    /// The chapter was extracted, or not.
    Extracted(bool),
    /// The duration that was found.
    Probed(Option<i64>),
    /// The loudness that was measured.
    Measured(Option<LoudnormMeasurement>),
    /// The voice was normalized, or not.
    Normalized(bool),
    /// The music plan is ready; there is none where the music failed.
    MusicReady(&'a Option<Vec<Vec<MusicPiece>>>),
    /// The output was written, or the error and the command that failed.
    Mixed(&'a Result<(), (String, String)>),
}

/// What becomes of a file.
#[derive(Debug)]
pub enum Outcome {
    /// The run was cancelled before the file was taken up.
    NotBegun,
    /// The output is there.
    Processed(LogEntry),
    /// There is no output. Some failures are counted without a log entry.
    Failed(Option<LogEntry>),
}

/// What is to be done next.
#[derive(Debug)]
pub enum Action {
    /// Nothing is left to do.
    Finish(Outcome),
    /// Run ffmpeg to cut the chapter out of its file.
    Extract { output: String, args: Vec<String> },
    /// Find the duration of a file.
    Probe { path: String },
    /// Run ffmpeg to measure the loudness of an input of this duration.
    Measure { duration: i64, args: Vec<String> },
    /// Run ffmpeg to normalize an input of this duration.
    Normalize { output: String, duration: i64, args: Vec<String> },
    /// Wait until the music plan is ready.
    AwaitMusic,
    /// Mix voice and music, and encode the result.
    Mix { task: FileTask },
    /// The event does not answer the step: go on waiting.
    Ignore,
}

/// What follows an event: the next step, a temporary file that is no longer needed, and
/// what is to be done.
#[derive(Debug)]
pub struct Move {
    pub step: Step,
    pub remove: Option<String>,
    pub action: Action,
}

/// What an [`Outcome`] says.
pub enum OutcomeView {
    NotBegun,
    Processed(EntryView),
    Failed(Option<EntryView>),
}

/// What an [`Action`] says.
pub enum ActionView {
    Finish(OutcomeView),
    Extract { output: Seq<char>, args: Seq<Seq<char>> },
    Probe { path: Seq<char> },
    Measure { duration: int, args: Seq<Seq<char>> },
    Normalize { output: Seq<char>, duration: int, args: Seq<Seq<char>> },
    AwaitMusic,
    Mix { voice: Seq<char>, output: Seq<char>, duration: int, pieces: Seq<Piece> },
    Ignore,
}

/// What a [`Move`] says.
pub struct MoveView {
    pub step: Step,
    pub remove: Option<Seq<char>>,
    pub action: ActionView,
}

impl View for Outcome {
    type V = OutcomeView;

    open spec fn view(&self) -> OutcomeView {
        match self {
            Outcome::NotBegun => OutcomeView::NotBegun,
            Outcome::Processed(e) => OutcomeView::Processed(e@),
            Outcome::Failed(e) => OutcomeView::Failed(
                match e {
                    Some(e) => Some(e@),
                    None => None,
                },
            ),
        }
    }
}

impl View for Action {
    type V = ActionView;

    open spec fn view(&self) -> ActionView {
        match self {
            Action::Finish(o) => ActionView::Finish(o@),
            Action::Extract { output, args } => ActionView::Extract {
                output: output@,
                args: text::texts(args@),
            },
            Action::Probe { path } => ActionView::Probe { path: path@ },
            Action::Measure { duration, args } => ActionView::Measure {
                duration: *duration as int,
                args: text::texts(args@),
            },
            Action::Normalize { output, duration, args } => ActionView::Normalize {
                output: output@,
                duration: *duration as int,
                args: text::texts(args@),
            },
            Action::AwaitMusic => ActionView::AwaitMusic,
            Action::Mix { task } => ActionView::Mix {
                voice: task.normalized@,
                output: task.output@,
                duration: task.duration as int,
                pieces: plan::pieces_view(task.pieces@),
            },
            Action::Ignore => ActionView::Ignore,
        }
    }
}

impl View for Move {
    type V = MoveView;

    open spec fn view(&self) -> MoveView {
        MoveView { step: self.step, remove: log::text_in(self.remove), action: self.action@ }
    }
}

// ─── One file: the files it goes through ───────────────────────

/// Where the chapter is cut out to.
pub open spec fn chapter_file(fp: FilePlan, ctx: PipelineCtx) -> Seq<char> {
    discovery::extended_path(ctx.tmp@, fp.item.relative@, "chapter.wav"@)
}

/// What the voice is taken from: the chapter that was cut out, or the whole file.
pub open spec fn voice_source(fp: FilePlan, ctx: PipelineCtx) -> Seq<char> {
    if fp.item.chapter is Some {
        chapter_file(fp, ctx)
    } else {
        fp.item.source@
    }
}

/// Where the voice is normalized to.
pub open spec fn normalized_file(fp: FilePlan, ctx: PipelineCtx) -> Seq<char> {
    discovery::extended_path(ctx.tmp@, fp.item.relative@, "wav"@)
}

/// The voice that is mixed with music.
pub open spec fn voice_file(fp: FilePlan, ctx: PipelineCtx) -> Seq<char> {
    if ctx.cli.normalize_input {
        normalized_file(fp, ctx)
    } else {
        voice_source(fp, ctx)
    }
}

/// The chapter that was cut out, where there is one.
pub open spec fn extracted_chapter(fp: FilePlan, ctx: PipelineCtx) -> Option<Seq<char>> {
    if fp.item.chapter is Some {
        Some(chapter_file(fp, ctx))
    } else {
        None
    }
}

/// The length of a chapter.
pub open spec fn chapter_length(start: int, end: int) -> int {
    number::within_i64(end - start)
}

/// The arguments that cut a chapter out of its file.
pub open spec fn extract_arguments(
    source: Seq<char>,
    start: int,
    length: int,
    threads: int,
    sample_rate: int,
    output: Seq<char>,
) -> Seq<Seq<char>> {
    seq!["-y"@] + ffmpeg::thread_arguments(threads) + seq![
        "-i"@,
        source,
        "-ss"@,
        number::fixed6(start),
        "-t"@,
        number::fixed6(length),
        "-vn"@,
        "-ar"@,
        text::decimal(sample_rate as nat),
        "-ac"@,
        "2"@,
        output,
    ]
}

/// What is found, or else what is known already.
pub open spec fn found_or(found: Option<i64>, known: i64) -> i64 {
    match found {
        Some(d) => d,
        None => known,
    }
}

// ─── One file: what follows ────────────────────────────────────

/// The move that ends a file.
pub open spec fn finish(remove: Option<Seq<char>>, outcome: OutcomeView) -> MoveView {
    MoveView { step: Step::Done, remove, action: ActionView::Finish(outcome) }
}

/// The move that ends a file with an error in the log.
pub open spec fn fail(
    fp: FilePlan,
    remove: Option<Seq<char>>,
    error: Seq<char>,
    command: Option<Seq<char>>,
) -> MoveView {
    finish(
        remove,
        OutcomeView::Failed(Some(log::failed_entry(fp.item.relative@, error, command))),
    )
}

/// The move that has a file probed.
pub open spec fn probe(step: Step, remove: Option<Seq<char>>, path: Seq<char>) -> MoveView {
    MoveView { step, remove, action: ActionView::Probe { path } }
}

/// What follows once the voice can be read.
pub open spec fn after_source(fp: FilePlan, ctx: PipelineCtx) -> MoveView {
    if ctx.cli.normalize_input {
        probe(Step::ProbingSource, None, voice_source(fp, ctx))
    } else {
        probe(Step::ProbingVoice, None, voice_source(fp, ctx))
    }
}

/// The error for a chapter that ends before it starts.
pub open spec fn range_error(start: int, end: int) -> Seq<char> {
    "invalid chapter range: start="@ + number::fixed3(start) + " >= end="@ + number::fixed3(end)
}

/// The error for a chapter that is too short.
pub open spec fn length_error(start: int, end: int) -> Seq<char> {
    "invalid chapter duration: "@ + number::fixed3(chapter_length(start, end)) + "s (start="@
        + number::fixed3(start) + ", end="@ + number::fixed3(end) + ")"@
}

/// The error for a file that the music plan does not reach.
pub open spec fn index_error(index: int, plans: int) -> Seq<char> {
    "music plan index "@ + text::decimal(index as nat) + " out of range ("@ + text::decimal(
        plans as nat,
    ) + ")"@
}

/// What follows when a worker takes a file up.
pub open spec fn begun(fp: FilePlan, ctx: PipelineCtx) -> MoveView {
    match fp.item.chapter {
        None => after_source(fp, ctx),
        Some(c) => {
            let length = chapter_length(c.start as int, c.end as int);
            if c.start >= c.end {
                fail(fp, None, range_error(c.start as int, c.end as int), None)
            } else if length < MIN_DURATION {
                fail(fp, None, length_error(c.start as int, c.end as int), None)
            } else {
                MoveView {
                    step: Step::Extracting,
                    remove: None,
                    action: ActionView::Extract {
                        output: chapter_file(fp, ctx),
                        args: extract_arguments(
                            fp.item.source@,
                            c.start as int,
                            length,
                            ctx.audio.overlay.ffmpeg_threads as int,
                            ctx.cli.sample_rate as int,
                            chapter_file(fp, ctx),
                        ),
                    },
                }
            }
        },
    }
}

/// What follows when the voice has been measured.
pub open spec fn after_measuring(
    fp: FilePlan,
    ctx: PipelineCtx,
    duration: i64,
    measured: Option<LoudnormMeasurement>,
) -> MoveView {
    match measured {
        None => fail(fp, extracted_chapter(fp, ctx), "loudness measurement failed"@, None),
        Some(m) => MoveView {
            step: Step::Normalizing { measurement: m },
            remove: None,
            action: ActionView::Normalize {
                output: normalized_file(fp, ctx),
                duration: duration as int,
                args: ffmpeg::normalize_arguments(
                    voice_source(fp, ctx),
                    normalized_file(fp, ctx),
                    ctx.audio.norm,
                    m,
                ),
            },
        },
    }
}

/// What follows when the voice has been normalized.
pub open spec fn after_normalizing(
    fp: FilePlan,
    ctx: PipelineCtx,
    m: LoudnormMeasurement,
    ok: bool,
) -> MoveView {
    if ok {
        probe(Step::ProbingVoice, extracted_chapter(fp, ctx), normalized_file(fp, ctx))
    } else {
        fail(
            fp,
            extracted_chapter(fp, ctx),
            "normalization failed"@,
            Some(
                ffmpeg::command_line(
                    ffmpeg::normalize_arguments(
                        voice_source(fp, ctx),
                        normalized_file(fp, ctx),
                        ctx.audio.norm,
                        m,
                    ),
                ),
            ),
        )
    }
}

/// How long the output is: the voice at its new speed.
pub open spec fn adjusted(duration: i64, speed: i64) -> int {
    number::quotient(duration as int, speed as int)
}

/// What follows when the duration of the voice is known.
pub open spec fn after_probing_voice(fp: FilePlan, ctx: PipelineCtx, found: Option<i64>) -> MoveView {
    let duration = adjusted(found_or(found, fp.source_duration), ctx.cli.speed);
    if duration < MIN_DURATION {
        finish(None, OutcomeView::Failed(None))
    } else {
        MoveView {
            step: Step::AwaitingMusic { duration: duration as i64 },
            remove: None,
            action: ActionView::AwaitMusic,
        }
    }
}

/// What follows when the music plan is ready.
pub open spec fn after_music(
    fp: FilePlan,
    ctx: PipelineCtx,
    duration: i64,
    plans: Option<Vec<Vec<MusicPiece>>>,
) -> MoveView {
    match plans {
        None => finish(None, OutcomeView::Failed(None)),
        Some(plans) => if fp.plan_index < plans@.len() {
            MoveView {
                step: Step::Mixing,
                remove: None,
                action: ActionView::Mix {
                    voice: voice_file(fp, ctx),
                    output: fp.output@,
                    duration: duration as int,
                    pieces: plan::plan_view(plans@)[fp.plan_index as int],
                },
            }
        } else {
            fail(fp, None, index_error(fp.plan_index as int, plans@.len() as int), None)
        },
    }
}

/// What follows when the output has been written, or not.
pub open spec fn after_mixing(fp: FilePlan, result: Result<(), (String, String)>) -> MoveView {
    match result {
        Ok(_) => finish(None, OutcomeView::Processed(log::processed_entry(fp.item.relative@))),
        Err(e) => fail(
            fp,
            None,
            e.0@,
            if e.1@.len() == 0 {
                None
            } else {
                Some(e.1@)
            },
        ),
    }
}

/// What follows an event.
pub open spec fn next(fp: FilePlan, ctx: PipelineCtx, step: Step, event: Event) -> MoveView {
    match (step, event) {
        (Step::Start, Event::Begin { cancelled }) => if cancelled {
            finish(None, OutcomeView::NotBegun)
        } else {
            begun(fp, ctx)
        },
        (Step::Extracting, Event::Extracted(ok)) => if ok {
            after_source(fp, ctx)
        } else {
            fail(fp, None, "chapter extraction failed"@, None)
        },
        (Step::ProbingSource, Event::Probed(found)) => {
            let duration = found_or(found, fp.source_duration);
            MoveView {
                step: Step::Measuring { duration },
                remove: None,
                action: ActionView::Measure {
                    duration: duration as int,
                    args: ffmpeg::measure_arguments(
                        voice_source(fp, ctx),
                        ctx.audio.norm.target,
                        ctx.audio.norm.ffmpeg_threads as int,
                    ),
                },
            }
        },
        (Step::Measuring { duration }, Event::Measured(m)) => after_measuring(
            fp,
            ctx,
            duration,
            m,
        ),
        (Step::Normalizing { measurement }, Event::Normalized(ok)) => after_normalizing(
            fp,
            ctx,
            measurement,
            ok,
        ),
        (Step::ProbingVoice, Event::Probed(found)) => after_probing_voice(fp, ctx, found),
        (Step::AwaitingMusic { duration }, Event::MusicReady(plans)) => after_music(
            fp,
            ctx,
            duration,
            *plans,
        ),
        (Step::Mixing, Event::Mixed(result)) => after_mixing(fp, *result),
        _ => MoveView { step, remove: None, action: ActionView::Ignore },
    }
}

// ─── One file: deciding ────────────────────────────────────────

/// The length of a chapter.
pub fn length_of_chapter(c: &Chapter) -> (r: i64)
    ensures
        r == chapter_length(c.start as int, c.end as int),
{
    let n: i128 = c.end as i128 - c.start as i128;
    if n > i64::MAX as i128 {
        i64::MAX
    } else if n < i64::MIN as i128 {
        i64::MIN
    } else {
        n as i64
    }
}

/// How long an output of this speed is.
pub fn adjusted_duration(duration: i64, speed: i64) -> (r: i64)
    requires
        speed > 0,
    ensures
        r == adjusted(duration, speed),
{
    divide(duration, speed)
}

fn chapter_path(fp: &FilePlan, ctx: &PipelineCtx<'_>) -> (r: String)
    ensures
        r@ == chapter_file(*fp, *ctx),
{
    append_extension(ctx.tmp, fp.item.relative.as_str(), "chapter.wav")
}

fn source_path(fp: &FilePlan, ctx: &PipelineCtx<'_>) -> (r: String)
    ensures
        r@ == voice_source(*fp, *ctx),
{
    if fp.item.chapter.is_some() {
        chapter_path(fp, ctx)
    } else {
        fp.item.source.clone()
    }
}

fn normalized_path(fp: &FilePlan, ctx: &PipelineCtx<'_>) -> (r: String)
    ensures
        r@ == normalized_file(*fp, *ctx),
{
    append_extension(ctx.tmp, fp.item.relative.as_str(), "wav")
}

fn voice_path(fp: &FilePlan, ctx: &PipelineCtx<'_>) -> (r: String)
    ensures
        r@ == voice_file(*fp, *ctx),
{
    if ctx.cli.normalize_input {
        normalized_path(fp, ctx)
    } else {
        source_path(fp, ctx)
    }
}

fn chapter_to_remove(fp: &FilePlan, ctx: &PipelineCtx<'_>) -> (r: Option<String>)
    ensures
        log::text_in(r) == extracted_chapter(*fp, *ctx),
{
    if fp.item.chapter.is_some() {
        Some(chapter_path(fp, ctx))
    } else {
        None
    }
}

fn finished(remove: Option<String>, outcome: Outcome) -> (r: Move)
    ensures
        r@ == finish(log::text_in(remove), outcome@),
{
    Move { step: Step::Done, remove, action: Action::Finish(outcome) }
}

fn failed(fp: &FilePlan, remove: Option<String>, error: &str, command: Option<String>) -> (r: Move)
    ensures
        r@ == fail(*fp, log::text_in(remove), error@, log::text_in(command)),
{
    let entry = LogEntry::failed(fp.item.relative.as_str(), error, command);
    finished(remove, Outcome::Failed(Some(entry)))
}

fn have_probed(step: Step, remove: Option<String>, path: String) -> (r: Move)
    ensures
        r@ == probe(step, log::text_in(remove), path@),
{
    Move { step, remove, action: Action::Probe { path } }
}

fn range_error_text(c: &Chapter) -> (r: String)
    ensures
        r@ == range_error(c.start as int, c.end as int),
{
    let mut s = "invalid chapter range: start=".to_owned();
    s.append(fixed3_text(c.start).as_str());
    s.append(" >= end=");
    s.append(fixed3_text(c.end).as_str());
    s
}

fn length_error_text(c: &Chapter) -> (r: String)
    ensures
        r@ == length_error(c.start as int, c.end as int),
{
    let mut s = "invalid chapter duration: ".to_owned();
    s.append(fixed3_text(length_of_chapter(c)).as_str());
    s.append("s (start=");
    s.append(fixed3_text(c.start).as_str());
    s.append(", end=");
    s.append(fixed3_text(c.end).as_str());
    s.append(")");
    s
}

fn index_error_text(index: usize, plans: usize) -> (r: String)
    ensures
        r@ == index_error(index as int, plans as int),
{
    let mut s = "music plan index ".to_owned();
    s.append(decimal_text(index as u128).as_str());
    s.append(" out of range (");
    s.append(decimal_text(plans as u128).as_str());
    s.append(")");
    s
}

/// The ffmpeg arguments that cut a chapter out of its file.
pub fn extract_args(
    source: &str,
    c: &Chapter,
    ffmpeg_threads: u32,
    sample_rate: u32,
    output: &str,
) -> (r: Vec<String>)
    ensures
        text::texts(r@) == extract_arguments(
            source@,
            c.start as int,
            chapter_length(c.start as int, c.end as int),
            ffmpeg_threads as int,
            sample_rate as int,
            output@,
        ),
{
    let length = length_of_chapter(c);
    let mut args: Vec<String> = Vec::new();
    assert(text::texts(args@) =~= seq![]);
    push_text(&mut args, "-y");
    push_threads(&mut args, ffmpeg_threads);
    push_text(&mut args, "-i");
    push_text(&mut args, source);
    push_text(&mut args, "-ss");
    push_text(&mut args, fixed6_text(c.start).as_str());
    push_text(&mut args, "-t");
    push_text(&mut args, fixed6_text(length).as_str());
    push_text(&mut args, "-vn");
    push_text(&mut args, "-ar");
    push_text(&mut args, decimal_text(sample_rate as u128).as_str());
    push_text(&mut args, "-ac");
    push_text(&mut args, "2");
    push_text(&mut args, output);
    assert(text::texts(args@) =~= extract_arguments(
        source@,
        c.start as int,
        length as int,
        ffmpeg_threads as int,
        sample_rate as int,
        output@,
    ));
    args
}

fn source_ready(fp: &FilePlan, ctx: &PipelineCtx<'_>) -> (r: Move)
    ensures
        r@ == after_source(*fp, *ctx),
{
    let step = if ctx.cli.normalize_input {
        Step::ProbingSource
    } else {
        Step::ProbingVoice
    };
    have_probed(step, None, source_path(fp, ctx))
}

fn begin(fp: &FilePlan, ctx: &PipelineCtx<'_>) -> (r: Move)
    ensures
        r@ == begun(*fp, *ctx),
{
    match &fp.item.chapter {
        None => source_ready(fp, ctx),
        Some(c) => {
            if c.start >= c.end {
                return failed(fp, None, range_error_text(c).as_str(), None);
            }
            if length_of_chapter(c) < MIN_DURATION {
                return failed(fp, None, length_error_text(c).as_str(), None);
            }
            let output = chapter_path(fp, ctx);
            let args = extract_args(
                fp.item.source.as_str(),
                c,
                ctx.audio.overlay.ffmpeg_threads,
                ctx.cli.sample_rate,
                output.as_str(),
            );
            Move {
                step: Step::Extracting,
                remove: None,
                action: Action::Extract { output, args },
            }
        },
    }
}

fn normalize_args(fp: &FilePlan, ctx: &PipelineCtx<'_>, m: &LoudnormMeasurement) -> (r: Vec<String>)
    ensures
        text::texts(r@) == ffmpeg::normalize_arguments(
            voice_source(*fp, *ctx),
            normalized_file(*fp, *ctx),
            ctx.audio.norm,
            *m,
        ),
{
    let source = source_path(fp, ctx);
    let output = normalized_path(fp, ctx);
    normalize_two_pass(source.as_str(), output.as_str(), &ctx.audio.norm, m)
}

fn source_probed(fp: &FilePlan, ctx: &PipelineCtx<'_>, found: Option<i64>) -> (r: Move)
    ensures
        r@ == next(*fp, *ctx, Step::ProbingSource, Event::Probed(found)),
{
    let duration: i64 = match found {
        Some(d) => d,
        None => fp.source_duration,
    };
    let source = source_path(fp, ctx);
    let args = measure_loudness_args(
        source.as_str(),
        &ctx.audio.norm.target,
        ctx.audio.norm.ffmpeg_threads,
    );
    Move {
        step: Step::Measuring { duration },
        remove: None,
        action: Action::Measure { duration, args },
    }
}

fn voice_measured(
    fp: &FilePlan,
    ctx: &PipelineCtx<'_>,
    duration: i64,
    measured: Option<LoudnormMeasurement>,
) -> (r: Move)
    ensures
        r@ == after_measuring(*fp, *ctx, duration, measured),
{
    match measured {
        None => {
            let remove = chapter_to_remove(fp, ctx);
            failed(fp, remove, "loudness measurement failed", None)
        },
        Some(m) => Move {
            step: Step::Normalizing { measurement: m },
            remove: None,
            action: Action::Normalize {
                output: normalized_path(fp, ctx),
                duration,
                args: normalize_args(fp, ctx, &m),
            },
        },
    }
}

fn voice_normalized(fp: &FilePlan, ctx: &PipelineCtx<'_>, m: &LoudnormMeasurement, ok: bool) -> (r:
    Move)
    ensures
        r@ == after_normalizing(*fp, *ctx, *m, ok),
{
    let remove = chapter_to_remove(fp, ctx);
    if ok {
        have_probed(Step::ProbingVoice, remove, normalized_path(fp, ctx))
    } else {
        let args = normalize_args(fp, ctx, m);
        failed(fp, remove, "normalization failed", Some(command_text(&args)))
    }
}

fn voice_probed(fp: &FilePlan, ctx: &PipelineCtx<'_>, found: Option<i64>) -> (r: Move)
    requires
        ctx.cli.speed > 0,
    ensures
        r@ == after_probing_voice(*fp, *ctx, found),
{
    let raw: i64 = match found {
        Some(d) => d,
        None => fp.source_duration,
    };
    let duration = adjusted_duration(raw, ctx.cli.speed);
    if duration < MIN_DURATION {
        finished(None, Outcome::Failed(None))
    } else {
        Move {
            step: Step::AwaitingMusic { duration },
            remove: None,
            action: Action::AwaitMusic,
        }
    }
}

fn copy_pieces(pieces: &Vec<MusicPiece>) -> (r: Vec<MusicPiece>)
    ensures
        plan::pieces_view(r@) == plan::pieces_view(pieces@),
{
    let mut r: Vec<MusicPiece> = Vec::new();
    let mut i: usize = 0;
    while i < pieces.len()
        invariant
            i <= pieces@.len(),
            r@.len() == i,
            forall|k: int| 0 <= k < i ==> #[trigger] r@[k]@ == pieces@[k]@,
        decreases pieces.len() - i,
    {
        r.push(pieces[i].clone());
        i += 1;
    }
    assert(plan::pieces_view(r@) =~= plan::pieces_view(pieces@));
    r
}

fn music_ready(
    fp: &FilePlan,
    ctx: &PipelineCtx<'_>,
    duration: i64,
    plans: &Option<Vec<Vec<MusicPiece>>>,
) -> (r: Move)
    ensures
        r@ == after_music(*fp, *ctx, duration, *plans),
{
    match plans {
        None => finished(None, Outcome::Failed(None)),
        Some(plans) => {
            if fp.plan_index < plans.len() {
                let task = FileTask {
                    normalized: voice_path(fp, ctx),
                    output: fp.output.clone(),
                    duration,
                    pieces: copy_pieces(&plans[fp.plan_index]),
                };
                Move { step: Step::Mixing, remove: None, action: Action::Mix { task } }
            } else {
                failed(fp, None, index_error_text(fp.plan_index, plans.len()).as_str(), None)
            }
        },
    }
}

fn output_mixed(fp: &FilePlan, result: &Result<(), (String, String)>) -> (r: Move)
    ensures
        r@ == after_mixing(*fp, *result),
{
    match result {
        Ok(_) => finished(
            None,
            Outcome::Processed(LogEntry::processed(fp.item.relative.as_str())),
        ),
        Err(e) => {
            let command = if e.1.as_str().is_empty() {
                None
            } else {
                Some(e.1.clone())
            };
            failed(fp, None, e.0.as_str(), command)
        },
    }
}

/// Process a single file through the full pipeline:
/// extract chapter → normalize → probe → overlay.
///
/// Takes how far the file has come and what came of the last action, and returns what is
/// to be done next. Starts with [`Step::Start`] and [`Event::Begin`]; ends with
/// [`Action::Finish`].
pub fn process_one_file(fp: &FilePlan, ctx: &PipelineCtx<'_>, step: Step, event: Event<'_>) -> (r:
    Move)
    requires
        ctx.cli.speed > 0,
    ensures
        r@ == next(*fp, *ctx, step, event),
{
    match (step, event) {
        (Step::Start, Event::Begin { cancelled }) => {
            if cancelled {
                finished(None, Outcome::NotBegun)
            } else {
                begin(fp, ctx)
            }
        },
        (Step::Extracting, Event::Extracted(ok)) => {
            if ok {
                source_ready(fp, ctx)
            } else {
                failed(fp, None, "chapter extraction failed", None)
            }
        },
        (Step::ProbingSource, Event::Probed(found)) => source_probed(fp, ctx, found),
        (Step::Measuring { duration }, Event::Measured(m)) => voice_measured(fp, ctx, duration, m),
        (Step::Normalizing { measurement }, Event::Normalized(ok)) => voice_normalized(
            fp,
            ctx,
            &measurement,
            ok,
        ),
        (Step::ProbingVoice, Event::Probed(found)) => voice_probed(fp, ctx, found),
        (Step::AwaitingMusic { duration }, Event::MusicReady(plans)) => music_ready(
            fp,
            ctx,
            duration,
            plans,
        ),
        (Step::Mixing, Event::Mixed(result)) => output_mixed(fp, result),
        _ => Move { step, remove: None, action: Action::Ignore },
    }
}

// ─── The music of a run ────────────────────────────────────────

/// Whether these plans are made for the music and the outputs.
pub open spec fn is_music_plan(
    files: Seq<String>,
    durations: Seq<i64>,
    music: MusicInput,
    plans: Seq<Vec<MusicPiece>>,
) -> bool {
    exists|orders: Seq<Seq<usize>>| #[trigger]
        plan::is_plan(
            plan::music_of(files, durations, music.pause, music.crossfade),
            orders,
            music.adjusted_input_durations@,
            plan::plan_view(plans),
        )
}

/// Whether the music of a run is planned as it should be, given what normalization came to.
pub open spec fn is_planned(
    music: MusicInput,
    normalized: Result<Option<MusicNormResult>, String>,
    planned: Option<Vec<Vec<MusicPiece>>>,
) -> bool {
    match normalized {
        Ok(Some(n)) => planned matches Some(plans) && is_music_plan(
            n.files@,
            n.durations@,
            music,
            plans@,
        ),
        Ok(None) => planned matches Some(plans) && is_music_plan(
            music.files@,
            music.durations@,
            music,
            plans@,
        ),
        Err(_) => planned is None,
    }
}

/// Builds the music plan once it is known what normalization came to: from the normalized
/// music, from the sources where nothing was to be normalized, and none where it failed.
pub fn plan_music(music: &MusicInput, normalized: &Result<Option<MusicNormResult>, String>) -> (r:
    Option<Vec<Vec<MusicPiece>>>)
    requires
        match *normalized {
            Ok(Some(n)) => 0 < n.files@.len() == n.durations@.len(),
            Ok(None) => 0 < music.files@.len() == music.durations@.len(),
            Err(_) => true,
        },
    ensures
        is_planned(*music, *normalized, r),
{
    match normalized {
        Ok(Some(n)) => Some(
            build_music_plan(
                &music.adjusted_input_durations,
                &n.files,
                &n.durations,
                music.pause,
                music.crossfade,
            ),
        ),
        Ok(None) => Some(
            build_music_plan(
                &music.adjusted_input_durations,
                &music.files,
                &music.durations,
                music.pause,
                music.crossfade,
            ),
        ),
        Err(_) => None,
    }
}

// ─── A run ─────────────────────────────────────────────────────

/// How a run begins.
#[derive(Debug)]
pub enum PipelineStart {
    /// Nothing is done; these lines say what would be.
    DryRun { lines: Vec<String> },
    /// The files are worked on, under this label.
    Run { label: &'static str },
}

/// What a dry run says of normalization.
pub open spec fn normalize_line(files: int) -> Seq<char> {
    "🔊  [DRY RUN] Would normalize "@ + text::decimal(files as nat) + " files"@
}

/// What a dry run says of mixing.
pub open spec fn encode_line(files: int) -> Seq<char> {
    "🎶  [DRY RUN] Would overlay & encode "@ + text::decimal(files as nat) + " files:"@
}

/// What a dry run says of one file.
pub open spec fn file_line(fp: FilePlan) -> Seq<char> {
    "      "@ + fp.item.relative@ + " → "@ + fp.output@
}

/// What a dry run says.
pub open spec fn dry_run_lines(normalize: bool, files: Seq<FilePlan>) -> Seq<Seq<char>> {
    (if normalize {
        seq![normalize_line(files.len() as int)]
    } else {
        seq![]
    }) + seq![encode_line(files.len() as int)] + Seq::new(
        files.len(),
        |i: int| file_line(files[i]),
    )
}

/// The label of the work that is done.
pub open spec fn phase_label(normalize: bool) -> Seq<char> {
    if normalize {
        "Normalizing & encoding"@
    } else {
        "Encoding"@
    }
}

fn dry_run_text(normalize: bool, files: &Vec<FilePlan>) -> (lines: Vec<String>)
    ensures
        text::texts(lines@) == dry_run_lines(normalize, files@),
{
    let count = decimal_text(files.len() as u128);
    let mut lines: Vec<String> = Vec::new();
    assert(text::texts(lines@) =~= seq![]);
    if normalize {
        let mut s = "🔊  [DRY RUN] Would normalize ".to_owned();
        s.append(count.as_str());
        s.append(" files");
        push_text(&mut lines, s.as_str());
    }
    let mut s = "🎶  [DRY RUN] Would overlay & encode ".to_owned();
    s.append(count.as_str());
    s.append(" files:");
    push_text(&mut lines, s.as_str());
    let ghost front = text::texts(lines@);
    let ghost each = Seq::new(files@.len(), |i: int| file_line(files@[i]));
    let mut i: usize = 0;
    assert(text::texts(lines@) =~= front + each.take(0));
    while i < files.len()
        invariant
            i <= files@.len(),
            each == Seq::new(files@.len(), |i: int| file_line(files@[i])),
            text::texts(lines@) == front + each.take(i as int),
        decreases files.len() - i,
    {
        let mut line = "      ".to_owned();
        line.append(files[i].item.relative.as_str());
        line.append(" → ");
        line.append(files[i].output.as_str());
        push_text(&mut lines, line.as_str());
        i += 1;
        assert(text::texts(lines@) =~= front + each.take(i as int));
    }
    assert(each.take(i as int) =~= each);
    assert(text::texts(lines@) =~= dry_run_lines(normalize, files@));
    lines
}

/// Begin the streaming pipeline over all file plans: a dry run only says what would be done.
///
/// Music normalization and planning ([`plan_music`]) go on beside the files
/// ([`process_one_file`]): each file's overlay starts as soon as that file is normalized
/// and all music is.
pub fn run_pipeline(cli: &Args, file_plans: &Vec<FilePlan>) -> (r: PipelineStart)
    ensures
        match r {
            PipelineStart::DryRun { lines } => cli.dry_run && text::texts(lines@) == dry_run_lines(
                cli.normalize_input,
                file_plans@,
            ),
            PipelineStart::Run { label } => !cli.dry_run && label@ == phase_label(
                cli.normalize_input,
            ),
        },
{
    if cli.dry_run {
        return PipelineStart::DryRun { lines: dry_run_text(cli.normalize_input, file_plans) };
    }
    if cli.normalize_input {
        PipelineStart::Run { label: "Normalizing & encoding" }
    } else {
        PipelineStart::Run { label: "Encoding" }
    }
}

} // verus!
