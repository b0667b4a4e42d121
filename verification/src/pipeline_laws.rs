//! What holds of every file that goes through the pipeline.

use crate::command_laws;
use crate::discovery;
use crate::ffmpeg;
use crate::ffmpeg::LoudnormMeasurement;
use crate::limits::MIN_DURATION;
use crate::log;
use crate::number;
use crate::number_laws;
use crate::path;
use crate::pipeline;
use crate::pipeline::{ActionView, Event, FilePlan, OutcomeView, PipelineCtx, Step};
use crate::plan;
use crate::plan::MusicPiece;
use vstd::prelude::*;

verus! {

/// Whether an event answers what the step waits for.
pub open spec fn answers(step: Step, event: Event) -> bool {
    match step {
        Step::Start => event is Begin,
        Step::Extracting => event is Extracted,
        Step::ProbingSource => event is Probed,
        Step::Measuring { .. } => event is Measured,
        Step::Normalizing { .. } => event is Normalized,
        Step::ProbingVoice => event is Probed,
        Step::AwaitingMusic { .. } => event is MusicReady,
        Step::Mixing => event is Mixed,
        Step::Done => false,
    }
}

/// How many steps may still be ahead.
pub open spec fn rank(step: Step) -> int {
    match step {
        Step::Start => 8,
        Step::Extracting => 7,
        Step::ProbingSource => 6,
        Step::Measuring { .. } => 5,
        Step::Normalizing { .. } => 4,
        Step::ProbingVoice => 3,
        Step::AwaitingMusic { .. } => 2,
        Step::Mixing => 1,
        Step::Done => 0,
    }
}

/// Every file comes to an end: each answer brings it at least one step further, it is asked
/// for something until the last step, and what is finished stays finished.
pub proof fn law_every_file_finishes(fp: FilePlan, ctx: PipelineCtx, step: Step, event: Event)
    ensures
        ({
            let m = pipeline::next(fp, ctx, step, event);
            &&& answers(step, event) ==> 0 <= rank(m.step) < rank(step) && !(m.action is Ignore)
            &&& answers(step, event) ==> (m.action is Finish <==> m.step is Done)
            &&& !answers(step, event) ==> m.action is Ignore && m.step == step && m.remove is None
        }),
{
}

/// What is logged of a file is logged under its name: an error where it failed, none where it
/// was processed.
pub proof fn law_entries_name_their_file(fp: FilePlan, ctx: PipelineCtx, step: Step, event: Event)
    ensures
        match pipeline::next(fp, ctx, step, event).action {
            ActionView::Finish(OutcomeView::Processed(e)) => e == log::processed_entry(
                fp.item.relative@,
            ),
            ActionView::Finish(OutcomeView::Failed(Some(e))) => e.file == fp.item.relative@
                && e.error is Some,
            _ => true,
        },
{
}

/// A file counts as processed exactly when its mix was written, and as not begun exactly when
/// the run was cancelled before; every other end is a failure.
pub proof fn law_outcomes(fp: FilePlan, ctx: PipelineCtx, step: Step, event: Event)
    ensures
        ({
            let action = pipeline::next(fp, ctx, step, event).action;
            &&& action matches ActionView::Finish(o) ==> {
                &&& o is Processed <==> step is Mixing && (event matches Event::Mixed(r) && *r
                    is Ok)
                &&& o is NotBegun <==> step is Start && (event matches Event::Begin { cancelled }
                    && cancelled)
            }
        }),
{
}

/// Nothing is written before the music plan is ready, and then with the pieces that were
/// planned for this file.
pub proof fn law_mixed_with_its_own_music(
    fp: FilePlan,
    ctx: PipelineCtx,
    step: Step,
    plans: &Option<Vec<Vec<MusicPiece>>>,
    event: Event,
)
    ensures
        ({
            let action = pipeline::next(fp, ctx, step, event).action;
            &&& action is Mix ==> event is MusicReady && step is AwaitingMusic
            &&& pipeline::next(fp, ctx, step, Event::MusicReady(plans)).action matches
                ActionView::Mix { voice, output, duration, pieces } ==> {
                &&& *plans matches Some(all) && pieces == plan::plan_view(
                    all@,
                )[fp.plan_index as int]
                &&& output == fp.output@
                &&& voice == pipeline::voice_file(fp, ctx)
                &&& step == (Step::AwaitingMusic { duration: duration as i64 })
            }
        }),
{
}

// ─── Whole runs ────────────────────────────────────────────────

/// How far a file has come after some events, whether its chapter was cut out, and how often
/// that chapter was removed.
pub struct Run {
    pub step: Step,
    pub extracted: bool,
    pub removed: nat,
}

/// A file after some events.
pub open spec fn run(fp: FilePlan, ctx: PipelineCtx, events: Seq<Event>) -> Run
    decreases events.len(),
{
    if events.len() == 0 {
        Run { step: Step::Start, extracted: false, removed: 0 }
    } else {
        let before = run(fp, ctx, events.drop_last());
        let m = pipeline::next(fp, ctx, before.step, events.last());
        Run {
            step: m.step,
            extracted: before.extracted || (before.step is Extracting && (events.last() matches
                Event::Extracted(ok) && ok)),
            removed: if m.remove is Some {
                before.removed + 1
            } else {
                before.removed
            },
        }
    }
}

/// Whether the step comes before the end of normalization.
spec fn is_before_removal(step: Step) -> bool {
    step is Start || step is Extracting || step is ProbingSource || step is Measuring
        || step is Normalizing
}

proof fn lemma_run(fp: FilePlan, ctx: PipelineCtx, events: Seq<Event>)
    ensures
        ({
            let r = run(fp, ctx, events);
            &&& r.step is Start ==> !r.extracted
            &&& r.step is Extracting ==> !r.extracted && fp.item.chapter is Some
            &&& r.step is ProbingSource || r.step is Measuring || r.step is Normalizing ==> {
                &&& ctx.cli.normalize_input
                &&& r.extracted == (fp.item.chapter is Some)
            }
            &&& r.step is ProbingVoice || r.step is AwaitingMusic || r.step is Mixing ==> r.extracted
                == (fp.item.chapter is Some)
            &&& !ctx.cli.normalize_input || is_before_removal(r.step) ==> r.removed == 0
            &&& ctx.cli.normalize_input && !is_before_removal(r.step) ==> r.removed == (
            if r.extracted {
                1nat
            } else {
                0nat
            })
            &&& r.extracted ==> fp.item.chapter is Some
        }),
    decreases events.len(),
{
    if events.len() > 0 {
        lemma_run(fp, ctx, events.drop_last());
    }
}

/// A chapter that was cut out is removed exactly once when its normalization is over, however
/// that ended. Without normalization it is the voice itself, and stays.
pub proof fn law_chapters_are_cleaned_up(fp: FilePlan, ctx: PipelineCtx, events: Seq<Event>)
    requires
        run(fp, ctx, events).step is Done,
    ensures
        run(fp, ctx, events).removed == (if ctx.cli.normalize_input && run(
            fp,
            ctx,
            events,
        ).extracted {
            1nat
        } else {
            0nat
        }),
{
    lemma_run(fp, ctx, events);
}

/// What is removed is the chapter that was cut out, and never the voice that is mixed. (Only a
/// run that normalizes its input measures and normalizes.)
pub proof fn law_only_the_chapter_is_removed(
    fp: FilePlan,
    ctx: PipelineCtx,
    step: Step,
    event: Event,
)
    requires
        !(step is Normalizing || step is Measuring) || ctx.cli.normalize_input,
    ensures
        pipeline::next(fp, ctx, step, event).remove matches Some(p) ==> {
            &&& fp.item.chapter is Some
            &&& p == pipeline::chapter_file(fp, ctx)
            &&& p != pipeline::voice_file(fp, ctx)
        },
{
    lemma_temporary_files_differ(fp, ctx);
}

proof fn lemma_temporary_files_differ(fp: FilePlan, ctx: PipelineCtx)
    ensures
        pipeline::chapter_file(fp, ctx) != pipeline::normalized_file(fp, ctx),
{
    reveal_strlit(".");
    reveal_strlit("wav");
    reveal_strlit("chapter.wav");
    let rel = fp.item.relative@;
    let name = match path::file_name(rel) {
        Some(n) => n,
        None => seq![],
    };
    if path::file_name(rel) is Some {
        path::lemma_file_name(rel);
    }
    let b = path::join(
        ctx.tmp@,
        match path::parent(rel) {
            Some(p) => p,
            None => seq![],
        },
    );
    let f1 = name + "."@ + "chapter.wav"@;
    let f2 = name + "."@ + "wav"@;
    assert(f1[0] != '/' && f2[0] != '/');
    assert(path::join(b, f1).len() == path::join(b, f2).len() + 8);
}

// ─── What a run reads and writes ───────────────────────────────

/// What has been asked for in a run, and what came of it: the file that the chapter was cut out
/// to, the file that the voice was normalized to, the file that was probed last, what that
/// found, what was measured last, and what is asked for now.
pub struct History {
    pub step: Step,
    pub cut: Option<Seq<char>>,
    pub normalized: Option<Seq<char>>,
    pub probed: Option<Seq<char>>,
    pub found: Option<i64>,
    pub measured: Option<LoudnormMeasurement>,
    pub asked: ActionView,
}

/// The history of a file after some events.
pub open spec fn history(fp: FilePlan, ctx: PipelineCtx, events: Seq<Event>) -> History
    decreases events.len(),
{
    if events.len() == 0 {
        History {
            step: Step::Start,
            cut: None,
            normalized: None,
            probed: None,
            found: None,
            measured: None,
            asked: ActionView::Ignore,
        }
    } else {
        let before = history(fp, ctx, events.drop_last());
        let m = pipeline::next(fp, ctx, before.step, events.last());
        let h = History {
            step: m.step,
            found: match events.last() {
                Event::Probed(found) if before.asked is Probe => found,
                _ => before.found,
            },
            measured: match events.last() {
                Event::Measured(measured) if before.asked is Measure => measured,
                _ => before.measured,
            },
            asked: if m.action is Ignore {
                before.asked
            } else {
                m.action
            },
            ..before
        };
        match m.action {
            ActionView::Extract { output, args } => History { cut: Some(output), ..h },
            ActionView::Normalize { output, duration, args } => History {
                normalized: Some(output),
                ..h
            },
            ActionView::Probe { path } => History { probed: Some(path), ..h },
            _ => h,
        }
    }
}

/// What the voice is taken from in a run: what was cut out of the source, or else the source.
pub open spec fn taken_from(fp: FilePlan, h: History) -> Seq<char> {
    match h.cut {
        Some(cut) => cut,
        None => fp.item.source@,
    }
}

/// The newest form of the voice in a run: what was normalized, or else what it is taken from.
pub open spec fn newest(fp: FilePlan, h: History) -> Seq<char> {
    match h.normalized {
        Some(normalized) => normalized,
        None => taken_from(fp, h),
    }
}

proof fn lemma_history(fp: FilePlan, ctx: PipelineCtx, events: Seq<Event>)
    ensures
        ({
            let h = history(fp, ctx, events);
            let started = !(h.step is Start) && !(h.step is Done);
            &&& h.cut is Some ==> h.cut == Some(pipeline::chapter_file(fp, ctx))
                && fp.item.chapter is Some
            &&& h.normalized is Some ==> h.normalized == Some(pipeline::normalized_file(fp, ctx))
                && ctx.cli.normalize_input
            &&& h.step is Start ==> h.cut is None && h.normalized is None && h.asked is Ignore
            &&& started ==> (h.cut is Some <==> fp.item.chapter is Some)
            &&& h.step is Extracting ==> h.normalized is None && h.asked is Extract
            &&& h.step is ProbingSource ==> {
                &&& ctx.cli.normalize_input
                &&& h.normalized is None
                &&& h.asked is Probe
            }
            &&& h.step matches Step::Measuring { duration } ==> {
                &&& ctx.cli.normalize_input
                &&& h.normalized is None
                &&& h.asked is Measure
                &&& duration == pipeline::found_or(h.found, fp.source_duration)
            }
            &&& h.step matches Step::Normalizing { measurement } ==> {
                &&& ctx.cli.normalize_input
                &&& h.normalized is Some
                &&& h.asked is Normalize
                &&& h.measured == Some(measurement)
            }
            &&& h.step is ProbingVoice ==> {
                &&& h.asked is Probe
                &&& h.normalized is Some <==> ctx.cli.normalize_input
                &&& h.probed == Some(pipeline::voice_file(fp, ctx))
            }
            &&& h.step matches Step::AwaitingMusic { duration } ==> {
                &&& h.asked is AwaitMusic
                &&& h.normalized is Some <==> ctx.cli.normalize_input
                &&& h.probed == Some(pipeline::voice_file(fp, ctx))
                &&& duration == pipeline::adjusted(
                    pipeline::found_or(h.found, fp.source_duration),
                    ctx.cli.speed,
                )
                &&& duration >= MIN_DURATION
            }
            &&& h.step is Mixing ==> h.asked is Mix
            &&& h.step is Done ==> h.asked is Finish
        }),
    decreases events.len(),
{
    if events.len() > 0 {
        lemma_history(fp, ctx, events.drop_last());
    }
}

/// In every run the voice that is mixed is its newest form: what the run has normalized where the
/// input is normalized, else the chapter that the run has cut out, else the source. It is the
/// file that was probed last. So a chapter is never mixed from its whole source, and the input is
/// normalized exactly where that is asked for.
pub proof fn law_newest_voice_is_mixed(fp: FilePlan, ctx: PipelineCtx, events: Seq<Event>, event: Event)
    ensures
        ({
            let h = history(fp, ctx, events);
            pipeline::next(fp, ctx, h.step, event).action matches ActionView::Mix {
                voice,
                output,
                duration,
                pieces,
            } ==> {
                &&& voice == newest(fp, h)
                &&& h.probed == Some(voice)
                &&& h.cut is Some <==> fp.item.chapter is Some
                &&& h.normalized is Some <==> ctx.cli.normalize_input
                &&& output == fp.output@
            }
        }),
{
    lemma_history(fp, ctx, events);
}

/// In every run a mix lasts as long as the voice that was probed last at its new speed: times
/// the speed it is that duration again, up to the rounding. Where nothing was found, it is the
/// duration that the file was planned with.
pub proof fn law_mix_lasts_as_long_as_the_voice(
    fp: FilePlan,
    ctx: PipelineCtx,
    events: Seq<Event>,
    event: Event,
)
    requires
        500_000 <= ctx.cli.speed,
    ensures
        ({
            let h = history(fp, ctx, events);
            let heard = match h.found {
                Some(d) => d,
                None => fp.source_duration,
            };
            pipeline::next(fp, ctx, h.step, event).action matches ActionView::Mix {
                voice,
                output,
                duration,
                pieces,
            } ==> {
                &&& duration >= MIN_DURATION
                &&& 0 <= heard <= i64::MAX / 4 ==> -ctx.cli.speed <= 2 * (duration * ctx.cli.speed
                    - heard * 1_000_000) <= ctx.cli.speed
            }
        }),
{
    let h = history(fp, ctx, events);
    let heard = match h.found {
        Some(d) => d,
        None => fp.source_duration,
    };
    lemma_history(fp, ctx, events);
    number_laws::law_quotients_multiply_back(heard as int, ctx.cli.speed as int);
}

/// Whether what a run asks for is what it should be, given what it has come to: a chapter is cut
/// out of the source from its start to its end; what is measured is what the voice is taken from;
/// and that is normalized, by what was measured of it, into another file that is probed next.
pub open spec fn asks_rightly(fp: FilePlan, ctx: PipelineCtx, h: History, action: ActionView) -> bool {
    let norm = ctx.audio.norm;
    match action {
        ActionView::Extract { output, args } => {
            &&& fp.item.chapter matches Some(c) && c.start < c.end && command_laws::is_cut(
                args,
                fp.item.source@,
                c.start as int,
                number::within_i64(c.end - c.start),
                ctx.audio.overlay.ffmpeg_threads as int,
                ctx.cli.sample_rate as int,
                output,
            )
        },
        ActionView::Measure { duration, args } => command_laws::is_first_pass(
            args,
            taken_from(fp, h),
            norm.target,
            norm.ffmpeg_threads as int,
        ) && h.probed == Some(taken_from(fp, h)),
        ActionView::Normalize { output, duration, args } => {
            &&& h.measured matches Some(m) && command_laws::is_second_pass(
                args,
                taken_from(fp, h),
                output,
                norm,
                m,
            )
            &&& Some(output) != h.cut
        },
        ActionView::Probe { path } => path == newest(fp, h),
        _ => true,
    }
}

proof fn lemma_probed(fp: FilePlan, ctx: PipelineCtx, events: Seq<Event>)
    ensures
        ({
            let h = history(fp, ctx, events);
            h.step is ProbingSource || h.step is Measuring ==> h.probed == Some(
                pipeline::voice_source(fp, ctx),
            )
        }),
    decreases events.len(),
{
    if events.len() > 0 {
        lemma_probed(fp, ctx, events.drop_last());
    }
}

/// Every command of a run reads and writes the files that it is for, with the settings of the
/// run.
pub proof fn law_commands_of_a_run(fp: FilePlan, ctx: PipelineCtx, events: Seq<Event>)
    requires
        command_laws::readable_target(ctx.audio.norm.target),
        events.len() > 0,
        fp.item.chapter matches Some(c) ==> -i64::MAX <= c.start,
        history(fp, ctx, events).measured matches Some(m) ==> command_laws::readable_measurement(
            m,
        ),
    ensures
        ({
            let h = history(fp, ctx, events);
            let before = history(fp, ctx, events.drop_last());
            asks_rightly(fp, ctx, h, pipeline::next(fp, ctx, before.step, events.last()).action)
        }),
{
    let before = history(fp, ctx, events.drop_last());
    let h = history(fp, ctx, events);
    let norm = ctx.audio.norm;
    let action = pipeline::next(fp, ctx, before.step, events.last()).action;
    lemma_history(fp, ctx, events.drop_last());
    lemma_history(fp, ctx, events);
    lemma_probed(fp, ctx, events);
    lemma_temporary_files_differ(fp, ctx);
    match action {
        ActionView::Extract { output, args } => {
            let c = fp.item.chapter->Some_0;
            command_laws::law_cut(
                fp.item.source@,
                c.start as int,
                number::within_i64(c.end - c.start),
                ctx.audio.overlay.ffmpeg_threads as int,
                ctx.cli.sample_rate as int,
                output,
            );
        },
        ActionView::Measure { duration, args } => {
            command_laws::law_first_pass(
                taken_from(fp, h),
                norm.target,
                norm.ffmpeg_threads as int,
            );
        },
        ActionView::Normalize { output, duration, args } => {
            command_laws::law_second_pass(taken_from(fp, h), output, norm, h.measured->Some_0);
        },
        _ => {},
    }
}

// ─── Failures ──────────────────────────────────────────────────

/// Whether an event that answers a step is a reason to give the file up: its chapter is too short
/// or ends before it starts, something that was asked for was not done, the output would last
/// less than ten milliseconds, or there is no music for it.
pub open spec fn is_reason_to_fail(fp: FilePlan, ctx: PipelineCtx, h: History, event: Event) -> bool {
    match event {
        Event::Begin { cancelled } => !cancelled && (fp.item.chapter matches Some(c) && c.end
            - c.start < 10_000),
        Event::Extracted(done) => !done,
        Event::Probed(found) => {
            let heard = match found {
                Some(d) => d,
                None => fp.source_duration,
            };
            h.step is ProbingVoice && 2 * heard * 1_000_000 < 19_999 * ctx.cli.speed
        },
        Event::Measured(measured) => measured is None,
        Event::Normalized(done) => !done,
        Event::MusicReady(plans) => match *plans {
            Some(all) => all@.len() <= fp.plan_index,
            None => true,
        },
        Event::Mixed(result) => result is Err,
    }
}

/// A file fails exactly where there is a reason to: nothing that went wrong is passed over, and
/// nothing that went well ends it.
pub proof fn law_failures_have_a_reason(
    fp: FilePlan,
    ctx: PipelineCtx,
    events: Seq<Event>,
    event: Event,
)
    requires
        ctx.cli.speed > 0,
    ensures
        ({
            let h = history(fp, ctx, events);
            let action = pipeline::next(fp, ctx, h.step, event).action;
            answers(h.step, event) ==> (is_reason_to_fail(fp, ctx, h, event) <==> (
            action matches ActionView::Finish(o) && o is Failed))
        }),
{
    let h = history(fp, ctx, events);
    if let Event::Probed(found) = event {
        let heard = pipeline::found_or(found, fp.source_duration) as int;
        let b = ctx.cli.speed as int;
        let n = heard * 1_000_000;
        let q = (2 * n + b) / (2 * b);
        assert(q < 10_000 <==> 2 * n + b < 20_000 * b) by (nonlinear_arith)
            requires
                b > 0,
                q == (2 * n + b) / (2 * b),
        ;
    }
}

/// A failure says what went wrong: where mixing failed, the error and the command that are
/// reported; where a run fails at another step, something else for each step.
pub proof fn law_failures_are_told_apart(
    fp: FilePlan,
    ctx: PipelineCtx,
    duration: i64,
    m: LoudnormMeasurement,
    result: Result<(), (String, String)>,
)
    ensures
        result matches Err(e) ==> (pipeline::next(fp, ctx, Step::Mixing, Event::Mixed(&result)).action
            matches ActionView::Finish(OutcomeView::Failed(Some(entry))) && {
            &&& entry.file == fp.item.relative@
            &&& entry.error == Some(e.0@)
            &&& e.1@.len() > 0 ==> entry.command == Some(e.1@)
            &&& e.1@.len() == 0 ==> entry.command is None
        }),
        ({
            let cutting = pipeline::next(fp, ctx, Step::Extracting, Event::Extracted(false)).action;
            let measuring = pipeline::next(
                fp,
                ctx,
                Step::Measuring { duration },
                Event::Measured(None),
            ).action;
            let normalizing = pipeline::next(
                fp,
                ctx,
                Step::Normalizing { measurement: m },
                Event::Normalized(false),
            ).action;
            &&& cutting matches ActionView::Finish(OutcomeView::Failed(Some(a)))
            &&& measuring matches ActionView::Finish(OutcomeView::Failed(Some(b)))
            &&& normalizing matches ActionView::Finish(OutcomeView::Failed(Some(c)))
            &&& a.error != b.error
            &&& b.error != c.error
            &&& a.error != c.error
            &&& a.command is None
            &&& b.command is None
        }),
{
    reveal_strlit("chapter extraction failed");
    reveal_strlit("loudness measurement failed");
    reveal_strlit("normalization failed");
    assert("chapter extraction failed"@[0] == 'c');
    assert("loudness measurement failed"@[0] == 'l');
    assert("normalization failed"@[0] == 'n');
}

/// The command that is reported where normalization fails is the one that was run.
pub proof fn law_failed_command_is_reported(
    fp: FilePlan,
    ctx: PipelineCtx,
    events: Seq<Event>,
    measured: LoudnormMeasurement,
)
    requires
        history(fp, ctx, events).step is Measuring,
    ensures
        ({
            let asked = pipeline::next(
                fp,
                ctx,
                history(fp, ctx, events).step,
                Event::Measured(Some(measured)),
            );
            &&& asked.action matches ActionView::Normalize { output, duration, args }
            &&& pipeline::next(fp, ctx, asked.step, Event::Normalized(false)).action matches
                ActionView::Finish(OutcomeView::Failed(Some(entry)))
            &&& entry.command == Some(ffmpeg::command_line(args))
        }),
{
}

/// The progress of measuring and normalizing goes by the duration of what is read: the one that
/// was found of it, or else the one that the file was planned with.
pub proof fn law_progress_goes_by_the_voice(fp: FilePlan, ctx: PipelineCtx, events: Seq<Event>)
    requires
        events.len() > 0,
    ensures
        ({
            let h = history(fp, ctx, events);
            let before = history(fp, ctx, events.drop_last());
            let heard = match h.found {
                Some(d) => d,
                None => fp.source_duration,
            };
            match pipeline::next(fp, ctx, before.step, events.last()).action {
                ActionView::Measure { duration, args } => duration == heard,
                ActionView::Normalize { output, duration, args } => duration == heard,
                _ => true,
            }
        }),
{
    lemma_history(fp, ctx, events.drop_last());
    lemma_history(fp, ctx, events);
}

// ─── Files that are worked on at once ──────────────────────────

/// Two files that are worked on at once never share a temporary file, whatever directories they
/// are in.
pub proof fn law_temporary_files_are_apart(fp: FilePlan, gp: FilePlan, ctx: PipelineCtx)
    requires
        discovery::is_plain(fp.item.relative@),
        discovery::is_plain(gp.item.relative@),
        fp.item.relative@ != gp.item.relative@,
    ensures
        pipeline::chapter_file(fp, ctx) != pipeline::chapter_file(gp, ctx),
        pipeline::normalized_file(fp, ctx) != pipeline::normalized_file(gp, ctx),
{
    discovery::law_appending_keeps_all_files_apart(
        ctx.tmp@,
        fp.item.relative@,
        gp.item.relative@,
        "chapter.wav"@,
    );
    discovery::law_appending_keeps_all_files_apart(
        ctx.tmp@,
        fp.item.relative@,
        gp.item.relative@,
        "wav"@,
    );
}

// ─── Dry runs ──────────────────────────────────────────────────

/// A dry run says of every file, in order, which one it is and where it would go.
pub proof fn law_dry_run_names_every_file(normalize: bool, files: Seq<FilePlan>, i: int)
    requires
        0 <= i < files.len(),
    ensures
        ({
            let lines = pipeline::dry_run_lines(normalize, files);
            let line = lines[lines.len() - files.len() + i];
            let name = files[i].item.relative@;
            let output = files[i].output@;
            &&& lines.len() == files.len() + if normalize {
                2int
            } else {
                1int
            }
            &&& line.len() >= name.len() + output.len()
            &&& line.subrange(6, 6 + name.len() as int) == name
            &&& line.skip(line.len() - output.len()) == output
        }),
{
    reveal_strlit("      ");
    reveal_strlit(" → ");
    let lines = pipeline::dry_run_lines(normalize, files);
    let line = lines[lines.len() - files.len() + i];
    let name = files[i].item.relative@;
    let output = files[i].output@;
    assert(line == pipeline::file_line(files[i]));
    assert(line.subrange(6, 6 + name.len() as int) =~= name);
    assert(line.skip(line.len() - output.len()) =~= output);
}

} // verus!
