//! Assembling a run: which files can be used, what each of them becomes, and how the work is
//! shared out.

use crate::cli;
use crate::cli::{output_path, Args, InputItem, ItemView};
use crate::ffmpeg::{LoudnessTarget, NormConfig, OutputFormat, OverlayConfig};
use crate::limits::MIN_DURATION;
use crate::music_norm;
use crate::number;
use crate::number::{divide, ONE};
use crate::pipeline;
use crate::pipeline::{
    adjusted_duration, length_of_chapter, FilePlan, MusicInput, PipelineAudioConfig,
};
use crate::plan;
use crate::plan::{Music, Piece};
use crate::text;
use crate::text::{push_text, same_text};
use vstd::prelude::*;

verus! {

// ─── Music ─────────────────────────────────────────────────────

/// The music that can be used, in order, with its durations: what has a duration that is not
/// too short.
pub open spec fn usable(files: Seq<Seq<char>>, found: Seq<Option<i64>>) -> Seq<(Seq<char>, i64)>
    decreases files.len(),
{
    if files.len() == 0 {
        seq![]
    } else {
        let front = usable(files.drop_last(), found);
        match music_norm::usable_duration(found[files.len() - 1]) {
            Some(d) => front.push((files.last(), d)),
            None => front,
        }
    }
}

/// The music that can be used, with its durations. `found` holds for each file the duration
/// that was found.
pub fn usable_music(files: &Vec<String>, found: &Vec<Option<i64>>) -> (r: (Vec<String>, Vec<i64>))
    requires
        files@.len() == found@.len(),
    ensures
        r.0@.len() == r.1@.len(),
        music_norm::side_by_side(text::texts(r.0@), r.1@) == usable(text::texts(files@), found@),
{
    let ghost all = text::texts(files@);
    let mut kept: Vec<String> = Vec::new();
    let mut durations: Vec<i64> = Vec::new();
    let mut i: usize = 0;
    proof {
        assert(all.take(0) =~= seq![]);
        assert(music_norm::side_by_side(text::texts(kept@), durations@) =~= seq![]);
    }
    while i < files.len()
        invariant
            i <= files@.len(),
            files@.len() == found@.len(),
            all == text::texts(files@),
            kept@.len() == durations@.len(),
            music_norm::side_by_side(text::texts(kept@), durations@) == usable(
                all.take(i as int),
                found@,
            ),
        decreases files.len() - i,
    {
        proof {
            assert(all.take(i + 1).drop_last() =~= all.take(i as int));
            assert(all.take(i + 1).last() == files@[i as int]@);
        }
        if let Some(d) = found[i] {
            if d >= MIN_DURATION {
                let ghost was = music_norm::side_by_side(text::texts(kept@), durations@);
                push_text(&mut kept, files[i].as_str());
                durations.push(d);
                assert(music_norm::side_by_side(text::texts(kept@), durations@) =~= was.push(
                    (files@[i as int]@, d),
                ));
            }
        }
        i += 1;
    }
    assert(all.take(i as int) =~= all);
    (kept, durations)
}

/// The sum of some durations.
pub open spec fn sum(durations: Seq<i64>) -> int
    decreases durations.len(),
{
    if durations.len() == 0 {
        0
    } else {
        sum(durations.drop_last()) + durations.last()
    }
}

/// How long some durations last together.
pub fn total_duration(durations: &Vec<i64>) -> (r: i64)
    ensures
        r == number::within_i64(sum(durations@)),
{
    let mut total: i128 = 0;
    let mut i: usize = 0;
    assert(durations@.take(0) =~= seq![]);
    while i < durations.len()
        invariant
            i <= durations.len(),
            total == sum(durations@.take(i as int)),
            -0x8000_0000_0000_0000 * i <= total <= 0x8000_0000_0000_0000 * i,
        decreases durations.len() - i,
    {
        proof {
            assert(durations@.take(i + 1).drop_last() =~= durations@.take(i as int));
        }
        total = total + durations[i] as i128;
        i += 1;
    }
    assert(durations@.take(i as int) =~= durations@);
    if total > i64::MAX as i128 {
        i64::MAX
    } else if total < i64::MIN as i128 {
        i64::MIN
    } else {
        total as i64
    }
}

// ─── Input ─────────────────────────────────────────────────────

/// The duration of an item: a chapter has its own, a whole file the one that was found.
pub open spec fn item_duration(item: ItemView, found: Option<i64>) -> Option<int> {
    match item.chapter {
        Some(c) => Some(pipeline::chapter_length(c.start, c.end)),
        None => match found {
            Some(d) => Some(d as int),
            None => None,
        },
    }
}

/// The items that have a duration, in order.
pub open spec fn ready(items: Seq<ItemView>, found: Seq<Option<i64>>) -> Seq<(ItemView, int)>
    decreases items.len(),
{
    if items.len() == 0 {
        seq![]
    } else {
        let front = ready(items.drop_last(), found);
        match item_duration(items.last(), found[items.len() - 1]) {
            Some(d) => front.push((items.last(), d)),
            None => front,
        }
    }
}

/// The items with their durations.
pub open spec fn timed_view(v: Seq<(InputItem, i64)>) -> Seq<(ItemView, int)> {
    Seq::new(v.len(), |i: int| (v[i].0@, v[i].1 as int))
}

/// The items that have a duration. `found` holds for each item the duration that was found
/// of its source; it does not matter for chapters.
pub fn ready_items(items: &Vec<InputItem>, found: &Vec<Option<i64>>) -> (r: Vec<(InputItem, i64)>)
    requires
        items@.len() == found@.len(),
    ensures
        timed_view(r@) == ready(cli::items_view(items@), found@),
{
    let ghost all = cli::items_view(items@);
    let mut out: Vec<(InputItem, i64)> = Vec::new();
    let mut i: usize = 0;
    proof {
        assert(all.take(0) =~= seq![]);
        assert(timed_view(out@) =~= seq![]);
    }
    while i < items.len()
        invariant
            i <= items@.len(),
            items@.len() == found@.len(),
            all == cli::items_view(items@),
            timed_view(out@) == ready(all.take(i as int), found@),
        decreases items.len() - i,
    {
        proof {
            assert(all.take(i + 1).drop_last() =~= all.take(i as int));
            assert(all.take(i + 1).last() == items@[i as int]@);
        }
        let duration: Option<i64> = match &items[i].chapter {
            Some(c) => Some(length_of_chapter(c)),
            None => found[i],
        };
        if let Some(d) = duration {
            let ghost had = out@;
            let pair = (items[i].clone(), d);
            out.push(pair);
            assert(timed_view(out@) =~= timed_view(had).push((pair.0@, d as int)));
        }
        i += 1;
    }
    assert(all.take(i as int) =~= all);
    out
}

/// The durations of the outputs.
pub open spec fn adjusted_all(v: Seq<(InputItem, i64)>, speed: i64) -> Seq<i64> {
    Seq::new(v.len(), |i: int| pipeline::adjusted(v[i].1, speed) as i64)
}

/// The durations of the outputs: those of the items at the speed of the voice.
pub fn adjusted_durations(timed: &Vec<(InputItem, i64)>, speed: i64) -> (r: Vec<i64>)
    requires
        speed > 0,
    ensures
        r@ == adjusted_all(timed@, speed),
{
    let mut out: Vec<i64> = Vec::new();
    let mut i: usize = 0;
    while i < timed.len()
        invariant
            i <= timed@.len(),
            speed > 0,
            out@ == adjusted_all(timed@, speed).take(i as int),
        decreases timed.len() - i,
    {
        out.push(adjusted_duration(timed[i].1, speed));
        i += 1;
        assert(out@ =~= adjusted_all(timed@, speed).take(i as int));
    }
    assert(out@ =~= adjusted_all(timed@, speed));
    out
}

/// Whether a plan is the one for an item.
pub open spec fn is_plan_of(
    fp: FilePlan,
    item: ItemView,
    duration: int,
    output_dir: Seq<char>,
    format: OutputFormat,
    index: int,
) -> bool {
    &&& fp.item@ == item
    &&& fp.source_duration == duration
    &&& fp.output@ == cli::output_of(output_dir, item, format)
    &&& fp.plan_index == index
}

/// Assemble file plans: each item with its duration, its output path, and its place in the
/// music plan.
pub fn assemble_plans(
    timed: &Vec<(InputItem, i64)>,
    output_dir: &str,
    format: OutputFormat,
) -> (r: Vec<FilePlan>)
    ensures
        r@.len() == timed@.len(),
        forall|i: int|
            0 <= i < r@.len() ==> is_plan_of(
                #[trigger] r@[i],
                timed@[i].0@,
                timed@[i].1 as int,
                output_dir@,
                format,
                i,
            ),
{
    let mut out: Vec<FilePlan> = Vec::new();
    let mut i: usize = 0;
    while i < timed.len()
        invariant
            i <= timed@.len(),
            out@.len() == i,
            forall|k: int|
                0 <= k < i ==> is_plan_of(
                    #[trigger] out@[k],
                    timed@[k].0@,
                    timed@[k].1 as int,
                    output_dir@,
                    format,
                    k,
                ),
        decreases timed.len() - i,
    {
        let item = timed[i].0.clone();
        let output = output_path(output_dir, &item, format);
        out.push(FilePlan { item, source_duration: timed[i].1, output, plan_index: i });
        i += 1;
    }
    out
}

/// Every file finds its own music: its place in the plan is there, and holds the pieces that
/// were planned for its output.
pub proof fn law_files_find_their_music(
    m: Music,
    orders: Seq<Seq<usize>>,
    timed: Seq<(InputItem, i64)>,
    speed: i64,
    plans: Seq<Seq<Piece>>,
    fp: FilePlan,
    output_dir: Seq<char>,
    format: OutputFormat,
    i: int,
)
    requires
        0 <= i < timed.len(),
        speed > 0,
        is_plan_of(fp, timed[i].0@, timed[i].1 as int, output_dir, format, i),
        plan::is_plan(m, orders, adjusted_all(timed, speed), plans),
    ensures
        fp.plan_index < plans.len(),
        plans[fp.plan_index as int] == plan::fill_file(
            m,
            orders,
            plan::cursor_after(m, orders, adjusted_all(timed, speed).take(i)),
            pipeline::adjusted(fp.source_duration, speed),
        ).pieces,
{
}

// ─── Collisions ────────────────────────────────────────────────

/// The relative paths of the files that go to this output, in order.
pub open spec fn sources_of(files: Seq<FilePlan>, output: Seq<char>) -> Seq<Seq<char>>
    decreases files.len(),
{
    if files.len() == 0 {
        seq![]
    } else {
        let front = sources_of(files.drop_last(), output);
        if files.last().output@ == output {
            front.push(files.last().item.relative@)
        } else {
            front
        }
    }
}

/// An output and the files that go to it.
pub open spec fn collision_view(c: (String, Vec<String>)) -> (Seq<char>, Seq<Seq<char>>) {
    (c.0@, text::texts(c.1@))
}

/// Outputs and the files that go to them.
pub open spec fn collisions_view(v: Seq<(String, Vec<String>)>) -> Seq<(Seq<char>, Seq<Seq<char>>)> {
    Seq::new(v.len(), |i: int| collision_view(v[i]))
}

/// The outputs that more than one of all files go to, in the order of the first of those
/// files, as far as it is among the first `n`.
pub open spec fn collisions_among(files: Seq<FilePlan>, n: int) -> Seq<(Seq<char>, Seq<Seq<char>>)>
    decreases n,
{
    if n <= 0 {
        seq![]
    } else {
        let front = collisions_among(files, n - 1);
        let output = files[n - 1].output@;
        let sources = sources_of(files, output);
        if sources_of(files.take(n - 1), output).len() == 0 && sources.len() > 1 {
            front.push((output, sources))
        } else {
            front
        }
    }
}

/// The outputs that more than one file goes to, each with those files.
pub open spec fn collisions(files: Seq<FilePlan>) -> Seq<(Seq<char>, Seq<Seq<char>>)> {
    collisions_among(files, files.len() as int)
}

fn sources_for(files: &Vec<FilePlan>, n: usize, output: &str) -> (r: Vec<String>)
    requires
        n <= files@.len(),
    ensures
        text::texts(r@) == sources_of(files@.take(n as int), output@),
{
    let mut out: Vec<String> = Vec::new();
    let mut i: usize = 0;
    proof {
        assert(files@.take(0) =~= seq![]);
        assert(text::texts(out@) =~= seq![]);
    }
    while i < n
        invariant
            i <= n <= files@.len(),
            text::texts(out@) == sources_of(files@.take(i as int), output@),
        decreases n - i,
    {
        proof {
            assert(files@.take(i + 1).drop_last() =~= files@.take(i as int));
        }
        if same_text(files[i].output.as_str(), output) {
            push_text(&mut out, files[i].item.relative.as_str());
        }
        i += 1;
    }
    out
}

/// Detect output path collisions: the outputs that more than one file goes to.
pub fn find_collisions(files: &Vec<FilePlan>) -> (r: Vec<(String, Vec<String>)>)
    ensures
        collisions_view(r@) == collisions(files@),
{
    let mut out: Vec<(String, Vec<String>)> = Vec::new();
    let mut i: usize = 0;
    let all = files.len();
    assert(collisions_view(out@) =~= seq![]);
    assert(files@.take(all as int) =~= files@);
    while i < files.len()
        invariant
            i <= files@.len(),
            all == files@.len(),
            files@.take(all as int) == files@,
            collisions_view(out@) == collisions_among(files@, i as int),
        decreases files.len() - i,
    {
        let output = files[i].output.as_str();
        let before = sources_for(files, i, output);
        assert(text::texts(before@).len() == before@.len());
        if before.len() == 0 {
            let sources = sources_for(files, all, output);
            assert(text::texts(sources@).len() == sources@.len());
            if sources.len() > 1 {
                let ghost had = out@;
                let pair = (output.to_owned(), sources);
                out.push(pair);
                assert(collisions_view(out@) =~= collisions_view(had).push(collision_view(pair)));
            }
        }
        i += 1;
    }
    out
}

/// Two files with one output are always reported.
pub proof fn law_collisions_are_found(files: Seq<FilePlan>, a: int, b: int)
    requires
        0 <= a < b < files.len(),
        files[a].output@ == files[b].output@,
    ensures
        exists|k: int|
            0 <= k < collisions(files).len() && (#[trigger] collisions(files)[k]).0
                == files[a].output@,
{
    let output = files[a].output@;
    lemma_sources_grow(files, output, a + 1, files.len() as int);
    lemma_sources_grow(files, output, 0, a);
    assert(files.take(a + 1).drop_last() =~= files.take(a));
    assert(files.take(b + 1).drop_last() =~= files.take(b));
    lemma_sources_grow(files, output, a + 1, b);
    lemma_sources_grow(files, output, b + 1, files.len() as int);
    assert(files.take(files.len() as int) =~= files);
    let first = lemma_first(files, output, a + 1);
    lemma_reported(files, first, files.len() as int);
    let all = collisions_among(files, files.len() as int);
    let k = choose|k: int| 0 <= k < all.len() && (#[trigger] all[k]).0 == output;
    assert(collisions(files)[k].0 == output);
}

proof fn lemma_sources_grow(files: Seq<FilePlan>, output: Seq<char>, a: int, b: int)
    requires
        0 <= a <= b <= files.len(),
    ensures
        sources_of(files.take(a), output).len() <= sources_of(files.take(b), output).len(),
    decreases b - a,
{
    if a < b {
        lemma_sources_grow(files, output, a, b - 1);
        assert(files.take(b).drop_last() =~= files.take(b - 1));
    }
}

proof fn lemma_first(files: Seq<FilePlan>, output: Seq<char>, n: int) -> (first: int)
    requires
        0 <= n <= files.len(),
        sources_of(files.take(n), output).len() > 0,
    ensures
        0 <= first < n,
        files[first].output@ == output,
        sources_of(files.take(first), output).len() == 0,
    decreases n,
{
    if n == 0 {
        assert(files.take(0) =~= seq![]);
        0
    } else {
        assert(files.take(n).drop_last() =~= files.take(n - 1));
        if sources_of(files.take(n - 1), output).len() == 0 {
            n - 1
        } else {
            lemma_first(files, output, n - 1)
        }
    }
}

proof fn lemma_reported(files: Seq<FilePlan>, first: int, n: int)
    requires
        0 <= first < n <= files.len(),
        sources_of(files.take(first), files[first].output@).len() == 0,
        sources_of(files, files[first].output@).len() > 1,
    ensures
        exists|k: int|
            0 <= k < collisions_among(files, n).len() && (#[trigger] collisions_among(
                files,
                n,
            )[k]).0 == files[first].output@,
    decreases n,
{
    let now = collisions_among(files, n);
    if first == n - 1 {
        assert(now.last().0 == files[first].output@);
        assert(now[now.len() - 1].0 == files[first].output@);
    } else {
        lemma_reported(files, first, n - 1);
        let before = collisions_among(files, n - 1);
        let k = choose|k: int|
            0 <= k < before.len() && (#[trigger] before[k]).0 == files[first].output@;
        assert(now[k].0 == files[first].output@);
    }
}

// ─── Sharing out the work ──────────────────────────────────────

/// How many threads each ffmpeg gets, where this many files are worked on with this many
/// threads.
pub open spec fn threads_each(threads: int, files: int) -> int {
    let n = threads / plan::min(threads, files);
    if n < 1 {
        1
    } else {
        n
    }
}

/// When there are fewer files than threads, give each ffmpeg more cores.
pub fn ffmpeg_threads(threads: usize, files: usize) -> (r: u32)
    requires
        threads > 0,
        files > 0,
    ensures
        r == threads_each(threads as int, files as int) as u32,
{
    let at_once: usize = if threads <= files {
        threads
    } else {
        files
    };
    let n: usize = threads / at_once;
    if n < 1 {
        1
    } else {
        n as u32
    }
}

/// The threads of all ffmpegs that run at once are no more than there are, and at least one
/// each; with as many files as threads, or more, each gets one.
pub proof fn law_threads_are_shared(threads: int, files: int)
    requires
        threads > 0,
        files > 0,
    ensures
        threads_each(threads, files) >= 1,
        plan::min(threads, files) * threads_each(threads, files) <= threads,
        threads <= files ==> threads_each(threads, files) == 1,
{
    let at_once = plan::min(threads, files);
    let n = threads / at_once;
    assert(at_once * n <= threads && n >= 1) by (nonlinear_arith)
        requires
            0 < at_once <= threads,
            n == threads / at_once,
    ;
    if threads <= files {
        assert(threads / threads == 1) by (nonlinear_arith)
            requires
                threads > 0,
        ;
    }
}

/// The volume of the music.
pub open spec fn volume_for(loudness_drop: int) -> int {
    number::quotient(1_000_000, loudness_drop)
}

/// The audio settings of a run over this many files.
pub open spec fn audio_settings(cli: Args, files: int) -> PipelineAudioConfig {
    let threads = threads_each(cli.threads as int, files) as u32;
    PipelineAudioConfig {
        norm: NormConfig {
            target: LoudnessTarget {
                i: cli.loudness_i,
                tp: cli.loudness_tp,
                lra: cli.loudness_lra,
            },
            sample_rate: cli.sample_rate,
            ffmpeg_threads: threads,
        },
        overlay: OverlayConfig {
            volume: volume_for(cli.loudness_drop as int) as i64,
            format: cli.format,
            quality: cli.quality,
            sample_rate: cli.sample_rate,
            speed: cli.speed,
            music_fade_in: cli.music_fade_in,
            music_fade_out: cli.music_fade_out,
            ffmpeg_threads: threads,
        },
    }
}

/// The audio settings of a run over this many files.
pub fn audio_config(cli: &Args, files: usize) -> (r: PipelineAudioConfig)
    requires
        cli.threads > 0,
        cli.loudness_drop > 0,
        files > 0,
    ensures
        r == audio_settings(*cli, files as int),
{
    let threads = ffmpeg_threads(cli.threads, files);
    PipelineAudioConfig {
        norm: NormConfig {
            target: LoudnessTarget {
                i: cli.loudness_i,
                tp: cli.loudness_tp,
                lra: cli.loudness_lra,
            },
            sample_rate: cli.sample_rate,
            ffmpeg_threads: threads,
        },
        overlay: OverlayConfig {
            volume: divide(ONE, cli.loudness_drop),
            format: cli.format,
            quality: cli.quality,
            sample_rate: cli.sample_rate,
            speed: cli.speed,
            music_fade_in: cli.music_fade_in,
            music_fade_out: cli.music_fade_out,
            ffmpeg_threads: threads,
        },
    }
}

/// Whether music is planned from what it should be: the music that was found, and the outputs
/// and settings of the run.
pub open spec fn is_music_input(
    r: MusicInput,
    cli: Args,
    files: Seq<String>,
    durations: Seq<i64>,
    timed: Seq<(InputItem, i64)>,
) -> bool {
    &&& r.files@ == files
    &&& r.durations@ == durations
    &&& r.adjusted_input_durations@ == adjusted_all(timed, cli.speed)
    &&& r.pause == cli.pause
    &&& r.crossfade == cli.crossfade
    &&& r.volume == volume_for(cli.loudness_drop as int)
}

/// What the music is planned from.
pub fn music_input(
    cli: &Args,
    files: Vec<String>,
    durations: Vec<i64>,
    timed: &Vec<(InputItem, i64)>,
) -> (r: MusicInput)
    requires
        cli.speed > 0,
        cli.loudness_drop > 0,
    ensures
        is_music_input(r, *cli, files@, durations@, timed@),
{
    MusicInput {
        files,
        durations,
        adjusted_input_durations: adjusted_durations(timed, cli.speed),
        pause: cli.pause,
        crossfade: cli.crossfade,
        volume: divide(ONE, cli.loudness_drop),
    }
}

} // verus!
