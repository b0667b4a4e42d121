//! What holds of a run however its files and its music are assembled.

use crate::assembly;
use crate::cli::{Args, InputItem, ItemView};
use crate::filter_laws;
use crate::ffmpeg;
use crate::mix_laws;
use crate::number_laws;
use crate::pipeline::FilePlan;
use crate::plan;
use crate::plan::Piece;
use crate::reading;
use vstd::prelude::*;

verus! {

// ─── What is kept ──────────────────────────────────────────────

/// How many of the first `n` are kept.
pub open spec fn kept(keep: Seq<bool>, n: int) -> int
    decreases n,
{
    if n <= 0 {
        0
    } else if keep[n - 1] {
        kept(keep, n - 1) + 1
    } else {
        kept(keep, n - 1)
    }
}

/// Whether `picked` is exactly what is kept of `all`, in order.
pub open spec fn picks<T>(all: Seq<T>, keep: Seq<bool>, picked: Seq<T>) -> bool {
    &&& picked.len() == kept(keep, all.len() as int)
    &&& forall|i: int|
        0 <= i < all.len() && #[trigger] keep[i] ==> 0 <= kept(keep, i) < picked.len()
            && picked[kept(keep, i)] == all[i]
}

proof fn lemma_kept_grows(keep: Seq<bool>, a: int, b: int)
    requires
        0 <= a <= b,
    ensures
        0 <= kept(keep, a) <= kept(keep, b),
    decreases b,
{
    if b > a {
        lemma_kept_grows(keep, a, b - 1);
    } else if b > 0 {
        lemma_kept_grows(keep, a - 1, b - 1);
    }
}

proof fn lemma_kept_same(k: Seq<bool>, l: Seq<bool>, n: int)
    requires
        n <= k.len(),
        n <= l.len(),
        forall|i: int| 0 <= i < n ==> k[i] == l[i],
    ensures
        kept(k, n) == kept(l, n),
    decreases n,
{
    if n > 0 {
        lemma_kept_same(k, l, n - 1);
    }
}

pub proof fn lemma_picks_more<T>(all: Seq<T>, keep: Seq<bool>, front: Seq<T>, picked: Seq<T>)
    requires
        all.len() > 0,
        keep.len() >= all.len(),
        picks(all.drop_last(), keep, front),
        picked == if keep[all.len() - 1] {
            front.push(all.last())
        } else {
            front
        },
    ensures
        picks(all, keep, picked),
{
    let n = all.len() - 1;
    assert forall|i: int| 0 <= i < all.len() && #[trigger] keep[i] implies 0 <= kept(keep, i)
        < picked.len() && picked[kept(keep, i)] == all[i] by {
        lemma_kept_grows(keep, 0, i);
        if i < n {
            assert(all.drop_last()[i] == all[i]);
        }
    }
}

// ─── Music ─────────────────────────────────────────────────────

/// The files with the durations that were found, where there is one.
pub open spec fn with_durations(files: Seq<Seq<char>>, found: Seq<Option<i64>>) -> Seq<
    (Seq<char>, i64),
> {
    Seq::new(files.len(), |i: int| (files[i], found[i]->Some_0))
}

/// Which durations are of ten milliseconds or more.
pub open spec fn long_enough(found: Seq<Option<i64>>) -> Seq<bool> {
    Seq::new(found.len(), |i: int| found[i] is Some && found[i]->Some_0 >= 10_000)
}

/// The music that is used is what has a duration of ten milliseconds or more, all of it, in
/// order, and each with its own duration.
pub proof fn law_all_long_music_is_used(files: Seq<Seq<char>>, found: Seq<Option<i64>>)
    requires
        files.len() <= found.len(),
    ensures
        picks(with_durations(files, found), long_enough(found), assembly::usable(files, found)),
    decreases files.len(),
{
    if files.len() > 0 {
        law_all_long_music_is_used(files.drop_last(), found);
        let all = with_durations(files, found);
        assert(all.drop_last() =~= with_durations(files.drop_last(), found));
        lemma_picks_more(
            all,
            long_enough(found),
            assembly::usable(files.drop_last(), found),
            assembly::usable(files, found),
        );
    }
}

/// Durations add up: one lasts as long as it is, and two lists one behind the other as long as
/// both together.
pub proof fn law_durations_add_up(a: Seq<i64>, b: Seq<i64>, x: i64)
    ensures
        assembly::sum(seq![x]) == x,
        assembly::sum(a + b) == assembly::sum(a) + assembly::sum(b),
    decreases b.len(),
{
    let none: Seq<i64> = seq![];
    assert(seq![x].drop_last() =~= none);
    assert(assembly::sum(none) == 0);
    if b.len() == 0 {
        assert(a + b =~= a);
    } else {
        law_durations_add_up(a, b.drop_last(), x);
        assert((a + b).drop_last() =~= a + b.drop_last());
    }
}

// ─── Input ─────────────────────────────────────────────────────

/// How long an item lasts: a chapter from its start to its end, a whole file as long as was found.
pub open spec fn lasts(item: ItemView, found: Option<i64>, duration: int) -> bool {
    match item.chapter {
        Some(c) => i64::MIN <= c.end - c.start <= i64::MAX ==> c.start + duration == c.end,
        None => found matches Some(d) && duration == d,
    }
}

/// Which items are worked on: the chapters, and the files whose duration was found.
pub open spec fn can_be_worked_on(items: Seq<ItemView>, found: Seq<Option<i64>>) -> Seq<bool> {
    Seq::new(items.len(), |i: int| items[i].chapter is Some || found[i] is Some)
}

/// The items of a list with their durations.
pub open spec fn items_in(timed: Seq<(ItemView, int)>) -> Seq<ItemView> {
    Seq::new(timed.len(), |i: int| timed[i].0)
}

/// Every chapter and every file whose duration was found is worked on, in order, for as long as
/// it lasts; nothing else is.
pub proof fn law_all_items_are_worked_on(items: Seq<ItemView>, found: Seq<Option<i64>>)
    requires
        items.len() <= found.len(),
    ensures
        ({
            let keep = can_be_worked_on(items, found);
            let ready = assembly::ready(items, found);
            &&& picks(items, keep, items_in(ready))
            &&& forall|i: int|
                0 <= i < items.len() && #[trigger] keep[i] ==> lasts(
                    items[i],
                    found[i],
                    ready[kept(keep, i)].1,
                )
        }),
    decreases items.len(),
{
    if items.len() > 0 {
        let keep = can_be_worked_on(items, found);
        let less = can_be_worked_on(items.drop_last(), found);
        let front = assembly::ready(items.drop_last(), found);
        let ready = assembly::ready(items, found);
        let n = items.len() - 1;
        law_all_items_are_worked_on(items.drop_last(), found);
        assert forall|i: int| 0 <= i <= n implies kept(keep, i) == kept(less, i) by {
            lemma_kept_same(keep, less, i);
        }
        assert(picks(items.drop_last(), keep, items_in(front))) by {
            assert forall|i: int| 0 <= i < n && #[trigger] keep[i] implies 0 <= kept(keep, i)
                < items_in(front).len() && items_in(front)[kept(keep, i)] == items.drop_last()[i] by {
                assert(less[i]);
            }
        }
        if keep[n] {
            assert(items_in(ready) =~= items_in(front).push(items.last()));
        } else {
            assert(items_in(ready) =~= items_in(front));
        }
        lemma_picks_more(items, keep, items_in(front), items_in(ready));
        assert forall|i: int| 0 <= i < items.len() && #[trigger] keep[i] implies lasts(
            items[i],
            found[i],
            ready[kept(keep, i)].1,
        ) by {
            lemma_kept_grows(keep, 0, i);
            if i < n {
                assert(less[i]);
                assert(ready[kept(keep, i)] == front[kept(less, i)]);
            }
        }
    }
}

/// The music of a file is planned for as long as its output lasts: times the speed that is the
/// duration of the item, up to the rounding.
pub proof fn law_music_is_planned_for_the_output(
    timed: Seq<(InputItem, i64)>,
    speed: i64,
    i: int,
)
    requires
        500_000 <= speed,
        0 <= i < timed.len(),
        0 <= timed[i].1 <= i64::MAX / 4,
    ensures
        assembly::adjusted_all(timed, speed).len() == timed.len(),
        -speed <= 2 * (assembly::adjusted_all(timed, speed)[i] * speed - timed[i].1 * 1_000_000)
            <= speed,
{
    number_laws::law_quotients_multiply_back(timed[i].1 as int, speed as int);
}

// ─── Collisions ────────────────────────────────────────────────

/// Which files go to this output.
pub open spec fn goes_to(files: Seq<FilePlan>, output: Seq<char>) -> Seq<bool> {
    Seq::new(files.len(), |i: int| files[i].output@ == output)
}

/// The relative paths of some files.
pub open spec fn names_of(files: Seq<FilePlan>) -> Seq<Seq<char>> {
    Seq::new(files.len(), |i: int| files[i].item.relative@)
}

proof fn lemma_sources(files: Seq<FilePlan>, output: Seq<char>)
    ensures
        picks(names_of(files), goes_to(files, output), assembly::sources_of(files, output)),
    decreases files.len(),
{
    if files.len() > 0 {
        let all = names_of(files);
        let keep = goes_to(files, output);
        let less = goes_to(files.drop_last(), output);
        let front = assembly::sources_of(files.drop_last(), output);
        let n = files.len() - 1;
        lemma_sources(files.drop_last(), output);
        assert(all.drop_last() =~= names_of(files.drop_last()));
        assert forall|i: int| 0 <= i <= n implies kept(keep, i) == kept(less, i) by {
            lemma_kept_same(keep, less, i);
        }
        assert(picks(all.drop_last(), keep, front)) by {
            assert forall|i: int| 0 <= i < n && #[trigger] keep[i] implies 0 <= kept(keep, i)
                < front.len() && front[kept(keep, i)] == all.drop_last()[i] by {
                assert(less[i]);
            }
        }
        lemma_picks_more(all, keep, front, assembly::sources_of(files, output));
    }
}

/// What is reported of an output.
pub open spec fn is_collision(files: Seq<FilePlan>, c: (Seq<char>, Seq<Seq<char>>)) -> bool {
    &&& c.1.len() >= 2
    &&& picks(names_of(files), goes_to(files, c.0), c.1)
}

/// Every collision that is reported is one: at least two files go to that output, and it is
/// these that are named, all of them and in order.
pub proof fn law_collisions_are_real(files: Seq<FilePlan>, k: int)
    requires
        0 <= k < assembly::collisions(files).len(),
    ensures
        is_collision(files, assembly::collisions(files)[k]),
{
    lemma_collisions_real(files, files.len() as int);
}

proof fn lemma_collisions_real(files: Seq<FilePlan>, n: int)
    requires
        n <= files.len(),
    ensures
        forall|k: int|
            0 <= k < assembly::collisions_among(files, n).len() ==> is_collision(
                files,
                #[trigger] assembly::collisions_among(files, n)[k],
            ),
    decreases n,
{
    if n > 0 {
        lemma_collisions_real(files, n - 1);
        lemma_sources(files, files[n - 1].output@);
        let front = assembly::collisions_among(files, n - 1);
        assert forall|k: int| 0 <= k < assembly::collisions_among(files, n).len() implies is_collision(
            files,
            #[trigger] assembly::collisions_among(files, n)[k],
        ) by {
            if k < front.len() {
                assert(is_collision(files, front[k]));
            }
        }
    }
}

// ─── Sharing out the work ──────────────────────────────────────

/// No ffmpeg could have another thread: one more for each of those that run at once would be
/// more than there are.
pub proof fn law_no_thread_is_left(threads: int, files: int)
    requires
        threads > 0,
        files > 0,
    ensures
        plan::min(threads, files) * (assembly::threads_each(threads, files) + 1) > threads,
{
    let at_once = plan::min(threads, files);
    let n = threads / at_once;
    assert(at_once * (n + 1) > threads && n >= 1) by (nonlinear_arith)
        requires
            0 < at_once <= threads,
            n == threads / at_once,
    ;
}

// ─── Settings ──────────────────────────────────────────────────

/// The volume undoes the drop: times the drop it is one, up to the rounding.
pub proof fn law_volume_is_one_by_the_drop(drop: i64)
    requires
        drop > 0,
    ensures
        ({
            let v = assembly::volume_for(drop as int);
            &&& 0 <= v < i64::MAX
            &&& -drop <= 2 * (v * drop - 1_000_000_000_000) <= drop
        }),
{
    let b = drop as int;
    number_laws::law_quotients_multiply_back(1_000_000, b);
    let q = (2 * 1_000_000_000_000 + b) / (2 * b);
    assert(0 <= q <= 1_000_000_000_001) by (nonlinear_arith)
        requires
            b >= 1,
            q == (2 * 1_000_000_000_000 + b) / (2 * b),
    ;
}

/// What is asked of the music and the voice arrives in the filter of every mix: the music is
/// quieter by the drop that is asked for, fades in and out as is asked for, and the voice gets the
/// speed that is asked for.
pub proof fn law_settings_arrive_in_the_filter(
    cli: Args,
    files: int,
    pieces: Seq<Piece>,
    duration: int,
)
    requires
        cli.loudness_drop > 0,
        cli.speed > 0,
        pieces.len() > 0,
        0 <= duration <= i64::MAX,
    ensures
        ({
            let c = assembly::audio_settings(cli, files).overlay;
            let filter = ffmpeg::overlay_filter(pieces, c, duration);
            let volumes = reading::all_millionths(reading::settings(filter, "volume="@));
            let fade_in = reading::settings(filter, "afade=t=in:d="@);
            let fade_out = reading::settings(filter, "afade=t=out:st="@);
            &&& volumes.len() == 1
            &&& volumes[0] matches Some(v) && -cli.loudness_drop <= 2 * (v * cli.loudness_drop
                - 1_000_000_000_000) <= cli.loudness_drop
            &&& cli.music_fade_in > 1_000 ==> reading::all_millionths(fade_in) == seq![
                Some(cli.music_fade_in as int),
            ]
            &&& cli.music_fade_out > 1_000 ==> fade_out.len() == 1 && reading::all_millionths(
                reading::entries(fade_out[0], ':', "d="@),
            ) == seq![Some(cli.music_fade_out as int)]
            &&& filter_laws::multiply_to(filter, cli.speed as int)
            &&& reading::all_whole(reading::settings(filter, "aresample="@)) == Seq::new(
                filter_laws::inputs_of(pieces) + 1,
                |i: int| cli.sample_rate as int,
            )
        }),
{
    let c = assembly::audio_settings(cli, files).overlay;
    law_volume_is_one_by_the_drop(cli.loudness_drop);
    filter_laws::law_volume_arrives(pieces, c, duration);
    filter_laws::law_fades_arrive(pieces, c, duration);
    filter_laws::law_speed_arrives(pieces, c, duration);
    filter_laws::law_rate_arrives(pieces, c, duration);
}

/// Every mix is encoded in the format and the quality that are asked for, and everything is
/// normalized to the loudness that is asked for, at the sample rate that is asked for.
pub proof fn law_settings_arrive_in_the_commands(
    cli: Args,
    files: int,
    voice: Seq<char>,
    output: Seq<char>,
    duration: int,
    pieces: Seq<Piece>,
)
    ensures
        ({
            let audio = assembly::audio_settings(cli, files);
            let args = ffmpeg::overlay_arguments(voice, output, duration, pieces, audio.overlay);
            &&& mix_laws::says_quality(args, cli.format, cli.quality as int)
            &&& audio.norm.target.i == cli.loudness_i
            &&& audio.norm.target.tp == cli.loudness_tp
            &&& audio.norm.target.lra == cli.loudness_lra
            &&& audio.norm.sample_rate == cli.sample_rate
        }),
{
    let c = assembly::audio_settings(cli, files).overlay;
    mix_laws::law_mix_is_encoded_as_asked(voice, output, duration, pieces, c);
}

} // verus!
