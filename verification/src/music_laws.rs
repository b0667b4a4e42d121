//! What holds of every music track that is normalized, and of the music that comes out.

use crate::assembly_laws;
use crate::assembly_laws::{kept, picks};
use crate::cli::Args;
use crate::command_laws;
use crate::discovery;
use crate::ffmpeg::{LoudnormMeasurement, NormConfig};
use crate::limits::MIN_DURATION;
use crate::music_norm;
use crate::music_norm::{
    MusicNormResult, MusicNormStart, TrackActionView, TrackEvent, TrackStep, TrackView,
};
use crate::number;
use crate::path;
use crate::path_laws;
use crate::reading;
use crate::stderr_laws;
use crate::text;
use crate::text_laws;
use vstd::prelude::*;

verus! {

// ─── Runs over one track ───────────────────────────────────────

/// What has been asked for of a track, and what came of it: the file that was written, what the
/// last probe found, what was measured last, and what is asked for now.
pub struct TrackHistory {
    pub step: TrackStep,
    pub written: Option<Seq<char>>,
    pub found: Option<i64>,
    pub measured: Option<LoudnormMeasurement>,
    pub asked: TrackActionView,
}

/// The history of a track after some events.
pub open spec fn track_history(t: TrackView, config: NormConfig, events: Seq<TrackEvent>) -> TrackHistory
    decreases events.len(),
{
    if events.len() == 0 {
        TrackHistory {
            step: TrackStep::Start,
            written: None,
            found: None,
            measured: None,
            asked: TrackActionView::Ignore,
        }
    } else {
        let before = track_history(t, config, events.drop_last());
        let next = music_norm::track_next(t, config, before.step, events.last());
        TrackHistory {
            step: next.0,
            written: match next.1 {
                TrackActionView::Normalize { output, duration, args } => Some(output),
                _ => before.written,
            },
            found: match events.last() {
                TrackEvent::Probed(found) if before.asked is Probe => found,
                _ => before.found,
            },
            measured: match events.last() {
                TrackEvent::Measured(measured) if before.asked is Measure => measured,
                _ => before.measured,
            },
            asked: if next.1 is Ignore {
                before.asked
            } else {
                next.1
            },
        }
    }
}

proof fn lemma_track_history(t: TrackView, config: NormConfig, events: Seq<TrackEvent>)
    ensures
        ({
            let h = track_history(t, config, events);
            &&& h.written is Some ==> h.written == Some(t.normalized)
            &&& h.step is Start ==> h.asked is Ignore
            &&& h.step is ProbingSource ==> h.asked is Probe
            &&& h.step is Measuring ==> h.asked is Measure
            &&& h.step is Normalizing ==> h.asked is Normalize
            &&& h.step is ProbingResult ==> h.asked is Probe
            &&& h.step is Start || h.step is ProbingSource || h.step is Measuring ==> h.written
                is None
            &&& h.step is Normalizing || h.step is ProbingResult ==> h.written is Some
        }),
    decreases events.len(),
{
    if events.len() > 0 {
        lemma_track_history(t, config, events.drop_last());
    }
}

/// In every run over a track both passes read its source and no other file; the second one writes
/// its normalized file, by what the first one measured. What is written is probed, and its
/// duration is what the run ends with. So where the two files differ, no command reads the file
/// that it writes.
pub proof fn law_tracks_are_normalized_from_their_source(
    t: TrackView,
    config: NormConfig,
    events: Seq<TrackEvent>,
)
    requires
        command_laws::readable_target(config.target),
        events.len() > 0,
        track_history(t, config, events).measured matches Some(m)
            ==> command_laws::readable_measurement(m),
    ensures
        ({
            let before = track_history(t, config, events.drop_last());
            let h = track_history(t, config, events);
            match music_norm::track_next(t, config, before.step, events.last()).1 {
                TrackActionView::Probe { path } => path == match h.written {
                    Some(normalized) => normalized,
                    None => t.source,
                },
                TrackActionView::Measure { duration, args } => {
                    &&& h.written is None
                    &&& command_laws::is_first_pass(
                        args,
                        t.source,
                        config.target,
                        config.ffmpeg_threads as int,
                    )
                },
                TrackActionView::Normalize { output, duration, args } => {
                    &&& output == t.normalized
                    &&& h.measured matches Some(m) && command_laws::is_second_pass(
                        args,
                        t.source,
                        t.normalized,
                        config,
                        m,
                    )
                    &&& t.source != t.normalized ==> !reading::inputs(args).contains(
                        reading::written(args),
                    )
                },
                TrackActionView::Finish(Some(d)) => {
                    &&& h.written == Some(t.normalized)
                    &&& h.found == Some(d)
                    &&& d >= MIN_DURATION
                },
                _ => true,
            }
        }),
{
    let before = track_history(t, config, events.drop_last());
    let h = track_history(t, config, events);
    lemma_track_history(t, config, events.drop_last());
    lemma_track_history(t, config, events);
    match music_norm::track_next(t, config, before.step, events.last()).1 {
        TrackActionView::Measure { duration, args } => {
            command_laws::law_first_pass(t.source, config.target, config.ffmpeg_threads as int);
        },
        TrackActionView::Normalize { output, duration, args } => {
            command_laws::law_second_pass(t.source, t.normalized, config, h.measured->Some_0);
        },
        _ => {},
    }
}

/// A track is given up only where the run was cancelled, a pass failed, or what was written is
/// too short to be used; otherwise it is taken further.
pub proof fn law_tracks_fail_for_a_reason(
    t: TrackView,
    config: NormConfig,
    events: Seq<TrackEvent>,
    event: TrackEvent,
)
    ensures
        ({
            let h = track_history(t, config, events);
            let asked = h.asked;
            let next = music_norm::track_next(t, config, h.step, event).1;
            let refused = match event {
                TrackEvent::Begin { cancelled } => cancelled,
                TrackEvent::Probed(found) => h.written is Some && !(found matches Some(d) && d
                    >= MIN_DURATION),
                TrackEvent::Measured(measured) => measured is None,
                TrackEvent::Normalized(ok) => !ok,
            };
            let answers = match event {
                TrackEvent::Begin { cancelled } => h.step is Start,
                TrackEvent::Probed(found) => asked is Probe && !(h.step is Done),
                TrackEvent::Measured(measured) => asked is Measure,
                TrackEvent::Normalized(ok) => asked is Normalize,
            };
            &&& answers ==> (next == TrackActionView::Finish(None) <==> refused)
            &&& answers ==> !(next is Ignore)
            &&& !answers ==> next is Ignore
        }),
{
    lemma_track_history(t, config, events);
    lemma_asked(t, config, events);
}

proof fn lemma_asked(t: TrackView, config: NormConfig, events: Seq<TrackEvent>)
    ensures
        ({
            let h = track_history(t, config, events);
            h.step is Done ==> h.asked is Finish
        }),
    decreases events.len(),
{
    if events.len() > 0 {
        lemma_asked(t, config, events.drop_last());
    }
}

// ─── Where normalized music goes ───────────────────────────────

/// Normalized music keeps its place: a track below the music directory goes to the same place
/// below the other directory, under its own stem, as a WAV file.
pub proof fn law_normalized_music_keeps_its_place(
    dir: Seq<char>,
    music_dir: Seq<char>,
    rel: Seq<char>,
)
    requires
        music_dir.len() > 0,
        rel.len() > 0,
        rel[0] != '/',
        path::trim_end(path::trim_start(rel)) == rel,
        path::file_name(path::join(dir, rel)) is Some,
    ensures
        ({
            let there = music_norm::normalized_track(dir, music_dir, path::join(music_dir, rel));
            &&& path::parent(there) == path::parent(path::join(dir, rel))
            &&& path::file_stem(there) == path::file_stem(path::join(dir, rel))
            &&& path::extension(there) == Some("wav"@)
        }),
{
    reveal_strlit("wav");
    path_laws::law_tree_is_preserved(music_dir, dir, rel);
    assert forall|i: int| 0 <= i < "wav"@.len() implies #[trigger] "wav"@[i] != '.' && "wav"@[i]
        != '/' by {
        assert(i == 0 || i == 1 || i == 2);
    }
    path_laws::law_new_extension(path::join(dir, rel), "wav"@);
}

// ─── Which music is used ───────────────────────────────────────

/// A normalized file is used again exactly where that is allowed, it is long enough, and it is
/// about as long as its source: two seconds or one part in twenty more or less.
pub proof fn law_what_is_used_again(
    cli: Args,
    is_temp: bool,
    dir: Seq<char>,
    file: Seq<char>,
    duration: i64,
    cached: Option<i64>,
)
    requires
        duration >= 0,
    ensures
        ({
            let reuse = music_norm::may_reuse(cli, is_temp);
            let done = music_norm::already_normalized(
                cli,
                reuse,
                dir,
                seq![file],
                seq![duration],
                seq![cached],
            );
            let todo = music_norm::to_normalize(
                cli,
                reuse,
                dir,
                seq![file],
                seq![duration],
                seq![cached],
            );
            let fits = !cli.force_normalize_music && !is_temp && (cached matches Some(d) && d
                >= MIN_DURATION && (duration - 2_000_000 <= d <= duration + 2_000_000 || 19
                * duration <= 20 * d <= 21 * duration));
            &&& fits ==> todo.len() == 0 && done.len() == 1 && cached == Some(done[0].1)
            &&& !fits ==> done.len() == 0 && todo.len() == 1 && todo[0].source == file
        }),
{
    let files = seq![file];
    assert(files.drop_last() =~= seq![]);
    reveal_with_fuel(music_norm::already_normalized, 2);
    reveal_with_fuel(music_norm::to_normalize, 2);
}

/// Whether a list of music with durations has this pair.
pub open spec fn has_sound(list: Seq<(Seq<char>, i64)>, file: Seq<char>, d: i64) -> bool {
    exists|k: int| 0 <= k < list.len() && #[trigger] list[k] == (file, d)
}

/// What could be normalized is used in place of its source, with the duration that was found of
/// it; what could not is left out.
pub proof fn law_new_music_is_used(
    tracks: Seq<TrackView>,
    results: Seq<Option<i64>>,
    i: int,
)
    requires
        0 <= i < tracks.len(),
    ensures
        results[i] matches Some(d) ==> has_sound(
            music_norm::newly_normalized(tracks, results),
            tracks[i].normalized,
            d,
        ),
        music_norm::newly_normalized(tracks, results).len() <= tracks.len(),
        (forall|k: int| 0 <= k < tracks.len() ==> (#[trigger] results[k]) is None)
            ==> music_norm::newly_normalized(tracks, results).len() == 0,
    decreases tracks.len(),
{
    let front = tracks.drop_last();
    let all = music_norm::newly_normalized(tracks, results);
    let before = music_norm::newly_normalized(front, results);
    if front.len() > 0 {
        law_new_music_is_used(front, results, if i < front.len() {
            i
        } else {
            0
        });
    }
    if let Some(d) = results[i] {
        if i < front.len() {
            let k = choose|k: int|
                0 <= k < before.len() && #[trigger] before[k] == (tracks[i].normalized, d);
            assert(all[k] == (tracks[i].normalized, d));
        } else {
            assert(all[all.len() - 1] == (tracks[i].normalized, d));
        }
    }
}

// ─── Which music is normalized ─────────────────────────────────

/// Which files are used as they were normalized before.
pub open spec fn are_reused(reuse: bool, durations: Seq<i64>, cached: Seq<Option<i64>>, n: nat) -> Seq<
    bool,
> {
    Seq::new(n, |i: int| reuse && music_norm::is_still_valid(cached[i], durations[i]))
}

/// Which files are normalized now.
pub open spec fn are_new(reuse: bool, durations: Seq<i64>, cached: Seq<Option<i64>>, n: nat) -> Seq<
    bool,
> {
    Seq::new(n, |i: int| !(reuse && music_norm::is_still_valid(cached[i], durations[i])))
}

/// Where the music goes when it is normalized.
pub open spec fn normalized_names(cli: Args, dir: Seq<char>, files: Seq<Seq<char>>) -> Seq<Seq<char>> {
    Seq::new(files.len(), |i: int| music_norm::normalized_track(dir, cli.music@, files[i]))
}

proof fn lemma_sorted_out(
    cli: Args,
    reuse: bool,
    dir: Seq<char>,
    files: Seq<Seq<char>>,
    durations: Seq<i64>,
    cached: Seq<Option<i64>>,
    n: nat,
)
    requires
        files.len() <= n,
    ensures
        picks(
            Seq::new(
                files.len(),
                |i: int|
                    TrackView { source: files[i], normalized: normalized_names(cli, dir, files)[i] },
            ),
            are_new(reuse, durations, cached, n),
            music_norm::to_normalize(cli, reuse, dir, files, durations, cached),
        ),
        picks(
            Seq::new(
                files.len(),
                |i: int| (normalized_names(cli, dir, files)[i], cached[i]->Some_0),
            ),
            are_reused(reuse, durations, cached, n),
            music_norm::already_normalized(cli, reuse, dir, files, durations, cached),
        ),
    decreases files.len(),
{
    if files.len() > 0 {
        let less = files.drop_last();
        lemma_sorted_out(cli, reuse, dir, less, durations, cached, n);
        let tracks = Seq::new(
            files.len(),
            |i: int|
                TrackView { source: files[i], normalized: normalized_names(cli, dir, files)[i] },
        );
        let sounds = Seq::new(
            files.len(),
            |i: int| (normalized_names(cli, dir, files)[i], cached[i]->Some_0),
        );
        assert(tracks.drop_last() =~= Seq::new(
            less.len(),
            |i: int|
                TrackView { source: less[i], normalized: normalized_names(cli, dir, less)[i] },
        ));
        assert(sounds.drop_last() =~= Seq::new(
            less.len(),
            |i: int| (normalized_names(cli, dir, less)[i], cached[i]->Some_0),
        ));
        assembly_laws::lemma_picks_more(
            tracks,
            are_new(reuse, durations, cached, n),
            music_norm::to_normalize(cli, reuse, dir, less, durations, cached),
            music_norm::to_normalize(cli, reuse, dir, files, durations, cached),
        );
        assembly_laws::lemma_picks_more(
            sounds,
            are_reused(reuse, durations, cached, n),
            music_norm::already_normalized(cli, reuse, dir, less, durations, cached),
            music_norm::already_normalized(cli, reuse, dir, files, durations, cached),
        );
    }
}

/// The files whose normalized version is still valid are used, with the duration of that version;
/// all others are normalized, each from itself. Both in order.
pub proof fn law_music_is_sorted_out(
    cli: Args,
    reuse: bool,
    dir: Seq<char>,
    files: Seq<Seq<char>>,
    durations: Seq<i64>,
    cached: Seq<Option<i64>>,
)
    ensures
        picks(
            Seq::new(
                files.len(),
                |i: int|
                    TrackView { source: files[i], normalized: normalized_names(cli, dir, files)[i] },
            ),
            are_new(reuse, durations, cached, files.len()),
            music_norm::to_normalize(cli, reuse, dir, files, durations, cached),
        ),
        picks(
            Seq::new(
                files.len(),
                |i: int| (normalized_names(cli, dir, files)[i], cached[i]->Some_0),
            ),
            are_reused(reuse, durations, cached, files.len()),
            music_norm::already_normalized(cli, reuse, dir, files, durations, cached),
        ),
{
    lemma_sorted_out(cli, reuse, dir, files, durations, cached, files.len());
}

/// What was normalized before may be used exactly where it is not asked for anew and its
/// directory stays.
pub proof fn law_reuse(cli: Args, is_temp: bool)
    ensures
        music_norm::may_reuse(cli, is_temp) <==> !(cli.force_normalize_music || is_temp),
{
}

/// Which tracks came out.
pub open spec fn came_out(results: Seq<Option<i64>>) -> Seq<bool> {
    Seq::new(results.len(), |i: int| results[i] is Some)
}

/// The tracks with the durations that they came out with.
pub open spec fn outcomes(tracks: Seq<TrackView>, results: Seq<Option<i64>>) -> Seq<
    (Seq<char>, i64),
> {
    Seq::new(tracks.len(), |i: int| (tracks[i].normalized, results[i]->Some_0))
}

proof fn lemma_came_out(tracks: Seq<TrackView>, results: Seq<Option<i64>>)
    requires
        tracks.len() <= results.len(),
    ensures
        picks(
            outcomes(tracks, results),
            came_out(results),
            music_norm::newly_normalized(tracks, results),
        ),
    decreases tracks.len(),
{
    if tracks.len() > 0 {
        let all = outcomes(tracks, results);
        lemma_came_out(tracks.drop_last(), results);
        assert(all.drop_last() =~= outcomes(tracks.drop_last(), results));
        assembly_laws::lemma_picks_more(
            all,
            came_out(results),
            music_norm::newly_normalized(tracks.drop_last(), results),
            music_norm::newly_normalized(tracks, results),
        );
    }
}

/// The music that is used is what was normalized before, and behind it every track that came out
/// now, in order and with its own duration. It fails exactly where there is none.
pub proof fn law_music_is_put_together(
    done: Seq<(Seq<char>, i64)>,
    tracks: Seq<TrackView>,
    results: Seq<Option<i64>>,
    r: Result<MusicNormResult, String>,
)
    requires
        tracks.len() == results.len(),
        music_norm::is_put_together(done, tracks, results, r),
    ensures
        r is Err <==> done.len() == 0 && kept(came_out(results), tracks.len() as int) == 0,
        r matches Ok(music) ==> {
            let n = done.len();
            &&& music.files@.len() == n + kept(came_out(results), tracks.len() as int)
            &&& music.durations@.len() == music.files@.len()
            &&& forall|i: int|
                0 <= i < n ==> (#[trigger] music.files@[i])@ == done[i].0 && music.durations@[i]
                    == done[i].1
            &&& forall|i: int|
                0 <= i < tracks.len() && (#[trigger] results[i]) is Some ==> {
                    let k = n + kept(came_out(results), i);
                    &&& music.files@[k]@ == tracks[i].normalized
                    &&& music.durations@[k] == results[i]->Some_0
                }
        },
{
    lemma_came_out(tracks, results);
    let new = music_norm::newly_normalized(tracks, results);
    let all = done + new;
    if let Ok(music) = r {
        let side = music_norm::side_by_side(text::texts(music.files@), music.durations@);
        assert(side == all);
        assert(side.len() == music.files@.len());
        assert forall|i: int| 0 <= i < done.len() implies (#[trigger] music.files@[i])@ == done[i].0
            && music.durations@[i] == done[i].1 by {
            assert(side[i] == all[i]);
        }
        assert forall|i: int| 0 <= i < tracks.len() && (#[trigger] results[i]) is Some implies {
            let k = done.len() + kept(came_out(results), i);
            &&& music.files@[k]@ == tracks[i].normalized
            &&& music.durations@[k] == results[i]->Some_0
        } by {
            assert(came_out(results)[i]);
            let k = done.len() + kept(came_out(results), i);
            assert(new[kept(came_out(results), i)] == outcomes(tracks, results)[i]);
            assert(side[k] == all[k]);
        }
    }
}

// ─── Where music is normalized ─────────────────────────────────

/// Music is normalized exactly where that is asked for and the run is no dry one; into the
/// directory that is given, or else into one beside the music, which is another than the one
/// beside the input.
pub proof fn law_music_is_normalized_where_asked(cli: Args, r: MusicNormStart, input: Seq<char>)
    requires
        music_norm::is_start(cli, r),
    ensures
        r is Into <==> cli.normalize_music && !cli.dry_run,
        r is Disabled <==> !cli.normalize_music,
        r matches MusicNormStart::Into(dir) ==> match cli.normalize_music_output {
            Some(given) => dir@ == given@,
            None => dir@ != discovery::beside_input(input) && text::ends_with(
                dir@,
                "_normalized"@,
            ),
        },
{
    if cli.normalize_music && !cli.dry_run && cli.normalize_music_output is None {
        let a = music_norm::beside_music(cli.music@);
        let b = discovery::beside_input(input);
        reveal_strlit("_normalized");
        reveal_strlit("_processed");
        lemma_sibling_ends(cli.music@, "_normalized"@);
        lemma_sibling_ends(input, "_processed"@);
        assert(a.skip(a.len() - 11)[8] == 'z');
        assert(b.skip(b.len() - 10)[7] == 's');
        assert(a[a.len() - 3] == 'z');
        assert(b[b.len() - 3] == 's');
    }
}

proof fn lemma_sibling_ends(p: Seq<char>, suffix: Seq<char>)
    requires
        suffix.len() > 0,
    ensures
        text::ends_with(discovery::sibling(p, suffix), suffix),
{
    let name = match path::file_name(p) {
        Some(n) => n,
        None => p,
    } + suffix;
    let s = discovery::sibling(p, suffix);
    assert(s.skip(s.len() - suffix.len()) =~= suffix);
}

/// An answer declines exactly where it says `n` or `no`, in capitals or not and whatever white
/// space stands round it.
pub proof fn law_answers(front: Seq<char>, word: Seq<char>, back: Seq<char>)
    requires
        text_laws::blank(front),
        text_laws::blank(back),
        word.len() > 0,
        !text::is_space(word[0]),
        !text::is_space(word.last()),
    ensures
        music_norm::declines(front + word + back) <==> number::ascii_lower(word) == "n"@
            || number::ascii_lower(word) == "no"@,
        music_norm::declines(front + seq!['n'] + back),
        music_norm::declines(front + seq!['N'] + back),
        music_norm::declines(front + seq!['N', 'o'] + back),
        !music_norm::declines(front + seq!['y'] + back),
{
    reveal_strlit("n");
    reveal_strlit("no");
    stderr_laws::lemma_trimmed_is(front, word, back);
    stderr_laws::lemma_trimmed_is(front, seq!['n'], back);
    stderr_laws::lemma_trimmed_is(front, seq!['N'], back);
    stderr_laws::lemma_trimmed_is(front, seq!['N', 'o'], back);
    stderr_laws::lemma_trimmed_is(front, seq!['y'], back);
    assert(number::ascii_lower(seq!['n']) =~= "n"@);
    assert(number::ascii_lower(seq!['N']) =~= "n"@);
    assert(number::ascii_lower(seq!['N', 'o']) =~= "no"@);
    assert(number::ascii_lower(seq!['y'])[0] == 'y');
    assert("n"@[0] == 'n' && "no"@[0] == 'n');
}

} // verus!
