//! Music normalization — two-pass EBU R128 loudnorm for background
//! music tracks, with caching to avoid re-normalizing across runs.

use crate::cli::Args;
use crate::discovery;
use crate::discovery::sibling_dir;
use crate::ffmpeg;
use crate::ffmpeg::{
    measure_loudness_args, normalize_two_pass, LoudnormMeasurement, NormConfig,
};
use crate::limits::MIN_DURATION;
use crate::number;
use crate::number::ascii_lower_text;
use crate::path;
use crate::path::{join_paths, path_below, set_extension};
use crate::text;
use crate::text::{same_text, trim_text};
use vstd::prelude::*;

verus! {

/// Absolute tolerance (microseconds) when comparing a cached normalized file's
/// duration to the original source duration.
pub const NORM_DURATION_TOLERANCE: i64 = 2_000_000;

// ─── Paths ─────────────────────────────────────────────────────

/// The directory that normalized music goes to where none is given.
pub open spec fn beside_music(music: Seq<char>) -> Seq<char> {
    discovery::sibling(music, "_normalized"@)
}

/// Derive the default normalized-music output directory from the music path.
///
/// `./music` → `./music_normalized`
/// `./path/to/bgm` → `./path/to/bgm_normalized`
pub fn default_normalize_music_dir(music: &str) -> (r: String)
    ensures
        r@ == beside_music(music@),
{
    sibling_dir(music, "_normalized")
}

/// Where the normalized version of a track goes.
pub open spec fn normalized_track(
    norm_dir: Seq<char>,
    music_dir: Seq<char>,
    source: Seq<char>,
) -> Seq<char> {
    path::with_extension(path::join(norm_dir, path::relative_to(source, music_dir)), "wav"@)
}

/// Deterministic path for the normalized version of a music source file.
///
/// Preserves the relative directory structure from `music_dir` inside
/// `norm_dir`, replacing the extension with `.wav`.
///
/// ```text
/// music_dir  = ./music
/// source     = ./music/ambient/track1.mp3
/// norm_dir   = ./music_normalized
/// result     = ./music_normalized/ambient/track1.wav
/// ```
pub fn normalized_music_path(norm_dir: &str, music_dir: &str, source: &str) -> (r: String)
    ensures
        r@ == normalized_track(norm_dir@, music_dir@, source@),
{
    let rel = path_below(source, music_dir);
    set_extension(join_paths(norm_dir, rel.as_str()).as_str(), "wav")
}

// ─── Where normalized music goes ───────────────────────────────

/// Whether and where music is normalized.
#[derive(Debug)]
pub enum MusicNormStart {
    /// Music is used as it is.
    Disabled,
    /// Music would be normalized, but this is a dry run.
    DryRun,
    /// Music is normalized into this directory, if it can be created.
    Into(String),
}

/// The directory that normalized music is meant for.
pub open spec fn wanted_dir(cli: Args) -> Seq<char> {
    match cli.normalize_music_output {
        Some(dir) => dir@,
        None => beside_music(cli.music@),
    }
}

/// Whether music is normalized where these settings ask for it.
pub open spec fn is_start(cli: Args, r: MusicNormStart) -> bool {
    &&& !cli.normalize_music ==> r is Disabled
    &&& cli.normalize_music && cli.dry_run ==> r is DryRun
    &&& cli.normalize_music && !cli.dry_run ==> (r matches MusicNormStart::Into(dir) && dir@
        == wanted_dir(cli))
}

/// Whether and where music is normalized.
pub fn music_norm_start(cli: &Args) -> (r: MusicNormStart)
    ensures
        is_start(*cli, r),
{
    if !cli.normalize_music {
        return MusicNormStart::Disabled;
    }
    if cli.dry_run {
        return MusicNormStart::DryRun;
    }
    match &cli.normalize_music_output {
        Some(dir) => MusicNormStart::Into(dir.clone()),
        None => MusicNormStart::Into(default_normalize_music_dir(cli.music.as_str())),
    }
}

/// Whether an answer declines to go on.
pub open spec fn declines(answer: Seq<char>) -> bool {
    let a = number::ascii_lower(text::trimmed(answer));
    a == "n"@ || a == "no"@
}

/// Whether a run goes on after an answer, where there is one.
pub open spec fn goes_on(answer: Option<String>) -> bool {
    match answer {
        Some(a) => !declines(a@),
        None => false,
    }
}

/// Whether to go on with a temporary directory, given what was read from the user; `None`
/// where nothing could be read.
pub fn continue_with_temp_dir(answer: &Option<String>) -> (r: Result<(), String>)
    ensures
        r is Ok <==> goes_on(*answer),
        r matches Err(e) ==> e@ == "Aborted by user."@,
{
    match answer {
        None => Err("Aborted by user.".to_owned()),
        Some(a) => {
            let said = ascii_lower_text(trim_text(a.as_str()).as_str());
            if same_text(said.as_str(), "n") || same_text(said.as_str(), "no") {
                Err("Aborted by user.".to_owned())
            } else {
                Ok(())
            }
        },
    }
}

// ─── Already normalized files ──────────────────────────────────

/// Whether a normalized file of this duration stands for a source of that duration: it can be
/// used, and differs by no more than the absolute tolerance or one part in twenty.
pub open spec fn is_still_valid(cached: Option<i64>, source: i64) -> bool {
    match cached {
        None => false,
        Some(d) => {
            let diff = number::abs(d - source);
            d >= MIN_DURATION && (diff <= NORM_DURATION_TOLERANCE || 20 * diff <= source)
        },
    }
}

/// Whether a normalized file of this duration stands for a source of that duration.
pub fn is_valid_cached(cached: Option<i64>, source: i64) -> (r: bool)
    ensures
        r == is_still_valid(cached, source),
{
    match cached {
        None => false,
        Some(d) => {
            if d < MIN_DURATION {
                return false;
            }
            let diff: i128 = if d >= source {
                d as i128 - source as i128
            } else {
                source as i128 - d as i128
            };
            diff <= NORM_DURATION_TOLERANCE as i128 || 20 * diff <= source as i128
        },
    }
}

/// Whether files that are already normalized may be used.
pub open spec fn may_reuse(cli: Args, is_temp: bool) -> bool {
    !cli.force_normalize_music && !is_temp
}

/// Whether files that are already normalized may be used: not where normalization is forced or
/// its directory is a temporary one.
pub fn can_use_cache(cli: &Args, is_temp: bool) -> (r: bool)
    ensures
        r == may_reuse(*cli, is_temp),
{
    !cli.force_normalize_music && !is_temp
}

/// A source and what it is normalized to.
#[derive(Debug)]
pub struct Track {
    pub source: String,
    pub normalized: String,
}

/// What a [`Track`] says.
pub struct TrackView {
    pub source: Seq<char>,
    pub normalized: Seq<char>,
}

impl View for Track {
    type V = TrackView;

    open spec fn view(&self) -> TrackView {
        TrackView { source: self.source@, normalized: self.normalized@ }
    }
}

/// The tracks in a list.
pub open spec fn tracks_view(v: Seq<Track>) -> Seq<TrackView> {
    Seq::new(v.len(), |i: int| v[i]@)
}

/// A music file and its duration.
pub open spec fn sounds_view(v: Seq<(String, i64)>) -> Seq<(Seq<char>, i64)> {
    Seq::new(v.len(), |i: int| (v[i].0@, v[i].1))
}

/// The tracks that are to be normalized, in order: those without a valid normalized file.
pub open spec fn to_normalize(
    cli: Args,
    reuse: bool,
    dir: Seq<char>,
    files: Seq<Seq<char>>,
    durations: Seq<i64>,
    cached: Seq<Option<i64>>,
) -> Seq<TrackView>
    decreases files.len(),
{
    if files.len() == 0 {
        seq![]
    } else {
        let last = files.len() - 1;
        let front = to_normalize(cli, reuse, dir, files.drop_last(), durations, cached);
        if reuse && is_still_valid(cached[last], durations[last]) {
            front
        } else {
            front.push(
                TrackView {
                    source: files[last],
                    normalized: normalized_track(dir, cli.music@, files[last]),
                },
            )
        }
    }
}

/// The normalized files that are already there, in order, with their durations.
pub open spec fn already_normalized(
    cli: Args,
    reuse: bool,
    dir: Seq<char>,
    files: Seq<Seq<char>>,
    durations: Seq<i64>,
    cached: Seq<Option<i64>>,
) -> Seq<(Seq<char>, i64)>
    decreases files.len(),
{
    if files.len() == 0 {
        seq![]
    } else {
        let last = files.len() - 1;
        let front = already_normalized(cli, reuse, dir, files.drop_last(), durations, cached);
        if reuse && is_still_valid(cached[last], durations[last]) {
            front.push((normalized_track(dir, cli.music@, files[last]), cached[last]->Some_0))
        } else {
            front
        }
    }
}

/// Tells the files that are already normalized from those that are still to be. `cached`
/// holds for each music file the duration of its normalized version, where there is one;
/// it is only looked at where such files may be used.
pub fn check_already_normalized(
    cli: &Args,
    is_temp: bool,
    dir: &str,
    music_files: &Vec<String>,
    music_durs: &Vec<i64>,
    cached: &Vec<Option<i64>>,
) -> (r: (Vec<(String, i64)>, Vec<Track>))
    requires
        music_files@.len() == music_durs@.len(),
        may_reuse(*cli, is_temp) ==> cached@.len() == music_files@.len(),
    ensures
        sounds_view(r.0@) == already_normalized(
            *cli,
            may_reuse(*cli, is_temp),
            dir@,
            text::texts(music_files@),
            music_durs@,
            cached@,
        ),
        tracks_view(r.1@) == to_normalize(
            *cli,
            may_reuse(*cli, is_temp),
            dir@,
            text::texts(music_files@),
            music_durs@,
            cached@,
        ),
{
    let reuse = can_use_cache(cli, is_temp);
    let ghost files = text::texts(music_files@);
    let mut done: Vec<(String, i64)> = Vec::new();
    let mut todo: Vec<Track> = Vec::new();
    let mut i: usize = 0;
    proof {
        assert(files.take(0) =~= seq![]);
        assert(sounds_view(done@) =~= seq![]);
        assert(tracks_view(todo@) =~= seq![]);
    }
    while i < music_files.len()
        invariant
            i <= music_files@.len(),
            music_files@.len() == music_durs@.len(),
            reuse ==> cached@.len() == music_files@.len(),
            reuse == may_reuse(*cli, is_temp),
            files == text::texts(music_files@),
            sounds_view(done@) == already_normalized(
                *cli,
                reuse,
                dir@,
                files.take(i as int),
                music_durs@,
                cached@,
            ),
            tracks_view(todo@) == to_normalize(
                *cli,
                reuse,
                dir@,
                files.take(i as int),
                music_durs@,
                cached@,
            ),
        decreases music_files.len() - i,
    {
        proof {
            assert(files.take(i + 1).drop_last() =~= files.take(i as int));
            assert(files.take(i + 1)[i as int] == music_files@[i as int]@);
        }
        let ghost was_done = done@;
        let ghost was_todo = todo@;
        let source = music_files[i].as_str();
        let normalized = normalized_music_path(dir, cli.music.as_str(), source);
        let valid = if reuse {
            is_valid_cached(cached[i], music_durs[i])
        } else {
            false
        };
        if valid {
            if let Some(d) = cached[i] {
                let sound = (normalized, d);
                done.push(sound);
                assert(sounds_view(done@) =~= sounds_view(was_done).push((sound.0@, d)));
            }
        } else {
            let track = Track { source: source.to_owned(), normalized };
            todo.push(track);
            assert(tracks_view(todo@) =~= tracks_view(was_todo).push(track@));
        }
        i += 1;
    }
    assert(files.take(i as int) =~= files);
    (done, todo)
}

// ─── One track ─────────────────────────────────────────────────

/// How far a track has come.
#[derive(Debug, Clone, Copy)]
pub enum TrackStep {
    Start,
    ProbingSource,
    Measuring { duration: i64 },
    Normalizing,
    ProbingResult,
    Done,
}

/// What came of the last action.
#[derive(Debug)]
pub enum TrackEvent {
    /// A worker takes the track up, unless the run was cancelled.
    Begin { cancelled: bool },
    /// The duration that was found.
    Probed(Option<i64>),
    /// The loudness that was measured.
    Measured(Option<LoudnormMeasurement>),
    /// The track was normalized, or not.
    Normalized(bool),
}

/// What is to be done next.
#[derive(Debug)]
pub enum TrackAction {
    /// Nothing is left to do: the duration of the normalized track, or nothing where it
    /// cannot be used.
    Finish(Option<i64>),
    /// Find the duration of a file.
    Probe { path: String },
    /// Run ffmpeg to measure the loudness of a track of this duration.
    Measure { duration: i64, args: Vec<String> },
    /// Run ffmpeg to normalize a track of this duration.
    Normalize { output: String, duration: i64, args: Vec<String> },
    /// The event does not answer the step: go on waiting.
    Ignore,
}

/// What a [`TrackAction`] says.
pub enum TrackActionView {
    Finish(Option<i64>),
    Probe { path: Seq<char> },
    Measure { duration: i64, args: Seq<Seq<char>> },
    Normalize { output: Seq<char>, duration: i64, args: Seq<Seq<char>> },
    Ignore,
}

impl View for TrackAction {
    type V = TrackActionView;

    open spec fn view(&self) -> TrackActionView {
        match self {
            TrackAction::Finish(d) => TrackActionView::Finish(*d),
            TrackAction::Probe { path } => TrackActionView::Probe { path: path@ },
            TrackAction::Measure { duration, args } => TrackActionView::Measure {
                duration: *duration,
                args: text::texts(args@),
            },
            TrackAction::Normalize { output, duration, args } => TrackActionView::Normalize {
                output: output@,
                duration: *duration,
                args: text::texts(args@),
            },
            TrackAction::Ignore => TrackActionView::Ignore,
        }
    }
}

/// The duration of a normalized track, where it can be used.
pub open spec fn usable_duration(found: Option<i64>) -> Option<i64> {
    match found {
        Some(d) if d >= MIN_DURATION => Some(d),
        _ => None,
    }
}

/// What follows an event.
pub open spec fn track_next(t: TrackView, config: NormConfig, step: TrackStep, event: TrackEvent) -> (
    TrackStep,
    TrackActionView,
) {
    match (step, event) {
        (TrackStep::Start, TrackEvent::Begin { cancelled }) => if cancelled {
            (TrackStep::Done, TrackActionView::Finish(None))
        } else {
            (TrackStep::ProbingSource, TrackActionView::Probe { path: t.source })
        },
        (TrackStep::ProbingSource, TrackEvent::Probed(found)) => {
            let duration = match found {
                Some(d) => d,
                None => 0,
            };
            (
                TrackStep::Measuring { duration },
                TrackActionView::Measure {
                    duration,
                    args: ffmpeg::measure_arguments(
                        t.source,
                        config.target,
                        config.ffmpeg_threads as int,
                    ),
                },
            )
        },
        (TrackStep::Measuring { duration }, TrackEvent::Measured(measured)) => match measured {
            None => (TrackStep::Done, TrackActionView::Finish(None)),
            Some(m) => (
                TrackStep::Normalizing,
                TrackActionView::Normalize {
                    output: t.normalized,
                    duration,
                    args: ffmpeg::normalize_arguments(t.source, t.normalized, config, m),
                },
            ),
        },
        (TrackStep::Normalizing, TrackEvent::Normalized(ok)) => if ok {
            (TrackStep::ProbingResult, TrackActionView::Probe { path: t.normalized })
        } else {
            (TrackStep::Done, TrackActionView::Finish(None))
        },
        (TrackStep::ProbingResult, TrackEvent::Probed(found)) => (
            TrackStep::Done,
            TrackActionView::Finish(usable_duration(found)),
        ),
        _ => (step, TrackActionView::Ignore),
    }
}

/// Normalizes one track: probe → measure → normalize → probe. Takes how far the track has
/// come and what came of the last action, and returns what is to be done next.
pub fn normalize_track(t: &Track, config: &NormConfig, step: TrackStep, event: TrackEvent) -> (r: (
    TrackStep,
    TrackAction,
))
    ensures
        (r.0, r.1@) == track_next(t@, *config, step, event),
{
    match (step, event) {
        (TrackStep::Start, TrackEvent::Begin { cancelled }) => {
            if cancelled {
                (TrackStep::Done, TrackAction::Finish(None))
            } else {
                (TrackStep::ProbingSource, TrackAction::Probe { path: t.source.clone() })
            }
        },
        (TrackStep::ProbingSource, TrackEvent::Probed(found)) => {
            let duration: i64 = match found {
                Some(d) => d,
                None => 0,
            };
            let args = measure_loudness_args(
                t.source.as_str(),
                &config.target,
                config.ffmpeg_threads,
            );
            (TrackStep::Measuring { duration }, TrackAction::Measure { duration, args })
        },
        (TrackStep::Measuring { duration }, TrackEvent::Measured(measured)) => match measured {
            None => (TrackStep::Done, TrackAction::Finish(None)),
            Some(m) => {
                let args = normalize_two_pass(
                    t.source.as_str(),
                    t.normalized.as_str(),
                    config,
                    &m,
                );
                (
                    TrackStep::Normalizing,
                    TrackAction::Normalize { output: t.normalized.clone(), duration, args },
                )
            },
        },
        (TrackStep::Normalizing, TrackEvent::Normalized(ok)) => {
            if ok {
                (TrackStep::ProbingResult, TrackAction::Probe { path: t.normalized.clone() })
            } else {
                (TrackStep::Done, TrackAction::Finish(None))
            }
        },
        (TrackStep::ProbingResult, TrackEvent::Probed(found)) => {
            let usable: Option<i64> = match found {
                Some(d) => {
                    if d >= MIN_DURATION {
                        Some(d)
                    } else {
                        None
                    }
                },
                None => None,
            };
            (TrackStep::Done, TrackAction::Finish(usable))
        },
        _ => (step, TrackAction::Ignore),
    }
}

// ─── Result ────────────────────────────────────────────────────

/// Result of the music normalization phase.
#[derive(Debug)]
pub struct MusicNormResult {
    /// Normalized music file paths.
    pub files: Vec<String>,
    /// Corresponding durations in microseconds.
    pub durations: Vec<i64>,
}

/// The tracks that could be normalized, in order, with their durations.
pub open spec fn newly_normalized(tracks: Seq<TrackView>, results: Seq<Option<i64>>) -> Seq<
    (Seq<char>, i64),
>
    decreases tracks.len(),
{
    if tracks.len() == 0 {
        seq![]
    } else {
        let front = newly_normalized(tracks.drop_last(), results);
        match results[tracks.len() - 1] {
            Some(d) => front.push((tracks.last().normalized, d)),
            None => front,
        }
    }
}

/// The files and durations of a result, side by side.
pub open spec fn side_by_side(files: Seq<Seq<char>>, durations: Seq<i64>) -> Seq<(Seq<char>, i64)> {
    Seq::new(files.len(), |i: int| (files[i], durations[i]))
}

/// Whether this is the music that is used in place of the sources.
pub open spec fn is_put_together(
    done: Seq<(Seq<char>, i64)>,
    tracks: Seq<TrackView>,
    results: Seq<Option<i64>>,
    r: Result<MusicNormResult, String>,
) -> bool {
    let all = done + newly_normalized(tracks, results);
    match r {
        Ok(music) => {
            &&& all.len() > 0
            &&& music.files@.len() == music.durations@.len()
            &&& side_by_side(text::texts(music.files@), music.durations@) == all
        },
        Err(e) => all.len() == 0 && e@ == "All music normalization failed."@,
    }
}

/// Puts the music together that is used in place of the sources: what was already
/// normalized, and then what was newly normalized. `results` holds for each track the
/// duration of its normalized version, where it could be made.
///
/// Fails where no music is left.
pub fn normalize_music(
    already_done: &Vec<(String, i64)>,
    tracks: &Vec<Track>,
    results: &Vec<Option<i64>>,
) -> (r: Result<MusicNormResult, String>)
    requires
        tracks@.len() == results@.len(),
    ensures
        is_put_together(sounds_view(already_done@), tracks_view(tracks@), results@, r),
{
    let ghost old_part = sounds_view(already_done@);
    let ghost views = tracks_view(tracks@);
    let mut files: Vec<String> = Vec::new();
    let mut durations: Vec<i64> = Vec::new();
    let mut i: usize = 0;
    assert(side_by_side(text::texts(files@), durations@) =~= old_part.take(0));
    while i < already_done.len()
        invariant
            i <= already_done@.len(),
            old_part == sounds_view(already_done@),
            files@.len() == durations@.len(),
            side_by_side(text::texts(files@), durations@) == old_part.take(i as int),
        decreases already_done.len() - i,
    {
        let ghost had = old_part.take(i as int);
        let ghost was_files = files@;
        let ghost was_durations = durations@;
        files.push(already_done[i].0.clone());
        durations.push(already_done[i].1);
        proof {
            lemma_push(was_files, was_durations, files@.last(), durations@.last());
            assert(old_part.take(i + 1) =~= had.push(old_part[i as int]));
        }
        i += 1;
    }
    let mut k: usize = 0;
    proof {
        assert(old_part.take(i as int) =~= old_part);
        assert(views.take(0) =~= seq![]);
        assert(side_by_side(text::texts(files@), durations@) =~= old_part + newly_normalized(
            views.take(0),
            results@,
        ));
    }
    while k < tracks.len()
        invariant
            k <= tracks@.len(),
            tracks@.len() == results@.len(),
            views == tracks_view(tracks@),
            files@.len() == durations@.len(),
            side_by_side(text::texts(files@), durations@) == old_part + newly_normalized(
                views.take(k as int),
                results@,
            ),
        decreases tracks.len() - k,
    {
        let ghost was_files = files@;
        let ghost was_durations = durations@;
        let ghost had = newly_normalized(views.take(k as int), results@);
        proof {
            assert(views.take(k + 1).drop_last() =~= views.take(k as int));
            assert(views.take(k + 1).last() == tracks@[k as int]@);
        }
        if let Some(d) = results[k] {
            files.push(tracks[k].normalized.clone());
            durations.push(d);
            proof {
                lemma_push(was_files, was_durations, files@.last(), durations@.last());
                assert((old_part + had).push((tracks@[k as int].normalized@, d)) =~= old_part
                    + had.push((tracks@[k as int].normalized@, d)));
            }
        }
        k += 1;
    }
    assert(views.take(k as int) =~= views);
    if files.len() == 0 {
        assert(side_by_side(text::texts(files@), durations@).len() == 0);
        return Err("All music normalization failed.".to_owned());
    }
    assert(side_by_side(text::texts(files@), durations@).len() > 0);
    Ok(MusicNormResult { files, durations })
}

proof fn lemma_push(files: Seq<String>, durations: Seq<i64>, f: String, d: i64)
    requires
        files.len() == durations.len(),
    ensures
        side_by_side(text::texts(files.push(f)), durations.push(d)) == side_by_side(
            text::texts(files),
            durations,
        ).push((f@, d)),
{
    assert(side_by_side(text::texts(files.push(f)), durations.push(d)) =~= side_by_side(
        text::texts(files),
        durations,
    ).push((f@, d)));
}

// ─── Laws ──────────────────────────────────────────────────────

/// Every music file is either already normalized or to be normalized, and never both.
pub proof fn law_no_track_is_lost(
    cli: Args,
    reuse: bool,
    dir: Seq<char>,
    files: Seq<Seq<char>>,
    durations: Seq<i64>,
    cached: Seq<Option<i64>>,
)
    ensures
        already_normalized(cli, reuse, dir, files, durations, cached).len() + to_normalize(
            cli,
            reuse,
            dir,
            files,
            durations,
            cached,
        ).len() == files.len(),
    decreases files.len(),
{
    if files.len() > 0 {
        law_no_track_is_lost(cli, reuse, dir, files.drop_last(), durations, cached);
    }
}

/// Where normalization is forced, or its directory is a temporary one, every music file is
/// normalized anew, in order.
pub proof fn law_forcing_normalizes_all(
    cli: Args,
    is_temp: bool,
    dir: Seq<char>,
    files: Seq<Seq<char>>,
    durations: Seq<i64>,
    cached: Seq<Option<i64>>,
)
    requires
        cli.force_normalize_music || is_temp,
    ensures
        already_normalized(cli, may_reuse(cli, is_temp), dir, files, durations, cached).len() == 0,
        to_normalize(cli, may_reuse(cli, is_temp), dir, files, durations, cached) == Seq::new(
            files.len(),
            |i: int|
                TrackView {
                    source: files[i],
                    normalized: normalized_track(dir, cli.music@, files[i]),
                },
        ),
    decreases files.len(),
{
    let all = Seq::new(
        files.len(),
        |i: int|
            TrackView {
                source: files[i],
                normalized: normalized_track(dir, cli.music@, files[i]),
            },
    );
    if files.len() > 0 {
        law_forcing_normalizes_all(cli, is_temp, dir, files.drop_last(), durations, cached);
    }
    assert(to_normalize(cli, may_reuse(cli, is_temp), dir, files, durations, cached) =~= all);
}

/// Whether all sounds of a list can be used.
pub open spec fn all_usable(sounds: Seq<(Seq<char>, i64)>) -> bool {
    forall|i: int| 0 <= i < sounds.len() ==> (#[trigger] sounds[i]).1 >= MIN_DURATION
}

/// What is used of the files that are already there can be used: none is too short.
pub proof fn law_reused_music_is_usable(
    cli: Args,
    reuse: bool,
    dir: Seq<char>,
    files: Seq<Seq<char>>,
    durations: Seq<i64>,
    cached: Seq<Option<i64>>,
)
    ensures
        all_usable(already_normalized(cli, reuse, dir, files, durations, cached)),
    decreases files.len(),
{
    if files.len() > 0 {
        law_reused_music_is_usable(cli, reuse, dir, files.drop_last(), durations, cached);
    }
}

/// What is newly normalized can be used: a track is only finished with a duration that is
/// long enough.
pub proof fn law_new_music_is_usable(
    t: TrackView,
    config: NormConfig,
    step: TrackStep,
    event: TrackEvent,
)
    ensures
        track_next(t, config, step, event).1 matches TrackActionView::Finish(Some(d)) ==> d
            >= MIN_DURATION && step is ProbingResult,
{
}

/// All music that comes out of normalization can be used.
pub proof fn law_normalized_music_is_usable(
    done: Seq<(Seq<char>, i64)>,
    tracks: Seq<TrackView>,
    results: Seq<Option<i64>>,
)
    requires
        all_usable(done),
        forall|i: int|
            0 <= i < tracks.len() ==> (#[trigger] results[i] matches Some(d) ==> d >= MIN_DURATION),
    ensures
        all_usable(done + newly_normalized(tracks, results)),
    decreases tracks.len(),
{
    if tracks.len() > 0 {
        law_normalized_music_is_usable(done, tracks.drop_last(), results);
        let front = done + newly_normalized(tracks.drop_last(), results);
        let all = done + newly_normalized(tracks, results);
        let last = results[tracks.len() - 1];
        assert forall|i: int| 0 <= i < all.len() implies (#[trigger] all[i]).1
            >= MIN_DURATION by {
            if i < front.len() {
                assert(all[i] == front[i]);
            }
        }
    }
}

/// Music that was normalized is not normalized again in a later run, as long as the normalized
/// files are there and match their sources.
pub proof fn law_normalized_music_is_reused(
    cli: Args,
    dir: Seq<char>,
    files: Seq<Seq<char>>,
    durations: Seq<i64>,
    cached: Seq<Option<i64>>,
)
    requires
        !cli.force_normalize_music,
        forall|i: int|
            0 <= i < files.len() ==> is_still_valid(#[trigger] cached[i], durations[i]),
    ensures
        to_normalize(cli, may_reuse(cli, false), dir, files, durations, cached).len() == 0,
        already_normalized(cli, may_reuse(cli, false), dir, files, durations, cached) == Seq::new(
            files.len(),
            |i: int| (normalized_track(dir, cli.music@, files[i]), cached[i]->Some_0),
        ),
    decreases files.len(),
{
    if files.len() > 0 {
        law_normalized_music_is_reused(cli, dir, files.drop_last(), durations, cached);
        assert(is_still_valid(cached[files.len() - 1], durations[files.len() - 1]));
    }
    assert(already_normalized(cli, may_reuse(cli, false), dir, files, durations, cached)
        =~= Seq::new(
        files.len(),
        |i: int| (normalized_track(dir, cli.music@, files[i]), cached[i]->Some_0),
    ));
}

} // verus!
