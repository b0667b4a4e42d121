//! What holds of a whole run: the settings decide how the music is played.

use crate::assembly;
use crate::cli;
use crate::cli::{Args, InputItem, ItemView};
use crate::ffmpeg::OutputFormat;
use crate::music_norm::MusicNormResult;
use crate::pipeline;
use crate::pipeline::{FilePlan, MusicInput};
use crate::plan;
use crate::plan::{Music, MusicPiece, Piece};
use crate::plan_laws;
use crate::playlist_laws;
use crate::text;
use vstd::prelude::*;

verus! {

/// The music that a run plays: what normalization came to, or else what was found; with the
/// pauses and crossfades that are asked for.
pub open spec fn music_of_run(
    cli: Args,
    files: Seq<String>,
    durations: Seq<i64>,
    normalized: Option<MusicNormResult>,
) -> Music {
    Music {
        files: match normalized {
            Some(n) => text::texts(n.files@),
            None => text::texts(files),
        },
        durations: match normalized {
            Some(n) => n.durations@,
            None => durations,
        },
        pause: cli.pause as int,
        crossfade: cli.crossfade as int,
    }
}

/// Whether what stands behind the piece at place `j` is as it should be where a pause is asked
/// for.
pub open spec fn pause_behind(pieces: Seq<Piece>, j: int, pause: int, lasting: int) -> bool {
    pieces[j] is Segment ==> match pieces[j + 1] {
        Piece::Silence { duration } => duration == pause || (j + 2 == pieces.len() && plan::total(
            pieces,
        ) == lasting && 0 < duration < pause),
        _ => false,
    }
}

/// Every output of a run gets music from its start to its end, from the music of the run, with
/// the pauses and the crossfades that are asked for.
pub proof fn law_music_is_played_as_asked(
    cli: Args,
    files: Seq<String>,
    durations: Seq<i64>,
    timed: Seq<(InputItem, i64)>,
    music: MusicInput,
    normalized: Option<MusicNormResult>,
    planned: Option<Vec<Vec<MusicPiece>>>,
    i: int,
    j: int,
)
    requires
        plan::valid_music(music_of_run(cli, files, durations, normalized)),
        plan_laws::usable(music_of_run(cli, files, durations, normalized)),
        assembly::is_music_input(music, cli, files, durations, timed),
        pipeline::is_planned(music, Ok(normalized), planned),
        0 <= i < timed.len(),
    ensures
        planned is Some,
        planned->Some_0@.len() == timed.len(),
        ({
            let m = music_of_run(cli, files, durations, normalized);
            let pieces = plan::plan_view(planned->Some_0@)[i];
            let lasting = assembly::adjusted_all(timed, cli.speed)[i] as int;
            &&& 0 <= lasting ==> lasting - 1_000 <= plan::total(pieces) <= lasting
            &&& 0 <= j < pieces.len() ==> plan_laws::piece_ok(m, pieces[j])
            &&& 0 <= j < pieces.len() - 1 && cli.crossfade <= 0 && cli.pause > 1_000
                ==> pause_behind(pieces, j, cli.pause as int, lasting)
            &&& 0 <= j < pieces.len() - 1 && cli.crossfade > 1_000
                ==> playlist_laws::crossfade_behind(m, pieces, j, lasting)
            &&& 0 <= j < pieces.len() && (cli.crossfade > 0 || cli.pause <= 1_000) ==> !(pieces[j]
                is Silence)
        }),
{
    let m = music_of_run(cli, files, durations, normalized);
    let plans = planned->Some_0@;
    let inputs = music.adjusted_input_durations@;
    let view = plan::plan_view(plans);
    let orders = choose|orders: Seq<Seq<usize>>| #[trigger] plan::is_plan(m, orders, inputs, view);
    assert(plan::is_plan(m, orders, inputs, view));
    assert(view.len() == inputs.len());
    plan_laws::law_music_fits(m, orders, inputs, i);
    plan_laws::law_music_fills(m, orders, inputs, view, i);
    if 0 <= j < view[i].len() {
        plan_laws::law_pieces_within_tracks(m, orders, inputs, view, i, j);
        if cli.crossfade > 0 || cli.pause <= 1_000 {
            playlist_laws::law_no_silence_unasked(m, orders, inputs, view, i, j);
        }
        if j < view[i].len() - 1 {
            if cli.crossfade > 1_000 {
                playlist_laws::law_crossfades_are_kept(m, orders, inputs, view, i, j);
            } else if cli.crossfade <= 0 && cli.pause > 1_000 && view[i][j] is Segment {
                playlist_laws::law_pauses_are_kept(m, orders, inputs, view, i, j);
            }
        }
    }
}

/// Without the music of the run nothing is planned.
pub proof fn law_failed_music_is_not_planned(
    music: MusicInput,
    error: String,
    planned: Option<Vec<Vec<MusicPiece>>>,
)
    requires
        pipeline::is_planned(music, Err(error), planned),
    ensures
        planned is None,
{
}

/// The plan of an item is about that item: its duration, its output, and its place.
pub proof fn law_plans_are_about_their_items(
    fp: FilePlan,
    item: ItemView,
    duration: int,
    output_dir: Seq<char>,
    format: OutputFormat,
    index: int,
)
    requires
        assembly::is_plan_of(fp, item, duration, output_dir, format, index),
    ensures
        fp.item.source@ == item.source,
        fp.item.relative@ == item.relative,
        fp.item.chapter is Some <==> item.chapter is Some,
        item.chapter matches Some(c) ==> {
            &&& fp.item.chapter->Some_0.start == c.start
            &&& fp.item.chapter->Some_0.end == c.end
            &&& fp.item.chapter->Some_0.title@ == c.title
        },
        fp.source_duration == duration,
        fp.output@ == cli::output_of(output_dir, item, format),
        fp.plan_index == index,
{
}

} // verus!
