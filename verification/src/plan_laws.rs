//! What holds of every music plan, whatever the shuffles come to.

use crate::number::TICK;
use crate::order;
use crate::plan;
use crate::plan::{Cursor, Filling, Music, Piece, MIN_CROSSFADE};
use vstd::prelude::*;

verus! {

/// The shortest track that is used at all (microseconds).
pub open spec fn shortest() -> int {
    crate::limits::MIN_DURATION as int
}

/// Whether the cursor stands on a track of its playlist, or behind the last one.
pub open spec fn cursor_ok(m: Music, c: Cursor) -> bool {
    &&& order::is_order(c.playlist, m.files.len())
    &&& 0 <= c.track <= m.files.len()
    &&& c.position >= 0
    &&& c.track < m.files.len() ==> c.position == 0 || c.position <= m.length(c.playlist, c.track)
    &&& c.track == m.files.len() ==> c.position == 0
    &&& c.drawn >= 0
}

/// Whether `k` is the number of a track.
pub open spec fn is_track(m: Music, k: int) -> bool {
    0 <= k < m.files.len()
}

/// Whether the piece is a segment that lies within track `k`.
pub open spec fn plays_within(m: Music, p: Piece, k: int) -> bool {
    match p {
        Piece::Segment { file, start, duration } => {
            &&& is_track(m, k)
            &&& file == m.files[k]
            &&& 0 <= start
            &&& 0 < duration
            &&& start + duration <= m.durations[k]
        },
        _ => false,
    }
}

/// Whether the crossfade leads from the very end of track `j` into the start of track `k`.
pub open spec fn fades_between(m: Music, p: Piece, j: int, k: int) -> bool {
    match p {
        Piece::Crossfade { file1, start1, dur1, file2, start2, dur2, overlap } => {
            &&& is_track(m, j)
            &&& is_track(m, k)
            &&& file1 == m.files[j]
            &&& file2 == m.files[k]
            &&& dur1 == overlap
            &&& dur2 == overlap
            &&& MIN_CROSSFADE < overlap <= m.crossfade
            &&& start1 >= 0
            &&& start1 + dur1 == m.durations[j]
            &&& start2 == 0
            &&& dur2 <= m.durations[k]
        },
        _ => false,
    }
}

/// Whether a piece only uses music that is there: a segment lies within its track, a
/// crossfade leads from the end of one track into the start of another, and silence
/// comes only where a pause and no crossfade is asked for.
pub open spec fn piece_ok(m: Music, p: Piece) -> bool {
    match p {
        Piece::Segment { .. } => exists|k: int| #[trigger] plays_within(m, p, k),
        Piece::Silence { duration } => m.crossfade <= 0 && 0 < duration <= m.pause,
        Piece::Crossfade { .. } => exists|j: int, k: int| #[trigger] fades_between(m, p, j, k),
    }
}

pub open spec fn pieces_ok(m: Music, pieces: Seq<Piece>) -> bool {
    forall|i: int| 0 <= i < pieces.len() ==> piece_ok(m, #[trigger] pieces[i])
}

/// Whether the segment ends where its track does: less than a millisecond of it is left.
pub open spec fn ends_track(m: Music, file: Seq<char>, end: int) -> bool {
    exists|k: int|
        #[trigger] is_track(m, k) && file == m.files[k] && m.durations[k] - TICK < end
            <= m.durations[k]
}

/// Whether the cursor stands where the piece `p` ended: within the track that it played,
/// or at the start of the next one where that track had come to its end.
pub open spec fn resumes(m: Music, c: Cursor, p: Piece) -> bool {
    let here = c.track < c.playlist.len();
    match p {
        Piece::Segment { file, start, duration } => {
            ||| here && file == m.file(c.playlist, c.track) && c.position == start + duration
            ||| c.position == 0 && ends_track(m, file, start + duration)
        },
        Piece::Silence { duration } => c.position == 0,
        Piece::Crossfade { file1, start1, dur1, file2, start2, dur2, overlap } => {
            ||| here && file2 == m.file(c.playlist, c.track) && c.position == dur2
            ||| c.position == 0 && ends_track(m, file2, dur2)
        },
    }
}

/// Whether the track under the cursor has not begun, or has a millisecond or more left.
pub open spec fn settled(m: Music, c: Cursor) -> bool {
    c.track < m.files.len() ==> c.position == 0 || m.length(c.playlist, c.track) - c.position >= TICK
}

/// What every step of planning keeps.
pub open spec fn sound(m: Music, s: Filling) -> bool {
    &&& cursor_ok(m, s.cursor)
    &&& settled(m, s.cursor)
    &&& pieces_ok(m, s.pieces)
    &&& s.pieces.len() > 0 ==> resumes(m, s.cursor, s.pieces.last())
}

proof fn lemma_ok_push(m: Music, pieces: Seq<Piece>, p: Piece)
    requires
        pieces_ok(m, pieces),
        piece_ok(m, p),
    ensures
        pieces_ok(m, pieces.push(p)),
{
    assert forall|i: int| 0 <= i < pieces.push(p).len() implies piece_ok(
        m,
        #[trigger] pieces.push(p)[i],
    ) by {
        if i < pieces.len() {
            assert(piece_ok(m, pieces[i]));
        }
    }
}

/// The file under the cursor is a track.
pub proof fn lemma_on_track(m: Music, c: Cursor)
    requires
        plan::valid_music(m),
        cursor_ok(m, c),
        c.track < m.files.len(),
    ensures
        c.playlist.len() == m.files.len(),
        is_track(m, c.playlist[c.track] as int),
{
    order::lemma_order(c.playlist, m.files.len());
}

pub proof fn lemma_draw_ok(m: Music, orders: Seq<Seq<usize>>, c: Cursor)
    requires
        plan::valid_music(m),
        plan::are_orders(orders, m.files.len()),
        cursor_ok(m, c),
        plan::on_track(orders, c).drawn <= orders.len(),
    ensures
        cursor_ok(m, plan::on_track(orders, c)),
        plan::on_track(orders, c).track < m.files.len(),
{
    order::lemma_order(c.playlist, m.files.len());
    if c.track >= c.playlist.len() {
        assert(order::is_order(orders[c.drawn], m.files.len()));
    }
}

pub proof fn lemma_play_sound(m: Music, s: Filling)
    requires
        plan::valid_music(m),
        cursor_ok(m, s.cursor),
        s.cursor.track < m.files.len(),
        pieces_ok(m, s.pieces),
        s.remaining > TICK,
    ensures
        cursor_ok(m, plan::play(m, s).cursor),
        plan::play(m, s).cursor.track < m.files.len(),
        pieces_ok(m, plan::play(m, s).pieces),
        m.length(s.cursor.playlist, s.cursor.track) - s.cursor.position >= TICK ==> {
            let t = plan::play(m, s);
            &&& t.pieces.len() == s.pieces.len() + 1
            &&& t.pieces.last() is Segment
            &&& t.pieces.last()->Segment_file == m.file(t.cursor.playlist, t.cursor.track)
            &&& t.cursor.position == t.pieces.last()->start + t.pieces.last()->Segment_duration
            &&& t.pieces.last()->start == s.cursor.position
        },
{
    let c = s.cursor;
    lemma_on_track(m, c);
    let left = m.length(c.playlist, c.track) - c.position;
    if left >= TICK {
        let take = plan::min(s.remaining, left);
        let p = Piece::Segment {
            file: m.file(c.playlist, c.track),
            start: c.position,
            duration: take,
        };
        assert(plays_within(m, p, c.playlist[c.track] as int));
        lemma_ok_push(m, s.pieces, p);
    }
}

proof fn lemma_shorten_ok(m: Music, s: Filling, cut: int)
    requires
        pieces_ok(m, s.pieces),
        cut >= 0,
    ensures
        pieces_ok(m, plan::shorten_last(s, cut).pieces),
        plan::shorten_last(s, cut).pieces.len() == s.pieces.len(),
        s.pieces.len() > 0 ==> same_place(
            s.pieces[0],
            plan::shorten_last(s, cut).pieces[0],
        ),
{
    let t = plan::shorten_last(s, cut);
    if s.pieces.len() > 0 && s.pieces.last() is Segment && s.pieces.last()->Segment_duration > cut
        + TICK {
        let front = s.pieces.drop_last();
        let p = s.pieces.last();
        assert(piece_ok(m, s.pieces[s.pieces.len() - 1]));
        let k = choose|k: int| #[trigger] plays_within(m, p, k);
        assert(plays_within(m, t.pieces.last(), k));
        assert(pieces_ok(m, front)) by {
            assert forall|i: int| 0 <= i < front.len() implies piece_ok(m, #[trigger] front[i]) by {
                assert(piece_ok(m, s.pieces[i]));
            }
        }
        assert(piece_ok(m, t.pieces.last()));
        lemma_ok_push(m, front, t.pieces.last());
        if s.pieces.len() > 1 {
            assert(t.pieces[0] == s.pieces[0]);
        }
    }
}

/// Whether both pieces are the same, up to the length of a segment.
pub open spec fn same_place(a: Piece, b: Piece) -> bool {
    match (a, b) {
        (
            Piece::Segment { file, start, duration },
            Piece::Segment { file: file2, start: start2, duration: duration2 },
        ) => file == file2 && start == start2,
        _ => a == b,
    }
}

proof fn lemma_change_sound(m: Music, orders: Seq<Seq<usize>>, s: Filling)
    requires
        plan::valid_music(m),
        plan::are_orders(orders, m.files.len()),
        cursor_ok(m, s.cursor),
        s.cursor.track < m.files.len(),
        pieces_ok(m, s.pieces),
        s.remaining >= 0,
        m.length(s.cursor.playlist, s.cursor.track) - s.cursor.position < TICK,
        s.pieces.len() > 0 ==> resumes(m, s.cursor, s.pieces.last()),
        plan::change_track(m, orders, s).cursor.drawn <= orders.len(),
    ensures
        sound(m, plan::change_track(m, orders, s)),
        s.pieces.len() > 0 ==> plan::change_track(m, orders, s).pieces.len() > 0 && same_place(
            s.pieces[0],
            plan::change_track(m, orders, s).pieces[0],
        ),
{
    let c = s.cursor;
    lemma_on_track(m, c);
    let prev = c.playlist[c.track];
    let next = Cursor { track: c.track + 1, position: 0, ..c };
    let r = plan::change_track(m, orders, s);
    if s.remaining > TICK {
        lemma_draw_ok(m, orders, next);
        let t = Filling { cursor: plan::on_track(orders, next), ..s };
        lemma_on_track(m, t.cursor);
        if plan::crosses(m, t, prev) {
            let cf = plan::crossfade_length(m, t, prev);
            lemma_shorten_ok(m, t, cf);
            let u = plan::shorten_last(t, cf);
            assert(fades_between(
                m,
                r.pieces.last(),
                prev as int,
                t.cursor.playlist[t.cursor.track] as int,
            ));
            lemma_ok_push(m, u.pieces, r.pieces.last());
        } else if m.crossfade <= 0 && m.pause > TICK {
            lemma_ok_push(m, t.pieces, r.pieces.last());
        } else {
            lemma_resumes_next(m, s, r.cursor);
        }
    } else {
        lemma_resumes_next(m, s, r.cursor);
    }
}

/// After the end of a track, the start of the next one is where the music goes on.
proof fn lemma_resumes_next(m: Music, s: Filling, next: Cursor)
    requires
        plan::valid_music(m),
        cursor_ok(m, s.cursor),
        s.cursor.track < m.files.len(),
        m.length(s.cursor.playlist, s.cursor.track) - s.cursor.position < TICK,
        pieces_ok(m, s.pieces),
        s.pieces.len() > 0 ==> resumes(m, s.cursor, s.pieces.last()),
        next.position == 0,
    ensures
        s.pieces.len() > 0 ==> resumes(m, next, s.pieces.last()),
{
    lemma_on_track(m, s.cursor);
    if s.pieces.len() > 0 {
        assert(piece_ok(m, s.pieces[s.pieces.len() - 1]));
    }
    if s.pieces.len() > 0 && s.pieces.last() is Segment {
        let p = s.pieces.last();
        let k = s.cursor.playlist[s.cursor.track] as int;
        if p->Segment_file == m.file(s.cursor.playlist, s.cursor.track) && s.cursor.position
            == p->start + p->Segment_duration {
            assert(is_track(m, k));
            assert(ends_track(m, p->Segment_file, p->start + p->Segment_duration));
        }
    }
    if s.pieces.len() > 0 && s.pieces.last() is Crossfade {
        let p = s.pieces.last();
        let k = s.cursor.playlist[s.cursor.track] as int;
        if p->file2 == m.file(s.cursor.playlist, s.cursor.track) && s.cursor.position == p->dur2 {
            assert(is_track(m, k));
            assert(ends_track(m, p->file2, p->dur2));
        }
    }
}

proof fn lemma_step_sound(m: Music, orders: Seq<Seq<usize>>, s: Filling)
    requires
        plan::valid_music(m),
        plan::are_orders(orders, m.files.len()),
        sound(m, s),
        s.remaining > TICK,
        plan::step(m, orders, s).cursor.drawn <= orders.len(),
    ensures
        sound(m, plan::step(m, orders, s)),
        s.pieces.len() > 0 ==> plan::step(m, orders, s).pieces.len() > 0 && same_place(
            s.pieces[0],
            plan::step(m, orders, s).pieces[0],
        ),
{
    order::lemma_order(s.cursor.playlist, m.files.len());
    let a = Filling { cursor: plan::on_track(orders, s.cursor), ..s };
    lemma_draw_ok(m, orders, s.cursor);
    lemma_on_track(m, a.cursor);
    lemma_play_sound(m, a);
    let t = plan::play(m, a);
    assert(t.remaining >= 0);
    if s.pieces.len() > 0 {
        assert(t.pieces[0] == s.pieces[0]);
        assert(resumes(m, a.cursor, s.pieces.last()));
    }
    if m.length(t.cursor.playlist, t.cursor.track) - t.cursor.position < TICK {
        lemma_change_sound(m, orders, t);
    }
}

pub proof fn lemma_steps_sound(m: Music, orders: Seq<Seq<usize>>, s: Filling, n: nat)
    requires
        plan::valid_music(m),
        plan::are_orders(orders, m.files.len()),
        sound(m, s),
        plan::steps(m, orders, s, n).cursor.drawn <= orders.len(),
    ensures
        sound(m, plan::steps(m, orders, s, n)),
    decreases n,
{
    if n > 0 {
        plan::lemma_drawn_grows(m, orders, s, (n - 1) as nat);
        lemma_steps_sound(m, orders, s, (n - 1) as nat);
        let t = plan::steps(m, orders, s, (n - 1) as nat);
        if t.remaining > TICK {
            lemma_step_sound(m, orders, t);
        }
    }
}

/// Where planning a file starts.
pub open spec fn empty_file(c: Cursor, duration: int) -> Filling {
    Filling { cursor: c, pieces: seq![], remaining: duration }
}

/// The cursor behind every number of inputs is in place.
pub proof fn lemma_cursor_ok(m: Music, orders: Seq<Seq<usize>>, inputs: Seq<i64>)
    requires
        plan::valid_music(m),
        orders.len() > 0,
        plan::are_orders(orders, m.files.len()),
        plan::cursor_after(m, orders, inputs).drawn <= orders.len(),
    ensures
        cursor_ok(m, plan::cursor_after(m, orders, inputs)),
        settled(m, plan::cursor_after(m, orders, inputs)),
    decreases inputs.len(),
{
    if inputs.len() == 0 {
        assert(order::is_order(orders[0], m.files.len()));
        order::lemma_order(orders[0], m.files.len());
    } else {
        let front = inputs.drop_last();
        let c = plan::cursor_after(m, orders, front);
        let n = plan::step_limit(m.files.len(), inputs.last() as int);
        let s = empty_file(c, inputs.last() as int);
        plan::lemma_drawn_grows(m, orders, s, n);
        lemma_cursor_ok(m, orders, front);
        lemma_steps_sound(m, orders, s, n);
    }
}

/// The playlists that are drawn for the first inputs are among those drawn for all.
pub proof fn lemma_drawn_before(m: Music, orders: Seq<Seq<usize>>, inputs: Seq<i64>, i: int)
    requires
        0 <= i <= inputs.len(),
    ensures
        plan::cursor_after(m, orders, inputs.take(i)).drawn <= plan::cursor_after(
            m,
            orders,
            inputs,
        ).drawn,
    decreases inputs.len(),
{
    if i == inputs.len() {
        assert(inputs.take(i) =~= inputs);
    } else {
        let front = inputs.drop_last();
        lemma_drawn_before(m, orders, front, i);
        assert(front.take(i) =~= inputs.take(i));
        plan::lemma_drawn_grows(
            m,
            orders,
            empty_file(plan::cursor_after(m, orders, front), inputs.last() as int),
            plan::step_limit(m.files.len(), inputs.last() as int),
        );
    }
}

/// What planning input `i` ends with.
pub open spec fn filled(m: Music, orders: Seq<Seq<usize>>, inputs: Seq<i64>, i: int) -> Filling {
    plan::fill_file(
        m,
        orders,
        plan::cursor_after(m, orders, inputs.take(i)),
        inputs[i] as int,
    )
}

pub proof fn lemma_filled(m: Music, orders: Seq<Seq<usize>>, inputs: Seq<i64>, i: int)
    requires
        0 <= i < inputs.len(),
    ensures
        filled(m, orders, inputs, i).pieces == plan::plan_for(m, orders, inputs)[i],
        filled(m, orders, inputs, i).cursor == plan::cursor_after(m, orders, inputs.take(i + 1)),
        filled(m, orders, inputs, i).cursor.drawn <= plan::cursor_after(m, orders, inputs).drawn,
        plan::cursor_after(m, orders, inputs.take(i)).drawn <= plan::cursor_after(
            m,
            orders,
            inputs,
        ).drawn,
{
    assert(inputs.take(i + 1).drop_last() =~= inputs.take(i));
    lemma_drawn_before(m, orders, inputs, i + 1);
    lemma_drawn_before(m, orders, inputs, i);
}

// ─── The laws ──────────────────────────────────────────────────

/// The music of a file never lasts longer than the file, and every piece of it has some
/// length.
pub proof fn law_music_fits(m: Music, orders: Seq<Seq<usize>>, inputs: Seq<i64>, i: int)
    requires
        0 <= i < inputs.len(),
    ensures
        plan::all_positive(plan::plan_for(m, orders, inputs)[i]),
        plan::total(plan::plan_for(m, orders, inputs)[i]) <= plan::max(inputs[i] as int, 0),
{
    lemma_filled(m, orders, inputs, i);
    let c = plan::cursor_after(m, orders, inputs.take(i));
    plan::lemma_steps_add_up(
        m,
        orders,
        empty_file(c, inputs[i] as int),
        plan::step_limit(m.files.len(), inputs[i] as int),
        inputs[i] as int,
    );
}

/// Every piece of a plan uses music that is there: a segment lies within its track, and a
/// crossfade leads from the very end of one track into the start of another.
pub proof fn law_pieces_within_tracks(
    m: Music,
    orders: Seq<Seq<usize>>,
    inputs: Seq<i64>,
    plan: Seq<Seq<Piece>>,
    i: int,
    j: int,
)
    requires
        plan::valid_music(m),
        plan::is_plan(m, orders, inputs, plan),
        0 <= i < plan.len(),
        0 <= j < plan[i].len(),
    ensures
        piece_ok(m, plan[i][j]),
{
    lemma_filled(m, orders, inputs, i);
    lemma_cursor_ok(m, orders, inputs.take(i));
    lemma_steps_sound(
        m,
        orders,
        empty_file(plan::cursor_after(m, orders, inputs.take(i)), inputs[i] as int),
        plan::step_limit(m.files.len(), inputs[i] as int),
    );
    assert(piece_ok(m, filled(m, orders, inputs, i).pieces[j]));
}

/// Nothing is repeated before everything has been played: each playlist that a plan follows
/// holds every track, and none of them twice.
pub proof fn law_no_repeats_within_a_playlist(
    m: Music,
    orders: Seq<Seq<usize>>,
    inputs: Seq<i64>,
    plan: Seq<Seq<Piece>>,
    k: int,
)
    requires
        plan::valid_music(m),
        plan::is_plan(m, orders, inputs, plan),
        0 <= k < orders.len(),
    ensures
        orders[k].len() == m.files.len(),
        forall|i: int, j: int|
            0 <= i < j < orders[k].len() ==> #[trigger] orders[k][i] != #[trigger] orders[k][j],
        forall|t: usize| t < m.files.len() ==> #[trigger] orders[k].contains(t),
{
    order::lemma_order(orders[k], m.files.len());
    order::law_every_place_once(orders[k], m.files.len());
}

/// A crossfade supersedes the pause: where one is asked for, no plan holds silence.
pub proof fn law_crossfade_supersedes_pause(
    m: Music,
    orders: Seq<Seq<usize>>,
    inputs: Seq<i64>,
    plan: Seq<Seq<Piece>>,
    i: int,
    j: int,
)
    requires
        plan::valid_music(m),
        plan::is_plan(m, orders, inputs, plan),
        m.crossfade > 0,
        0 <= i < plan.len(),
        0 <= j < plan[i].len(),
    ensures
        !(plan[i][j] is Silence),
{
    law_pieces_within_tracks(m, orders, inputs, plan, i, j);
}

/// After the first step from the middle of a track, the file starts with that track from
/// where the cursor stood.
proof fn lemma_first_piece(m: Music, orders: Seq<Seq<usize>>, c: Cursor, duration: int, n: nat)
    requires
        plan::valid_music(m),
        plan::are_orders(orders, m.files.len()),
        cursor_ok(m, c),
        settled(m, c),
        c.track < m.files.len(),
        m.length(c.playlist, c.track) - c.position >= TICK,
        duration > TICK,
        n > 0,
        plan::steps(m, orders, empty_file(c, duration), n).cursor.drawn <= orders.len(),
    ensures
        ({
            let r = plan::steps(m, orders, empty_file(c, duration), n);
            &&& r.pieces.len() > 0
            &&& r.pieces[0] is Segment
            &&& r.pieces[0]->Segment_file == m.file(c.playlist, c.track)
            &&& r.pieces[0]->start == c.position
        }),
        sound(m, plan::steps(m, orders, empty_file(c, duration), n)),
    decreases n,
{
    let s = empty_file(c, duration);
    order::lemma_order(c.playlist, m.files.len());
    plan::lemma_drawn_grows(m, orders, s, (n - 1) as nat);
    lemma_steps_sound(m, orders, s, n);
    if n == 1 {
        assert(plan::steps(m, orders, s, 0) == s);
        lemma_play_sound(m, s);
        let t = plan::play(m, s);
        assert(t.pieces.len() == 1);
        if m.length(t.cursor.playlist, t.cursor.track) - t.cursor.position < TICK {
            lemma_change_sound(m, orders, t);
        }
    } else {
        lemma_first_piece(m, orders, c, duration, (n - 1) as nat);
        let t = plan::steps(m, orders, s, (n - 1) as nat);
        if t.remaining > TICK {
            lemma_step_sound(m, orders, t);
        }
    }
}

/// Planning a file draws the next playlist where the cursor stands behind the last track.
proof fn lemma_draws_first(m: Music, orders: Seq<Seq<usize>>, c: Cursor, duration: int, n: nat)
    requires
        duration > TICK,
        n > 0,
    ensures
        plan::on_track(orders, c).drawn <= plan::steps(
            m,
            orders,
            empty_file(c, duration),
            n,
        ).cursor.drawn,
    decreases n,
{
    let s = empty_file(c, duration);
    if n == 1 {
        assert(plan::steps(m, orders, s, 0) == s);
    } else {
        lemma_draws_first(m, orders, c, duration, (n - 1) as nat);
        plan::lemma_drawn_grows(m, orders, s, (n - 1) as nat);
    }
}

/// Drawing the next playlist beforehand makes no difference.
proof fn lemma_drawn_before_start(
    m: Music,
    orders: Seq<Seq<usize>>,
    c: Cursor,
    duration: int,
    n: nat,
)
    requires
        plan::on_track(orders, c).track < plan::on_track(orders, c).playlist.len(),
        duration > TICK,
        n > 0,
    ensures
        plan::steps(m, orders, empty_file(c, duration), n) == plan::steps(
            m,
            orders,
            empty_file(plan::on_track(orders, c), duration),
            n,
        ),
    decreases n,
{
    let s = empty_file(c, duration);
    let t = empty_file(plan::on_track(orders, c), duration);
    if n == 1 {
        assert(plan::steps(m, orders, s, 0) == s);
        assert(plan::steps(m, orders, t, 0) == t);
    } else {
        lemma_drawn_before_start(m, orders, c, duration, (n - 1) as nat);
    }
}

/// A file starts with the track under the cursor, from where the cursor stands.
proof fn lemma_file_starts(m: Music, orders: Seq<Seq<usize>>, inputs: Seq<i64>, i: int)
    requires
        plan::valid_music(m),
        usable(m),
        orders.len() > 0,
        plan::are_orders(orders, m.files.len()),
        plan::cursor_after(m, orders, inputs).drawn <= orders.len(),
        0 <= i < inputs.len(),
        inputs[i] > TICK,
    ensures
        ({
            let c = plan::cursor_after(m, orders, inputs.take(i));
            let on = plan::on_track(orders, c);
            let pieces = plan::plan_for(m, orders, inputs)[i];
            &&& pieces.len() > 0
            &&& pieces[0] is Segment
            &&& pieces[0]->Segment_file == m.file(on.playlist, on.track)
            &&& pieces[0]->start == on.position
        }),
{
    let c = plan::cursor_after(m, orders, inputs.take(i));
    let on = plan::on_track(orders, c);
    let d = inputs[i] as int;
    let n = plan::step_limit(m.files.len(), d);
    lemma_filled(m, orders, inputs, i);
    lemma_cursor_ok(m, orders, inputs.take(i));
    order::lemma_order(c.playlist, m.files.len());
    lemma_limit(m.files.len(), d);
    lemma_draws_first(m, orders, c, d, n);
    lemma_draw_ok(m, orders, c);
    order::lemma_order(on.playlist, m.files.len());
    assert(m.durations[on.playlist[on.track] as int] >= shortest());
    lemma_drawn_before_start(m, orders, c, d, n);
    lemma_first_piece(m, orders, on, d, n);
}

/// Music is seamless across files. Behind each file the cursor stands where the last
/// piece of that file ended; and the next file starts with the track under the cursor (the
/// first one of the next playlist, where this one is at its end) from exactly there.
pub proof fn law_seamless(
    m: Music,
    orders: Seq<Seq<usize>>,
    inputs: Seq<i64>,
    plan: Seq<Seq<Piece>>,
    i: int,
)
    requires
        plan::valid_music(m),
        usable(m),
        plan::is_plan(m, orders, inputs, plan),
        0 <= i < inputs.len(),
    ensures
        ({
            let c = plan::cursor_after(m, orders, inputs.take(i + 1));
            let on = plan::on_track(orders, c);
            &&& cursor_ok(m, c)
            &&& plan[i].len() > 0 ==> resumes(m, c, plan[i].last())
            &&& i + 1 < inputs.len() && inputs[i + 1] > TICK ==> {
                &&& plan[i + 1].len() > 0
                &&& plan[i + 1][0] is Segment
                &&& plan[i + 1][0]->Segment_file == m.file(on.playlist, on.track)
                &&& plan[i + 1][0]->start == on.position
            }
        }),
{
    let c = plan::cursor_after(m, orders, inputs.take(i + 1));
    lemma_filled(m, orders, inputs, i);
    lemma_cursor_ok(m, orders, inputs.take(i));
    lemma_steps_sound(
        m,
        orders,
        empty_file(plan::cursor_after(m, orders, inputs.take(i)), inputs[i] as int),
        plan::step_limit(m.files.len(), inputs[i] as int),
    );
    order::lemma_order(c.playlist, m.files.len());
    if i + 1 < inputs.len() && inputs[i + 1] > TICK {
        lemma_file_starts(m, orders, inputs, i + 1);
    }
}

proof fn lemma_limit(tracks: nat, duration: int)
    requires
        tracks > 0,
        duration <= i64::MAX,
    ensures
        plan::step_limit(tracks, duration) >= 3 * (plan::max(duration, 0) / 1000) + 3,
{
    let b = plan::max(duration, 0) / 1000 + 2;
    assert((tracks + 2) * b >= 3 * b) by (nonlinear_arith)
        requires
            tracks >= 1,
            b >= 0,
    ;
}

/// Whether no track is too short to be used.
pub open spec fn usable(m: Music) -> bool {
    forall|k: int| 0 <= k < m.durations.len() ==> #[trigger] m.durations[k] >= shortest()
}

/// Every step fills a millisecond or more.
proof fn lemma_step_fills(m: Music, orders: Seq<Seq<usize>>, s: Filling, d: int)
    requires
        plan::valid_music(m),
        usable(m),
        plan::are_orders(orders, m.files.len()),
        sound(m, s),
        plan::adds_up(s, d),
        s.remaining > TICK,
        plan::step(m, orders, s).cursor.drawn <= orders.len(),
    ensures
        plan::step(m, orders, s).remaining <= s.remaining - TICK,
{
    order::lemma_order(s.cursor.playlist, m.files.len());
    let a = Filling { cursor: plan::on_track(orders, s.cursor), ..s };
    lemma_draw_ok(m, orders, s.cursor);
    lemma_on_track(m, a.cursor);
    assert(m.durations[a.cursor.playlist[a.cursor.track] as int] >= shortest());
    plan::lemma_play_adds_up(m, a, d);
    plan::lemma_change_adds_up(m, orders, plan::play(m, a), d);
}

proof fn lemma_steps_fill(m: Music, orders: Seq<Seq<usize>>, s: Filling, n: nat, d: int)
    requires
        plan::valid_music(m),
        usable(m),
        plan::are_orders(orders, m.files.len()),
        sound(m, s),
        plan::adds_up(s, d),
        plan::steps(m, orders, s, n).cursor.drawn <= orders.len(),
    ensures
        ({
            let t = plan::steps(m, orders, s, n);
            t.remaining <= TICK || t.remaining <= s.remaining - TICK * n
        }),
    decreases n,
{
    if n > 0 {
        plan::lemma_drawn_grows(m, orders, s, (n - 1) as nat);
        lemma_steps_fill(m, orders, s, (n - 1) as nat, d);
        lemma_steps_sound(m, orders, s, (n - 1) as nat);
        plan::lemma_steps_add_up(m, orders, s, (n - 1) as nat, d);
        let t = plan::steps(m, orders, s, (n - 1) as nat);
        if t.remaining > TICK {
            lemma_step_fills(m, orders, t, d);
        }
    }
}

/// The music fills every file: what is left at its end is no more than a millisecond, so
/// planning is never cut short; and only a file that is no longer than that has no music.
pub proof fn law_music_fills(
    m: Music,
    orders: Seq<Seq<usize>>,
    inputs: Seq<i64>,
    plan: Seq<Seq<Piece>>,
    i: int,
)
    requires
        plan::valid_music(m),
        usable(m),
        plan::is_plan(m, orders, inputs, plan),
        0 <= i < inputs.len(),
    ensures
        plan::total(plan[i]) >= inputs[i] - TICK,
        plan[i].len() == 0 <==> inputs[i] <= TICK,
{
    lemma_filled(m, orders, inputs, i);
    lemma_cursor_ok(m, orders, inputs.take(i));
    let d = inputs[i] as int;
    let n = plan::step_limit(m.files.len(), d);
    let s = empty_file(plan::cursor_after(m, orders, inputs.take(i)), d);
    plan::lemma_steps_add_up(m, orders, s, n, d);
    lemma_steps_fill(m, orders, s, n, d);
    lemma_limit(m.files.len(), d);
    if d <= TICK {
        plan::lemma_steps_done(m, orders, s, 0, n);
    }
}

// ─── From piece to piece ───────────────────────────────────────

/// Whether the piece `b` takes the music on from the piece `a`. A segment starts where the
/// music stood, and a crossfade starts where the segment before it stops.
pub open spec fn follows(m: Music, a: Piece, b: Piece) -> bool {
    match (a, b) {
        (
            Piece::Segment { file, start, duration },
            Piece::Segment { file: file2, start: start2, duration: duration2 },
        ) => {
            ||| file2 == file && start2 == start + duration
            ||| start2 == 0 && ends_track(m, file, start + duration)
        },
        (
            Piece::Crossfade { file1, start1, dur1, file2, start2, dur2, overlap },
            Piece::Segment { file, start, duration },
        ) => {
            ||| file == file2 && start == dur2
            ||| start == 0 && ends_track(m, file2, dur2)
        },
        (Piece::Silence { duration: silent }, Piece::Segment { file, start, duration }) => start
            == 0,
        (Piece::Segment { file, start, duration }, Piece::Silence { duration: silent }) =>
            ends_track(m, file, start + duration),
        (
            Piece::Segment { file, start, duration },
            Piece::Crossfade { file1, start1, dur1, file2, start2, dur2, overlap },
        ) => file1 == file && start + duration == start1,
        _ => false,
    }
}

/// Whether each piece takes the music on from the one before it.
pub open spec fn chained(m: Music, pieces: Seq<Piece>) -> bool {
    forall|j: int| 0 <= j < pieces.len() - 1 ==> #[trigger] follows_at(m, pieces, j)
}

pub open spec fn follows_at(m: Music, pieces: Seq<Piece>, j: int) -> bool {
    follows(m, pieces[j], pieces[j + 1])
}

proof fn lemma_chain_push(m: Music, pieces: Seq<Piece>, p: Piece)
    requires
        chained(m, pieces),
        pieces.len() > 0 ==> follows(m, pieces.last(), p),
    ensures
        chained(m, pieces.push(p)),
{
    let more = pieces.push(p);
    assert forall|j: int| 0 <= j < more.len() - 1 implies #[trigger] follows_at(m, more, j) by {
        if j < pieces.len() - 1 {
            assert(follows_at(m, pieces, j));
        }
    }
}

proof fn lemma_chain_shorten(m: Music, s: Filling, cut: int)
    requires
        chained(m, s.pieces),
    ensures
        chained(m, plan::shorten_last(s, cut).pieces),
{
    let t = plan::shorten_last(s, cut);
    assert forall|j: int| 0 <= j < t.pieces.len() - 1 implies #[trigger] follows_at(
        m,
        t.pieces,
        j,
    ) by {
        assert(follows_at(m, s.pieces, j));
        assert(t.pieces[j] == s.pieces[j]);
    }
}

proof fn lemma_change_chained(m: Music, orders: Seq<Seq<usize>>, s: Filling)
    requires
        plan::valid_music(m),
        plan::are_orders(orders, m.files.len()),
        cursor_ok(m, s.cursor),
        s.cursor.track < m.files.len(),
        pieces_ok(m, s.pieces),
        m.length(s.cursor.playlist, s.cursor.track) - s.cursor.position < TICK,
        s.remaining > TICK ==> m.length(s.cursor.playlist, s.cursor.track) == s.cursor.position,
        s.pieces.len() > 0,
        s.pieces.last() is Segment,
        s.pieces.last()->Segment_file == m.file(s.cursor.playlist, s.cursor.track),
        s.pieces.last()->start + s.pieces.last()->Segment_duration == s.cursor.position,
        chained(m, s.pieces),
        plan::change_track(m, orders, s).cursor.drawn <= orders.len(),
    ensures
        chained(m, plan::change_track(m, orders, s).pieces),
{
    let c = s.cursor;
    lemma_on_track(m, c);
    let prev = c.playlist[c.track];
    let next = Cursor { track: c.track + 1, position: 0, ..c };
    let r = plan::change_track(m, orders, s);
    if s.remaining > TICK {
        lemma_draw_ok(m, orders, next);
        let t = Filling { cursor: plan::on_track(orders, next), ..s };
        if plan::crosses(m, t, prev) {
            let cf = plan::crossfade_length(m, t, prev);
            lemma_chain_shorten(m, t, cf);
            let u = plan::shorten_last(t, cf);
            lemma_chain_push(m, u.pieces, r.pieces.last());
        } else if m.crossfade <= 0 && m.pause > TICK {
            lemma_resumes_next(m, s, next);
            assert(ends_track(m, s.pieces.last()->Segment_file, c.position)) by {
                assert(is_track(m, prev as int));
            }
            lemma_chain_push(m, t.pieces, r.pieces.last());
        }
    }
}

proof fn lemma_steps_chained(m: Music, orders: Seq<Seq<usize>>, s: Filling, n: nat)
    requires
        plan::valid_music(m),
        usable(m),
        plan::are_orders(orders, m.files.len()),
        sound(m, s),
        chained(m, s.pieces),
        plan::steps(m, orders, s, n).cursor.drawn <= orders.len(),
    ensures
        chained(m, plan::steps(m, orders, s, n).pieces),
    decreases n,
{
    if n > 0 {
        plan::lemma_drawn_grows(m, orders, s, (n - 1) as nat);
        lemma_steps_sound(m, orders, s, (n - 1) as nat);
        lemma_steps_chained(m, orders, s, (n - 1) as nat);
        let t = plan::steps(m, orders, s, (n - 1) as nat);
        if t.remaining > TICK {
            order::lemma_order(t.cursor.playlist, m.files.len());
            let a = Filling { cursor: plan::on_track(orders, t.cursor), ..t };
            lemma_draw_ok(m, orders, t.cursor);
            lemma_on_track(m, a.cursor);
            lemma_play_sound(m, a);
            let b = plan::play(m, a);
            if t.pieces.len() > 0 {
                assert(resumes(m, a.cursor, t.pieces.last()));
            }
            assert(m.durations[a.cursor.playlist[a.cursor.track] as int] >= shortest());
            lemma_chain_push(m, a.pieces, b.pieces.last());
            if m.length(b.cursor.playlist, b.cursor.track) - b.cursor.position < TICK {
                lemma_change_chained(m, orders, b);
            }
        }
    }
}

/// Within a file the music goes on from piece to piece without gaps, and without playing
/// the end of a track twice: every crossfade has a segment of its track before it, which stops
/// where the crossfade starts.
pub proof fn law_continuous_within_file(
    m: Music,
    orders: Seq<Seq<usize>>,
    inputs: Seq<i64>,
    plan: Seq<Seq<Piece>>,
    i: int,
    j: int,
)
    requires
        plan::valid_music(m),
        usable(m),
        plan::is_plan(m, orders, inputs, plan),
        0 <= i < plan.len(),
        0 <= j < plan[i].len() - 1,
    ensures
        follows(m, plan[i][j], plan[i][j + 1]),
{
    lemma_filled(m, orders, inputs, i);
    lemma_cursor_ok(m, orders, inputs.take(i));
    let s = empty_file(plan::cursor_after(m, orders, inputs.take(i)), inputs[i] as int);
    lemma_steps_chained(m, orders, s, plan::step_limit(m.files.len(), inputs[i] as int));
    assert(follows_at(m, plan[i], j));
}

// ─── From file to file ─────────────────────────────────────────

/// Files without music leave the cursor where it stands.
proof fn lemma_cursor_waits(m: Music, orders: Seq<Seq<usize>>, inputs: Seq<i64>, i: int, j: int)
    requires
        0 <= i <= j <= inputs.len(),
        forall|k: int| i <= k < j ==> #[trigger] inputs[k] <= TICK,
    ensures
        plan::cursor_after(m, orders, inputs.take(j)) == plan::cursor_after(
            m,
            orders,
            inputs.take(i),
        ),
    decreases j,
{
    if i < j {
        let before = inputs.take(j).drop_last();
        let d = inputs[j - 1] as int;
        lemma_cursor_waits(m, orders, inputs, i, j - 1);
        assert(before =~= inputs.take(j - 1));
        plan::lemma_steps_done(
            m,
            orders,
            empty_file(plan::cursor_after(m, orders, before), d),
            0,
            plan::step_limit(m.files.len(), d),
        );
    }
}

/// The music starts at the start of a track.
pub proof fn law_starts_at_the_beginning(
    m: Music,
    orders: Seq<Seq<usize>>,
    inputs: Seq<i64>,
    plan: Seq<Seq<Piece>>,
    j: int,
)
    requires
        plan::valid_music(m),
        usable(m),
        plan::is_plan(m, orders, inputs, plan),
        0 <= j < plan.len(),
        plan[j].len() > 0,
        forall|k: int| 0 <= k < j ==> (#[trigger] plan[k]).len() == 0,
    ensures
        plan[j][0] is Segment,
        plan[j][0]->start == 0,
{
    law_music_fills(m, orders, inputs, plan, j);
    assert forall|k: int| 0 <= k < j implies #[trigger] inputs[k] <= TICK by {
        assert(plan[k].len() == 0);
        law_music_fills(m, orders, inputs, plan, k);
    }
    lemma_cursor_waits(m, orders, inputs, 0, j);
    lemma_file_starts(m, orders, inputs, j);
}

/// Each file picks up where the music left off: its first piece takes the music on from the last
/// piece before it, whichever file that stands in, and never in the middle of another track.
pub proof fn law_picks_up_across_files(
    m: Music,
    orders: Seq<Seq<usize>>,
    inputs: Seq<i64>,
    plan: Seq<Seq<Piece>>,
    i: int,
    j: int,
)
    requires
        plan::valid_music(m),
        usable(m),
        plan::is_plan(m, orders, inputs, plan),
        0 <= i < j < plan.len(),
        plan[i].len() > 0,
        plan[j].len() > 0,
        forall|k: int| i < k < j ==> (#[trigger] plan[k]).len() == 0,
    ensures
        plan[j][0] is Segment,
        follows(m, plan[i].last(), plan[j][0]),
{
    let c = plan::cursor_after(m, orders, inputs.take(i + 1));
    law_seamless(m, orders, inputs, plan, i);
    law_music_fills(m, orders, inputs, plan, j);
    assert forall|k: int| i + 1 <= k < j implies #[trigger] inputs[k] <= TICK by {
        assert(plan[k].len() == 0);
        law_music_fills(m, orders, inputs, plan, k);
    }
    lemma_cursor_waits(m, orders, inputs, i + 1, j);
    lemma_file_starts(m, orders, inputs, j);
    order::lemma_order(c.playlist, m.files.len());
}

} // verus!
