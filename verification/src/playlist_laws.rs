//! What a plan makes of its playlists: which tracks start in which order, and what stands
//! between two of them.

use crate::number::TICK;
use crate::order;
use crate::plan;
use crate::plan::{Cursor, Filling, Music, Piece, MIN_CROSSFADE};
use crate::plan_laws;
use vstd::prelude::*;

verus! {

// ─── The order of the tracks ───────────────────────────────────

/// The tracks of some playlists, one playlist behind the other.
pub open spec fn line_up(playlists: Seq<Seq<usize>>) -> Seq<usize>
    decreases playlists.len(),
{
    if playlists.len() == 0 {
        seq![]
    } else {
        line_up(playlists.drop_last()) + playlists.last()
    }
}

/// The pieces of all files, one file behind the other.
pub open spec fn all_pieces(plan: Seq<Seq<Piece>>) -> Seq<Piece>
    decreases plan.len(),
{
    if plan.len() == 0 {
        seq![]
    } else {
        all_pieces(plan.drop_last()) + plan.last()
    }
}

/// The files of the tracks that start in some pieces, in order: a track starts in a segment from
/// its beginning, or in the crossfade into it.
pub open spec fn begun(pieces: Seq<Piece>) -> Seq<Seq<char>>
    decreases pieces.len(),
{
    if pieces.len() == 0 {
        seq![]
    } else {
        let front = begun(pieces.drop_last());
        match pieces.last() {
            Piece::Segment { file, start, duration } if start == 0 => front.push(file),
            Piece::Crossfade { file1, start1, dur1, file2, start2, dur2, overlap } => front.push(
                file2,
            ),
            _ => front,
        }
    }
}

proof fn lemma_begun_both(a: Seq<Piece>, b: Seq<Piece>)
    ensures
        begun(a + b) == begun(a) + begun(b),
    decreases b.len(),
{
    if b.len() == 0 {
        assert(a + b =~= a);
        assert(begun(a) + begun(b) =~= begun(a));
    } else {
        assert((a + b).drop_last() =~= a + b.drop_last());
        lemma_begun_both(a, b.drop_last());
        assert(begun(a + b) =~= begun(a) + begun(b));
    }
}

proof fn lemma_begun_push(a: Seq<Piece>, p: Piece)
    ensures
        begun(a.push(p)) == match p {
            Piece::Segment { file, start, duration } if start == 0 => begun(a).push(file),
            Piece::Crossfade { file1, start1, dur1, file2, start2, dur2, overlap } => begun(
                a,
            ).push(file2),
            _ => begun(a),
        },
{
    assert(a.push(p).drop_last() =~= a);
}

proof fn lemma_line_up(playlists: Seq<Seq<usize>>, n: nat, k: int, t: int)
    requires
        forall|i: int| 0 <= i < playlists.len() ==> (#[trigger] playlists[i]).len() == n,
        0 <= k < playlists.len(),
        0 <= t < n,
    ensures
        line_up(playlists).len() == n * playlists.len(),
        0 <= n * k + t < n * playlists.len(),
        line_up(playlists)[n * k + t] == playlists[k][t],
    decreases playlists.len(),
{
    let front = playlists.drop_last();
    let last = playlists.len() - 1;
    assert(playlists[last].len() == n);
    assert forall|i: int| 0 <= i < front.len() implies (#[trigger] front[i]).len() == n by {
        assert(playlists[i].len() == n);
    }
    lemma_line_up_len(front, n);
    assert(n * playlists.len() == n * last + n) by (nonlinear_arith)
        requires
            playlists.len() == last + 1,
    ;
    if k < last {
        lemma_line_up(front, n, k, t);
    }
}

proof fn lemma_line_up_len(playlists: Seq<Seq<usize>>, n: nat)
    requires
        forall|i: int| 0 <= i < playlists.len() ==> (#[trigger] playlists[i]).len() == n,
    ensures
        line_up(playlists).len() == n * playlists.len(),
    decreases playlists.len(),
{
    if playlists.len() > 0 {
        let front = playlists.drop_last();
        let last = playlists.len() - 1;
        assert(playlists[last].len() == n);
        assert forall|i: int| 0 <= i < front.len() implies (#[trigger] front[i]).len() == n by {
            assert(playlists[i].len() == n);
        }
        lemma_line_up_len(front, n);
        assert(n * playlists.len() == n * last + n) by (nonlinear_arith)
            requires
                playlists.len() == last + 1,
        ;
    }
}

/// How many tracks have started when the cursor stands here.
spec fn started(m: Music, c: Cursor) -> int {
    m.files.len() * (c.drawn - 1) + c.track + if c.position > 0 {
        1int
    } else {
        0int
    }
}

/// The files of the first tracks of all playlists.
spec fn first_files(m: Music, orders: Seq<Seq<usize>>, k: int) -> Seq<Seq<char>> {
    Seq::new(k as nat, |i: int| m.files[line_up(orders)[i] as int])
}

/// Whether the cursor stands in the playlist that was drawn last, and exactly the tracks before
/// it have started.
spec fn lined_up(m: Music, orders: Seq<Seq<usize>>, c: Cursor, had: Seq<Seq<char>>) -> bool {
    &&& 1 <= c.drawn <= orders.len()
    &&& c.playlist == orders[c.drawn - 1]
    &&& 0 <= started(m, c)
    &&& had == first_files(m, orders, started(m, c))
}

/// One track more.
proof fn lemma_start_one(m: Music, orders: Seq<Seq<usize>>, c: Cursor, had: Seq<Seq<char>>)
    requires
        plan::valid_music(m),
        plan::are_orders(orders, m.files.len()),
        lined_up(m, orders, c, had),
        0 <= c.track < m.files.len(),
        c.position == 0,
    ensures
        had.push(m.file(c.playlist, c.track)) == first_files(m, orders, started(m, c) + 1),
{
    let n = m.files.len();
    assert forall|i: int| 0 <= i < orders.len() implies (#[trigger] orders[i]).len() == n by {
        order::lemma_order(orders[i], n);
    }
    lemma_line_up(orders, n, c.drawn - 1, c.track);
    assert(had.push(m.file(c.playlist, c.track)) =~= first_files(m, orders, started(m, c) + 1));
}

proof fn lemma_draw_lined(m: Music, orders: Seq<Seq<usize>>, c: Cursor, had: Seq<Seq<char>>)
    requires
        plan::valid_music(m),
        plan::are_orders(orders, m.files.len()),
        plan_laws::cursor_ok(m, c),
        lined_up(m, orders, c, had),
        plan::on_track(orders, c).drawn <= orders.len(),
    ensures
        lined_up(m, orders, plan::on_track(orders, c), had),
{
    let n = m.files.len() as int;
    order::lemma_order(c.playlist, m.files.len());
    if c.track >= c.playlist.len() {
        let k = c.drawn - 1;
        assert(n * (k + 1) == n * k + n) by (nonlinear_arith);
        assert(plan::on_track(orders, c).drawn - 1 == k + 1);
        assert(orders[c.drawn] == orders[plan::on_track(orders, c).drawn - 1]);
    }
}

proof fn lemma_play_lined(m: Music, orders: Seq<Seq<usize>>, s: Filling, base: Seq<Seq<char>>)
    requires
        plan::valid_music(m),
        plan_laws::usable(m),
        plan::are_orders(orders, m.files.len()),
        plan_laws::cursor_ok(m, s.cursor),
        plan_laws::settled(m, s.cursor),
        s.cursor.track < m.files.len(),
        s.remaining > TICK,
        lined_up(m, orders, s.cursor, base + begun(s.pieces)),
    ensures
        lined_up(m, orders, plan::play(m, s).cursor, base + begun(plan::play(m, s).pieces)),
        plan::play(m, s).cursor.position > 0,
        plan::play(m, s).cursor.track == s.cursor.track,
        plan::play(m, s).remaining >= 0,
{
    let c = s.cursor;
    plan_laws::lemma_on_track(m, c);
    assert(m.durations[c.playlist[c.track] as int] >= plan_laws::shortest());
    let t = plan::play(m, s);
    lemma_begun_push(s.pieces, t.pieces.last());
    if c.position == 0 {
        lemma_start_one(m, orders, c, base + begun(s.pieces));
        assert(base + begun(s.pieces).push(m.file(c.playlist, c.track)) =~= (base + begun(
            s.pieces,
        )).push(m.file(c.playlist, c.track)));
    }
}

proof fn lemma_shorten_begun(s: Filling, cut: int)
    ensures
        begun(plan::shorten_last(s, cut).pieces) == begun(s.pieces),
{
    let t = plan::shorten_last(s, cut);
    if s.pieces.len() > 0 {
        lemma_begun_push(s.pieces.drop_last(), s.pieces.last());
        lemma_begun_push(s.pieces.drop_last(), t.pieces.last());
        assert(s.pieces.drop_last().push(s.pieces.last()) =~= s.pieces);
    }
}

proof fn lemma_change_lined(m: Music, orders: Seq<Seq<usize>>, s: Filling, base: Seq<Seq<char>>)
    requires
        plan::valid_music(m),
        plan_laws::usable(m),
        plan::are_orders(orders, m.files.len()),
        plan_laws::cursor_ok(m, s.cursor),
        s.cursor.track < m.files.len(),
        s.cursor.position > 0,
        lined_up(m, orders, s.cursor, base + begun(s.pieces)),
        plan::change_track(m, orders, s).cursor.drawn <= orders.len(),
    ensures
        lined_up(
            m,
            orders,
            plan::change_track(m, orders, s).cursor,
            base + begun(plan::change_track(m, orders, s).pieces),
        ),
{
    let c = s.cursor;
    let prev = c.playlist[c.track];
    let next = Cursor { track: c.track + 1, position: 0, ..c };
    let r = plan::change_track(m, orders, s);
    plan_laws::lemma_on_track(m, c);
    assert(lined_up(m, orders, next, base + begun(s.pieces)));
    if s.remaining > TICK {
        let t = Filling { cursor: plan::on_track(orders, next), ..s };
        plan_laws::lemma_draw_ok(m, orders, next);
        lemma_draw_lined(m, orders, next, base + begun(s.pieces));
        if plan::crosses(m, t, prev) {
            let cf = plan::crossfade_length(m, t, prev);
            let u = plan::shorten_last(t, cf);
            let file = m.file(t.cursor.playlist, t.cursor.track);
            order::lemma_order(t.cursor.playlist, m.files.len());
            lemma_shorten_begun(t, cf);
            lemma_begun_push(u.pieces, r.pieces.last());
            assert(t.cursor.position == 0);
            lemma_start_one(m, orders, t.cursor, base + begun(s.pieces));
            assert(base + begun(s.pieces).push(file) =~= (base + begun(s.pieces)).push(file));
        } else if m.crossfade <= 0 && m.pause > TICK {
            lemma_begun_push(t.pieces, r.pieces.last());
        }
    }
}

proof fn lemma_step_lined(m: Music, orders: Seq<Seq<usize>>, s: Filling, base: Seq<Seq<char>>)
    requires
        plan::valid_music(m),
        plan_laws::usable(m),
        plan::are_orders(orders, m.files.len()),
        plan_laws::sound(m, s),
        s.remaining > TICK,
        lined_up(m, orders, s.cursor, base + begun(s.pieces)),
        plan::step(m, orders, s).cursor.drawn <= orders.len(),
    ensures
        lined_up(
            m,
            orders,
            plan::step(m, orders, s).cursor,
            base + begun(plan::step(m, orders, s).pieces),
        ),
{
    order::lemma_order(s.cursor.playlist, m.files.len());
    let a = Filling { cursor: plan::on_track(orders, s.cursor), ..s };
    let b = plan::play(m, a);
    lemma_draw_lined(m, orders, s.cursor, base + begun(s.pieces));
    plan_laws::lemma_draw_ok(m, orders, s.cursor);
    lemma_play_lined(m, orders, a, base);
    plan_laws::lemma_play_sound(m, a);
    if m.length(b.cursor.playlist, b.cursor.track) - b.cursor.position < TICK {
        lemma_change_lined(m, orders, b, base);
    }
}

proof fn lemma_steps_lined(
    m: Music,
    orders: Seq<Seq<usize>>,
    s: Filling,
    n: nat,
    base: Seq<Seq<char>>,
)
    requires
        plan::valid_music(m),
        plan_laws::usable(m),
        plan::are_orders(orders, m.files.len()),
        plan_laws::sound(m, s),
        lined_up(m, orders, s.cursor, base + begun(s.pieces)),
        plan::steps(m, orders, s, n).cursor.drawn <= orders.len(),
    ensures
        lined_up(
            m,
            orders,
            plan::steps(m, orders, s, n).cursor,
            base + begun(plan::steps(m, orders, s, n).pieces),
        ),
    decreases n,
{
    if n > 0 {
        plan::lemma_drawn_grows(m, orders, s, (n - 1) as nat);
        lemma_steps_lined(m, orders, s, (n - 1) as nat, base);
        plan_laws::lemma_steps_sound(m, orders, s, (n - 1) as nat);
        let t = plan::steps(m, orders, s, (n - 1) as nat);
        if t.remaining > TICK {
            lemma_step_lined(m, orders, t, base);
        }
    }
}

proof fn lemma_files_lined(m: Music, orders: Seq<Seq<usize>>, inputs: Seq<i64>, i: int)
    requires
        plan::valid_music(m),
        plan_laws::usable(m),
        orders.len() > 0,
        plan::are_orders(orders, m.files.len()),
        plan::cursor_after(m, orders, inputs).drawn <= orders.len(),
        0 <= i <= inputs.len(),
    ensures
        lined_up(
            m,
            orders,
            plan::cursor_after(m, orders, inputs.take(i)),
            begun(all_pieces(plan::plan_for(m, orders, inputs).take(i))),
        ),
    decreases i,
{
    let plans = plan::plan_for(m, orders, inputs);
    if i == 0 {
        assert(inputs.take(0) =~= seq![]);
        assert(plans.take(0) =~= seq![]);
        assert(m.files.len() * 0 == 0);
        assert(begun(all_pieces(plans.take(0))) =~= first_files(m, orders, 0));
    } else {
        let base = begun(all_pieces(plans.take(i - 1)));
        let c = plan::cursor_after(m, orders, inputs.take(i - 1));
        let d = inputs[i - 1] as int;
        let none: Seq<Piece> = seq![];
        lemma_files_lined(m, orders, inputs, i - 1);
        plan_laws::lemma_filled(m, orders, inputs, i - 1);
        plan_laws::lemma_cursor_ok(m, orders, inputs.take(i - 1));
        assert(base + begun(none) =~= base);
        lemma_steps_lined(
            m,
            orders,
            plan_laws::empty_file(c, d),
            plan::step_limit(m.files.len(), d),
            base,
        );
        assert(plans.take(i).drop_last() =~= plans.take(i - 1));
        lemma_begun_both(all_pieces(plans.take(i - 1)), plans[i - 1]);
    }
}

/// The tracks that a plan plays start in the order of its playlists, read one behind the other:
/// each start is that of the next place, whatever stands between. So within a playlist no track
/// is left out, and none starts twice.
pub proof fn law_tracks_follow_the_playlists(
    m: Music,
    orders: Seq<Seq<usize>>,
    inputs: Seq<i64>,
    plan: Seq<Seq<Piece>>,
)
    requires
        plan::valid_music(m),
        plan_laws::usable(m),
        plan::is_plan(m, orders, inputs, plan),
    ensures
        ({
            let files = begun(all_pieces(plan));
            &&& files.len() <= line_up(orders).len()
            &&& forall|i: int|
                0 <= i < files.len() ==> #[trigger] files[i] == m.files[line_up(orders)[i] as int]
        }),
{
    let n = m.files.len();
    let c = plan::cursor_after(m, orders, inputs);
    lemma_files_lined(m, orders, inputs, inputs.len() as int);
    assert(inputs.take(inputs.len() as int) =~= inputs);
    assert(plan.take(plan.len() as int) =~= plan);
    plan_laws::lemma_cursor_ok(m, orders, inputs);
    assert forall|i: int| 0 <= i < orders.len() implies (#[trigger] orders[i]).len() == n by {
        order::lemma_order(orders[i], n);
    }
    lemma_line_up_len(orders, n);
    assert(n * (c.drawn - 1) + n == n * c.drawn) by (nonlinear_arith);
    assert(n * c.drawn <= n * orders.len()) by (nonlinear_arith)
        requires
            c.drawn <= orders.len(),
            n >= 0,
    ;
}

/// The music to plan with is what was given.
pub proof fn law_music_is_what_was_given(
    files: Seq<String>,
    durations: Seq<i64>,
    pause: i64,
    crossfade: i64,
)
    ensures
        ({
            let m = plan::music_of(files, durations, pause, crossfade);
            &&& m.files.len() == files.len()
            &&& forall|i: int| 0 <= i < files.len() ==> #[trigger] m.files[i] == files[i]@
            &&& m.durations == durations
            &&& m.pause == pause
            &&& m.crossfade == crossfade
        }),
{
}

// ─── Between two tracks ────────────────────────────────────────

/// What is planned between two tracks within a file, where a pause is asked for: the whole
/// pause, or as much of it as fits before the end of the file.
spec fn pauses(m: Music, s: Filling) -> bool {
    &&& forall|j: int|
        0 <= j < s.pieces.len() - 1 ==> #[trigger] pause_behind(m, s.pieces, j, s.remaining)
    &&& s.pieces.len() > 0 && s.remaining > TICK ==> s.pieces.last() is Silence
}

spec fn pause_behind(m: Music, pieces: Seq<Piece>, j: int, remaining: int) -> bool {
    pieces[j] is Segment ==> match pieces[j + 1] {
        Piece::Silence { duration } => duration == m.pause || (j + 2 == pieces.len() && remaining
            == 0 && 0 < duration < m.pause),
        _ => false,
    }
}

proof fn lemma_step_pauses(m: Music, orders: Seq<Seq<usize>>, s: Filling)
    requires
        plan::valid_music(m),
        plan_laws::usable(m),
        plan::are_orders(orders, m.files.len()),
        plan_laws::sound(m, s),
        m.crossfade <= 0,
        m.pause > TICK,
        s.remaining > TICK,
        pauses(m, s),
        plan::step(m, orders, s).cursor.drawn <= orders.len(),
    ensures
        pauses(m, plan::step(m, orders, s)),
{
    order::lemma_order(s.cursor.playlist, m.files.len());
    let a = Filling { cursor: plan::on_track(orders, s.cursor), ..s };
    let b = plan::play(m, a);
    let r = plan::step(m, orders, s);
    plan_laws::lemma_draw_ok(m, orders, s.cursor);
    plan_laws::lemma_on_track(m, a.cursor);
    assert(m.durations[a.cursor.playlist[a.cursor.track] as int] >= plan_laws::shortest());
    assert(b.pieces.last() is Segment);
    assert forall|j: int| 0 <= j < r.pieces.len() - 1 implies #[trigger] pause_behind(
        m,
        r.pieces,
        j,
        r.remaining,
    ) by {
        if j < s.pieces.len() - 1 {
            assert(pause_behind(m, s.pieces, j, s.remaining));
        }
    }
}

proof fn lemma_steps_pauses(m: Music, orders: Seq<Seq<usize>>, s: Filling, n: nat)
    requires
        plan::valid_music(m),
        plan_laws::usable(m),
        plan::are_orders(orders, m.files.len()),
        plan_laws::sound(m, s),
        m.crossfade <= 0,
        m.pause > TICK,
        pauses(m, s),
        plan::steps(m, orders, s, n).cursor.drawn <= orders.len(),
    ensures
        pauses(m, plan::steps(m, orders, s, n)),
    decreases n,
{
    if n > 0 {
        plan::lemma_drawn_grows(m, orders, s, (n - 1) as nat);
        lemma_steps_pauses(m, orders, s, (n - 1) as nat);
        plan_laws::lemma_steps_sound(m, orders, s, (n - 1) as nat);
        let t = plan::steps(m, orders, s, (n - 1) as nat);
        if t.remaining > TICK {
            lemma_step_pauses(m, orders, t);
        }
    }
}

/// Where a pause and no crossfade is asked for, every track that ends within a file is followed
/// by silence of exactly that length; only at the end of the file it may be cut short.
pub proof fn law_pauses_are_kept(
    m: Music,
    orders: Seq<Seq<usize>>,
    inputs: Seq<i64>,
    plan: Seq<Seq<Piece>>,
    i: int,
    j: int,
)
    requires
        plan::valid_music(m),
        plan_laws::usable(m),
        plan::is_plan(m, orders, inputs, plan),
        m.crossfade <= 0,
        m.pause > 1_000,
        0 <= i < plan.len(),
        0 <= j < plan[i].len() - 1,
        plan[i][j] is Segment,
    ensures
        match plan[i][j + 1] {
            Piece::Silence { duration } => duration == m.pause || (j + 2 == plan[i].len()
                && plan::total(plan[i]) == inputs[i] && 0 < duration < m.pause),
            _ => false,
        },
{
    let c = plan::cursor_after(m, orders, inputs.take(i));
    let d = inputs[i] as int;
    let s = plan_laws::empty_file(c, d);
    let n = plan::step_limit(m.files.len(), d);
    plan_laws::lemma_filled(m, orders, inputs, i);
    plan_laws::lemma_cursor_ok(m, orders, inputs.take(i));
    lemma_steps_pauses(m, orders, s, n);
    plan::lemma_steps_add_up(m, orders, s, n, d);
    let t = plan::steps(m, orders, s, n);
    assert(pause_behind(m, t.pieces, j, t.remaining));
}

/// Without a pause, or with a crossfade, no file holds silence.
pub proof fn law_no_silence_unasked(
    m: Music,
    orders: Seq<Seq<usize>>,
    inputs: Seq<i64>,
    plan: Seq<Seq<Piece>>,
    i: int,
    j: int,
)
    requires
        plan::valid_music(m),
        plan::is_plan(m, orders, inputs, plan),
        m.crossfade > 0 || m.pause <= 1_000,
        0 <= i < plan.len(),
        0 <= j < plan[i].len(),
    ensures
        !(plan[i][j] is Silence),
{
    let c = plan::cursor_after(m, orders, inputs.take(i));
    let d = inputs[i] as int;
    plan_laws::lemma_filled(m, orders, inputs, i);
    lemma_no_silence(
        m,
        orders,
        plan_laws::empty_file(c, d),
        plan::step_limit(m.files.len(), d),
    );
}

proof fn lemma_no_silence(m: Music, orders: Seq<Seq<usize>>, s: Filling, n: nat)
    requires
        m.crossfade > 0 || m.pause <= TICK,
        forall|j: int| 0 <= j < s.pieces.len() ==> !((#[trigger] s.pieces[j]) is Silence),
    ensures
        forall|j: int|
            0 <= j < plan::steps(m, orders, s, n).pieces.len() ==> !((#[trigger] plan::steps(
                m,
                orders,
                s,
                n,
            ).pieces[j]) is Silence),
    decreases n,
{
    if n > 0 {
        lemma_no_silence(m, orders, s, (n - 1) as nat);
        let t = plan::steps(m, orders, s, (n - 1) as nat);
        if t.remaining > TICK {
            let r = plan::step(m, orders, t);
            let a = Filling { cursor: plan::on_track(orders, t.cursor), ..t };
            let b = plan::play(m, a);
            assert forall|j: int| 0 <= j < b.pieces.len() implies !((#[trigger] b.pieces[j])
                is Silence) by {
                if j < t.pieces.len() {
                    assert(!(t.pieces[j] is Silence));
                }
            }
            assert forall|j: int| 0 <= j < r.pieces.len() implies !((#[trigger] r.pieces[j])
                is Silence) by {
                if j < b.pieces.len() {
                    assert(!(b.pieces[j] is Silence));
                }
            }
        }
    }
}

/// Whether a file is a track that is too short to be crossfaded into.
pub open spec fn is_short(m: Music, file: Seq<char>) -> bool {
    exists|k: int|
        #[trigger] plan_laws::is_track(m, k) && file == m.files[k] && m.durations[k] <= 10_000
}

/// Whether a file is a track of this length.
pub open spec fn lasts(m: Music, file: Seq<char>, length: int) -> bool {
    exists|k: int|
        #[trigger] plan_laws::is_track(m, k) && file == m.files[k] && m.durations[k] == length
}

/// Whether what stands behind the segment at place `j` of a file is as it should be where a
/// crossfade is asked for: a crossfade that is as long as is asked for, as the next track, as the
/// time before the end of the file allows, or as the segment allows; or, where that comes to no
/// more than ten milliseconds, the next track at once.
pub open spec fn crossfade_behind(m: Music, pieces: Seq<Piece>, j: int, duration: int) -> bool {
    let before = plan::total(pieces.take(j + 1));
    pieces[j] matches Piece::Segment { file, start, duration: lasting } ==> match pieces[j + 1] {
        Piece::Crossfade { file1, start1, dur1, file2, start2, dur2, overlap } => {
            &&& 10_000 < overlap <= m.crossfade
            &&& before + overlap <= duration
            &&& overlap == m.crossfade || lasts(m, file2, overlap) || before + 2 * overlap
                == duration || lasting == 1_001
        },
        Piece::Segment { file: file2, start: start2, duration: lasting2 } => {
            ||| m.crossfade <= 10_000
            ||| is_short(m, file2)
            ||| duration - before <= 10_000
            ||| lasting <= 11_001
        },
        Piece::Silence { duration: silent } => false,
    }
}

/// What every step of planning keeps where a crossfade is asked for.
spec fn crossfades(m: Music, s: Filling, d: int) -> bool {
    &&& forall|j: int|
        0 <= j < s.pieces.len() - 1 ==> #[trigger] crossfade_behind(m, s.pieces, j, d)
    &&& s.pieces.len() > 0 && s.remaining > TICK && s.pieces.last() is Segment ==> {
        &&& s.cursor.track < s.cursor.playlist.len()
        &&& s.cursor.position == 0
        &&& m.crossfade <= MIN_CROSSFADE || s.remaining <= MIN_CROSSFADE || m.length(
            s.cursor.playlist,
            s.cursor.track,
        ) <= MIN_CROSSFADE || s.pieces.last()->Segment_duration <= MIN_CROSSFADE + TICK + 1
    }
}

/// The pairs before the last piece stay as they are.
proof fn lemma_pairs_stay(m: Music, a: Seq<Piece>, b: Seq<Piece>, d: int, k: int)
    requires
        0 <= k < a.len(),
        k < b.len(),
        forall|j: int| 0 <= j < k ==> a[j] == b[j],
        a[k] == b[k] || plan_laws::same_place(a[k], b[k]) && a[k] is Segment && b[k] is Segment,
        forall|j: int| 0 <= j < a.len() - 1 ==> #[trigger] crossfade_behind(m, a, j, d),
    ensures
        forall|j: int| 0 <= j < k ==> #[trigger] crossfade_behind(m, b, j, d),
{
    assert forall|j: int| 0 <= j < k implies #[trigger] crossfade_behind(m, b, j, d) by {
        assert(crossfade_behind(m, a, j, d));
        assert(a.take(j + 1) =~= b.take(j + 1));
    }
}

#[verifier::spinoff_prover]
#[verifier::rlimit(40)]
proof fn lemma_change_crossfades(m: Music, orders: Seq<Seq<usize>>, s: Filling, d: int)
    requires
        plan::valid_music(m),
        plan_laws::usable(m),
        plan::are_orders(orders, m.files.len()),
        plan_laws::cursor_ok(m, s.cursor),
        s.cursor.track < m.files.len(),
        m.crossfade > TICK,
        s.pieces.len() > 0,
        s.pieces.last() is Segment,
        s.pieces.last()->Segment_duration <= m.length(s.cursor.playlist, s.cursor.track),
        plan::adds_up(s, d),
        s.remaining >= 0,
        forall|j: int| 0 <= j < s.pieces.len() - 1 ==> #[trigger] crossfade_behind(m, s.pieces, j, d),
        plan::change_track(m, orders, s).cursor.drawn <= orders.len(),
    ensures
        crossfades(m, plan::change_track(m, orders, s), d),
{
    let c = s.cursor;
    let prev = c.playlist[c.track];
    let next = Cursor { track: c.track + 1, position: 0, ..c };
    let r = plan::change_track(m, orders, s);
    let k = s.pieces.len() - 1;
    plan_laws::lemma_on_track(m, c);
    if s.remaining > TICK {
        let t = Filling { cursor: plan::on_track(orders, next), ..s };
        plan_laws::lemma_draw_ok(m, orders, next);
        plan_laws::lemma_on_track(m, t.cursor);
        let track = t.cursor.playlist[t.cursor.track] as int;
        if plan::crosses(m, t, prev) {
            let cf = plan::crossfade_length(m, t, prev);
            let u = plan::shorten_last(t, cf);
            let front = s.pieces.drop_last();
            lemma_pairs_stay(m, s.pieces, r.pieces, d, k);
            plan::lemma_total_push(front, s.pieces.last());
            plan::lemma_total_push(front, u.pieces.last());
            assert(front.push(s.pieces.last()) =~= s.pieces);
            assert(r.pieces.take(k + 1) =~= u.pieces);
            assert(crossfade_behind(m, r.pieces, k, d)) by {
                assert(plan_laws::is_track(m, track));
                if cf == m.length(t.cursor.playlist, t.cursor.track) {
                    assert(lasts(m, m.file(t.cursor.playlist, t.cursor.track), cf));
                }
            }
        }
    }
}

#[verifier::spinoff_prover]
#[verifier::rlimit(40)]
proof fn lemma_step_crossfades(m: Music, orders: Seq<Seq<usize>>, s: Filling, d: int)
    requires
        plan::valid_music(m),
        plan_laws::usable(m),
        plan::are_orders(orders, m.files.len()),
        plan_laws::sound(m, s),
        m.crossfade > TICK,
        s.remaining > TICK,
        plan::adds_up(s, d),
        crossfades(m, s, d),
        plan::step(m, orders, s).cursor.drawn <= orders.len(),
    ensures
        crossfades(m, plan::step(m, orders, s), d),
{
    order::lemma_order(s.cursor.playlist, m.files.len());
    let a = Filling { cursor: plan::on_track(orders, s.cursor), ..s };
    let b = plan::play(m, a);
    plan_laws::lemma_draw_ok(m, orders, s.cursor);
    plan_laws::lemma_on_track(m, a.cursor);
    plan_laws::lemma_play_sound(m, a);
    plan::lemma_play_adds_up(m, a, d);
    let track = a.cursor.playlist[a.cursor.track] as int;
    assert(m.durations[track] >= plan_laws::shortest());
    assert(b.pieces.last() is Segment);
    assert forall|j: int| 0 <= j < b.pieces.len() - 1 implies #[trigger] crossfade_behind(
        m,
        b.pieces,
        j,
        d,
    ) by {
        if j < s.pieces.len() - 1 {
            assert(crossfade_behind(m, s.pieces, j, d));
            assert(b.pieces.take(j + 1) =~= s.pieces.take(j + 1));
        } else {
            assert(b.pieces.take(j + 1) =~= s.pieces);
            assert(plan_laws::is_track(m, track));
            if m.durations[track] <= MIN_CROSSFADE {
                assert(is_short(m, m.file(a.cursor.playlist, a.cursor.track)));
            }
        }
    }
    if m.length(b.cursor.playlist, b.cursor.track) - b.cursor.position < TICK {
        lemma_change_crossfades(m, orders, b, d);
    }
}

proof fn lemma_steps_crossfades(m: Music, orders: Seq<Seq<usize>>, s: Filling, n: nat, d: int)
    requires
        plan::valid_music(m),
        plan_laws::usable(m),
        plan::are_orders(orders, m.files.len()),
        plan_laws::sound(m, s),
        m.crossfade > TICK,
        plan::adds_up(s, d),
        crossfades(m, s, d),
        plan::steps(m, orders, s, n).cursor.drawn <= orders.len(),
    ensures
        crossfades(m, plan::steps(m, orders, s, n), d),
    decreases n,
{
    if n > 0 {
        plan::lemma_drawn_grows(m, orders, s, (n - 1) as nat);
        lemma_steps_crossfades(m, orders, s, (n - 1) as nat, d);
        plan_laws::lemma_steps_sound(m, orders, s, (n - 1) as nat);
        plan::lemma_steps_add_up(m, orders, s, (n - 1) as nat, d);
        let t = plan::steps(m, orders, s, (n - 1) as nat);
        if t.remaining > TICK {
            lemma_step_crossfades(m, orders, t, d);
        }
    }
}

/// Where a crossfade is asked for, every track that ends within a file is crossfaded into the
/// next one, for as long as is asked for or as there is room; only where there is next to no room
/// the next track follows at once.
pub proof fn law_crossfades_are_kept(
    m: Music,
    orders: Seq<Seq<usize>>,
    inputs: Seq<i64>,
    plan: Seq<Seq<Piece>>,
    i: int,
    j: int,
)
    requires
        plan::valid_music(m),
        plan_laws::usable(m),
        plan::is_plan(m, orders, inputs, plan),
        m.crossfade > 1_000,
        0 <= i < plan.len(),
        0 <= j < plan[i].len() - 1,
    ensures
        crossfade_behind(m, plan[i], j, inputs[i] as int),
{
    let c = plan::cursor_after(m, orders, inputs.take(i));
    let d = inputs[i] as int;
    let s = plan_laws::empty_file(c, d);
    let n = plan::step_limit(m.files.len(), d);
    plan_laws::lemma_filled(m, orders, inputs, i);
    plan_laws::lemma_cursor_ok(m, orders, inputs.take(i));
    lemma_steps_crossfades(m, orders, s, n, d);
}

} // verus!
