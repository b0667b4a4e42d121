//! Music overlay planner: which music to lay under each input file, with one cursor
//! that runs through the shuffled playlist across all files.

use crate::number::TICK;
use crate::order;
use crate::text;
use rand::seq::SliceRandom;
use rand::thread_rng;
use vstd::prelude::*;

verus! {

/// A crossfade has to be longer than this (microseconds).
pub const MIN_CROSSFADE: i64 = 10_000;

/// A single piece of the music overlay for one input file. Times are microseconds.
#[derive(Debug)]
pub enum MusicPiece {
    /// A segment from a music file.
    Segment { file: String, start: i64, duration: i64 },
    /// Generated silence between tracks.
    Silence { duration: i64 },
    /// Crossfade between the end of one track and the start of another.
    Crossfade {
        file1: String,
        start1: i64,
        dur1: i64,
        file2: String,
        start2: i64,
        dur2: i64,
        overlap: i64,
    },
}

/// What a [`MusicPiece`] says.
pub enum Piece {
    Segment { file: Seq<char>, start: int, duration: int },
    Silence { duration: int },
    Crossfade {
        file1: Seq<char>,
        start1: int,
        dur1: int,
        file2: Seq<char>,
        start2: int,
        dur2: int,
        overlap: int,
    },
}

impl View for MusicPiece {
    type V = Piece;

    open spec fn view(&self) -> Piece {
        match *self {
            MusicPiece::Segment { file, start, duration } => Piece::Segment {
                file: file@,
                start: start as int,
                duration: duration as int,
            },
            MusicPiece::Silence { duration } => Piece::Silence { duration: duration as int },
            MusicPiece::Crossfade { file1, start1, dur1, file2, start2, dur2, overlap } =>
                Piece::Crossfade {
                    file1: file1@,
                    start1: start1 as int,
                    dur1: dur1 as int,
                    file2: file2@,
                    start2: start2 as int,
                    dur2: dur2 as int,
                    overlap: overlap as int,
                },
        }
    }
}

impl Clone for MusicPiece {
    fn clone(&self) -> (r: MusicPiece)
        ensures
            r@ == self@,
    {
        match self {
            MusicPiece::Segment { file, start, duration } => MusicPiece::Segment {
                file: file.clone(),
                start: *start,
                duration: *duration,
            },
            MusicPiece::Silence { duration } => MusicPiece::Silence { duration: *duration },
            MusicPiece::Crossfade { file1, start1, dur1, file2, start2, dur2, overlap } =>
                MusicPiece::Crossfade {
                    file1: file1.clone(),
                    start1: *start1,
                    dur1: *dur1,
                    file2: file2.clone(),
                    start2: *start2,
                    dur2: *dur2,
                    overlap: *overlap,
                },
        }
    }
}

/// The pieces of one file.
pub open spec fn pieces_view(v: Seq<MusicPiece>) -> Seq<Piece> {
    Seq::new(v.len(), |i: int| v[i]@)
}

/// The pieces of every file.
pub open spec fn plan_view(v: Seq<Vec<MusicPiece>>) -> Seq<Seq<Piece>> {
    Seq::new(v.len(), |i: int| pieces_view(v[i]@))
}

// ─── The model ─────────────────────────────────────────────────

/// The music to choose from and what happens between two tracks.
pub struct Music {
    pub files: Seq<Seq<char>>,
    pub durations: Seq<i64>,
    pub pause: int,
    pub crossfade: int,
}

/// Where the music stands: at `position` of the track `playlist[track]`, after `drawn`
/// playlists have been drawn.
pub struct Cursor {
    pub playlist: Seq<usize>,
    pub track: int,
    pub position: int,
    pub drawn: int,
}

/// A file that is being planned: the pieces so far and the time still to fill.
pub struct Filling {
    pub cursor: Cursor,
    pub pieces: Seq<Piece>,
    pub remaining: int,
}

pub open spec fn min(a: int, b: int) -> int {
    if a <= b {
        a
    } else {
        b
    }
}

pub open spec fn max(a: int, b: int) -> int {
    if a <= b {
        b
    } else {
        a
    }
}

/// Whether each playlist holds every track once.
pub open spec fn are_orders(orders: Seq<Seq<usize>>, n: nat) -> bool {
    forall|i: int| 0 <= i < orders.len() ==> order::is_order(#[trigger] orders[i], n)
}

impl Music {
    /// The length of the track at place `i` of the playlist.
    pub open spec fn length(self, playlist: Seq<usize>, i: int) -> int {
        self.durations[playlist[i] as int] as int
    }

    /// The file of the track at place `i` of the playlist.
    pub open spec fn file(self, playlist: Seq<usize>, i: int) -> Seq<char> {
        self.files[playlist[i] as int]
    }
}

/// Whether `b` starts with all of `a`.
pub open spec fn extends(b: Seq<Seq<usize>>, a: Seq<Seq<usize>>) -> bool {
    &&& a.len() <= b.len()
    &&& forall|i: int| 0 <= i < a.len() ==> #[trigger] b[i] == a[i]
}

/// The playlists in a list of lists.
pub open spec fn orders_view(v: Seq<Vec<usize>>) -> Seq<Seq<usize>> {
    Seq::new(v.len(), |i: int| v[i]@)
}

/// The music that these lists and settings describe.
pub open spec fn music_of(
    files: Seq<String>,
    durations: Seq<i64>,
    pause: i64,
    crossfade: i64,
) -> Music {
    Music { files: text::texts(files), durations, pause: pause as int, crossfade: crossfade as int }
}

/// Whether the lists fit together and can be held in memory.
pub open spec fn valid_music(m: Music) -> bool {
    &&& 0 < m.files.len() <= usize::MAX
    &&& m.durations.len() == m.files.len()
}

/// The cursor once it stands on a track: past the end of the playlist the next one is
/// drawn.
pub open spec fn on_track(orders: Seq<Seq<usize>>, c: Cursor) -> Cursor {
    if c.track >= c.playlist.len() {
        Cursor { playlist: orders[c.drawn], track: 0, position: 0, drawn: c.drawn + 1 }
    } else {
        c
    }
}

/// Plays the track under the cursor for as long as it lasts or as is needed.
pub open spec fn play(m: Music, s: Filling) -> Filling {
    let c = s.cursor;
    let left = m.length(c.playlist, c.track) - c.position;
    if left >= TICK {
        let take = min(s.remaining, left);
        Filling {
            cursor: Cursor { position: c.position + take, ..c },
            pieces: s.pieces.push(
                Piece::Segment {
                    file: m.file(c.playlist, c.track),
                    start: c.position,
                    duration: take,
                },
            ),
            remaining: s.remaining - take,
        }
    } else {
        s
    }
}

/// Takes `cut` off the last piece where that is a segment with more than that to spare.
pub open spec fn shorten_last(s: Filling, cut: int) -> Filling {
    if s.pieces.len() > 0 {
        match s.pieces.last() {
            Piece::Segment { file, start, duration } if duration > cut + TICK => Filling {
                pieces: s.pieces.drop_last().push(
                    Piece::Segment { file, start, duration: duration - cut },
                ),
                remaining: s.remaining + cut,
                ..s
            },
            _ => s,
        }
    } else {
        s
    }
}

/// How much a crossfade may take over of the last piece: of a segment all but a little more
/// than a millisecond, so that nothing which an earlier file has played is heard again.
pub open spec fn room(pieces: Seq<Piece>) -> int {
    if pieces.len() > 0 {
        match pieces.last() {
            Piece::Segment { file, start, duration } => duration - TICK - 1,
            _ => 0,
        }
    } else {
        0
    }
}

/// How long the crossfade from the track `prev` into the one under the cursor is.
pub open spec fn crossfade_length(m: Music, s: Filling, prev: usize) -> int {
    min(
        min(
            min(min(m.crossfade, s.remaining), m.durations[prev as int] as int),
            m.length(s.cursor.playlist, s.cursor.track),
        ),
        room(s.pieces),
    )
}

/// Whether the music goes from the track `prev` into the one under the cursor by a
/// crossfade.
pub open spec fn crosses(m: Music, s: Filling, prev: usize) -> bool {
    m.crossfade > TICK && crossfade_length(m, s, prev) > MIN_CROSSFADE
}

/// The cursor `cf` into the track under it; behind that track where it is then at its end.
pub open spec fn faded_in(m: Music, c: Cursor, cf: int) -> Cursor {
    if m.length(c.playlist, c.track) - cf < TICK {
        Cursor { track: c.track + 1, position: 0, ..c }
    } else {
        Cursor { position: cf, ..c }
    }
}

/// Fades from the end of the track `prev` into the one under the cursor.
pub open spec fn fade_over(m: Music, s: Filling, prev: usize) -> Filling {
    let cf = crossfade_length(m, s, prev);
    let t = shorten_last(s, cf);
    Filling {
        cursor: faded_in(m, s.cursor, cf),
        pieces: t.pieces.push(
            Piece::Crossfade {
                file1: m.files[prev as int],
                start1: max(m.durations[prev as int] - cf, 0),
                dur1: cf,
                file2: m.file(s.cursor.playlist, s.cursor.track),
                start2: 0,
                dur2: cf,
                overlap: cf,
            },
        ),
        remaining: t.remaining - cf,
    }
}

/// Fills the time up to the pause with silence.
pub open spec fn fall_silent(m: Music, s: Filling) -> Filling {
    let p = min(s.remaining, m.pause);
    Filling { pieces: s.pieces.push(Piece::Silence { duration: p }), remaining: s.remaining - p, ..s }
}

/// Goes on to the next track. What comes between two tracks is only put in where there
/// is time left for it: a crossfade, or a pause where no crossfade is asked for.
pub open spec fn change_track(m: Music, orders: Seq<Seq<usize>>, s: Filling) -> Filling {
    let prev = s.cursor.playlist[s.cursor.track];
    let next = Cursor { track: s.cursor.track + 1, position: 0, ..s.cursor };
    if s.remaining > TICK {
        let t = Filling { cursor: on_track(orders, next), ..s };
        if crosses(m, t, prev) {
            fade_over(m, t, prev)
        } else if m.crossfade <= 0 && m.pause > TICK {
            fall_silent(m, t)
        } else {
            t
        }
    } else {
        Filling { cursor: next, ..s }
    }
}

/// One step of filling a file: plays the track under the cursor, and goes on to the next
/// one where this one has come to its end.
pub open spec fn step(m: Music, orders: Seq<Seq<usize>>, s: Filling) -> Filling {
    let t = play(m, Filling { cursor: on_track(orders, s.cursor), ..s });
    if m.length(t.cursor.playlist, t.cursor.track) - t.cursor.position < TICK {
        change_track(m, orders, t)
    } else {
        t
    }
}

/// At most `n` steps, for as long as there is time to fill.
pub open spec fn steps(m: Music, orders: Seq<Seq<usize>>, s: Filling, n: nat) -> Filling
    decreases n,
{
    if n == 0 {
        s
    } else {
        let t = steps(m, orders, s, (n - 1) as nat);
        if t.remaining > TICK {
            step(m, orders, t)
        } else {
            t
        }
    }
}

/// The number of steps after which planning a file of this duration is given up.
pub open spec fn step_limit(tracks: nat, duration: int) -> nat {
    min((tracks + 2) * (max(duration, 0) / 1000 + 2), u64::MAX as int) as nat
}

/// The plan of one file of this duration, from the given cursor.
pub open spec fn fill_file(m: Music, orders: Seq<Seq<usize>>, c: Cursor, duration: int) -> Filling {
    steps(
        m,
        orders,
        Filling { cursor: c, pieces: seq![], remaining: duration },
        step_limit(m.files.len(), duration),
    )
}

/// The start of the first playlist.
pub open spec fn start_cursor(orders: Seq<Seq<usize>>) -> Cursor {
    Cursor { playlist: orders[0], track: 0, position: 0, drawn: 1 }
}

/// The cursor behind all the inputs.
pub open spec fn cursor_after(m: Music, orders: Seq<Seq<usize>>, inputs: Seq<i64>) -> Cursor
    decreases inputs.len(),
{
    if inputs.len() == 0 {
        start_cursor(orders)
    } else {
        fill_file(
            m,
            orders,
            cursor_after(m, orders, inputs.drop_last()),
            inputs.last() as int,
        ).cursor
    }
}

/// The pieces of each input, where the playlists are drawn as `orders` lists them.
pub open spec fn plan_for(m: Music, orders: Seq<Seq<usize>>, inputs: Seq<i64>) -> Seq<Seq<Piece>> {
    Seq::new(
        inputs.len(),
        |i: int|
            fill_file(
                m,
                orders,
                cursor_after(m, orders, inputs.take(i)),
                inputs[i] as int,
            ).pieces,
    )
}

/// Whether `plan` is the plan for the inputs where exactly the playlists `orders` are
/// drawn.
pub open spec fn is_plan(
    m: Music,
    orders: Seq<Seq<usize>>,
    inputs: Seq<i64>,
    plan: Seq<Seq<Piece>>,
) -> bool {
    &&& orders.len() > 0
    &&& are_orders(orders, m.files.len())
    &&& cursor_after(m, orders, inputs).drawn == orders.len()
    &&& plan == plan_for(m, orders, inputs)
}

// ─── Lengths ───────────────────────────────────────────────────

/// How long a piece sounds. The two sides of a crossfade sound at the same time.
pub open spec fn piece_length(p: Piece) -> int {
    match p {
        Piece::Segment { file, start, duration } => duration,
        Piece::Silence { duration } => duration,
        Piece::Crossfade { file1, start1, dur1, file2, start2, dur2, overlap } => overlap,
    }
}

/// How long the pieces sound one after the other.
pub open spec fn total(pieces: Seq<Piece>) -> int
    decreases pieces.len(),
{
    if pieces.len() == 0 {
        0
    } else {
        total(pieces.drop_last()) + piece_length(pieces.last())
    }
}

pub open spec fn all_positive(pieces: Seq<Piece>) -> bool {
    forall|i: int| 0 <= i < pieces.len() ==> piece_length(#[trigger] pieces[i]) > 0
}

pub proof fn lemma_total_push(pieces: Seq<Piece>, p: Piece)
    ensures
        total(pieces.push(p)) == total(pieces) + piece_length(p),
{
    assert(pieces.push(p).drop_last() =~= pieces);
}

proof fn lemma_total_positive(pieces: Seq<Piece>)
    requires
        all_positive(pieces),
    ensures
        total(pieces) >= 0,
    decreases pieces.len(),
{
    if pieces.len() > 0 {
        assert(piece_length(pieces.last()) > 0);
        assert forall|i: int| 0 <= i < pieces.drop_last().len() implies piece_length(
            #[trigger] pieces.drop_last()[i],
        ) > 0 by {
            assert(piece_length(pieces[i]) > 0);
        }
        lemma_total_positive(pieces.drop_last());
    }
}

proof fn lemma_total_last(pieces: Seq<Piece>)
    requires
        all_positive(pieces),
        pieces.len() > 0,
    ensures
        0 < piece_length(pieces.last()) <= total(pieces),
{
    assert(piece_length(pieces.last()) > 0);
    assert forall|i: int| 0 <= i < pieces.drop_last().len() implies piece_length(
        #[trigger] pieces.drop_last()[i],
    ) > 0 by {
        assert(piece_length(pieces[i]) > 0);
    }
    lemma_total_positive(pieces.drop_last());
}

/// What holds of a file of the given duration at every moment of planning it: the pieces
/// so far and the time still to fill make up its duration.
pub open spec fn adds_up(s: Filling, duration: int) -> bool {
    &&& all_positive(s.pieces)
    &&& total(s.pieces) + s.remaining == duration
    &&& s.remaining >= 0 || (s.pieces.len() == 0 && duration < 0)
}

proof fn lemma_positive_push(pieces: Seq<Piece>, p: Piece)
    requires
        all_positive(pieces),
        piece_length(p) > 0,
    ensures
        all_positive(pieces.push(p)),
{
    assert forall|i: int| 0 <= i < pieces.push(p).len() implies piece_length(
        #[trigger] pieces.push(p)[i],
    ) > 0 by {
        if i < pieces.len() {
            assert(piece_length(pieces[i]) > 0);
        }
    }
}

pub proof fn lemma_play_adds_up(m: Music, s: Filling, d: int)
    requires
        adds_up(s, d),
        s.remaining > TICK,
    ensures
        adds_up(play(m, s), d),
        play(m, s).remaining <= s.remaining,
{
    let c = s.cursor;
    let left = m.length(c.playlist, c.track) - c.position;
    if left >= TICK {
        let take = min(s.remaining, left);
        let p = Piece::Segment { file: m.file(c.playlist, c.track), start: c.position, duration: take };
        lemma_total_push(s.pieces, p);
        lemma_positive_push(s.pieces, p);
    }
}

proof fn lemma_shorten_adds_up(s: Filling, cut: int, d: int)
    requires
        adds_up(s, d),
        0 <= cut <= s.remaining,
    ensures
        adds_up(shorten_last(s, cut), d),
        s.remaining <= shorten_last(s, cut).remaining <= s.remaining + cut,
{
    let t = shorten_last(s, cut);
    if s.pieces.len() > 0 && s.pieces.last() is Segment && s.pieces.last()->Segment_duration > cut
        + TICK {
        let front = s.pieces.drop_last();
        assert forall|i: int| 0 <= i < front.len() implies piece_length(#[trigger] front[i]) > 0 by {
            assert(piece_length(s.pieces[i]) > 0);
        }
        lemma_total_push(front, t.pieces.last());
        lemma_positive_push(front, t.pieces.last());
    }
}

pub proof fn lemma_change_adds_up(m: Music, orders: Seq<Seq<usize>>, s: Filling, d: int)
    requires
        adds_up(s, d),
        s.remaining >= 0,
    ensures
        adds_up(change_track(m, orders, s), d),
        0 <= change_track(m, orders, s).remaining <= s.remaining,
{
    let prev = s.cursor.playlist[s.cursor.track];
    let next = Cursor { track: s.cursor.track + 1, position: 0, ..s.cursor };
    if s.remaining > TICK {
        let t = Filling { cursor: on_track(orders, next), ..s };
        if crosses(m, t, prev) {
            let cf = crossfade_length(m, t, prev);
            lemma_shorten_adds_up(t, cf, d);
            let u = shorten_last(t, cf);
            let r = fade_over(m, t, prev);
            lemma_total_push(u.pieces, r.pieces.last());
            lemma_positive_push(u.pieces, r.pieces.last());
        } else if m.crossfade <= 0 && m.pause > TICK {
            let r = fall_silent(m, t);
            lemma_total_push(t.pieces, r.pieces.last());
            lemma_positive_push(t.pieces, r.pieces.last());
        }
    }
}

pub proof fn lemma_step_adds_up(m: Music, orders: Seq<Seq<usize>>, s: Filling, d: int)
    requires
        adds_up(s, d),
        s.remaining > TICK,
    ensures
        adds_up(step(m, orders, s), d),
        0 <= step(m, orders, s).remaining <= s.remaining,
{
    let a = Filling { cursor: on_track(orders, s.cursor), ..s };
    lemma_play_adds_up(m, a, d);
    lemma_change_adds_up(m, orders, play(m, a), d);
}

pub proof fn lemma_steps_add_up(m: Music, orders: Seq<Seq<usize>>, s: Filling, n: nat, d: int)
    requires
        adds_up(s, d),
    ensures
        adds_up(steps(m, orders, s, n), d),
        steps(m, orders, s, n).remaining <= s.remaining,
    decreases n,
{
    if n > 0 {
        lemma_steps_add_up(m, orders, s, (n - 1) as nat, d);
        let t = steps(m, orders, s, (n - 1) as nat);
        if t.remaining > TICK {
            lemma_step_adds_up(m, orders, t, d);
        }
    }
}

// ─── Orders ────────────────────────────────────────────────────

/// Drawing more playlists than are used does not change the outcome of the steps.
proof fn lemma_steps_agree(m: Music, a: Seq<Seq<usize>>, b: Seq<Seq<usize>>, s: Filling, n: nat)
    requires
        extends(b, a),
        s.cursor.drawn >= 0,
        steps(m, a, s, n).cursor.drawn <= a.len(),
    ensures
        steps(m, b, s, n) == steps(m, a, s, n),
        steps(m, a, s, n).cursor.drawn >= s.cursor.drawn,
    decreases n,
{
    if n > 0 {
        lemma_drawn_grows(m, a, s, (n - 1) as nat);
        let t = steps(m, a, s, (n - 1) as nat);
        lemma_steps_agree(m, a, b, s, (n - 1) as nat);
    }
}

pub proof fn lemma_drawn_grows(m: Music, a: Seq<Seq<usize>>, s: Filling, n: nat)
    ensures
        s.cursor.drawn <= steps(m, a, s, n).cursor.drawn <= steps(m, a, s, n + 1).cursor.drawn,
    decreases n,
{
    if n > 0 {
        lemma_drawn_grows(m, a, s, (n - 1) as nat);
    }
}

proof fn lemma_cursor_agrees(m: Music, a: Seq<Seq<usize>>, b: Seq<Seq<usize>>, inputs: Seq<i64>)
    requires
        0 < a.len(),
        extends(b, a),
        cursor_after(m, a, inputs).drawn <= a.len(),
    ensures
        cursor_after(m, b, inputs) == cursor_after(m, a, inputs),
        cursor_after(m, a, inputs).drawn >= 1,
        forall|i: int|
            0 <= i <= inputs.len() ==> {
                let c = #[trigger] cursor_after(m, a, inputs.take(i));
                &&& cursor_after(m, b, inputs.take(i)) == c
                &&& 1 <= c.drawn <= cursor_after(m, a, inputs).drawn
            },
    decreases inputs.len(),
{
    assert(inputs.take(inputs.len() as int) =~= inputs);
    if inputs.len() > 0 {
        let front = inputs.drop_last();
        let c = cursor_after(m, a, front);
        let s = Filling { cursor: c, pieces: seq![], remaining: inputs.last() as int };
        let n = step_limit(m.files.len(), inputs.last() as int);
        lemma_drawn_grows(m, a, s, n);
        lemma_cursor_agrees(m, a, b, front);
        lemma_steps_agree(m, a, b, s, n);
        assert forall|i: int| 0 <= i <= inputs.len() implies {
            let k = #[trigger] cursor_after(m, a, inputs.take(i));
            &&& cursor_after(m, b, inputs.take(i)) == k
            &&& 1 <= k.drawn <= cursor_after(m, a, inputs).drawn
        } by {
            if i < inputs.len() {
                assert(inputs.take(i) =~= front.take(i));
                let k = cursor_after(m, a, front.take(i));
            }
        }
    } else {
        assert forall|i: int| 0 <= i <= inputs.len() implies {
            let k = #[trigger] cursor_after(m, a, inputs.take(i));
            &&& cursor_after(m, b, inputs.take(i)) == k
            &&& 1 <= k.drawn <= cursor_after(m, a, inputs).drawn
        } by {
            assert(inputs.take(i) =~= inputs);
        }
    }
}

/// A plan is the same for every list of playlists that starts with the ones it uses.
pub proof fn lemma_plan_agrees(m: Music, a: Seq<Seq<usize>>, b: Seq<Seq<usize>>, inputs: Seq<i64>)
    requires
        0 < a.len(),
        extends(b, a),
        cursor_after(m, a, inputs).drawn <= a.len(),
    ensures
        plan_for(m, b, inputs) == plan_for(m, a, inputs),
        cursor_after(m, b, inputs) == cursor_after(m, a, inputs),
{
    lemma_cursor_agrees(m, a, b, inputs);
    assert forall|i: int| 0 <= i < inputs.len() implies plan_for(m, b, inputs)[i] == plan_for(
        m,
        a,
        inputs,
    )[i] by {
        let c = cursor_after(m, a, inputs.take(i));
        assert(inputs.take(i + 1).drop_last() =~= inputs.take(i));
        let d = cursor_after(m, a, inputs.take(i + 1));
        lemma_steps_agree(
            m,
            a,
            b,
            Filling { cursor: c, pieces: seq![], remaining: inputs[i] as int },
            step_limit(m.files.len(), inputs[i] as int),
        );
    }
    assert(plan_for(m, b, inputs) =~= plan_for(m, a, inputs));
}

/// Once the time is filled, further steps change nothing.
pub proof fn lemma_steps_done(m: Music, orders: Seq<Seq<usize>>, s: Filling, n: nat, k: nat)
    requires
        n <= k,
        steps(m, orders, s, n).remaining <= TICK,
    ensures
        steps(m, orders, s, k) == steps(m, orders, s, n),
    decreases k,
{
    if n < k {
        lemma_steps_done(m, orders, s, n, (k - 1) as nat);
    }
}

// ─── Planning ──────────────────────────────────────────────────

/// `SliceRandom::shuffle` with the thread's own generator, both of the crate `rand`. It
/// swaps elements of the slice: in whatever order they come out, they are the same
/// elements. Which order that is rests on chance and is left open.
#[verifier::external_body]
fn shuffle(playlist: &mut Vec<usize>)
    ensures
        final(playlist)@.to_multiset() == old(playlist)@.to_multiset(),
{
    playlist.shuffle(&mut thread_rng());
}

struct Planner<'a> {
    files: &'a Vec<String>,
    durations: &'a Vec<i64>,
    pause: i64,
    crossfade: i64,
    /// The playlists to use before any is shuffled, and how many of them are used up.
    given: &'a Vec<Vec<usize>>,
    used: usize,
    playlist: Vec<usize>,
    track: usize,
    position: i64,
    /// Every playlist drawn so far.
    drawn: Ghost<Seq<Seq<usize>>>,
}

impl<'a> Planner<'a> {
    spec fn music(&self) -> Music {
        Music {
            files: text::texts(self.files@),
            durations: self.durations@,
            pause: self.pause as int,
            crossfade: self.crossfade as int,
        }
    }

    spec fn cursor(&self) -> Cursor {
        Cursor {
            playlist: self.playlist@,
            track: self.track as int,
            position: self.position as int,
            drawn: self.drawn@.len() as int,
        }
    }

    /// What holds before the first playlist is drawn.
    spec fn ready(&self) -> bool {
        let n = self.files@.len();
        &&& 0 < n <= usize::MAX
        &&& self.durations@.len() == n
        &&& order::is_order(self.playlist@, n)
        &&& are_orders(self.drawn@, n)
        &&& self.used == min(self.given@.len() as int, self.drawn@.len() as int)
        &&& forall|i: int| 0 <= i < self.given@.len() ==> order::is_order(#[trigger] self.given@[i]@, n)
        &&& forall|i: int| 0 <= i < self.used ==> #[trigger] self.drawn@[i] == self.given@[i]@
    }

    spec fn well_formed(&self) -> bool {
        let n = self.files@.len();
        &&& self.ready()
        &&& self.track <= n
        &&& self.position >= 0
        &&& self.track == n ==> self.position == 0
        &&& self.track < n ==> self.position == 0 || self.position
            <= self.durations@[self.playlist@[self.track as int] as int]
    }

    /// The parts that planning never changes.
    spec fn same_music(&self, other: &Planner<'a>) -> bool {
        &&& self.files@ == other.files@
        &&& self.durations@ == other.durations@
        &&& self.pause == other.pause
        &&& self.crossfade == other.crossfade
        &&& self.given@ == other.given@
    }
}

/// A copy of a playlist.
fn copy_order(p: &Vec<usize>) -> (r: Vec<usize>)
    ensures
        r@ == p@,
{
    let mut out: Vec<usize> = Vec::new();
    let mut i: usize = 0;
    while i < p.len()
        invariant
            i <= p@.len(),
            out@ == p@.take(i as int),
        decreases p.len() - i,
    {
        out.push(p[i]);
        i += 1;
        assert(out@ =~= p@.take(i as int));
    }
    assert(p@.take(i as int) =~= p@);
    out
}

/// `a` or `b`, whichever is smaller.
fn smaller(a: i64, b: i64) -> (r: i64)
    ensures
        r == min(a as int, b as int),
{
    if a <= b {
        a
    } else {
        b
    }
}

impl<'a> Planner<'a> {
    /// Draws the next playlist.
    fn draw(&mut self)
        requires
            old(self).ready(),
        ensures
            final(self).well_formed(),
            final(self).same_music(old(self)),
            final(self).drawn@ == old(self).drawn@.push(final(self).playlist@),
            final(self).track == 0,
            final(self).position == 0,
    {
        if self.used < self.given.len() {
            self.playlist = copy_order(&self.given[self.used]);
            self.used = self.used + 1;
        } else {
            shuffle(&mut self.playlist);
        }
        self.track = 0;
        self.position = 0;
        self.drawn = Ghost(self.drawn@.push(self.playlist@));
    }

    /// Plays the track under the cursor for as long as it lasts or as is needed.
    fn play(&mut self, pieces: &mut Vec<MusicPiece>, remaining: i64) -> (left: i64)
        requires
            old(self).well_formed(),
            old(self).track < old(self).files@.len(),
            remaining > TICK,
        ensures
            final(self).well_formed(),
            final(self).same_music(old(self)),
            final(self).drawn == old(self).drawn,
            final(self).track == old(self).track,
            final(self).playlist@ == old(self).playlist@,
            0 <= left <= remaining,
            ({
                let s = Filling {
                    cursor: old(self).cursor(),
                    pieces: pieces_view(old(pieces)@),
                    remaining: remaining as int,
                };
                play(old(self).music(), s) == Filling {
                    cursor: final(self).cursor(),
                    pieces: pieces_view(final(pieces)@),
                    remaining: left as int,
                }
            }),
    {
        proof {
            order::lemma_order(self.playlist@, self.files@.len());
        }
        let mi = self.playlist[self.track];
        let avail = self.durations[mi] - self.position;
        if avail >= TICK {
            let take = smaller(remaining, avail);
            let piece = MusicPiece::Segment {
                file: self.files[mi].clone(),
                start: self.position,
                duration: take,
            };
            let ghost before = pieces@;
            pieces.push(piece);
            self.position = self.position + take;
            assert(pieces_view(pieces@) =~= pieces_view(before).push(piece@));
            remaining - take
        } else {
            remaining
        }
    }

    /// How much a crossfade may take over of the last piece.
    fn room(pieces: &Vec<MusicPiece>) -> (r: i64)
        requires
            all_positive(pieces_view(pieces@)),
        ensures
            r == room(pieces_view(pieces@)),
    {
        if pieces.len() == 0 {
            return 0;
        }
        let ghost views = pieces_view(pieces@);
        assert(piece_length(views[views.len() - 1]) > 0);
        match &pieces[pieces.len() - 1] {
            MusicPiece::Segment { file, start, duration } => *duration - TICK - 1,
            _ => 0,
        }
    }

    /// Takes `cut` off the last piece where that is a segment with more than that to
    /// spare.
    fn shorten_last(pieces: &mut Vec<MusicPiece>, remaining: i64, cut: i64, c: Ghost<Cursor>) -> (r:
        i64)
        requires
            0 <= cut <= remaining,
            remaining + total(pieces_view(old(pieces)@)) <= i64::MAX,
            all_positive(pieces_view(old(pieces)@)),
        ensures
            ({
                let s = Filling {
                    cursor: c@,
                    pieces: pieces_view(old(pieces)@),
                    remaining: remaining as int,
                };
                shorten_last(s, cut as int) == Filling {
                    cursor: c@,
                    pieces: pieces_view(final(pieces)@),
                    remaining: r as int,
                }
            }),
    {
        let ghost before = pieces_view(pieces@);
        match pieces.pop() {
            Some(MusicPiece::Segment { file, start, duration }) => {
                proof {
                    assert(before.last() == Piece::Segment {
                        file: file@,
                        start: start as int,
                        duration: duration as int,
                    });
                    lemma_total_last(before);
                }
                if duration - TICK > cut {
                    let piece = MusicPiece::Segment { file, start, duration: duration - cut };
                    pieces.push(piece);
                    assert(pieces_view(pieces@) =~= before.drop_last().push(piece@));
                    remaining + cut
                } else {
                    let piece = MusicPiece::Segment { file, start, duration };
                    pieces.push(piece);
                    assert(pieces_view(pieces@) =~= before);
                    remaining
                }
            },
            Some(piece) => {
                assert(before.last() == piece@);
                pieces.push(piece);
                assert(pieces_view(pieces@) =~= before);
                remaining
            },
            None => {
                assert(pieces_view(pieces@) =~= before);
                remaining
            },
        }
    }

    /// Goes on to the next track, and puts in what comes between the two.
    fn change_track(&mut self, pieces: &mut Vec<MusicPiece>, remaining: i64) -> (left: i64)
        requires
            old(self).well_formed(),
            old(self).track < old(self).files@.len(),
            remaining >= 0,
            all_positive(pieces_view(old(pieces)@)),
            total(pieces_view(old(pieces)@)) + remaining <= i64::MAX,
        ensures
            final(self).well_formed(),
            final(self).same_music(old(self)),
            extends(final(self).drawn@, old(self).drawn@),
            ({
                let s = Filling {
                    cursor: old(self).cursor(),
                    pieces: pieces_view(old(pieces)@),
                    remaining: remaining as int,
                };
                change_track(old(self).music(), final(self).drawn@, s) == Filling {
                    cursor: final(self).cursor(),
                    pieces: pieces_view(final(pieces)@),
                    remaining: left as int,
                }
            }),
    {
        let ghost m = self.music();
        let ghost d = total(pieces_view(pieces@)) + remaining;
        let ghost before = Filling {
            cursor: self.cursor(),
            pieces: pieces_view(pieces@),
            remaining: remaining as int,
        };
        proof {
            order::lemma_order(self.playlist@, self.files@.len());
            if remaining >= 0 {
                assert(adds_up(before, d));
            }
        }
        let prev = self.playlist[self.track];
        self.track = self.track + 1;
        self.position = 0;
        if remaining <= TICK {
            return remaining;
        }
        if self.track >= self.playlist.len() {
            self.draw();
        }
        proof {
            order::lemma_order(self.playlist@, self.files@.len());
        }
        let ghost t = Filling { cursor: self.cursor(), ..before };
        let next = self.playlist[self.track];
        let cf = smaller(
            smaller(
                smaller(smaller(self.crossfade, remaining), self.durations[prev]),
                self.durations[next],
            ),
            Self::room(pieces),
        );
        assert(cf == crossfade_length(m, t, prev));
        if self.crossfade > TICK && cf > MIN_CROSSFADE {
            let c: Ghost<Cursor> = Ghost(self.cursor());
            proof {
                lemma_shorten_adds_up(t, cf as int, d);
            }
            let rest = Self::shorten_last(pieces, remaining, cf, c);
            let ghost shortened = pieces_view(pieces@);
            let piece = MusicPiece::Crossfade {
                file1: self.files[prev].clone(),
                start1: self.durations[prev] - cf,
                dur1: cf,
                file2: self.files[next].clone(),
                start2: 0,
                dur2: cf,
                overlap: cf,
            };
            pieces.push(piece);
            if self.durations[next] - cf < TICK {
                self.track = self.track + 1;
            } else {
                self.position = cf;
            }
            assert(pieces_view(pieces@) =~= shortened.push(piece@));
            rest - cf
        } else if self.crossfade <= 0 && self.pause > TICK {
            let p = smaller(remaining, self.pause);
            let ghost had = pieces@;
            let piece = MusicPiece::Silence { duration: p };
            pieces.push(piece);
            assert(pieces_view(pieces@) =~= pieces_view(had).push(piece@));
            remaining - p
        } else {
            remaining
        }
    }

    /// One step of filling a file.
    fn step(&mut self, pieces: &mut Vec<MusicPiece>, remaining: i64) -> (left: i64)
        requires
            old(self).well_formed(),
            remaining > TICK,
            all_positive(pieces_view(old(pieces)@)),
            total(pieces_view(old(pieces)@)) + remaining <= i64::MAX,
        ensures
            final(self).well_formed(),
            final(self).same_music(old(self)),
            extends(final(self).drawn@, old(self).drawn@),
            ({
                let s = Filling {
                    cursor: old(self).cursor(),
                    pieces: pieces_view(old(pieces)@),
                    remaining: remaining as int,
                };
                step(old(self).music(), final(self).drawn@, s) == Filling {
                    cursor: final(self).cursor(),
                    pieces: pieces_view(final(pieces)@),
                    remaining: left as int,
                }
            }),
    {
        let ghost m = self.music();
        let ghost d = total(pieces_view(pieces@)) + remaining;
        let ghost s = Filling {
            cursor: self.cursor(),
            pieces: pieces_view(pieces@),
            remaining: remaining as int,
        };
        proof {
            order::lemma_order(self.playlist@, self.files@.len());
        }
        if self.track >= self.playlist.len() {
            self.draw();
        }
        let ghost a = Filling { cursor: self.cursor(), ..s };
        proof {
            order::lemma_order(self.playlist@, self.files@.len());
            lemma_play_adds_up(m, a, d);
        }
        let rest = self.play(pieces, remaining);
        let mi = self.playlist[self.track];
        if self.durations[mi] - self.position < TICK {
            self.change_track(pieces, rest)
        } else {
            rest
        }
    }

    /// Plans one file of the given duration.
    fn fill_file(&mut self, duration: i64) -> (pieces: Vec<MusicPiece>)
        requires
            old(self).well_formed(),
        ensures
            final(self).well_formed(),
            final(self).same_music(old(self)),
            extends(final(self).drawn@, old(self).drawn@),
            ({
                let r = fill_file(
                    old(self).music(),
                    final(self).drawn@,
                    old(self).cursor(),
                    duration as int,
                );
                &&& pieces_view(pieces@) == r.pieces
                &&& final(self).cursor() == r.cursor
            }),
    {
        let ghost m = self.music();
        let ghost first = self.drawn@;
        let ghost s = Filling {
            cursor: self.cursor(),
            pieces: seq![],
            remaining: duration as int,
        };
        let mut pieces: Vec<MusicPiece> = Vec::new();
        assert(pieces_view(pieces@) =~= seq![]);
        let limit = limit_for(self.files.len(), duration);
        let mut remaining = duration;
        let mut count: u64 = 0;
        while remaining > TICK && count < limit
            invariant
                self.well_formed(),
                self.same_music(old(self)),
                m == self.music(),
                s == (Filling { cursor: s.cursor, pieces: seq![], remaining: duration as int }),
                s.cursor.drawn == first.len(),
                extends(self.drawn@, first),
                count <= limit,
                steps(m, self.drawn@, s, count as nat) == (Filling {
                    cursor: self.cursor(),
                    pieces: pieces_view(pieces@),
                    remaining: remaining as int,
                }),
            decreases limit - count,
        {
            proof {
                lemma_steps_add_up(m, self.drawn@, s, count as nat, duration as int);
            }
            let ghost had = self.drawn@;
            remaining = self.step(&mut pieces, remaining);
            proof {
                lemma_steps_agree(m, had, self.drawn@, s, count as nat);
            }
            count += 1;
        }
        proof {
            if count < limit {
                lemma_steps_done(m, self.drawn@, s, count as nat, limit as nat);
            }
        }
        pieces
    }
}

/// The number of steps after which planning a file of this duration is given up.
fn limit_for(tracks: usize, duration: i64) -> (r: u64)
    ensures
        r == step_limit(tracks as nat, duration as int),
{
    let ticks: u64 = if duration < 0 {
        0
    } else {
        (duration / 1000) as u64
    };
    let b: u64 = ticks + 2;
    match (tracks as u64).checked_add(2) {
        None => {
            assert((tracks + 2) * b > u64::MAX) by (nonlinear_arith)
                requires
                    tracks + 2 > u64::MAX,
                    b >= 2,
            ;
            u64::MAX
        },
        Some(a) => match a.checked_mul(b) {
            Some(r) => r,
            None => u64::MAX,
        },
    }
}

/// Plans every input with the given playlists, and with shuffled ones behind those.
fn plan_all(
    input_durations: &Vec<i64>,
    music_files: &Vec<String>,
    music_durations: &Vec<i64>,
    pause: i64,
    crossfade: i64,
    orders: &Vec<Vec<usize>>,
) -> (r: (Vec<Vec<MusicPiece>>, Ghost<Seq<Seq<usize>>>))
    requires
        music_files@.len() > 0,
        music_files@.len() == music_durations@.len(),
        are_orders(orders_view(orders@), music_files@.len()),
    ensures
        are_orders(r.1@, music_files@.len()),
        r.1@.len() > 0,
        extends(r.1@, orders_view(orders@)) || extends(orders_view(orders@), r.1@),
        ({
            let m = music_of(music_files@, music_durations@, pause, crossfade);
            &&& plan_view(r.0@) == plan_for(m, r.1@, input_durations@)
            &&& cursor_after(m, r.1@, input_durations@).drawn == r.1@.len()
        }),
{
    let ghost m = music_of(music_files@, music_durations@, pause, crossfade);
    let mut playlist: Vec<usize> = Vec::new();
    let mut i: usize = 0;
    while i < music_files.len()
        invariant
            i <= music_files@.len(),
            playlist@ == order::identity(i as nat),
        decreases music_files.len() - i,
    {
        playlist.push(i);
        i += 1;
        assert(playlist@ =~= order::identity(i as nat));
    }
    proof {
        assert forall|k: int| 0 <= k < orders@.len() implies order::is_order(
            #[trigger] orders@[k]@,
            music_files@.len(),
        ) by {
            assert(orders_view(orders@)[k] == orders@[k]@);
        }
    }
    let mut planner = Planner {
        files: music_files,
        durations: music_durations,
        pause,
        crossfade,
        given: orders,
        used: 0,
        playlist,
        track: 0,
        position: 0,
        drawn: Ghost(Seq::empty()),
    };
    planner.draw();
    let mut plans: Vec<Vec<MusicPiece>> = Vec::new();
    let mut k: usize = 0;
    assert(input_durations@.take(0) =~= Seq::empty());
    assert(plan_view(plans@) =~= plan_for(m, planner.drawn@, input_durations@.take(0)));
    while k < input_durations.len()
        invariant
            k <= input_durations@.len(),
            planner.well_formed(),
            planner.files@ == music_files@,
            planner.given@ == orders@,
            planner.music() == m,
            planner.drawn@.len() > 0,
            plans@.len() == k,
            plan_view(plans@) == plan_for(m, planner.drawn@, input_durations@.take(k as int)),
            cursor_after(m, planner.drawn@, input_durations@.take(k as int)) == planner.cursor(),
        decreases input_durations.len() - k,
    {
        let ghost had = planner.drawn@;
        let ghost done = input_durations@.take(k as int);
        let ghost before = plans@;
        let pieces = planner.fill_file(input_durations[k]);
        let ghost now = planner.drawn@;
        proof {
            lemma_plan_agrees(m, had, now, done);
        }
        plans.push(pieces);
        k += 1;
        proof {
            let more = input_durations@.take(k as int);
            assert(more.drop_last() =~= done);
            assert forall|j: int| 0 <= j < more.len() implies plan_view(plans@)[j] == plan_for(
                m,
                now,
                more,
            )[j] by {
                assert(more.take(j) =~= done.take(j));
                if j < done.len() {
                    assert(plan_view(before)[j] == plan_for(m, now, done)[j]);
                    assert(plans@[j] == before[j]);
                } else {
                    assert(more.take(j) =~= done);
                }
            }
            assert(plan_view(plans@) =~= plan_for(m, now, more));
        }
    }
    assert(input_durations@.take(k as int) =~= input_durations@);
    (plans, planner.drawn)
}

/// Build a music overlay plan for every input file.
///
/// - `input_durations`: output duration of each input file (after speed adjustment).
/// - `music_files` / `music_durations`: aligned vecs of music paths and durations.
/// - `pause`: silence between music tracks (ignored if `crossfade > 0`).
/// - `crossfade`: crossfade duration between music tracks.
///
/// The cursor carries across input files, so that each file picks up exactly where the
/// music left off. Whenever the playlist is used up, it is shuffled anew; whatever the
/// shuffles come to, the plan is the one for the playlists that they gave.
pub fn build_music_plan(
    input_durations: &Vec<i64>,
    music_files: &Vec<String>,
    music_durations: &Vec<i64>,
    pause: i64,
    crossfade: i64,
) -> (plans: Vec<Vec<MusicPiece>>)
    requires
        music_files@.len() > 0,
        music_files@.len() == music_durations@.len(),
    ensures
        exists|orders: Seq<Seq<usize>>| #[trigger]
            is_plan(
                music_of(music_files@, music_durations@, pause, crossfade),
                orders,
                input_durations@,
                plan_view(plans@),
            ),
{
    let none: Vec<Vec<usize>> = Vec::new();
    let (plans, orders) = plan_all(
        input_durations,
        music_files,
        music_durations,
        pause,
        crossfade,
        &none,
    );
    assert(is_plan(
        music_of(music_files@, music_durations@, pause, crossfade),
        orders@,
        input_durations@,
        plan_view(plans@),
    ));
    plans
}

/// The plan for playlists that are known beforehand. Where more of them are needed than
/// `orders` holds, further ones are shuffled.
pub fn build_music_plan_with(
    input_durations: &Vec<i64>,
    music_files: &Vec<String>,
    music_durations: &Vec<i64>,
    pause: i64,
    crossfade: i64,
    orders: &Vec<Vec<usize>>,
) -> (plans: Vec<Vec<MusicPiece>>)
    requires
        music_files@.len() > 0,
        music_files@.len() == music_durations@.len(),
        orders@.len() > 0,
        are_orders(orders_view(orders@), music_files@.len()),
    ensures
        ({
            let m = music_of(music_files@, music_durations@, pause, crossfade);
            let given = orders_view(orders@);
            &&& cursor_after(m, given, input_durations@).drawn <= given.len() ==> plan_view(plans@)
                == plan_for(m, given, input_durations@)
            &&& cursor_after(m, given, input_durations@).drawn > given.len() ==> exists|
                all: Seq<Seq<usize>>,
            |
                extends(all, given) && #[trigger] is_plan(
                    m,
                    all,
                    input_durations@,
                    plan_view(plans@),
                )
        }),
{
    let (plans, drawn) = plan_all(
        input_durations,
        music_files,
        music_durations,
        pause,
        crossfade,
        orders,
    );
    proof {
        let m = music_of(music_files@, music_durations@, pause, crossfade);
        let given = orders_view(orders@);
        let inputs = input_durations@;
        if extends(drawn@, given) {
            if cursor_after(m, given, inputs).drawn <= given.len() {
                lemma_plan_agrees(m, given, drawn@, inputs);
            }
            assert(is_plan(m, drawn@, inputs, plan_view(plans@)));
        } else {
            lemma_plan_agrees(m, drawn@, given, inputs);
        }
    }
    plans
}

/// Whether the music fills a file of this duration, up to a millisecond. Where it does not,
/// planning was cut short.
pub fn fills_file(pieces: &Vec<MusicPiece>, duration: i64) -> (r: bool)
    ensures
        r == (total(pieces_view(pieces@)) >= duration - TICK),
{
    let ghost views = pieces_view(pieces@);
    let mut sum: i128 = 0;
    let mut i: usize = 0;
    assert(views.take(0) =~= seq![]);
    while i < pieces.len()
        invariant
            i <= pieces.len(),
            views == pieces_view(pieces@),
            sum == total(views.take(i as int)),
            -0x8000_0000_0000_0000 * i <= sum <= 0x8000_0000_0000_0000 * i,
        decreases pieces.len() - i,
    {
        proof {
            assert(views.take(i + 1).drop_last() =~= views.take(i as int));
            assert(views.take(i + 1).last() == pieces@[i as int]@);
        }
        let length: i64 = match &pieces[i] {
            MusicPiece::Segment { file, start, duration } => *duration,
            MusicPiece::Silence { duration } => *duration,
            MusicPiece::Crossfade { file1, start1, dur1, file2, start2, dur2, overlap } => *overlap,
        };
        sum = sum + length as i128;
        i += 1;
    }
    assert(views.take(i as int) =~= views);
    sum >= duration as i128 - TICK as i128
}

} // verus!
