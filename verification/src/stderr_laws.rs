//! What holds of everything that ffmpeg prints while it works.

use crate::command_laws;
use crate::ffmpeg;
use crate::ffmpeg::{LoudnormMeasurement, NormConfig};
use crate::json;
use crate::json::Tree;
use crate::number;
use crate::number::{Number, MAX_PARTS, PARTS};
use crate::number_laws;
use crate::progress;
use crate::reading;
use crate::stderr;
use crate::stderr::Reading;
use crate::text;
use crate::text_laws;
use vstd::prelude::*;

verus! {

// ─── Times ─────────────────────────────────────────────────────

/// Whether a character is white space, a colon, or the end of a field.
spec fn ends_number(c: char) -> bool {
    text::is_space(c) || c == ':'
}

proof fn lemma_digits_do_not_end(t: Seq<char>)
    requires
        text::all_digits(t),
    ensures
        forall|i: int| 0 <= i < t.len() ==> !ends_number(#[trigger] t[i]),
{
    assert forall|i: int| 0 <= i < t.len() implies !ends_number(#[trigger] t[i]) by {
        assert('0' <= t[i] <= '9');
    }
}

proof fn lemma_six_places_do_not_end(x: int)
    requires
        0 <= x,
    ensures
        number::fixed6(x).len() > 0,
        forall|i: int| 0 <= i < number::fixed6(x).len() ==> !ends_number(
            #[trigger] number::fixed6(x)[i],
        ),
{
    let t = number::fixed6(x);
    let a = text::decimal((x / 1_000_000) as nat);
    let b = text::zero_padded(text::decimal((x % 1_000_000) as nat), 6);
    reveal_strlit(".");
    text_laws::law_digits_read_back((x / 1_000_000) as nat, 0);
    text_laws::law_digits_read_back((x % 1_000_000) as nat, 6);
    lemma_digits_do_not_end(a);
    lemma_digits_do_not_end(b);
    assert(t =~= a + "."@ + b);
    assert forall|i: int| 0 <= i < t.len() implies !ends_number(#[trigger] t[i]) by {
        if i < a.len() {
            assert(t[i] == a[i]);
        } else if i > a.len() {
            assert(t[i] == b[i - a.len() - 1]);
        }
    }
}

/// A whole number reads as that many millions of millionths.
proof fn lemma_whole_reads(n: nat)
    requires
        n <= 1_000_000_000,
    ensures
        number::number_in(text::decimal(n)) is Some,
        number::millionths_of(number::number_in(text::decimal(n))->Some_0) == n * 1_000_000,
{
    let parts = n * PARTS;
    assert(parts % (PARTS as int) == 0 && parts / (PARTS as int) == n && 0 <= parts <= MAX_PARTS)
        by (nonlinear_arith)
        requires
            0 <= n <= 1_000_000_000,
            parts == n * PARTS,
            PARTS == 1_000_000_000_000_000_000,
            MAX_PARTS >= 1_000_000_000 * 1_000_000_000_000_000_000,
    ;
    let x = Number::Finite { negative: false, parts: parts as u128 };
    number_laws::law_numbers_read_back(x);
    assert(number::plain(x) =~= text::decimal(n));
    let c = number::PARTS_OF_MILLIONTH as int;
    vstd::arithmetic::div_mod::lemma_fundamental_div_mod_converse(
        2 * parts + c,
        2 * c,
        n as int * 1_000_000,
        c,
    );
}

/// The text of a time: hours, minutes, and seconds in millionths.
pub open spec fn clock_text(hours: nat, minutes: nat, seconds: int) -> Seq<char> {
    text::decimal(hours).push(':') + text::decimal(minutes).push(':') + number::fixed6(seconds)
}

/// A time that is written in hours, minutes and seconds reads back as that many millionths of a
/// second, whatever white space stands round it.
pub proof fn law_times_read_back(
    front: Seq<char>,
    hours: nat,
    minutes: nat,
    seconds: int,
    back: Seq<char>,
)
    requires
        hours <= 1_000_000,
        minutes <= 1_000_000,
        0 <= seconds <= 1_000_000_000_000,
        text_laws::blank(front),
        text_laws::blank(back),
    ensures
        stderr::time_value(front + clock_text(hours, minutes, seconds) + back) == Some(
            (hours * 3600 + minutes * 60) * 1_000_000 + seconds,
        ),
{
    let h = text::decimal(hours);
    let m = text::decimal(minutes);
    let s = number::fixed6(seconds);
    let t = clock_text(hours, minutes, seconds);
    text_laws::law_digits_read_back(hours, 0);
    text_laws::law_digits_read_back(minutes, 0);
    lemma_digits_do_not_end(h);
    lemma_digits_do_not_end(m);
    lemma_six_places_do_not_end(seconds);
    lemma_trimmed_is(front, t, back);
    lemma_whole_reads(hours);
    lemma_whole_reads(minutes);
    number_laws::law_six_places_read_back(seconds);
    assert(t =~= h.push(':') + (m.push(':') + s));
    reading::lemma_split_cut(h, ':', m.push(':') + s);
    reading::lemma_split_cut(m, ':', s);
    reading::lemma_split_one(h, ':');
    reading::lemma_split_one(m, ':');
    reading::lemma_split_one(s, ':');
    let parts = text::split(t, ':');
    assert(parts =~= seq![h, m, s]);
}

/// What has no white space at its ends is what is left of it between white space.
pub proof fn lemma_trimmed_is(front: Seq<char>, t: Seq<char>, back: Seq<char>)
    requires
        text_laws::blank(front),
        text_laws::blank(back),
        t.len() > 0,
        !text::is_space(t[0]),
        !text::is_space(t.last()),
    ensures
        text::trimmed(front + t + back) == t,
{
    let s = front + t + back;
    let n = front.len() as int;
    let cut = text_laws::law_trimming(s);
    assert(s[n] == t[0]);
    assert(s[n + t.len() - 1] == t.last());
    if cut.0 > n {
        assert(text::is_space(s.take(cut.0)[n]));
    }
    if cut.1 < n + t.len() {
        assert(text::is_space(s.skip(cut.1)[n + t.len() - 1 - cut.1]));
    }
    if cut.0 < n {
        assert(text::trimmed(s)[0] == front[cut.0]);
        assert(text::is_space(front[cut.0]));
    }
    if cut.1 > n + t.len() {
        assert(text::trimmed(s).last() == s[cut.1 - 1]);
        assert(s[cut.1 - 1] == back[cut.1 - 1 - n - t.len()]);
        assert(text::is_space(back[cut.1 - 1 - n - t.len()]));
    }
    assert(s.subrange(n, n + t.len()) =~= t);
}

/// Whether a field ends before this text: it is empty, or starts with a space or a line end.
pub open spec fn ends_field(rest: Seq<char>) -> bool {
    rest.len() == 0 || rest[0] == ' ' || rest[0] == '\r' || rest[0] == '\n'
}

proof fn lemma_field(t: Seq<char>, rest: Seq<char>)
    requires
        forall|i: int|
            0 <= i < t.len() ==> (#[trigger] t[i]) != ' ' && t[i] != '\r' && t[i] != '\n',
        ends_field(rest),
    ensures
        stderr::field_len(t + rest) == t.len(),
    decreases t.len(),
{
    let s = t + rest;
    if t.len() > 0 {
        assert(s[0] == t[0]);
        let u = t.skip(1);
        assert forall|i: int| 0 <= i < u.len() implies (#[trigger] u[i]) != ' ' && u[i] != '\r'
            && u[i] != '\n' by {
            assert(t[i + 1] != ' ');
        }
        assert(s.skip(1) =~= u + rest);
        lemma_field(u, rest);
    } else {
        assert(s =~= rest);
    }
}

/// A line of progress says the time that is written behind the first `time=` in it.
pub proof fn law_progress_is_read(
    before: Seq<char>,
    hours: nat,
    minutes: nat,
    seconds: int,
    rest: Seq<char>,
)
    requires
        hours <= 1_000_000,
        minutes <= 1_000_000,
        0 <= seconds <= 1_000_000_000_000,
        ends_field(rest),
        forall|k: int|
            0 <= k < before.len() ==> !#[trigger] text_laws::stands_at(
                before + "time="@ + clock_text(hours, minutes, seconds) + rest,
                "time="@,
                k,
            ),
    ensures
        stderr::progress_time(before + "time="@ + clock_text(hours, minutes, seconds) + rest)
            == Some((hours * 3600 + minutes * 60) * 1_000_000 + seconds),
{
    reveal_strlit("time=");
    reveal_strlit("N/A");
    let t = clock_text(hours, minutes, seconds);
    let line = before + "time="@ + t + rest;
    let n = before.len() as int;
    let none: Seq<char> = seq![];
    text_laws::law_first_place_is_found(line, "time="@);
    assert(line.subrange(n, n + 5) =~= "time="@);
    assert(text_laws::stands_at(line, "time="@, n));
    assert(text::find(line, "time="@) == Some(n));
    assert(line.skip(n + 5) =~= t + rest);
    lemma_clock_text(hours, minutes, seconds);
    lemma_field(t, rest);
    assert((t + rest).take(t.len() as int) =~= t);
    assert("N/A"@[0] == 'N');
    law_times_read_back(none, hours, minutes, seconds, none);
    assert(none + t + none =~= t);
}

proof fn lemma_clock_text(hours: nat, minutes: nat, seconds: int)
    requires
        0 <= seconds,
    ensures
        ({
            let t = clock_text(hours, minutes, seconds);
            &&& t.len() > 0
            &&& '0' <= t[0] <= '9'
            &&& forall|i: int|
                0 <= i < t.len() ==> (#[trigger] t[i]) != ' ' && t[i] != '\r' && t[i] != '\n'
        }),
{
    let h = text::decimal(hours);
    let m = text::decimal(minutes);
    let s = number::fixed6(seconds);
    let t = clock_text(hours, minutes, seconds);
    text_laws::law_digits_read_back(hours, 0);
    text_laws::law_digits_read_back(minutes, 0);
    lemma_digits_do_not_end(h);
    lemma_digits_do_not_end(m);
    lemma_six_places_do_not_end(seconds);
    assert(t[0] == h[0]);
    assert('0' <= h[0] <= '9');
    assert forall|i: int| 0 <= i < t.len() implies (#[trigger] t[i]) != ' ' && t[i] != '\r' && t[i]
        != '\n' by {
        if i < h.len() {
            assert(t[i] == h[i]);
            assert(!ends_number(h[i]));
        } else if i > h.len() && i < h.len() + 1 + m.len() {
            assert(t[i] == m[i - h.len() - 1]);
            assert(!ends_number(m[i - h.len() - 1]));
        } else if i > h.len() + 1 + m.len() {
            assert(t[i] == s[i - h.len() - m.len() - 2]);
            assert(!ends_number(s[i - h.len() - m.len() - 2]));
        }
    }
}

/// A time before the start is no progress, and a line that names no time says none.
pub proof fn law_no_progress(line: Seq<char>)
    ensures
        (forall|k: int| 0 <= k ==> !#[trigger] text_laws::stands_at(line, "time="@, k))
            ==> stderr::progress_time(line) is None,
        text::find(line, "time="@) matches Some(i) ==> i + 5 < line.len() && line[i + 5] == '-'
            ==> stderr::progress_time(line) is None,
{
    reveal_strlit("time=");
    text_laws::law_first_place_is_found(line, "time="@);
    if let Some(i) = text::find(line, "time="@) {
        assert(text_laws::stands_at(line, "time="@, i));
        if i + 5 < line.len() && line[i + 5] == '-' {
            let rest = line.skip(i + 5);
            assert(rest[0] == '-');
            assert(stderr::field_len(rest) > 0);
            lemma_field_fits(rest);
            assert(rest.take(stderr::field_len(rest) as int)[0] == '-');
        }
    }
}

proof fn lemma_field_fits(s: Seq<char>)
    ensures
        stderr::field_len(s) <= s.len(),
    decreases s.len(),
{
    if s.len() > 0 {
        lemma_field_fits(s.skip(1));
    }
}

/// A bar stands at the milliseconds that are done, never behind its end, and at its end once the
/// expected duration is reached; what is done later never takes it back.
pub proof fn law_bars_follow_the_time(time: int, later: int, expected: int)
    requires
        time <= later,
    ensures
        expected <= 1_000 ==> stderr::bar_position(time, expected) is None,
        expected > 1_000 ==> {
            &&& stderr::bar_position(time, expected) matches Some(p)
            &&& stderr::bar_position(later, expected) matches Some(q)
            &&& 0 <= p <= q <= progress::bar_length(expected)
            &&& 0 <= time < expected ==> p * 1_000 <= time < p * 1_000 + 1_000
            &&& time >= expected ==> p == progress::bar_length(expected)
            &&& time < 0 ==> p == 0
        },
        progress::bar_length(expected) * 1_000 <= not_negative(expected),
        progress::bar_length(expected) * 1_000 + 1_000 > expected,
{
}

/// A duration, or nothing where it is negative.
pub open spec fn not_negative(duration: int) -> int {
    if duration > 0 {
        duration
    } else {
        0
    }
}

// ─── Lines ─────────────────────────────────────────────────────

/// Every line that says a time moves the progress on to that time; other lines leave it.
pub proof fn law_progress_comes_out(r: Reading, line: Seq<u8>, end: u8)
    requires
        r.line.len() == 0,
        line.len() > 0,
        forall|i: int| 0 <= i < line.len() ==> #[trigger] line[i] != 13 && line[i] != 10,
        end == 13 || end == 10,
        vstd::utf8::valid_utf8(line),
    ensures
        ({
            let times = stderr::read_chunk(r, line.push(end)).times;
            match stderr::progress_time(vstd::utf8::decode_utf8(line)) {
                Some(t) => times == r.times.push(t),
                None => times == r.times,
            }
        }),
        !r.capture ==> stderr::read_chunk(r, line.push(end)).output == r.output,
{
    stderr::lemma_line_is_gathered(r, line);
    assert(r.line + line =~= line);
    assert(line.push(end).drop_last() =~= line);
}

// ─── Loudness ──────────────────────────────────────────────────

/// Whether this is the last block of a text in braces, from place `i` to place `j`.
pub open spec fn is_last_block(s: Seq<char>, i: int, j: int) -> bool {
    &&& 0 <= i < j < s.len()
    &&& s[i] == '{'
    &&& s[j] == '}'
    &&& forall|k: int| j < k < s.len() ==> #[trigger] s[k] != '}'
    &&& forall|k: int| i < k <= j ==> #[trigger] s[k] != '{'
}

/// What is taken of a text is the last block in braces, wherever it stands.
pub proof fn law_last_block_is_taken(s: Seq<char>, i: int, j: int)
    ensures
        is_last_block(s, i, j) ==> stderr::last_block(s) == Some(s.subrange(i, j + 1)),
        stderr::last_block(s) is Some ==> exists|a: int, b: int| #[trigger] is_last_block(s, a, b),
{
    let end = text::last_index(s, '}');
    let front = s.take(end + 1);
    let start = text::last_index(front, '{');
    text_laws::law_last_place(s, '}');
    text_laws::law_last_place(front, '{');
    if is_last_block(s, i, j) {
        if end != j {
            assert(s[j] == '}');
            assert(end > j);
            assert(s[end] != '}');
        }
        assert(front[i] == '{');
        if start != i {
            assert(start > i);
            assert(s[start] != '{');
        }
    }
    if end >= 0 && start >= 0 {
        assert(front[start] == '{');
        assert forall|k: int| start < k <= end implies #[trigger] s[k] != '{' by {
            assert(front[k] != '{');
        }
        assert(is_last_block(s, start, end));
    }
}

/// Whether a document says this number under this name.
pub open spec fn says(t: Tree, name: Seq<char>, n: Number) -> bool {
    json::field(t, name) matches Some(Tree::Text(s)) && number::number_in(s) == Some(n)
}

/// What the first pass prints is what the second pass is told, each number under its own name;
/// and it is used only where it is complete.
pub proof fn law_measurements_are_handed_over(
    t: Tree,
    input: Seq<char>,
    output: Seq<char>,
    config: NormConfig,
    i: Number,
    tp: Number,
    lra: Number,
    thresh: Number,
    offset: Number,
)
    requires
        command_laws::readable_target(config.target),
        says(t, "input_i"@, i) && says(t, "input_tp"@, tp) && says(t, "input_lra"@, lra),
        says(t, "input_thresh"@, thresh) && says(t, "target_offset"@, offset),
        command_laws::readable(i) && command_laws::readable(tp) && command_laws::readable(lra),
        command_laws::readable(thresh) && command_laws::readable(offset),
    ensures
        stderr::measurement_in(t) is Some,
        ({
            let m = stderr::measurement_in(t)->Some_0;
            let args = ffmpeg::normalize_arguments(input, output, config, m);
            let filter = reading::given(args, "-af"@)[0];
            &&& reading::given(args, "-af"@).len() == 1
            &&& reading::all_numbers(reading::entries(filter, ':', "measured_I="@)) == seq![Some(i)]
            &&& reading::all_numbers(reading::entries(filter, ':', "measured_TP="@)) == seq![
                Some(tp),
            ]
            &&& reading::all_numbers(reading::entries(filter, ':', "measured_LRA="@)) == seq![
                Some(lra),
            ]
            &&& reading::all_numbers(reading::entries(filter, ':', "measured_thresh="@)) == seq![
                Some(thresh),
            ]
            &&& reading::all_numbers(reading::entries(filter, ':', "offset="@)) == seq![
                Some(offset),
            ]
        }),
{
    let m = stderr::measurement_in(t)->Some_0;
    command_laws::law_second_pass(input, output, config, m);
}

/// A measurement that is there says all of its numbers.
pub proof fn law_measurements_are_complete(t: Tree)
    requires
        stderr::measurement_in(t) is Some,
    ensures
        ({
            let m: LoudnormMeasurement = stderr::measurement_in(t)->Some_0;
            &&& says(t, "input_i"@, m.input_i)
            &&& says(t, "input_tp"@, m.input_tp)
            &&& says(t, "input_lra"@, m.input_lra)
            &&& says(t, "input_thresh"@, m.input_thresh)
            &&& says(t, "target_offset"@, m.target_offset)
        }),
{
}

} // verus!
