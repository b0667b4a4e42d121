//! What holds of texts that are written, cut and searched.

use crate::cli_laws;
use crate::reading;
use crate::text;
use vstd::prelude::*;

verus! {

// ─── Numbers ───────────────────────────────────────────────────

/// A number is written in digits, without zeros in front, and reads back as itself. Padding adds
/// zeros in front and keeps the number.
pub proof fn law_digits_read_back(n: nat, width: nat)
    ensures
        ({
            let t = text::decimal(n);
            let p = text::zero_padded(t, width);
            &&& text::all_digits(t) && text::all_digits(p)
            &&& text::value(t) == n && text::value(p) == n
            &&& t.len() > 0 && (n > 0 ==> t[0] != '0')
            &&& p.len() >= width && (t.len() >= width ==> p == t)
            &&& t.len() < width ==> p.len() == width
        }),
    decreases n,
{
    let t = text::decimal(n);
    text::lemma_decimal(n);
    lemma_no_zero_in_front(n);
    if t.len() < width {
        let zeros = (width - t.len()) as nat;
        cli_laws::lemma_padding(zeros, t);
    }
}

proof fn lemma_no_zero_in_front(n: nat)
    ensures
        text::decimal(n).len() > 0,
        n > 0 ==> text::decimal(n)[0] != '0',
    decreases n,
{
    if n >= 10 {
        lemma_no_zero_in_front(n / 10);
    }
}

// ─── Cutting ───────────────────────────────────────────────────

/// The parts of a text hold no separator, and put together with it they are the text.
pub proof fn law_parts_make_up_the_text(s: Seq<char>, sep: char)
    ensures
        text::split(s, sep).len() > 0,
        text::joined(text::split(s, sep), seq![sep]) == s,
        forall|i: int|
            0 <= i < text::split(s, sep).len() ==> reading::lacks(
                #[trigger] text::split(s, sep)[i],
                sep,
            ),
    decreases s.len(),
{
    let parts = text::split(s, sep);
    let none: Seq<char> = seq![];
    if s.len() == 0 {
        assert(parts =~= seq![s]);
    } else {
        let front = text::split(s.drop_last(), sep);
        law_parts_make_up_the_text(s.drop_last(), sep);
        assert(s.drop_last().push(s.last()) =~= s);
        if s.last() == sep {
            assert(parts.drop_last() =~= front);
            assert(text::joined(parts, seq![sep]) =~= s);
            assert forall|i: int| 0 <= i < parts.len() implies reading::lacks(
                #[trigger] parts[i],
                sep,
            ) by {
                if i < front.len() {
                    assert(reading::lacks(front[i], sep));
                }
            }
        } else {
            let n = front.len() - 1;
            assert(parts.drop_last() =~= front.drop_last());
            assert(parts.last() =~= front.last().push(s.last()));
            if n > 0 {
                assert(text::joined(parts, seq![sep]) =~= text::joined(front, seq![sep]).push(
                    s.last(),
                ));
            }
            assert forall|i: int| 0 <= i < parts.len() implies reading::lacks(
                #[trigger] parts[i],
                sep,
            ) by {
                if i < n {
                    assert(reading::lacks(front[i], sep));
                } else {
                    assert(reading::lacks(front[n], sep));
                }
            }
        }
    }
}

/// Whether a text is white space only.
pub open spec fn blank(s: Seq<char>) -> bool {
    forall|i: int| 0 <= i < s.len() ==> text::is_space(#[trigger] s[i])
}

proof fn lemma_trim_front(s: Seq<char>) -> (n: int)
    ensures
        0 <= n <= s.len(),
        text::trim_front(s) == s.skip(n),
        blank(s.take(n)),
        n < s.len() ==> !text::is_space(s[n]),
    decreases s.len(),
{
    if s.len() > 0 && text::is_space(s[0]) {
        let t = s.skip(1);
        let m = lemma_trim_front(t);
        assert(t.skip(m) =~= s.skip(m + 1));
        assert forall|i: int| 0 <= i < m + 1 implies text::is_space(
            #[trigger] s.take(m + 1)[i],
        ) by {
            if i > 0 {
                assert(t.take(m)[i - 1] == s[i]);
            }
        }
        m + 1
    } else {
        assert(s.skip(0) =~= s);
        0
    }
}

proof fn lemma_trim_back(s: Seq<char>) -> (n: int)
    ensures
        0 <= n <= s.len(),
        text::trim_back(s) == s.take(n),
        blank(s.skip(n)),
        n > 0 ==> !text::is_space(s[n - 1]),
    decreases s.len(),
{
    if s.len() > 0 && text::is_space(s.last()) {
        let t = s.drop_last();
        let m = lemma_trim_back(t);
        assert(t.take(m) =~= s.take(m));
        assert forall|i: int| 0 <= i < s.len() - m implies text::is_space(
            #[trigger] s.skip(m)[i],
        ) by {
            if m + i < t.len() {
                assert(t.skip(m)[i] == s[m + i]);
            }
        }
        m
    } else {
        assert(s.take(s.len() as int) =~= s);
        s.len() as int
    }
}

/// Trimming takes white space away at both ends, all of it and nothing else.
pub proof fn law_trimming(s: Seq<char>) -> (cut: (int, int))
    ensures
        0 <= cut.0 <= cut.1 <= s.len(),
        text::trimmed(s) == s.subrange(cut.0, cut.1),
        blank(s.take(cut.0)),
        blank(s.skip(cut.1)),
        text::trimmed(s).len() > 0 ==> !text::is_space(text::trimmed(s)[0]) && !text::is_space(
            text::trimmed(s).last(),
        ),
{
    let a = lemma_trim_front(s);
    let t = s.skip(a);
    let n = lemma_trim_back(t);
    assert(t.take(n) =~= s.subrange(a, a + n));
    assert forall|i: int| 0 <= i < s.len() - (a + n) implies text::is_space(
        #[trigger] s.skip(a + n)[i],
    ) by {
        assert(t.skip(n)[i] == s[a + n + i]);
    }
    (a, a + n)
}

// ─── Searching ─────────────────────────────────────────────────

/// Whether `pattern` stands at place `i` of `s`.
pub open spec fn stands_at(s: Seq<char>, pattern: Seq<char>, i: int) -> bool {
    0 <= i && i + pattern.len() <= s.len() && s.subrange(i, i + pattern.len()) == pattern
}

proof fn lemma_find_from(s: Seq<char>, pattern: Seq<char>, from: int)
    requires
        0 <= from,
    ensures
        match text::find_from(s, pattern, from) {
            Some(i) => from <= i && stands_at(s, pattern, i) && forall|k: int|
                from <= k < i ==> !#[trigger] stands_at(s, pattern, k),
            None => forall|k: int| from <= k ==> !#[trigger] stands_at(s, pattern, k),
        },
    decreases s.len() + 1 - from,
{
    if from + pattern.len() <= s.len() && s.subrange(from, from + pattern.len()) != pattern {
        lemma_find_from(s, pattern, from + 1);
    }
}

/// What is found is the first place where the pattern stands; where nothing is found it stands
/// nowhere.
pub proof fn law_first_place_is_found(s: Seq<char>, pattern: Seq<char>)
    ensures
        match text::find(s, pattern) {
            Some(i) => stands_at(s, pattern, i) && forall|k: int|
                0 <= k < i ==> !#[trigger] stands_at(s, pattern, k),
            None => forall|k: int| 0 <= k ==> !#[trigger] stands_at(s, pattern, k),
        },
{
    lemma_find_from(s, pattern, 0);
}

/// The last place of a character is one where it stands, and behind which it does not.
pub proof fn law_last_place(s: Seq<char>, c: char)
    ensures
        ({
            let n = text::last_index(s, c);
            &&& -1 <= n < s.len()
            &&& n >= 0 ==> s[n] == c
            &&& forall|k: int| n < k < s.len() ==> #[trigger] s[k] != c
        }),
    decreases s.len(),
{
    if s.len() > 0 && s.last() != c {
        let t = s.drop_last();
        law_last_place(t, c);
        assert forall|k: int| text::last_index(s, c) < k < s.len() implies #[trigger] s[k] != c by {
            if k < t.len() {
                assert(t[k] != c);
            }
        }
    }
}

/// A text ends in another exactly where that stands at its end.
pub proof fn law_endings(s: Seq<char>, end: Seq<char>)
    ensures
        text::ends_with(s, end) <==> exists|front: Seq<char>| #[trigger] (front + end) == s,
{
    if text::ends_with(s, end) {
        let front = s.take(s.len() - end.len());
        assert(front + end =~= s);
    }
    if exists|front: Seq<char>| #[trigger] (front + end) == s {
        let front = choose|front: Seq<char>| #[trigger] (front + end) == s;
        assert(s.skip(s.len() - end.len()) =~= end);
    }
}

} // verus!
