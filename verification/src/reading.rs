//! How commands and filters are read: the options of a command line, the filters of a filter
//! graph, and the values in them. Nothing here says how they are written.

use crate::number;
use crate::number::Number;
use crate::text;
use vstd::prelude::*;

verus! {

// ─── Commands ──────────────────────────────────────────────────

/// Whether an argument of a command stands alone, without a value behind it.
pub open spec fn stands_alone(a: Seq<char>) -> bool {
    a == "-y"@ || a == "-hide_banner"@ || a == "-vn"@ || a == "-an"@
}

/// The values that a command gives an option, in order. An option is followed by its value; the
/// last argument of a command is no option, but what the command writes.
pub open spec fn given(args: Seq<Seq<char>>, option: Seq<char>) -> Seq<Seq<char>>
    decreases args.len(),
{
    if args.len() <= 1 {
        seq![]
    } else if stands_alone(args[0]) {
        given(args.skip(1), option)
    } else if args[0] == option {
        seq![args[1]] + given(args.skip(2), option)
    } else {
        given(args.skip(2), option)
    }
}

/// The files that a command reads.
pub open spec fn inputs(args: Seq<Seq<char>>) -> Seq<Seq<char>> {
    given(args, "-i"@)
}

/// The file that a command writes.
pub open spec fn written(args: Seq<Seq<char>>) -> Seq<char> {
    args.last()
}

pub proof fn lemma_alone(a: Seq<char>, rest: Seq<Seq<char>>, option: Seq<char>)
    requires
        stands_alone(a),
        rest.len() > 0,
    ensures
        given(seq![a] + rest, option) == given(rest, option),
{
    assert((seq![a] + rest).skip(1) =~= rest);
}

pub proof fn lemma_option(a: Seq<char>, v: Seq<char>, rest: Seq<Seq<char>>, option: Seq<char>)
    requires
        !stands_alone(a),
        rest.len() > 0,
    ensures
        given(seq![a, v] + rest, option) == if a == option {
            seq![v] + given(rest, option)
        } else {
            given(rest, option)
        },
{
    assert((seq![a, v] + rest).skip(2) =~= rest);
}

// ─── Parts of a text ───────────────────────────────────────────

pub open spec fn starts_with(s: Seq<char>, front: Seq<char>) -> bool {
    s.len() >= front.len() && s.take(front.len() as int) == front
}

/// What stands behind `name` in those of the parts that start with it.
pub open spec fn values(parts: Seq<Seq<char>>, name: Seq<char>) -> Seq<Seq<char>>
    decreases parts.len(),
{
    if parts.len() == 0 {
        seq![]
    } else {
        let front = values(parts.drop_last(), name);
        if starts_with(parts.last(), name) {
            front.push(parts.last().skip(name.len() as int))
        } else {
            front
        }
    }
}

pub proof fn lemma_values_both(a: Seq<Seq<char>>, b: Seq<Seq<char>>, name: Seq<char>)
    ensures
        values(a + b, name) == values(a, name) + values(b, name),
    decreases b.len(),
{
    if b.len() == 0 {
        assert(a + b =~= a);
        assert(values(a, name) + values(b, name) =~= values(a, name));
    } else {
        assert((a + b).drop_last() =~= a + b.drop_last());
        lemma_values_both(a, b.drop_last(), name);
        assert(values(a + b, name) =~= values(a, name) + values(b, name));
    }
}

/// What one part has behind `name`.
pub open spec fn value(part: Seq<char>, name: Seq<char>) -> Seq<Seq<char>> {
    if starts_with(part, name) {
        seq![part.skip(name.len() as int)]
    } else {
        seq![]
    }
}

proof fn lemma_values_one(part: Seq<char>, name: Seq<char>)
    ensures
        values(seq![part], name) == value(part, name),
{
    let one = seq![part];
    assert(one.drop_last() =~= seq![]);
    assert(one.last() == part);
    assert(values(one.drop_last(), name) =~= seq![]);
    assert(values(one, name) =~= value(part, name));
}

/// A part that starts otherwise has nothing behind `name`.
pub proof fn lemma_no_value(part: Seq<char>, name: Seq<char>, k: int)
    requires
        0 <= k < name.len(),
        k < part.len() ==> part[k] != name[k],
    ensures
        value(part, name) == Seq::<Seq<char>>::empty(),
{
    if starts_with(part, name) {
        assert(part.take(name.len() as int)[k] == part[k]);
    }
}

/// What was put behind `name` is behind it.
pub proof fn lemma_value(name: Seq<char>, v: Seq<char>)
    ensures
        value(name + v, name) == seq![v],
{
    assert((name + v).take(name.len() as int) =~= name);
    assert((name + v).skip(name.len() as int) =~= v);
}

/// Whether a text is free of a character.
pub open spec fn lacks(s: Seq<char>, c: char) -> bool {
    forall|i: int| 0 <= i < s.len() ==> #[trigger] s[i] != c
}

/// Splitting at a separator splits both sides of it.
pub proof fn lemma_split_cut(a: Seq<char>, c: char, b: Seq<char>)
    ensures
        text::split(a.push(c) + b, c) == text::split(a, c) + text::split(b, c),
    decreases b.len(),
{
    let s = a.push(c) + b;
    if b.len() == 0 {
        assert(s =~= a.push(c));
        assert(s.drop_last() =~= a);
        assert(b =~= seq![]);
        assert(text::split(s, c) =~= text::split(a, c) + text::split(b, c));
    } else {
        let t = b.drop_last();
        assert(s.drop_last() =~= a.push(c) + t);
        assert(s.last() == b.last());
        lemma_split_cut(a, c, t);
        text::lemma_split_some(t, c);
        let x = text::split(a, c);
        let y = text::split(t, c);
        assert((x + y).drop_last() =~= x + y.drop_last());
        assert((x + y).last() == y.last());
        assert(text::split(s, c) =~= x + text::split(b, c));
    }
}

pub proof fn lemma_split_one(s: Seq<char>, c: char)
    requires
        lacks(s, c),
    ensures
        text::split(s, c) == seq![s],
    decreases s.len(),
{
    if s.len() == 0 {
        assert(s =~= seq![]);
    } else {
        let t = s.drop_last();
        assert forall|i: int| 0 <= i < t.len() implies #[trigger] t[i] != c by {
            assert(s[i] != c);
        }
        lemma_split_one(t, c);
        assert(s[s.len() - 1] != c);
        assert(t.push(s.last()) =~= s);
        assert(text::split(s, c) =~= seq![s]);
    }
}

/// What the parts of a text between separators have behind `name`.
pub open spec fn entries(s: Seq<char>, c: char, name: Seq<char>) -> Seq<Seq<char>> {
    values(text::split(s, c), name)
}

pub proof fn lemma_entries_one(s: Seq<char>, c: char, name: Seq<char>)
    requires
        lacks(s, c),
    ensures
        entries(s, c, name) == value(s, name),
{
    lemma_split_one(s, c);
    lemma_values_one(s, name);
}

pub proof fn lemma_entries_cut(a: Seq<char>, c: char, b: Seq<char>, name: Seq<char>)
    ensures
        entries(a.push(c) + b, c, name) == entries(a, c, name) + entries(b, c, name),
{
    lemma_split_cut(a, c, b);
    lemma_values_both(text::split(a, c), text::split(b, c), name);
}

// ─── Filter graphs ─────────────────────────────────────────────

/// Whether a character stands between the filters and labels of a filter graph.
pub open spec fn is_mark(c: char) -> bool {
    c == ',' || c == ';' || c == '[' || c == ']'
}

/// The filters and labels of a filter graph.
pub open spec fn words(s: Seq<char>) -> Seq<Seq<char>>
    decreases s.len(),
{
    if s.len() == 0 {
        seq![s]
    } else if is_mark(s.last()) {
        words(s.drop_last()).push(seq![])
    } else {
        let front = words(s.drop_last());
        front.drop_last().push(front.last().push(s.last()))
    }
}

proof fn lemma_words_some(s: Seq<char>)
    ensures
        words(s).len() > 0,
    decreases s.len(),
{
    if s.len() > 0 {
        lemma_words_some(s.drop_last());
    }
}

pub proof fn lemma_words_cut(a: Seq<char>, c: char, b: Seq<char>)
    requires
        is_mark(c),
    ensures
        words(a.push(c) + b) == words(a) + words(b),
    decreases b.len(),
{
    let s = a.push(c) + b;
    if b.len() == 0 {
        assert(s =~= a.push(c));
        assert(s.drop_last() =~= a);
        assert(b =~= seq![]);
        assert(words(s) =~= words(a) + words(b));
    } else {
        let t = b.drop_last();
        assert(s.drop_last() =~= a.push(c) + t);
        assert(s.last() == b.last());
        lemma_words_cut(a, c, t);
        lemma_words_some(t);
        let x = words(a);
        let y = words(t);
        assert((x + y).drop_last() =~= x + y.drop_last());
        assert((x + y).last() == y.last());
        assert(words(s) =~= x + words(b));
    }
}

/// Whether a text is one filter or label, or a part of one.
pub open spec fn unmarked(s: Seq<char>) -> bool {
    forall|i: int| 0 <= i < s.len() ==> !is_mark(#[trigger] s[i])
}

pub proof fn lemma_words_one(s: Seq<char>)
    requires
        unmarked(s),
    ensures
        words(s) == seq![s],
    decreases s.len(),
{
    if s.len() == 0 {
        assert(s =~= seq![]);
    } else {
        let t = s.drop_last();
        assert forall|i: int| 0 <= i < t.len() implies !is_mark(#[trigger] t[i]) by {
            assert(!is_mark(s[i]));
        }
        lemma_words_one(t);
        assert(!is_mark(s[s.len() - 1]));
        assert(t.push(s.last()) =~= s);
        assert(words(s) =~= seq![s]);
    }
}

/// What the filters of a filter graph have behind `name`, in order.
pub open spec fn settings(graph: Seq<char>, name: Seq<char>) -> Seq<Seq<char>> {
    values(words(graph), name)
}

pub proof fn lemma_settings_cut(a: Seq<char>, c: char, b: Seq<char>, name: Seq<char>)
    requires
        is_mark(c),
    ensures
        settings(a.push(c) + b, name) == settings(a, name) + settings(b, name),
{
    lemma_words_cut(a, c, b);
    lemma_values_both(words(a), words(b), name);
}

pub proof fn lemma_settings_one(s: Seq<char>, name: Seq<char>)
    requires
        unmarked(s),
    ensures
        settings(s, name) == value(s, name),
{
    lemma_words_one(s);
    lemma_values_one(s, name);
}

// ─── Numbers ───────────────────────────────────────────────────

/// The number that a value starts with, in millionths: what stands before the first colon.
pub open spec fn millionths(v: Seq<char>) -> Option<int> {
    match number::number_in(text::split(v, ':')[0]) {
        Some(n) => Some(number::millionths_of(n)),
        None => None,
    }
}

/// The numbers that some values start with, in millionths.
pub open spec fn all_millionths(v: Seq<Seq<char>>) -> Seq<Option<int>> {
    Seq::new(v.len(), |i: int| millionths(v[i]))
}

/// The numbers that some texts say.
pub open spec fn all_numbers(v: Seq<Seq<char>>) -> Seq<Option<Number>> {
    Seq::new(v.len(), |i: int| number::number_in(v[i]))
}

/// The whole numbers that some texts say.
pub open spec fn all_whole(v: Seq<Seq<char>>) -> Seq<int> {
    Seq::new(v.len(), |i: int| text::value(v[i]))
}

} // verus!
