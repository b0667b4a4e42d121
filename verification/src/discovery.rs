//! File discovery: which files are audio, in what order they come, and where their
//! outputs go.

use crate::number;
use crate::number::ascii_lower_text;
use crate::order;
use crate::path;
use crate::path::{extension_of, file_name_of, join_paths, parent_of};
use crate::path_laws;
use crate::text;
use crate::text::{chars_of, push_text, same_text};
use vstd::prelude::*;

verus! {

// ─── Audio files ───────────────────────────────────────────────

/// Recognised audio file extensions.
pub open spec fn is_audio_extension(e: Seq<char>) -> bool {
    ||| e == "mp3"@
    ||| e == "wav"@
    ||| e == "ogg"@
    ||| e == "flac"@
    ||| e == "aac"@
    ||| e == "m4a"@
    ||| e == "m4b"@
    ||| e == "wma"@
    ||| e == "opus"@
    ||| e == "webm"@
}

/// Whether a path has a recognised audio extension, in capitals or not.
pub open spec fn names_audio(p: Seq<char>) -> bool {
    match path::extension(p) {
        Some(e) => is_audio_extension(number::ascii_lower(e)),
        None => false,
    }
}

/// Check if a path has a recognised audio extension.
pub fn is_audio(p: &str) -> (r: bool)
    ensures
        r == names_audio(p@),
{
    match extension_of(p) {
        None => false,
        Some(e) => {
            let low = ascii_lower_text(e.as_str());
            let s = low.as_str();
            same_text(s, "mp3") || same_text(s, "wav") || same_text(s, "ogg") || same_text(s, "flac")
                || same_text(s, "aac") || same_text(s, "m4a") || same_text(s, "m4b") || same_text(
                s,
                "wma",
            ) || same_text(s, "opus") || same_text(s, "webm")
        },
    }
}

/// The audio files among the files that were found, in the order they came.
pub open spec fn audio_among(found: Seq<Seq<char>>) -> Seq<Seq<char>> {
    found.filter(|p: Seq<char>| names_audio(p))
}

/// Keep the audio files among the files that were found, in the order they came.
/// Used for music files where order doesn't matter (they get shuffled).
pub fn collect_unsorted(found: &Vec<String>) -> (r: Vec<String>)
    ensures
        text::texts(r@) == audio_among(text::texts(found@)),
{
    let ghost keep = |p: Seq<char>| names_audio(p);
    let mut out: Vec<String> = Vec::new();
    let mut i: usize = 0;
    proof {
        reveal(Seq::filter);
        assert(text::texts(found@).take(0).filter(keep) =~= seq![]);
        assert(text::texts(out@) =~= seq![]);
    }
    while i < found.len()
        invariant
            i <= found@.len(),
            keep == (|p: Seq<char>| names_audio(p)),
            text::texts(out@) == text::texts(found@).take(i as int).filter(keep),
        decreases found.len() - i,
    {
        proof {
            reveal(Seq::filter);
            let t = text::texts(found@).take(i + 1);
            assert(t.drop_last() =~= text::texts(found@).take(i as int));
            assert(t.last() == found@[i as int]@);
        }
        if is_audio(found[i].as_str()) {
            push_text(&mut out, found[i].as_str());
        }
        i += 1;
    }
    assert(text::texts(found@).take(i as int) =~= text::texts(found@));
    out
}

// ─── Natural order ─────────────────────────────────────────────

/// The outcome of a comparison.
#[derive(Debug, Clone, Copy, PartialEq, Eq, Structural)]
pub enum Order {
    Less,
    Equal,
    Greater,
}

/// Compares two lists of numbers, place by place; a list comes before what continues it.
pub open spec fn key_order(a: Seq<int>, b: Seq<int>) -> Order
    decreases a.len(),
{
    if a.len() == 0 && b.len() == 0 {
        Order::Equal
    } else if a.len() == 0 {
        Order::Less
    } else if b.len() == 0 {
        Order::Greater
    } else if a[0] < b[0] {
        Order::Less
    } else if a[0] > b[0] {
        Order::Greater
    } else {
        key_order(a.skip(1), b.skip(1))
    }
}

/// The key by which `natord::compare` orders a text.
pub uninterp spec fn natural_key(s: Seq<char>) -> Seq<int>;

/// Calls `natord::compare`. It takes each text as a list of white-space-free characters and
/// runs of digits, and compares the two lists item by item: characters by their code, a
/// run and a character by the code of a digit, a run with a leading zero before one
/// without, runs with leading zeros digit by digit, and other runs by their length and then
/// digit by digit. So the outcome is that of comparing a key of numbers for each text. What
/// the key is for a given text is left to the crate.
#[verifier::external_body]
fn natural_compare(a: &str, b: &str) -> (r: Order)
    ensures
        r == key_order(natural_key(a@), natural_key(b@)),
{
    match natord::compare(a, b) {
        std::cmp::Ordering::Less => Order::Less,
        std::cmp::Ordering::Equal => Order::Equal,
        std::cmp::Ordering::Greater => Order::Greater,
    }
}

/// Whether the text at place `i` comes before the one at place `j`: by the natural order,
/// and where that tells no difference by their places.
pub open spec fn comes_before(t: Seq<Seq<char>>, i: usize, j: usize) -> bool {
    match key_order(natural_key(t[i as int]), natural_key(t[j as int])) {
        Order::Less => true,
        Order::Equal => i < j,
        Order::Greater => false,
    }
}

/// Whether the places `p` list the texts in natural order.
pub open spec fn in_order(t: Seq<Seq<char>>, p: Seq<usize>) -> bool {
    forall|a: int, b: int| 0 <= a < b < p.len() ==> comes_before(t, #[trigger] p[a], #[trigger] p[b])
}

/// The texts at the places `p`.
pub open spec fn arranged(t: Seq<Seq<char>>, p: Seq<usize>) -> Seq<Seq<char>> {
    Seq::new(p.len(), |i: int| t[p[i] as int])
}

/// Whether `sorted` holds the texts `t` in natural order, equal ones as they came.
pub open spec fn is_sorted_from(t: Seq<Seq<char>>, sorted: Seq<Seq<char>>) -> bool {
    exists|p: Seq<usize>| #[trigger]
        order::is_order(p, t.len()) && in_order(t, p) && sorted == arranged(t, p)
}

proof fn lemma_key_order(a: Seq<int>, b: Seq<int>, c: Seq<int>)
    ensures
        key_order(a, b) == Order::Less <==> key_order(b, a) == Order::Greater,
        key_order(a, b) == Order::Equal <==> key_order(b, a) == Order::Equal,
        key_order(a, b) == Order::Equal ==> key_order(a, c) == key_order(b, c),
        key_order(a, b) == Order::Less && key_order(b, c) != Order::Greater ==> key_order(a, c)
            == Order::Less,
    decreases a.len(),
{
    if a.len() > 0 && b.len() > 0 && a[0] == b[0] {
        if c.len() > 0 {
            lemma_key_order(a.skip(1), b.skip(1), c.skip(1));
        } else {
            lemma_key_order(a.skip(1), b.skip(1), c);
        }
    }
}

proof fn lemma_before(t: Seq<Seq<char>>, i: usize, j: usize, k: usize)
    ensures
        i != j ==> comes_before(t, i, j) || comes_before(t, j, i),
        comes_before(t, i, j) && comes_before(t, j, k) ==> comes_before(t, i, k),
{
    let (a, b, c) = (
        natural_key(t[i as int]),
        natural_key(t[j as int]),
        natural_key(t[k as int]),
    );
    lemma_key_order(a, b, c);
    lemma_key_order(b, c, a);
    lemma_key_order(c, a, b);
    lemma_key_order(a, c, b);
    lemma_key_order(b, a, c);
    lemma_key_order(c, b, a);
}

/// Merges two lists of places that are in order.
fn merge(found: &Vec<String>, left: &Vec<usize>, right: &Vec<usize>) -> (r: Vec<usize>)
    requires
        forall|i: int| 0 <= i < left@.len() ==> #[trigger] left@[i] < found@.len(),
        forall|i: int| 0 <= i < right@.len() ==> #[trigger] right@[i] < found@.len(),
        forall|i: int, j: int|
            0 <= i < left@.len() && 0 <= j < right@.len() ==> #[trigger] left@[i]
                != #[trigger] right@[j],
        in_order(text::texts(found@), left@),
        in_order(text::texts(found@), right@),
    ensures
        in_order(text::texts(found@), r@),
        r@.to_multiset() == left@.to_multiset().add(right@.to_multiset()),
{
    let ghost t = text::texts(found@);
    let mut out: Vec<usize> = Vec::new();
    let mut i: usize = 0;
    let mut j: usize = 0;
    proof {
        broadcast use vstd::seq_lib::group_to_multiset_ensures;

        assert(left@.take(0) =~= seq![]);
        assert(right@.take(0) =~= seq![]);
        assert(out@.to_multiset() =~= left@.take(0).to_multiset().add(right@.take(0).to_multiset()));
    }
    while i < left.len() || j < right.len()
        invariant
            t == text::texts(found@),
            i <= left@.len(),
            j <= right@.len(),
            forall|k: int| 0 <= k < left@.len() ==> #[trigger] left@[k] < found@.len(),
            forall|k: int| 0 <= k < right@.len() ==> #[trigger] right@[k] < found@.len(),
            forall|k: int, l: int|
                0 <= k < left@.len() && 0 <= l < right@.len() ==> #[trigger] left@[k]
                    != #[trigger] right@[l],
            in_order(t, left@),
            in_order(t, right@),
            in_order(t, out@),
            forall|a: int, k: int|
                0 <= a < out@.len() && i <= k < left@.len() ==> comes_before(
                    t,
                    #[trigger] out@[a],
                    #[trigger] left@[k],
                ),
            forall|a: int, k: int|
                0 <= a < out@.len() && j <= k < right@.len() ==> comes_before(
                    t,
                    #[trigger] out@[a],
                    #[trigger] right@[k],
                ),
            out@.to_multiset() == left@.take(i as int).to_multiset().add(
                right@.take(j as int).to_multiset(),
            ),
        decreases left.len() - i + right.len() - j,
    {
        let ghost before = out@;
        let from_left = if i == left.len() {
            false
        } else if j == right.len() {
            true
        } else {
            let a = left[i];
            let b = right[j];
            proof {
                lemma_before(t, a, b, a);
                lemma_before(t, b, a, b);
                assert(t[a as int] == found@[a as int]@ && t[b as int] == found@[b as int]@);
            }
            match natural_compare(found[a].as_str(), found[b].as_str()) {
                Order::Less => true,
                Order::Equal => a < b,
                Order::Greater => false,
            }
        };
        if from_left {
            let a = left[i];
            out.push(a);
            proof {
                broadcast use vstd::seq_lib::group_to_multiset_ensures;

                assert(left@.take(i + 1) =~= left@.take(i as int).push(a));
                assert(out@.to_multiset() =~= left@.take(i + 1).to_multiset().add(
                    right@.take(j as int).to_multiset(),
                ));
                assert forall|x: int, k: int|
                    0 <= x < out@.len() && j <= k < right@.len() implies comes_before(
                    t,
                    #[trigger] out@[x],
                    #[trigger] right@[k],
                ) by {
                    if x == before.len() {
                        lemma_before(t, a, right@[j as int], right@[k]);
                    }
                }
            }
            i += 1;
        } else {
            let b = right[j];
            out.push(b);
            proof {
                broadcast use vstd::seq_lib::group_to_multiset_ensures;

                assert(right@.take(j + 1) =~= right@.take(j as int).push(b));
                assert(out@.to_multiset() =~= left@.take(i as int).to_multiset().add(
                    right@.take(j + 1).to_multiset(),
                ));
                assert forall|x: int, k: int|
                    0 <= x < out@.len() && i <= k < left@.len() implies comes_before(
                    t,
                    #[trigger] out@[x],
                    #[trigger] left@[k],
                ) by {
                    if x == before.len() {
                        lemma_before(t, b, left@[i as int], left@[k]);
                    }
                }
            }
            j += 1;
        }
    }
    assert(left@.take(i as int) =~= left@);
    assert(right@.take(j as int) =~= right@);
    out
}

/// The places from `a` up to `b`.
spec fn places(a: int, b: int) -> Seq<usize> {
    Seq::new((b - a) as nat, |i: int| (a + i) as usize)
}

/// Puts the places from `a` up to `b` in order.
fn sort_places(found: &Vec<String>, a: usize, b: usize) -> (r: Vec<usize>)
    requires
        a <= b <= found@.len(),
    ensures
        in_order(text::texts(found@), r@),
        r@.to_multiset() == places(a as int, b as int).to_multiset(),
        forall|i: int| 0 <= i < r@.len() ==> a <= #[trigger] r@[i] < b,
    decreases b - a,
{
    if b - a <= 1 {
        let mut out: Vec<usize> = Vec::new();
        if a < b {
            out.push(a);
        }
        assert(out@ =~= places(a as int, b as int));
        return out;
    }
    let mid: usize = a + (b - a) / 2;
    let left = sort_places(found, a, mid);
    let right = sort_places(found, mid, b);
    let out = merge(found, &left, &right);
    proof {
        broadcast use vstd::seq_lib::group_to_multiset_ensures;

        let (l, r) = (places(a as int, mid as int), places(mid as int, b as int));
        vstd::seq_lib::lemma_multiset_commutative(l, r);
        assert(l + r =~= places(a as int, b as int));
        assert forall|i: int| 0 <= i < out@.len() implies a <= #[trigger] out@[i] < b by {
            assert(out@.to_multiset().count(out@[i]) > 0);
            if left@.to_multiset().count(out@[i]) > 0 {
                assert(left@.contains(out@[i]));
            } else {
                assert(right@.to_multiset().count(out@[i]) > 0);
                assert(right@.contains(out@[i]));
            }
        }
    }
    out
}

/// Sorts paths in natural order.
pub fn natural_sort(found: &Vec<String>) -> (r: Vec<String>)
    ensures
        is_sorted_from(text::texts(found@), text::texts(r@)),
{
    let ghost t = text::texts(found@);
    let p = sort_places(found, 0, found.len());
    let mut out: Vec<String> = Vec::new();
    let mut i: usize = 0;
    proof {
        assert(places(0, found@.len() as int) =~= order::identity(found@.len()));
        assert(text::texts(out@) =~= arranged(t, p@).take(0));
    }
    while i < p.len()
        invariant
            i <= p@.len(),
            t == text::texts(found@),
            forall|k: int| 0 <= k < p@.len() ==> #[trigger] p@[k] < found@.len(),
            text::texts(out@) == arranged(t, p@).take(i as int),
        decreases p.len() - i,
    {
        let k = p[i];
        assert(arranged(t, p@)[i as int] == found@[k as int]@);
        push_text(&mut out, found[k].as_str());
        i += 1;
        assert(text::texts(out@) =~= arranged(t, p@).take(i as int));
    }
    proof {
        assert(arranged(t, p@).take(i as int) =~= arranged(t, p@));
        assert(order::is_order(p@, t.len()) && in_order(t, p@) && text::texts(out@) == arranged(
            t,
            p@,
        ));
    }
    out
}

/// Keep the audio files among the files that were found, with **natural** sort order.
/// Used for input files where playback order matters.
pub fn collect_sorted(found: &Vec<String>) -> (r: Vec<String>)
    ensures
        is_sorted_from(audio_among(text::texts(found@)), text::texts(r@)),
{
    let audio = collect_unsorted(found);
    natural_sort(&audio)
}

/// There is one way only to put texts in natural order.
pub proof fn law_natural_order_is_unique(
    t: Seq<Seq<char>>,
    a: Seq<Seq<char>>,
    b: Seq<Seq<char>>,
)
    requires
        t.len() <= usize::MAX,
        is_sorted_from(t, a),
        is_sorted_from(t, b),
    ensures
        a == b,
{
    let p = choose|p: Seq<usize>| #[trigger]
        order::is_order(p, t.len()) && in_order(t, p) && a == arranged(t, p);
    let q = choose|q: Seq<usize>| #[trigger]
        order::is_order(q, t.len()) && in_order(t, q) && b == arranged(t, q);
    lemma_orders_agree(t, p, q);
}

proof fn lemma_orders_agree(t: Seq<Seq<char>>, p: Seq<usize>, q: Seq<usize>)
    requires
        p.to_multiset() == q.to_multiset(),
        in_order(t, p),
        in_order(t, q),
    ensures
        p == q,
    decreases p.len(),
{
    broadcast use vstd::seq_lib::group_to_multiset_ensures;

    p.to_multiset_ensures();
    q.to_multiset_ensures();
    if p.len() == 0 {
        assert(p =~= q);
    } else {
        let x = p.last();
        let y = q.last();
        if x != y {
            assert(p.to_multiset().count(y) > 0) by {
                assert(q.contains(y));
            }
            assert(q.to_multiset().count(x) > 0) by {
                assert(p.contains(x));
            }
            assert(p.contains(y));
            assert(q.contains(x));
            let i = choose|i: int| 0 <= i < p.len() && p[i] == y;
            let j = choose|j: int| 0 <= j < q.len() && q[j] == x;
            assert(comes_before(t, p[i], p[p.len() - 1]));
            assert(comes_before(t, q[j], q[q.len() - 1]));
            lemma_key_order(
                natural_key(t[x as int]),
                natural_key(t[y as int]),
                natural_key(t[x as int]),
            );
            assert(false);
        }
        assert(p.drop_last().push(x) =~= p);
        assert(q.drop_last().push(y) =~= q);
        assert(p.drop_last().to_multiset() =~= p.to_multiset().remove(x));
        assert(q.drop_last().to_multiset() =~= q.to_multiset().remove(y));
        lemma_orders_agree(t, p.drop_last(), q.drop_last());
    }
}

// ─── Output paths ──────────────────────────────────────────────

/// The file name of `rel` with a dot and `ext` behind all of it, below `base`.
pub open spec fn extended_path(base: Seq<char>, rel: Seq<char>, ext: Seq<char>) -> Seq<char> {
    let parent = match path::parent(rel) {
        Some(p) => p,
        None => seq![],
    };
    let name = match path::file_name(rel) {
        Some(n) => n,
        None => seq![],
    };
    path::join(path::join(base, parent), name + "."@ + ext)
}

/// Build a path that appends `ext` *after* the full original filename,
/// preventing collisions when two source files share a stem but have
/// different extensions.
///
/// Example: `track.mp3` → `track.mp3.wav`, `track.flac` → `track.flac.wav`
pub fn append_extension(base_dir: &str, rel: &str, ext: &str) -> (r: String)
    ensures
        r@ == extended_path(base_dir@, rel@, ext@),
{
    let parent = match parent_of(rel) {
        Some(p) => p,
        None => String::new(),
    };
    let mut name = match file_name_of(rel) {
        Some(n) => n,
        None => String::new(),
    };
    name.append(".");
    name.append(ext);
    join_paths(join_paths(base_dir, parent.as_str()).as_str(), name.as_str())
}

/// Two files of one directory never share the path that [`append_extension`] builds.
pub proof fn law_appending_keeps_files_apart(
    base: Seq<char>,
    rel1: Seq<char>,
    rel2: Seq<char>,
    ext: Seq<char>,
)
    requires
        path::file_name(rel1) is Some,
        path::file_name(rel2) is Some,
        path::parent(rel1) == path::parent(rel2),
        path::file_name(rel1) != path::file_name(rel2),
    ensures
        extended_path(base, rel1, ext) != extended_path(base, rel2, ext),
{
    reveal_strlit(".");
    let n1 = path::file_name(rel1)->Some_0;
    let n2 = path::file_name(rel2)->Some_0;
    path::lemma_file_name(rel1);
    path::lemma_file_name(rel2);
    let b = path::join(base, path::parent(rel1)->Some_0);
    let f1 = n1 + "."@ + ext;
    let f2 = n2 + "."@ + ext;
    if path::join(b, f1) == path::join(b, f2) {
        let k = path::join(b, f1).len() - f1.len();
        assert(path::join(b, f1).len() - f1.len() == path::join(b, f2).len() - f2.len());
        assert(path::join(b, f1).skip(k) =~= f1);
        assert(path::join(b, f2).skip(k) =~= f2);
        assert(f1.take(n1.len() as int) =~= n1);
        assert(f2.take(n2.len() as int) =~= n2);
        assert(false);
    }
}

/// Whether a path is relative, names a file, and has no empty and no `.` components.
pub open spec fn is_plain(p: Seq<char>) -> bool {
    &&& path::file_name(p) is Some
    &&& p.last() != '/'
    &&& forall|i: int| 0 <= i < p.len() && starts_component(p, i) ==> is_part(p, i)
}

/// Whether a component starts at place `i`.
pub open spec fn starts_component(p: Seq<char>, i: int) -> bool {
    i == 0 || p[i - 1] == '/'
}

/// Whether what starts at place `i` is neither empty nor a `.`.
pub open spec fn is_part(p: Seq<char>, i: int) -> bool {
    p[i] != '/' && !(p[i] == '.' && (i + 1 == p.len() || p[i + 1] == '/'))
}

/// For a plain path, appending puts the extension behind the whole of it.
proof fn lemma_extended_plain(base: Seq<char>, rel: Seq<char>, ext: Seq<char>)
    requires
        is_plain(rel),
    ensures
        extended_path(base, rel, ext) == path_laws::before_name(base) + rel + "."@ + ext,
{
    reveal_strlit(".");
    let n = rel.len() as int;
    path::lemma_trim_end(rel);
    path::lemma_file_name(rel);
    assert(n > 0);
    assert(starts_component(rel, 0) && is_part(rel, 0));
    assert(path::trim_end(rel) == rel) by {
        if n > 1 && rel[n - 2] == '/' {
            assert(starts_component(rel, n - 1));
            assert(is_part(rel, n - 1));
        }
    }
    path::lemma_name_start(rel);
    let at = path::name_start(rel);
    let name = rel.skip(at);
    let b = path_laws::before_name(base);
    let f = name + "."@ + ext;
    assert(path::file_name(rel) == Some(name));
    assert(name[0] != '/');
    assert(f[0] == name[0]);
    assert(rel.take(at) + name =~= rel);
    if at == 0 {
        let empty: Seq<char> = seq![];
        assert(rel.take(0) =~= empty);
        assert(path::parent(rel) == Some(empty));
        assert(path::join(base, empty) =~= b);
        assert(path::join(b, f) =~= b + f);
        assert(b + f =~= b + rel + "."@ + ext);
    } else {
        assert(at > 1);
        let parent = rel.take(at - 1);
        let q = rel.take(at);
        assert(q.drop_last() =~= parent);
        assert(q.last() == '/');
        assert(parent.last() == rel[at - 2]);
        if parent.last() == '/' {
            assert(starts_component(rel, at - 1));
            assert(is_part(rel, at - 1));
        }
        if at > 2 && parent.last() == '.' && parent[at - 3] == '/' {
            assert(starts_component(rel, at - 2));
            assert(is_part(rel, at - 2));
        }
        assert(path::trim_end(parent) == parent);
        assert(path::trim_end(q) == parent);
        assert(parent[0] == rel[0]);
        let dir = path::join(base, parent);
        assert(dir =~= b + parent);
        assert(dir.last() == parent.last());
        assert(path::join(dir, f) =~= b + parent + seq!['/'] + f);
        assert(b + parent + seq!['/'] + f =~= b + rel + "."@ + ext);
    }
}

/// Two different files never share the path that [`append_extension`] builds, whatever
/// directories they are in.
pub proof fn law_appending_keeps_all_files_apart(
    base: Seq<char>,
    rel1: Seq<char>,
    rel2: Seq<char>,
    ext: Seq<char>,
)
    requires
        is_plain(rel1),
        is_plain(rel2),
        rel1 != rel2,
    ensures
        extended_path(base, rel1, ext) != extended_path(base, rel2, ext),
{
    lemma_extended_plain(base, rel1, ext);
    lemma_extended_plain(base, rel2, ext);
    let b = path_laws::before_name(base);
    let p = b + rel1 + "."@ + ext;
    let q = b + rel2 + "."@ + ext;
    let k = b.len() as int;
    let e = "."@.len() + ext.len();
    if p == q {
        assert(p.subrange(k, p.len() - e) =~= rel1);
        assert(q.subrange(k, q.len() - e) =~= rel2);
    }
}

/// The directory beside `p` whose name has `suffix` behind it.
pub open spec fn sibling(p: Seq<char>, suffix: Seq<char>) -> Seq<char> {
    let name = match path::file_name(p) {
        Some(n) => n,
        None => p,
    } + suffix;
    match path::parent(p) {
        Some(parent) if parent.len() > 0 => path::join(parent, name),
        _ => name,
    }
}

/// The directory beside `p` whose name has `suffix` behind it.
pub fn sibling_dir(p: &str, suffix: &str) -> (r: String)
    ensures
        r@ == sibling(p@, suffix@),
{
    let mut name = match file_name_of(p) {
        Some(n) => n,
        None => p.to_owned(),
    };
    name.append(suffix);
    match parent_of(p) {
        Some(parent) => {
            if parent.as_str().is_empty() {
                name
            } else {
                join_paths(parent.as_str(), name.as_str())
            }
        },
        None => name,
    }
}

/// The directory that outputs go to where none is given.
pub open spec fn beside_input(input: Seq<char>) -> Seq<char> {
    sibling(input, "_processed"@)
}

/// Derive the default output directory from the input path.
///
/// Examples:
/// - `recordings/` → `recordings_processed/`
/// - `/data/episodes` → `/data/episodes_processed/`
pub fn default_output_dir(input: &str) -> (r: String)
    ensures
        r@ == beside_input(input@),
{
    sibling_dir(input, "_processed")
}

// ─── File names ────────────────────────────────────────────────

/// Whether a character cannot stand in a file name.
pub open spec fn is_unsafe(c: char) -> bool {
    c == '/' || c == '\\' || c == ':' || c == '*' || c == '?' || c == '"' || c == '<' || c == '>' || c
        == '|'
}

pub open spec fn safe_char(c: char) -> char {
    if is_unsafe(c) {
        '_'
    } else {
        c
    }
}

/// `s` with an underscore for every unsafe character.
pub open spec fn sanitized(s: Seq<char>) -> Seq<char> {
    Seq::new(s.len(), |i: int| safe_char(s[i]))
}

/// Sanitize a string for use in a filename by replacing unsafe characters.
pub fn sanitize_filename(s: &str) -> (r: String)
    ensures
        r@ == sanitized(s@),
{
    let chars = chars_of(s);
    let mut out = String::new();
    let mut i: usize = 0;
    while i < chars.len()
        invariant
            i <= chars@.len(),
            chars@ == s@,
            out@ == sanitized(s@.take(i as int)),
        decreases chars.len() - i,
    {
        let c = chars[i];
        if c == '/' || c == '\\' || c == ':' || c == '*' || c == '?' || c == '"' || c == '<' || c == '>'
            || c == '|' {
            out.push('_');
        } else {
            out.push(c);
        }
        i += 1;
        assert(out@ =~= sanitized(s@.take(i as int)));
    }
    assert(s@.take(i as int) =~= s@);
    out
}

/// A sanitized name holds no unsafe character, and sanitizing it again changes nothing.
pub proof fn law_sanitized_is_safe(s: Seq<char>)
    ensures
        forall|i: int| 0 <= i < sanitized(s).len() ==> !is_unsafe(#[trigger] sanitized(s)[i]),
        sanitized(sanitized(s)) == sanitized(s),
{
    assert(sanitized(sanitized(s)) =~= sanitized(s));
}

} // verus!
