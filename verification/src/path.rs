//! File paths as text, with `/` between components.
//!
//! Empty components and `.` components do not count, other than a `.` at the start of
//! a relative path; so `a//b`, `a/./b` and `a/b/` name the same components.

use crate::text;
use crate::text::{chars_of, join_texts, push_text, same_text, split_text, text_of};
use vstd::prelude::*;

verus! {

/// `p` without the separators and `.` components at its end. A lone `/` or `.` stays.
pub open spec fn trim_end(p: Seq<char>) -> Seq<char>
    decreases p.len(),
{
    if p.len() > 1 && p.last() == '/' {
        trim_end(p.drop_last())
    } else if p.len() > 1 && p.last() == '.' && p[p.len() - 2] == '/' {
        trim_end(p.drop_last())
    } else {
        p
    }
}

/// Where the text behind the last `/` of `p` starts.
pub open spec fn name_start(p: Seq<char>) -> int
    decreases p.len(),
{
    if p.len() == 0 {
        0
    } else if p.last() == '/' {
        p.len() as int
    } else {
        name_start(p.drop_last())
    }
}

/// The last component of `p`; `None` for the empty path and for the root.
pub open spec fn last_component(p: Seq<char>) -> Option<Seq<char>> {
    let t = trim_end(p);
    if t.len() == 0 || t == seq!['/'] {
        None
    } else {
        Some(t.skip(name_start(t)))
    }
}

/// The last component of `p`, if it is a name and not `.` or `..`.
pub open spec fn file_name(p: Seq<char>) -> Option<Seq<char>> {
    match last_component(p) {
        Some(n) if n != seq!['.'] && n != seq!['.', '.'] => Some(n),
        _ => None,
    }
}

/// `p` without its last component; `None` where it has none.
pub open spec fn parent(p: Seq<char>) -> Option<Seq<char>> {
    let t = trim_end(p);
    if last_component(p) is None {
        None
    } else {
        Some(trim_end(t.take(name_start(t))))
    }
}

/// Where the last `.` of `n` stands; negative where there is none.
pub open spec fn last_dot(n: Seq<char>) -> int
    decreases n.len(),
{
    if n.len() == 0 {
        -1
    } else if n.last() == '.' {
        n.len() - 1
    } else {
        last_dot(n.drop_last())
    }
}

/// The part of a file name before its extension.
pub open spec fn stem_of_name(n: Seq<char>) -> Seq<char> {
    if last_dot(n) > 0 {
        n.take(last_dot(n))
    } else {
        n
    }
}

/// The file name of `p` without the extension.
pub open spec fn file_stem(p: Seq<char>) -> Option<Seq<char>> {
    match file_name(p) {
        Some(n) => Some(stem_of_name(n)),
        None => None,
    }
}

/// What stands behind the last `.` of the file name, unless that `.` is its first
/// character.
pub open spec fn extension(p: Seq<char>) -> Option<Seq<char>> {
    match file_name(p) {
        Some(n) if last_dot(n) > 0 => Some(n.skip(last_dot(n) + 1)),
        _ => None,
    }
}

/// `p` with `ext` for its extension; `p` itself where it has no file name.
pub open spec fn with_extension(p: Seq<char>, ext: Seq<char>) -> Seq<char> {
    let t = trim_end(p);
    match file_stem(p) {
        Some(stem) => {
            let kept = t.take(name_start(t)) + stem;
            if ext.len() == 0 {
                kept
            } else {
                kept + seq!['.'] + ext
            }
        },
        None => p,
    }
}

/// `rel` as seen from `base`; `rel` itself where it starts at the root.
pub open spec fn join(base: Seq<char>, rel: Seq<char>) -> Seq<char> {
    if rel.len() > 0 && rel[0] == '/' {
        rel
    } else if base.len() == 0 || base.last() == '/' {
        base + rel
    } else {
        base + seq!['/'] + rel
    }
}

/// `p` from its first named component on.
pub open spec fn trim_start(p: Seq<char>) -> Seq<char>
    decreases p.len(),
{
    if p.len() > 0 && p[0] == '/' {
        trim_start(p.skip(1))
    } else if p.len() > 0 && p[0] == '.' && (p.len() == 1 || p[1] == '/') {
        trim_start(p.skip(1))
    } else {
        p
    }
}

/// How many characters stand before the first `/` of `p`.
pub open spec fn first_len(p: Seq<char>) -> nat
    decreases p.len(),
{
    if p.len() == 0 || p[0] == '/' {
        0
    } else {
        1 + first_len(p.skip(1))
    }
}

/// What is left of `p` behind the components of `base`, if `p` starts with them.
pub open spec fn after_names(p: Seq<char>, base: Seq<char>) -> Option<Seq<char>>
    decreases base.len(),
{
    let b = trim_start(base);
    let q = trim_start(p);
    let n = first_len(b) as int;
    if b.len() == 0 {
        Some(trim_end(q))
    } else if first_len(q) == n && q.take(n) == b.take(n) {
        proof {
            lemma_trim_start(base);
            lemma_first_len(b);
        }
        after_names(q.skip(n), b.skip(n))
    } else {
        None
    }
}

/// The `/` or `.` that `p` starts with, where that counts as a component.
pub open spec fn head(p: Seq<char>) -> Seq<char> {
    if p.len() > 0 && p[0] == '/' {
        seq!['/']
    } else if p.len() > 0 && p[0] == '.' && (p.len() == 1 || p[1] == '/') {
        seq!['.']
    } else {
        seq![]
    }
}

/// `p` as seen from `base`, if `p` starts with the components of `base`.
pub open spec fn strip_prefix(p: Seq<char>, base: Seq<char>) -> Option<Seq<char>> {
    if base.len() == 0 {
        Some(trim_end(p))
    } else if head(p) == head(base) {
        after_names(p.skip(head(p).len() as int), base.skip(head(base).len() as int))
    } else {
        None
    }
}

/// `p` as seen from `base`, or `p` itself where it does not lie below `base`.
pub open spec fn relative_to(p: Seq<char>, base: Seq<char>) -> Seq<char> {
    match strip_prefix(p, base) {
        Some(rel) => rel,
        None => p,
    }
}

/// Whether a part of a path counts: an empty part or a `.` does not.
pub open spec fn counts() -> spec_fn(Seq<char>) -> bool {
    |part: Seq<char>| part.len() > 0 && part != seq!['.']
}

/// The parts of a path that count.
pub open spec fn components(p: Seq<char>) -> Seq<Seq<char>> {
    text::split(p, '/').filter(counts())
}

/// Whether a path starts at the root.
pub open spec fn is_absolute(p: Seq<char>) -> bool {
    p.len() > 0 && p[0] == '/'
}

/// `p` with only the parts that count. A `..` stays: where it leads rests on what is on disk.
pub open spec fn clean(p: Seq<char>) -> Seq<char> {
    (if is_absolute(p) {
        "/"@
    } else {
        ""@
    }) + text::joined(components(p), "/"@)
}

// ─── Properties ────────────────────────────────────────────────

pub proof fn lemma_trim_end(p: Seq<char>)
    ensures
        trim_end(p).len() <= p.len(),
        trim_end(p) == p.take(trim_end(p).len() as int),
    decreases p.len(),
{
    if p.len() > 1 && (p.last() == '/' || (p.last() == '.' && p[p.len() - 2] == '/')) {
        lemma_trim_end(p.drop_last());
        assert(p.drop_last().take(trim_end(p).len() as int) =~= p.take(trim_end(p).len() as int));
    } else {
        assert(p.take(p.len() as int) =~= p);
    }
}

pub proof fn lemma_name_start(p: Seq<char>)
    ensures
        0 <= name_start(p) <= p.len(),
        forall|i: int| name_start(p) <= i < p.len() ==> p[i] != '/',
        name_start(p) > 0 ==> p[name_start(p) - 1] == '/',
    decreases p.len(),
{
    if p.len() > 0 && p.last() != '/' {
        let f = p.drop_last();
        lemma_name_start(f);
        assert forall|i: int| name_start(p) <= i < p.len() implies p[i] != '/' by {
            if i < f.len() {
                assert(f[i] != '/');
            }
        }
    }
}

pub proof fn lemma_last_dot(n: Seq<char>)
    ensures
        -1 <= last_dot(n) < n.len(),
        last_dot(n) >= 0 ==> n[last_dot(n)] == '.',
        forall|i: int| last_dot(n) < i < n.len() ==> n[i] != '.',
    decreases n.len(),
{
    if n.len() > 0 && n.last() != '.' {
        let f = n.drop_last();
        lemma_last_dot(f);
        assert forall|i: int| last_dot(n) < i < n.len() implies n[i] != '.' by {
            if i < f.len() {
                assert(f[i] != '.');
            }
        }
    }
}

pub proof fn lemma_trim_start(p: Seq<char>)
    ensures
        trim_start(p).len() <= p.len(),
        trim_start(p) == p.skip(p.len() - trim_start(p).len()),
        trim_start(p).len() > 0 ==> trim_start(p)[0] != '/',
    decreases p.len(),
{
    if p.len() > 0 && (p[0] == '/' || (p[0] == '.' && (p.len() == 1 || p[1] == '/'))) {
        lemma_trim_start(p.skip(1));
        assert(p.skip(1).skip(p.skip(1).len() - trim_start(p).len()) =~= p.skip(
            p.len() - trim_start(p).len(),
        ));
    } else {
        assert(p.skip(0) =~= p);
    }
}

pub proof fn lemma_first_len(p: Seq<char>)
    ensures
        first_len(p) <= p.len(),
        forall|i: int| 0 <= i < first_len(p) ==> p[i] != '/',
        first_len(p) < p.len() ==> p[first_len(p) as int] == '/',
    decreases p.len(),
{
    if p.len() > 0 && p[0] != '/' {
        let t = p.skip(1);
        lemma_first_len(t);
        assert forall|i: int| 0 <= i < first_len(p) implies p[i] != '/' by {
            if i > 0 {
                assert(p[i] == t[i - 1]);
            }
        }
        if first_len(p) < p.len() {
            assert(p[first_len(p) as int] == t[first_len(t) as int]);
        }
    }
}

/// A file name is not empty and holds no separator.
pub proof fn lemma_file_name(p: Seq<char>)
    requires
        file_name(p) is Some,
    ensures
        file_name(p)->Some_0.len() > 0,
        forall|i: int| 0 <= i < file_name(p)->Some_0.len() ==> file_name(p)->Some_0[i] != '/',
{
    let t = trim_end(p);
    lemma_name_start(t);
    lemma_trimmed(p);
    if name_start(t) == t.len() {
        assert(t.last() == '/');
        if t.len() == 1 {
            assert(t =~= seq!['/']);
        }
    }
}

/// What is trimmed ends in no separator, unless it is the root.
pub proof fn lemma_trimmed(p: Seq<char>)
    ensures
        trim_end(p).len() > 1 ==> trim_end(p).last() != '/',
        trim_end(trim_end(p)) == trim_end(p),
    decreases p.len(),
{
    if p.len() > 1 && (p.last() == '/' || (p.last() == '.' && p[p.len() - 2] == '/')) {
        lemma_trimmed(p.drop_last());
    }
}

// ─── Taking paths apart ────────────────────────────────────────

fn trimmed_len(chars: &Vec<char>) -> (end: usize)
    ensures
        end <= chars@.len(),
        trim_end(chars@) == chars@.take(end as int),
        trim_end(chars@).len() == end,
{
    let mut end: usize = chars.len();
    assert(chars@.take(end as int) =~= chars@);
    while end > 1 && (chars[end - 1] == '/' || (chars[end - 1] == '.' && chars[end - 2] == '/'))
        invariant
            end <= chars@.len(),
            trim_end(chars@) == trim_end(chars@.take(end as int)),
        decreases end,
    {
        assert(chars@.take(end as int).drop_last() =~= chars@.take(end - 1));
        end -= 1;
    }
    end
}

fn name_start_before(chars: &Vec<char>, end: usize) -> (start: usize)
    requires
        end <= chars@.len(),
    ensures
        start == name_start(chars@.take(end as int)),
        start <= end,
{
    let mut i: usize = end;
    while i > 0 && chars[i - 1] != '/'
        invariant
            i <= end <= chars@.len(),
            name_start(chars@.take(end as int)) == name_start(chars@.take(i as int)),
        decreases i,
    {
        assert(chars@.take(i as int).drop_last() =~= chars@.take(i - 1));
        i -= 1;
    }
    i
}

/// The place of the last component: where it starts and where it ends.
fn component_range(chars: &Vec<char>) -> (r: Option<(usize, usize)>)
    ensures
        match r {
            None => last_component(chars@) is None,
            Some((start, end)) => {
                &&& start <= end <= chars@.len()
                &&& trim_end(chars@) == chars@.take(end as int)
                &&& start == name_start(trim_end(chars@))
                &&& last_component(chars@) == Some(chars@.subrange(start as int, end as int))
            },
        },
{
    let end = trimmed_len(chars);
    let ghost t = trim_end(chars@);
    if end == 0 {
        return None;
    }
    if end == 1 && chars[0] == '/' {
        assert(t =~= seq!['/']);
        return None;
    }
    let start = name_start_before(chars, end);
    proof {
        assert(t[0] == chars@[0]);
        assert(t.skip(start as int) =~= chars@.subrange(start as int, end as int));
    }
    Some((start, end))
}

/// Whether `chars[start..end]` is `.`.
fn is_dot(chars: &Vec<char>, start: usize, end: usize) -> (r: bool)
    requires
        start <= end <= chars@.len(),
    ensures
        r == (chars@.subrange(start as int, end as int) == seq!['.']),
{
    let ghost n = chars@.subrange(start as int, end as int);
    proof {
        let one = seq!['.'];
        assert(one.len() == 1 && one[0] == '.');
        if end - start == 1 && chars@[start as int] == '.' {
            assert(n =~= one);
        }
        if n == one {
            assert(n[0] == chars@[start as int]);
        }
    }
    end - start == 1 && chars[start] == '.'
}

/// Whether the component `chars[start..end]` is `.` or `..`.
fn is_dots(chars: &Vec<char>, start: usize, end: usize) -> (r: bool)
    requires
        start <= end <= chars@.len(),
    ensures
        r == ({
            let n = chars@.subrange(start as int, end as int);
            n == seq!['.'] || n == seq!['.', '.']
        }),
{
    let ghost n = chars@.subrange(start as int, end as int);
    let one = is_dot(chars, start, end);
    proof {
        let two = seq!['.', '.'];
        assert(two.len() == 2 && two[0] == '.' && two[1] == '.');
        if end - start == 2 && chars@[start as int] == '.' && chars@[start + 1] == '.' {
            assert(n =~= two);
        }
        if n == two {
            assert(n[0] == chars@[start as int] && n[1] == chars@[start + 1]);
        }
    }
    one || (end - start == 2 && chars[start] == '.' && chars[start + 1] == '.')
}

/// Where the last `.` of `chars[start..end]` stands, counted from `start`.
fn dot_in(chars: &Vec<char>, start: usize, end: usize) -> (r: Option<usize>)
    requires
        start <= end <= chars@.len(),
    ensures
        match r {
            None => last_dot(chars@.subrange(start as int, end as int)) == -1,
            Some(d) => d == last_dot(chars@.subrange(start as int, end as int)) && start + d < end,
        },
{
    let mut i: usize = end;
    while i > start
        invariant
            start <= i <= end <= chars@.len(),
            last_dot(chars@.subrange(start as int, end as int)) == last_dot(
                chars@.subrange(start as int, i as int),
            ),
        decreases i,
    {
        let ghost n = chars@.subrange(start as int, i as int);
        assert(n.drop_last() =~= chars@.subrange(start as int, i - 1));
        if chars[i - 1] == '.' {
            return Some(i - 1 - start);
        }
        i -= 1;
    }
    None
}

/// The last component of `p`, if it is a name and not `.` or `..`.
pub fn file_name_of(p: &str) -> (r: Option<String>)
    ensures
        match r {
            None => file_name(p@) is None,
            Some(n) => file_name(p@) == Some(n@),
        },
{
    let chars = chars_of(p);
    match component_range(&chars) {
        None => None,
        Some((start, end)) => {
            if is_dots(&chars, start, end) {
                None
            } else {
                Some(text_of(&chars, start, end))
            }
        },
    }
}

/// `p` without its last component; `None` where it has none.
pub fn parent_of(p: &str) -> (r: Option<String>)
    ensures
        match r {
            None => parent(p@) is None,
            Some(t) => parent(p@) == Some(t@),
        },
{
    let chars = chars_of(p);
    match component_range(&chars) {
        None => None,
        Some((start, end)) => {
            let front = chars_of(text_of(&chars, 0, start).as_str());
            let keep = trimmed_len(&front);
            assert(trim_end(chars@).take(start as int) =~= front@);
            assert(front@.take(keep as int) =~= front@.subrange(0, keep as int));
            Some(text_of(&front, 0, keep))
        },
    }
}

/// The file name of `p` without the extension.
pub fn file_stem_of(p: &str) -> (r: Option<String>)
    ensures
        match r {
            None => file_stem(p@) is None,
            Some(n) => file_stem(p@) == Some(n@),
        },
{
    let chars = chars_of(p);
    match component_range(&chars) {
        None => None,
        Some((start, end)) => {
            if is_dots(&chars, start, end) {
                return None;
            }
            let ghost n = chars@.subrange(start as int, end as int);
            match dot_in(&chars, start, end) {
                Some(d) if d > 0 => {
                    assert(n.take(d as int) =~= chars@.subrange(start as int, start + d));
                    Some(text_of(&chars, start, start + d))
                },
                _ => Some(text_of(&chars, start, end)),
            }
        },
    }
}

/// What stands behind the last `.` of the file name.
pub fn extension_of(p: &str) -> (r: Option<String>)
    ensures
        match r {
            None => extension(p@) is None,
            Some(n) => extension(p@) == Some(n@),
        },
{
    let chars = chars_of(p);
    match component_range(&chars) {
        None => None,
        Some((start, end)) => {
            if is_dots(&chars, start, end) {
                return None;
            }
            let ghost n = chars@.subrange(start as int, end as int);
            match dot_in(&chars, start, end) {
                Some(d) if d > 0 => {
                    assert(n.skip(d + 1) =~= chars@.subrange(start + d + 1, end as int));
                    Some(text_of(&chars, start + d + 1, end))
                },
                _ => None,
            }
        },
    }
}

/// `p` with `ext` for its extension.
pub fn set_extension(p: &str, ext: &str) -> (r: String)
    ensures
        r@ == with_extension(p@, ext@),
{
    let chars = chars_of(p);
    match component_range(&chars) {
        None => p.to_owned(),
        Some((start, end)) => {
            if is_dots(&chars, start, end) {
                return p.to_owned();
            }
            let ghost t = trim_end(p@);
            let ghost n = chars@.subrange(start as int, end as int);
            let keep: usize = match dot_in(&chars, start, end) {
                Some(d) if d > 0 => start + d,
                _ => end,
            };
            let mut s = text_of(&chars, 0, keep);
            assert(s@ =~= t.take(name_start(t)) + stem_of_name(n));
            if !ext.is_empty() {
                s.push('.');
                s.append(ext);
                assert(s@ =~= t.take(name_start(t)) + stem_of_name(n) + seq!['.'] + ext@);
            }
            s
        },
    }
}

/// `rel` as seen from `base`.
pub fn join_paths(base: &str, rel: &str) -> (r: String)
    ensures
        r@ == join(base@, rel@),
{
    let b = chars_of(base);
    let q = chars_of(rel);
    if q.len() > 0 && q[0] == '/' {
        return rel.to_owned();
    }
    let mut s = base.to_owned();
    if b.len() > 0 && b[b.len() - 1] != '/' {
        s.push('/');
        assert(s@ =~= base@ + seq!['/']);
    }
    s.append(rel);
    s
}

/// `p` with only the parts that count.
pub fn clean_path(p: &str) -> (r: String)
    ensures
        r@ == clean(p@),
{
    let parts = split_text(p, '/');
    let ghost all = text::split(p@, '/');
    let mut kept: Vec<String> = Vec::new();
    let mut i: usize = 0;
    proof {
        reveal(Seq::filter);
        assert(all.take(0).filter(counts()) =~= seq![]);
        assert(text::texts(kept@) =~= seq![]);
    }
    while i < parts.len()
        invariant
            i <= parts@.len(),
            all == text::texts(parts@),
            text::texts(kept@) == all.take(i as int).filter(counts()),
        decreases parts.len() - i,
    {
        proof {
            reveal(Seq::filter);
            reveal_strlit(".");
            assert(all.take(i + 1).drop_last() =~= all.take(i as int));
            assert(all.take(i + 1).last() == parts@[i as int]@);
            assert("."@ =~= seq!['.']);
        }
        let part = parts[i].as_str();
        if !part.is_empty() && !same_text(part, ".") {
            push_text(&mut kept, part);
        }
        i += 1;
    }
    assert(all.take(i as int) =~= all);
    let chars = chars_of(p);
    let mut s = if chars.len() > 0 && chars[0] == '/' {
        "/".to_owned()
    } else {
        "".to_owned()
    };
    s.append(join_texts(&kept, "/").as_str());
    s
}

// ─── Looking from a directory ──────────────────────────────────

fn skip_start(chars: &Vec<char>, from: usize) -> (at: usize)
    requires
        from <= chars@.len(),
    ensures
        from <= at <= chars@.len(),
        trim_start(chars@.skip(from as int)) == chars@.skip(at as int),
        trim_start(chars@.skip(from as int)).len() == chars@.len() - at,
{
    let mut i: usize = from;
    while i < chars.len() && (chars[i] == '/' || (chars[i] == '.' && (i + 1 == chars.len()
        || chars[i + 1] == '/')))
        invariant
            from <= i <= chars@.len(),
            trim_start(chars@.skip(from as int)) == trim_start(chars@.skip(i as int)),
        decreases chars.len() - i,
    {
        assert(chars@.skip(i as int).skip(1) =~= chars@.skip(i + 1));
        i += 1;
    }
    i
}

fn first_end(chars: &Vec<char>, from: usize) -> (end: usize)
    requires
        from <= chars@.len(),
    ensures
        from <= end <= chars@.len(),
        end - from == first_len(chars@.skip(from as int)),
{
    let mut i: usize = from;
    while i < chars.len() && chars[i] != '/'
        invariant
            from <= i <= chars@.len(),
            first_len(chars@.skip(from as int)) == (i - from) + first_len(chars@.skip(i as int)),
        decreases chars.len() - i,
    {
        assert(chars@.skip(i as int).skip(1) =~= chars@.skip(i + 1));
        i += 1;
    }
    i
}

/// Whether `a[i..i + n]` and `b[j..j + n]` are the same.
fn same_range(a: &Vec<char>, i: usize, b: &Vec<char>, j: usize, n: usize) -> (r: bool)
    requires
        i + n <= a.len(),
        j + n <= b.len(),
    ensures
        r == (a@.subrange(i as int, i + n) == b@.subrange(j as int, j + n)),
{
    let mut k: usize = 0;
    while k < n
        invariant
            k <= n,
            i + n <= a.len(),
            j + n <= b.len(),
            a@.subrange(i as int, i + k) == b@.subrange(j as int, j + k),
        decreases n - k,
    {
        if a[i + k] != b[j + k] {
            assert(a@.subrange(i as int, i + n)[k as int] != b@.subrange(j as int, j + n)[k as int]);
            return false;
        }
        assert(a@.subrange(i as int, i + k + 1) =~= a@.subrange(i as int, i + k).push(a@[i + k]));
        assert(b@.subrange(j as int, j + k + 1) =~= b@.subrange(j as int, j + k).push(b@[j + k]));
        k += 1;
    }
    true
}

fn head_len(chars: &Vec<char>) -> (n: usize)
    ensures
        n == head(chars@).len(),
        n <= 1,
        n <= chars@.len(),
        n == 1 ==> head(chars@) == seq![chars@[0]],
        n == 0 ==> head(chars@) == Seq::<char>::empty(),
{
    if chars.len() > 0 && (chars[0] == '/' || (chars[0] == '.' && (chars.len() == 1 || chars[1]
        == '/'))) {
        1
    } else {
        0
    }
}

/// `p` as seen from `base`, if `p` starts with the components of `base`.
pub fn strip_base(p: &str, base: &str) -> (r: Option<String>)
    ensures
        match r {
            None => strip_prefix(p@, base@) is None,
            Some(t) => strip_prefix(p@, base@) == Some(t@),
        },
{
    let pc = chars_of(p);
    let bc = chars_of(base);
    if bc.len() == 0 {
        let end = trimmed_len(&pc);
        assert(pc@.take(end as int) =~= pc@.subrange(0, end as int));
        return Some(text_of(&pc, 0, end));
    }
    let hp = head_len(&pc);
    let hb = head_len(&bc);
    if hp != hb || (hp == 1 && pc[0] != bc[0]) {
        proof {
            if hp == 1 && hb == 1 {
                assert(head(p@)[0] != head(base@)[0]);
            }
        }
        return None;
    }
    assert(head(p@) =~= head(base@));
    let mut i: usize = hp;
    let mut j: usize = hb;
    let ghost whole = strip_prefix(p@, base@);
    loop
        invariant
            i <= pc@.len(),
            j <= bc@.len(),
            whole == strip_prefix(p@, base@),
            whole == after_names(pc@.skip(i as int), bc@.skip(j as int)),
        decreases bc.len() - j,
    {
        let bs = skip_start(&bc, j);
        let be = first_end(&bc, bs);
        let ps = skip_start(&pc, i);
        let ghost b = bc@.skip(bs as int);
        let ghost q = pc@.skip(ps as int);
        proof {
            lemma_trim_start(bc@.skip(j as int));
            lemma_first_len(b);
        }
        if be == bs {
            let rest = chars_of(text_of(&pc, ps, pc.len()).as_str());
            assert(rest@ =~= q);
            let end = trimmed_len(&rest);
            assert(rest@.take(end as int) =~= rest@.subrange(0, end as int));
            return Some(text_of(&rest, 0, end));
        }
        let pe = first_end(&pc, ps);
        let n = be - bs;
        proof {
            lemma_first_len(q);
            assert(b.take(n as int) =~= bc@.subrange(bs as int, bs + n));
        }
        if pe - ps != n {
            return None;
        }
        assert(q.take(n as int) =~= pc@.subrange(ps as int, ps + n));
        if !same_range(&pc, ps, &bc, bs, n) {
            return None;
        }
        assert(q.skip(n as int) =~= pc@.skip(pe as int));
        assert(b.skip(n as int) =~= bc@.skip(be as int));
        i = pe;
        j = be;
    }
}

/// `p` as seen from `base`, or `p` itself where it does not lie below `base`.
pub fn path_below(p: &str, base: &str) -> (r: String)
    ensures
        r@ == relative_to(p@, base@),
{
    match strip_base(p, base) {
        Some(t) => t,
        None => p.to_owned(),
    }
}

} // verus!
