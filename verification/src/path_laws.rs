//! What holds of paths below a directory.

use crate::discovery;
use crate::path;
use crate::text;
use vstd::prelude::*;

verus! {

/// What a path below a directory starts with.
pub open spec fn before_name(dir: Seq<char>) -> Seq<char> {
    if dir.len() == 0 || dir.last() == '/' {
        dir
    } else {
        dir.push('/')
    }
}

/// Whether a text is free of a character.
pub open spec fn has_no(s: Seq<char>, c: char) -> bool {
    forall|i: int| 0 <= i < s.len() ==> #[trigger] s[i] != c
}

/// The name at the end of a path starts where the directory in front of it ends.
pub proof fn lemma_name_start_of(pre: Seq<char>, name: Seq<char>)
    requires
        pre.len() == 0 || pre.last() == '/',
        has_no(name, '/'),
    ensures
        path::name_start(pre + name) == pre.len(),
    decreases name.len(),
{
    if name.len() == 0 {
        assert(pre + name =~= pre);
    } else {
        assert((pre + name).drop_last() =~= pre + name.drop_last());
        assert((pre + name).last() == name.last());
        lemma_name_start_of(pre, name.drop_last());
    }
}

proof fn lemma_trim_separator(p: Seq<char>, rel: Seq<char>)
    requires
        p == seq!['/'] + rel,
    ensures
        path::trim_start(p) == path::trim_start(rel),
{
    assert(p.skip(1) =~= rel);
}

/// Trimming the start of a path below a directory trims the start of the directory.
proof fn lemma_trim_start_below(dir: Seq<char>, rel: Seq<char>)
    requires
        dir.len() > 0,
    ensures
        path::trim_start(before_name(dir) + rel) == (if path::trim_start(dir).len() > 0 {
            before_name(path::trim_start(dir)) + rel
        } else {
            path::trim_start(rel)
        }),
    decreases dir.len(),
{
    let p = before_name(dir) + rel;
    let trims = dir[0] == '/' || (dir[0] == '.' && (dir.len() == 1 || dir[1] == '/'));
    assert(p[0] == dir[0]);
    if dir.len() > 1 {
        assert(p[1] == dir[1]);
    }
    if trims {
        let rest = dir.skip(1);
        if rest.len() > 0 {
            assert(p.skip(1) =~= before_name(rest) + rel);
            lemma_trim_start_below(rest, rel);
        } else {
            assert(path::trim_start(rest) == rest);
            if dir[0] == '/' {
                assert(p.skip(1) =~= rel);
            } else {
                assert(p.skip(1) =~= seq!['/'] + rel);
                lemma_trim_separator(p.skip(1), rel);
            }
        }
    }
}

/// The first name of a path below a directory is that of the directory.
proof fn lemma_first_len_below(dir: Seq<char>, rel: Seq<char>)
    requires
        dir.len() > 0,
    ensures
        path::first_len(before_name(dir) + rel) == path::first_len(dir),
    decreases dir.len(),
{
    let p = before_name(dir) + rel;
    assert(p[0] == dir[0]);
    if dir[0] != '/' {
        let rest = dir.skip(1);
        if rest.len() > 0 {
            assert(p.skip(1) =~= before_name(rest) + rel);
            lemma_first_len_below(rest, rel);
        } else {
            assert(path::first_len(rest) == 0);
            assert(path::first_len(p.skip(1)) == 0);
        }
    }
}

/// What stands behind the first name of a path below a directory.
proof fn lemma_behind_name(dir: Seq<char>, rel: Seq<char>, n: int)
    requires
        dir.len() > 0,
        0 < n <= dir.len(),
        n == dir.len() ==> dir.last() != '/',
    ensures
        ({
            let q = before_name(dir) + rel;
            &&& q.take(n) == dir.take(n)
            &&& q.skip(n) == (if n < dir.len() {
                before_name(dir.skip(n)) + rel
            } else {
                seq!['/'] + rel
            })
        }),
{
    let q = before_name(dir) + rel;
    assert(q.take(n) =~= dir.take(n));
    if n < dir.len() {
        assert(q.skip(n) =~= before_name(dir.skip(n)) + rel);
    } else {
        assert(q.skip(n) =~= seq!['/'] + rel);
    }
}

/// One name of a path and of a directory.
proof fn lemma_one_name(p: Seq<char>, dir: Seq<char>)
    requires
        path::trim_start(dir).len() > 0,
        ({
            let b = path::trim_start(dir);
            let q = path::trim_start(p);
            let n = path::first_len(b) as int;
            path::first_len(q) == n && q.take(n) == b.take(n)
        }),
    ensures
        ({
            let b = path::trim_start(dir);
            let q = path::trim_start(p);
            let n = path::first_len(b) as int;
            path::after_names(p, dir) == path::after_names(q.skip(n), b.skip(n))
        }),
{
}

/// Behind the names of a directory stands what is below it.
proof fn lemma_after_names(dir: Seq<char>, rel: Seq<char>)
    requires
        dir.len() > 0,
    ensures
        path::after_names(before_name(dir) + rel, dir) == Some(
            path::trim_end(path::trim_start(rel)),
        ),
    decreases dir.len(),
{
    let p = before_name(dir) + rel;
    let b = path::trim_start(dir);
    path::lemma_trim_start(dir);
    lemma_trim_start_below(dir, rel);
    if b.len() > 0 {
        let n = path::first_len(b) as int;
        path::lemma_first_len(b);
        lemma_first_len_below(b, rel);
        assert(n > 0);
        lemma_behind_name(b, rel, n);
        lemma_one_name(p, dir);
        let q = before_name(b) + rel;
        if n < b.len() {
            lemma_after_names(b.skip(n), rel);
        } else {
            lemma_trim_separator(q.skip(n), rel);
            lemma_no_names(q.skip(n), b.skip(n));
        }
    } else {
        lemma_no_names(p, dir);
    }
}

proof fn lemma_no_names(p: Seq<char>, dir: Seq<char>)
    requires
        dir.len() == 0 || path::trim_start(dir).len() == 0,
    ensures
        path::after_names(p, dir) == Some(path::trim_end(path::trim_start(p))),
{
    path::lemma_trim_start(dir);
}

/// A path that is joined to a directory is what it is as seen from that directory, but for
/// separators and `.` components at its ends.
pub proof fn law_relative_path_is_kept(dir: Seq<char>, rel: Seq<char>)
    requires
        dir.len() > 0,
        rel.len() > 0 ==> rel[0] != '/',
    ensures
        path::relative_to(path::join(dir, rel), dir) == path::trim_end(path::trim_start(rel)),
{
    let p = path::join(dir, rel);
    assert(p =~= before_name(dir) + rel);
    assert(p[0] == dir[0]);
    if dir.len() > 1 {
        assert(p[1] == dir[1]);
    }
    if dir.len() == 1 && dir[0] == '.' {
        assert(p[1] == '/');
    }
    assert(path::head(p) == path::head(dir));
    let h = path::head(dir).len() as int;
    let rest = dir.skip(h);
    if rest.len() > 0 {
        assert(p.skip(h) =~= before_name(rest) + rel);
        lemma_after_names(rest, rel);
    } else {
        assert(path::trim_start(rest) =~= rest);
        if dir[0] == '/' {
            assert(p.skip(h) =~= rel);
        } else {
            assert(p.skip(h) =~= seq!['/'] + rel);
            lemma_trim_separator(p.skip(h), rel);
        }
    }
}

/// A file that lies below one directory goes to the same place below another.
pub proof fn law_tree_is_preserved(from: Seq<char>, to: Seq<char>, rel: Seq<char>)
    requires
        from.len() > 0,
        rel.len() > 0 ==> rel[0] != '/',
        path::trim_end(path::trim_start(rel)) == rel,
    ensures
        path::join(to, path::relative_to(path::join(from, rel), from)) == path::join(to, rel),
{
    law_relative_path_is_kept(from, rel);
}

// ─── Extensions ────────────────────────────────────────────────

/// The last dot of a name that gets an extension is the one before it.
proof fn lemma_dot_before(stem: Seq<char>, ext: Seq<char>)
    requires
        has_no(ext, '.'),
    ensures
        path::last_dot(stem + seq!['.'] + ext) == stem.len(),
    decreases ext.len(),
{
    let n = stem + seq!['.'] + ext;
    if ext.len() == 0 {
        assert(n.last() == '.');
    } else {
        let front = ext.drop_last();
        assert forall|i: int| 0 <= i < front.len() implies #[trigger] front[i] != '.' by {
            assert(ext[i] != '.');
        }
        lemma_dot_before(stem, front);
        assert(n.drop_last() =~= stem + seq!['.'] + front);
        assert(n.last() == ext[ext.len() - 1]);
    }
}

/// A new extension takes the place of the old one and changes nothing else: the path then has
/// that extension, and still the same stem and the same parent.
pub proof fn law_new_extension(p: Seq<char>, ext: Seq<char>)
    requires
        path::file_name(p) is Some,
        ext.len() > 0,
        has_no(ext, '.'),
        has_no(ext, '/'),
    ensures
        path::extension(path::with_extension(p, ext)) == Some(ext),
        path::file_stem(path::with_extension(p, ext)) == path::file_stem(p),
        path::parent(path::with_extension(p, ext)) == path::parent(p),
{
    let t = path::trim_end(p);
    let k = path::name_start(t);
    let pre = t.take(k);
    let name = t.skip(k);
    let stem = path::stem_of_name(name);
    let r = path::with_extension(p, ext);
    let n = stem + seq!['.'] + ext;
    path::lemma_name_start(t);
    path::lemma_file_name(p);
    path::lemma_last_dot(name);
    assert(r =~= pre + n);
    if k > 0 {
        assert(pre.last() == '/');
    }
    assert(stem.len() > 0);
    assert forall|i: int| 0 <= i < n.len() implies #[trigger] n[i] != '/' by {
        if i < stem.len() {
            assert(n[i] == name[i]);
        } else if i > stem.len() {
            assert(n[i] == ext[i - stem.len() - 1]);
        }
    }
    lemma_name_start_of(pre, n);
    assert(r.last() == ext[ext.len() - 1]);
    assert(path::trim_end(r) == r);
    assert(r.skip(pre.len() as int) =~= n);
    assert(r.take(pre.len() as int) =~= pre);
    assert(r.len() > 1);
    assert(path::last_component(r) == Some(n));
    lemma_dot_before(stem, ext);
    assert(n.skip(stem.len() as int + 1) =~= ext);
    assert(n.take(stem.len() as int) =~= stem);
    assert(n.len() > 2 || n[1] == '.');
    assert(n[n.len() - 1] != '.');
}

// ─── Beside a directory ────────────────────────────────────────

/// A directory that is named after another one, with something behind its name, lies beside
/// it: it has the same parent and another name.
pub proof fn law_sibling_lies_beside(p: Seq<char>, suffix: Seq<char>)
    requires
        path::file_name(p) is Some,
        suffix.len() > 0,
        has_no(suffix, '/'),
        suffix.last() != '.',
    ensures
        path::parent(discovery::sibling(p, suffix)) == path::parent(p),
        path::file_name(discovery::sibling(p, suffix)) == Some(
            path::file_name(p)->Some_0 + suffix,
        ),
        path::file_name(discovery::sibling(p, suffix)) != path::file_name(p),
{
    let t = path::trim_end(p);
    let name = path::file_name(p)->Some_0;
    let new = name + suffix;
    let parent = path::parent(p)->Some_0;
    let pre = before_name(parent);
    let q = pre + new;
    path::lemma_file_name(p);
    path::lemma_trimmed(t.take(path::name_start(t)));
    assert(new.last() == suffix.last());
    assert(has_no(new, '/')) by {
        assert forall|i: int| 0 <= i < new.len() implies #[trigger] new[i] != '/' by {
            if i < name.len() {
                assert(new[i] == name[i]);
            } else {
                assert(new[i] == suffix[i - name.len()]);
            }
        }
    }
    assert(new[0] == name[0]);
    if parent.len() > 0 {
        assert(path::join(parent, new) =~= q);
    } else {
        assert(q =~= new);
    }
    assert(discovery::sibling(p, suffix) == q);
    assert(q.last() == new.last());
    assert(suffix.last() != '/');
    assert(path::trim_end(q) == q);
    lemma_name_start_of(pre, new);
    assert(q.skip(pre.len() as int) =~= new);
    assert(q.take(pre.len() as int) =~= pre);
    assert(q != seq!['/']) by {
        assert(q.last() != '/');
    }
    assert(new.len() > 1);
    if new == seq!['.', '.'] {
        assert(new.last() == '.');
    }
    assert(path::trim_end(pre) == parent) by {
        if parent.len() > 0 && parent.last() != '/' {
            assert(pre.drop_last() =~= parent);
        }
    }
}

// ─── Parts that count ──────────────────────────────────────────

/// The parts on both sides of a separator are those of the two sides.
proof fn lemma_split_at(a: Seq<char>, b: Seq<char>)
    ensures
        text::split(a + seq!['/'] + b, '/') == text::split(a, '/') + text::split(b, '/'),
    decreases b.len(),
{
    let s = a + seq!['/'] + b;
    let empty: Seq<char> = seq![];
    text::lemma_split_some(a, '/');
    if b.len() == 0 {
        assert(s.drop_last() =~= a);
        assert(s.last() == '/');
        assert(b =~= empty);
        assert(text::split(s, '/') =~= text::split(a, '/') + text::split(b, '/'));
    } else {
        let front = a + seq!['/'] + b.drop_last();
        assert(s.drop_last() =~= front);
        assert(s.last() == b.last());
        lemma_split_at(a, b.drop_last());
        text::lemma_split_some(b.drop_last(), '/');
        assert(text::split(s, '/') =~= text::split(a, '/') + text::split(b, '/'));
    }
}

/// The parts that count on both sides of a separator are those of the two sides.
proof fn lemma_components_at(a: Seq<char>, b: Seq<char>)
    ensures
        path::components(a + seq!['/'] + b) == path::components(a) + path::components(b),
{
    lemma_split_at(a, b);
    Seq::filter_distributes_over_add(
        text::split(a, '/'),
        text::split(b, '/'),
        path::counts(),
    );
}

proof fn lemma_no_components()
    ensures
        path::components(seq![]) == Seq::<Seq<char>>::empty(),
{
    reveal(Seq::filter);
    let empty: Seq<char> = seq![];
    let parts = text::split(empty, '/');
    assert(parts.drop_last().filter(path::counts()) =~= seq![]);
    assert(parts.filter(path::counts()) =~= seq![]);
}

/// A part without a separator that counts is the only one.
proof fn lemma_one_component(c: Seq<char>)
    requires
        has_no(c, '/'),
    ensures
        text::split(c, '/') == seq![c],
        (path::counts())(c) ==> path::components(c) == seq![c],
        !(path::counts())(c) ==> path::components(c) == Seq::<Seq<char>>::empty(),
    decreases c.len(),
{
    if c.len() > 0 {
        lemma_one_component(c.drop_last());
        assert(c.drop_last().push(c.last()) =~= c);
        assert(text::split(c, '/') =~= seq![c]);
    } else {
        assert(text::split(c, '/') =~= seq![c]);
    }
    reveal(Seq::filter);
    let parts = seq![c];
    assert(parts.drop_last().filter(path::counts()) =~= seq![]);
    assert(parts.filter(path::counts()) =~= if (path::counts())(c) {
        seq![c]
    } else {
        seq![]
    });
}

proof fn lemma_parts_have_no_separator(p: Seq<char>)
    ensures
        forall|i: int|
            0 <= i < text::split(p, '/').len() ==> has_no(#[trigger] text::split(p, '/')[i], '/'),
    decreases p.len(),
{
    if p.len() > 0 {
        let front = text::split(p.drop_last(), '/');
        let parts = text::split(p, '/');
        lemma_parts_have_no_separator(p.drop_last());
        text::lemma_split_some(p.drop_last(), '/');
        assert forall|i: int| 0 <= i < parts.len() implies has_no(#[trigger] parts[i], '/') by {
            if p.last() == '/' {
                if i < front.len() {
                    assert(parts[i] == front[i]);
                }
            } else {
                assert(has_no(front[i], '/'));
                if i < front.len() - 1 {
                    assert(parts[i] == front[i]);
                } else {
                    assert(parts[i] == front[i].push(p.last()));
                }
            }
        }
    }
}

/// Whether all of these are parts that count.
spec fn all_count(parts: Seq<Seq<char>>) -> bool {
    forall|i: int|
        0 <= i < parts.len() ==> has_no(#[trigger] parts[i], '/') && (path::counts())(parts[i])
}

proof fn lemma_components_count(parts: Seq<Seq<char>>)
    requires
        forall|i: int| 0 <= i < parts.len() ==> has_no(#[trigger] parts[i], '/'),
    ensures
        all_count(parts.filter(path::counts())),
    decreases parts.len(),
{
    reveal(Seq::filter);
    if parts.len() > 0 {
        let front = parts.drop_last();
        assert forall|i: int| 0 <= i < front.len() implies has_no(#[trigger] front[i], '/') by {
            assert(has_no(parts[i], '/'));
        }
        lemma_components_count(front);
        assert(has_no(parts[parts.len() - 1], '/'));
        let kept = front.filter(path::counts());
        let all = parts.filter(path::counts());
        assert forall|i: int| 0 <= i < all.len() implies has_no(#[trigger] all[i], '/') && (
        path::counts())(all[i]) by {
            if i < kept.len() {
                assert(all[i] == kept[i]);
            }
        }
    }
}

/// What is joined from parts that count has those parts.
proof fn lemma_components_of_joined(parts: Seq<Seq<char>>)
    requires
        all_count(parts),
    ensures
        path::components(text::joined(parts, "/"@)) == parts,
    decreases parts.len(),
{
    reveal_strlit("/");
    assert("/"@ =~= seq!['/']);
    if parts.len() == 0 {
        lemma_no_components();
    } else {
        assert(has_no(parts[parts.len() - 1], '/'));
        lemma_one_component(parts.last());
        if parts.len() == 1 {
            assert(parts =~= seq![parts[0]]);
        } else {
            let front = parts.drop_last();
            assert forall|i: int| 0 <= i < front.len() implies has_no(#[trigger] front[i], '/') && (
            path::counts())(front[i]) by {
                assert(has_no(parts[i], '/'));
            }
            lemma_components_of_joined(front);
            lemma_components_at(text::joined(front, "/"@), parts.last());
            assert(front + seq![parts.last()] =~= parts);
        }
    }
}

/// Cleaning a path keeps its parts that count, and whether it starts at the root. So two paths
/// that start at the root come out the same exactly if those parts are the same.
pub proof fn law_cleaning_keeps_components(p: Seq<char>)
    ensures
        path::components(path::clean(p)) == path::components(p),
        path::is_absolute(p) ==> path::is_absolute(path::clean(p)),
{
    reveal_strlit("/");
    reveal_strlit("");
    lemma_parts_have_no_separator(p);
    lemma_components_count(text::split(p, '/'));
    let parts = path::components(p);
    let rest = text::joined(parts, "/"@);
    lemma_components_of_joined(parts);
    lemma_no_components();
    if path::is_absolute(p) {
        let empty: Seq<char> = seq![];
        lemma_components_at(empty, rest);
        assert(path::clean(p) =~= empty + seq!['/'] + rest);
        assert(path::components(empty) + parts =~= parts);
    } else {
        assert(path::clean(p) =~= rest);
    }
}

/// The parts of a path below a directory are those of the directory and then its own.
pub proof fn law_joining_adds_components(dir: Seq<char>, rel: Seq<char>)
    requires
        !path::is_absolute(rel),
    ensures
        path::components(path::join(dir, rel)) == path::components(dir) + path::components(rel),
{
    lemma_no_components();
    let empty: Seq<char> = seq![];
    if dir.len() == 0 {
        assert(dir =~= empty);
        assert(path::join(dir, rel) =~= rel);
        assert(path::components(dir) + path::components(rel) =~= path::components(rel));
    } else if dir.last() == '/' {
        let d = dir.drop_last();
        assert(dir =~= d + seq!['/'] + empty);
        assert(path::join(dir, rel) =~= d + seq!['/'] + rel);
        lemma_components_at(d, empty);
        lemma_components_at(d, rel);
        assert(path::components(d) + path::components(empty) =~= path::components(d));
    } else {
        lemma_components_at(dir, rel);
    }
}

/// A `.` in front of a path does not count.
pub proof fn law_leading_dot_does_not_count(rel: Seq<char>)
    ensures
        path::components(seq!['.', '/'] + rel) == path::components(rel),
{
    let dot: Seq<char> = seq!['.'];
    lemma_one_component(dot);
    lemma_components_at(dot, rel);
    assert(seq!['.', '/'] + rel =~= dot + seq!['/'] + rel);
    assert(path::components(dot) + path::components(rel) =~= path::components(rel));
}

// ─── Taking paths apart ────────────────────────────────────────

/// What is trimmed at the end of a path does not count.
proof fn lemma_trim_end_components(p: Seq<char>)
    ensures
        path::components(path::trim_end(p)) == path::components(p),
    decreases p.len(),
{
    let empty: Seq<char> = seq![];
    lemma_no_components();
    if p.len() > 1 && p.last() == '/' {
        let f = p.drop_last();
        lemma_trim_end_components(f);
        lemma_components_at(f, empty);
        assert(f + seq!['/'] + empty =~= p);
        assert(path::components(f) + path::components(empty) =~= path::components(f));
    } else if p.len() > 1 && p.last() == '.' && p[p.len() - 2] == '/' {
        let f = p.drop_last();
        let g = f.drop_last();
        let dot: Seq<char> = seq!['.'];
        lemma_trim_end_components(f);
        lemma_one_component(dot);
        lemma_components_at(g, dot);
        lemma_components_at(g, empty);
        assert(g + seq!['/'] + dot =~= p);
        assert(g + seq!['/'] + empty =~= f);
        assert(path::components(g) + path::components(dot) =~= path::components(g) + path::components(
            empty,
        ));
    }
}

/// The name of a file is the last of the parts that count, and its parent has the others.
pub proof fn law_name_is_the_last_part(p: Seq<char>)
    requires
        path::file_name(p) is Some,
    ensures
        path::parent(p) is Some,
        path::components(p) == path::components(path::parent(p)->Some_0).push(
            path::file_name(p)->Some_0,
        ),
{
    let t = path::trim_end(p);
    let k = path::name_start(t);
    let n = t.skip(k);
    let empty: Seq<char> = seq![];
    path::lemma_name_start(t);
    path::lemma_file_name(p);
    lemma_no_components();
    lemma_trim_end_components(p);
    lemma_trim_end_components(t.take(k));
    assert(has_no(n, '/'));
    lemma_one_component(n);
    if k > 0 {
        let a = t.take(k - 1);
        lemma_components_at(a, n);
        lemma_components_at(a, empty);
        assert(a + seq!['/'] + n =~= t);
        assert(a + seq!['/'] + empty =~= t.take(k));
        assert(path::components(t.take(k)) =~= path::components(a));
        assert(path::components(t) =~= path::components(a).push(n));
    } else {
        assert(t.take(0) =~= empty);
        assert(n =~= t);
        assert(path::components(t) =~= path::components(empty).push(n));
    }
}

/// A name is its stem and, where it has one, a dot and its extension, which holds no other dot. A
/// dot at the start of a name starts no extension.
pub proof fn law_stem_and_extension(p: Seq<char>)
    requires
        path::file_name(p) is Some,
    ensures
        ({
            let name = path::file_name(p)->Some_0;
            &&& path::file_stem(p) matches Some(stem) && stem.len() > 0
            &&& match path::extension(p) {
                Some(e) => name == path::file_stem(p)->Some_0 + seq!['.'] + e && has_no(e, '.'),
                None => name == path::file_stem(p)->Some_0 && forall|i: int|
                    0 < i < name.len() ==> #[trigger] name[i] != '.',
            }
        }),
{
    let name = path::file_name(p)->Some_0;
    path::lemma_file_name(p);
    path::lemma_last_dot(name);
    let d = path::last_dot(name);
    if d > 0 {
        assert(name =~= name.take(d) + seq!['.'] + name.skip(d + 1));
    }
}

/// An extension behind a whole name is the extension of what comes out, and the name is its stem.
pub proof fn lemma_appended_extension(p: Seq<char>, ext: Seq<char>)
    requires
        path::file_name(p) is Some,
        path::trim_end(p) == p,
        ext.len() > 0,
        has_no(ext, '.'),
        has_no(ext, '/'),
    ensures
        path::extension(p + seq!['.'] + ext) == Some(ext),
        path::file_stem(p + seq!['.'] + ext) == path::file_name(p),
        path::parent(p + seq!['.'] + ext) == path::parent(p),
{
    let q = p + seq!['.'] + ext;
    let k = path::name_start(p);
    let pre = p.take(k);
    let name = p.skip(k);
    let n = name + seq!['.'] + ext;
    path::lemma_name_start(p);
    path::lemma_file_name(p);
    assert(q =~= pre + n);
    assert forall|i: int| 0 <= i < n.len() implies #[trigger] n[i] != '/' by {
        if i < name.len() {
            assert(n[i] == name[i]);
            assert(p[k + i] != '/');
        } else if i > name.len() {
            assert(n[i] == ext[i - name.len() - 1]);
        }
    }
    if k > 0 {
        assert(pre.last() == '/');
    }
    lemma_name_start_of(pre, n);
    assert(q.last() == ext[ext.len() - 1]);
    assert(path::trim_end(q) == q);
    assert(q.skip(pre.len() as int) =~= n);
    assert(q.take(pre.len() as int) =~= pre);
    lemma_dot_before(name, ext);
    path::lemma_last_dot(n);
    assert(n.skip(name.len() as int + 1) =~= ext);
    assert(n.take(name.len() as int) =~= name);
    assert(n.len() > 2);
}

/// What is trimmed at the start of a path does not count.
proof fn lemma_trim_start_components(p: Seq<char>)
    ensures
        path::components(path::trim_start(p)) == path::components(p),
        ({
            let t = path::trim_start(p);
            t.len() > 0 ==> t[0] != '/' && !(t[0] == '.' && (t.len() == 1 || t[1] == '/'))
        }),
    decreases p.len(),
{
    let empty: Seq<char> = seq![];
    lemma_no_components();
    if p.len() > 0 && p[0] == '/' {
        let q = p.skip(1);
        lemma_trim_start_components(q);
        lemma_components_at(empty, q);
        assert(empty + seq!['/'] + q =~= p);
        assert(path::components(empty) + path::components(q) =~= path::components(q));
    } else if p.len() > 0 && p[0] == '.' && (p.len() == 1 || p[1] == '/') {
        let dot: Seq<char> = seq!['.'];
        let q = p.skip(1);
        lemma_trim_start_components(q);
        lemma_one_component(dot);
        if p.len() == 1 {
            assert(p =~= dot);
            assert(q =~= empty);
        } else {
            let r = p.skip(2);
            lemma_components_at(dot, r);
            lemma_components_at(empty, r);
            assert(dot + seq!['/'] + r =~= p);
            assert(empty + seq!['/'] + r =~= q);
            assert(path::components(dot) + path::components(r) =~= path::components(empty)
                + path::components(r));
        }
    }
}

/// The first part of what is trimmed counts, and the others are those behind it.
proof fn lemma_first_component(b: Seq<char>)
    requires
        b.len() > 0,
        b[0] != '/',
        !(b[0] == '.' && (b.len() == 1 || b[1] == '/')),
    ensures
        ({
            let n = path::first_len(b) as int;
            &&& 0 < n <= b.len()
            &&& path::components(b) == seq![b.take(n)] + path::components(b.skip(n))
        }),
{
    let n = path::first_len(b) as int;
    let empty: Seq<char> = seq![];
    let c = b.take(n);
    path::lemma_first_len(b);
    lemma_no_components();
    assert(has_no(c, '/')) by {
        assert forall|i: int| 0 <= i < c.len() implies #[trigger] c[i] != '/' by {
            assert(b[i] != '/');
        }
    }
    assert(c[0] == b[0]);
    if c == seq!['.'] {
        assert(n == 1);
        assert(c[0] == '.');
    }
    lemma_one_component(c);
    if n < b.len() {
        let r = b.skip(n + 1);
        lemma_components_at(c, r);
        lemma_components_at(empty, r);
        assert(c + seq!['/'] + r =~= b);
        assert(empty + seq!['/'] + r =~= b.skip(n));
        assert(path::components(empty) + path::components(r) =~= path::components(r));
    } else {
        assert(c =~= b);
        assert(b.skip(n) =~= empty);
        assert(seq![c] + path::components(empty) =~= seq![c]);
    }
}

proof fn lemma_parts_after_names(p: Seq<char>, base: Seq<char>)
    ensures
        path::after_names(p, base) matches Some(r) ==> path::components(p) == path::components(base)
            + path::components(r),
    decreases base.len(),
{
    let b = path::trim_start(base);
    let q = path::trim_start(p);
    let n = path::first_len(b) as int;
    let empty: Seq<char> = seq![];
    lemma_trim_start_components(base);
    lemma_trim_start_components(p);
    path::lemma_trim_start(base);
    path::lemma_first_len(b);
    path::lemma_first_len(q);
    if b.len() == 0 {
        lemma_no_components();
        lemma_trim_end_components(q);
        assert(b =~= empty);
        assert(path::components(empty) + path::components(q) =~= path::components(q));
    } else if path::first_len(q) == n && q.take(n) == b.take(n) {
        lemma_first_component(b);
        if q.len() > 0 {
            lemma_first_component(q);
        }
        lemma_parts_after_names(q.skip(n), b.skip(n));
        if let Some(r) = path::after_names(q.skip(n), b.skip(n)) {
            assert(seq![b.take(n)] + (path::components(b.skip(n)) + path::components(r)) =~= (seq![
                b.take(n),
            ] + path::components(b.skip(n))) + path::components(r));
        }
    }
}

/// Where a path lies below another, its parts are those of the other and then those of what it is
/// seen as from there.
pub proof fn law_below_means_behind(p: Seq<char>, base: Seq<char>)
    ensures
        path::strip_prefix(p, base) matches Some(rel) ==> path::components(p) == path::components(
            base,
        ) + path::components(rel),
{
    let empty: Seq<char> = seq![];
    lemma_no_components();
    if base.len() == 0 {
        lemma_trim_end_components(p);
        assert(base =~= empty);
        assert(path::components(empty) + path::components(p) =~= path::components(p));
    } else {
        let h = path::head(p).len() as int;
        let k = path::head(base).len() as int;
        lemma_head_does_not_count(p);
        lemma_head_does_not_count(base);
        lemma_parts_after_names(p.skip(h), base.skip(k));
    }
}

/// What a path starts with, be it the root or a `.`, does not count.
proof fn lemma_head_does_not_count(p: Seq<char>)
    ensures
        path::components(p.skip(path::head(p).len() as int)) == path::components(p),
{
    let empty: Seq<char> = seq![];
    let h = path::head(p).len() as int;
    lemma_no_components();
    if h == 0 {
        assert(p.skip(0) =~= p);
    } else {
        let q = p.skip(1);
        lemma_trim_start_components(p);
        lemma_trim_start_components(q);
        assert(path::trim_start(p) == path::trim_start(q));
    }
}

} // verus!
