//! What holds of the items that a run works on.

use crate::chapters::ChapterView;
use crate::cli;
use crate::cli::ItemView;
use crate::discovery;
use crate::ffmpeg::OutputFormat;
use crate::path;
use crate::path_laws;
use crate::text;
use crate::text_laws;
use vstd::prelude::*;

verus! {

// ─── Expansion ─────────────────────────────────────────────────

/// No file is lost: without splitting every file is one item, and with splitting at least one.
pub proof fn law_every_file_has_items(
    input_dir: Seq<char>,
    files: Seq<Seq<char>>,
    chaps: Seq<Seq<ChapterView>>,
)
    ensures
        cli::expanded(false, input_dir, files, chaps) == Seq::new(
            files.len(),
            |i: int| cli::whole_file(input_dir, files[i]),
        ),
        cli::expanded(true, input_dir, files, chaps).len() >= files.len(),
    decreases files.len(),
{
    if files.len() > 0 {
        law_every_file_has_items(input_dir, files.drop_last(), chaps);
    }
    assert(cli::expanded(false, input_dir, files, chaps) =~= Seq::new(
        files.len(),
        |i: int| cli::whole_file(input_dir, files[i]),
    ));
}

// ─── Resuming ──────────────────────────────────────────────────

/// Whether an item stands at a place where `there` has this value.
pub open spec fn stands_where(items: Seq<ItemView>, there: Seq<bool>, value: bool, x: ItemView) -> bool {
    exists|i: int| 0 <= i < items.len() && there[i] == value && #[trigger] items[i] == x
}

/// Resuming skips exactly the items whose output exists: every item is either kept or skipped,
/// the kept ones lack an output, and the skipped ones have one.
pub proof fn law_resume_skips_existing(items: Seq<ItemView>, there: Seq<bool>)
    ensures
        cli::picked(items, there, false).len() + cli::picked(items, there, true).len()
            == items.len(),
        forall|i: int|
            0 <= i < items.len() ==> cli::picked(items, there, there[i]).contains(
                #[trigger] items[i],
            ),
        forall|value: bool, k: int|
            0 <= k < cli::picked(items, there, value).len() ==> stands_where(
                items,
                there,
                value,
                #[trigger] cli::picked(items, there, value)[k],
            ),
    decreases items.len(),
{
    if items.len() > 0 {
        let front = items.drop_last();
        law_resume_skips_existing(front, there);
        assert forall|i: int| 0 <= i < items.len() implies cli::picked(
            items,
            there,
            there[i],
        ).contains(#[trigger] items[i]) by {
            let now = cli::picked(items, there, there[i]);
            let before = cli::picked(front, there, there[i]);
            if i < front.len() {
                assert(before.contains(front[i]));
                let k = before.index_of(front[i]);
                assert(now[k] == items[i]);
            } else {
                assert(now[now.len() - 1] == items[i]);
            }
        }
        assert forall|value: bool, k: int|
            0 <= k < cli::picked(items, there, value).len() implies stands_where(
            items,
            there,
            value,
            #[trigger] cli::picked(items, there, value)[k],
        ) by {
            let before = cli::picked(front, there, value);
            let x = cli::picked(items, there, value)[k];
            if k < before.len() {
                assert(stands_where(front, there, value, before[k]));
                let i = choose|i: int|
                    0 <= i < front.len() && there[i] == value && #[trigger] front[i] == x;
                assert(items[i] == x);
            } else {
                assert(items[items.len() - 1] == x);
            }
        }
    }
}

/// Where every output exists nothing is left to do, and where none does nothing is skipped.
pub proof fn law_resume_extremes(items: Seq<ItemView>, there: Seq<bool>)
    ensures
        (forall|i: int| 0 <= i < items.len() ==> #[trigger] there[i]) ==> cli::picked(
            items,
            there,
            false,
        ).len() == 0 && cli::picked(items, there, true) == items,
        (forall|i: int| 0 <= i < items.len() ==> !(#[trigger] there[i])) ==> cli::picked(
            items,
            there,
            true,
        ).len() == 0 && cli::picked(items, there, false) == items,
    decreases items.len(),
{
    if items.len() > 0 {
        law_resume_extremes(items.drop_last(), there);
        assert(items.drop_last().push(items.last()) =~= items);
    }
}

// ─── Chapters ──────────────────────────────────────────────────

/// Zeros in front of digits change nothing of the number that they stand for.
pub proof fn lemma_padding(zeros: nat, t: Seq<char>)
    requires
        text::all_digits(t),
    ensures
        text::value(Seq::new(zeros, |i: int| '0') + t) == text::value(t),
        text::all_digits(Seq::new(zeros, |i: int| '0') + t),
    decreases t.len() + zeros,
{
    let z = Seq::new(zeros, |i: int| '0');
    if t.len() == 0 {
        assert(z + t =~= z);
        if zeros > 0 {
            let less = Seq::new((zeros - 1) as nat, |i: int| '0');
            assert(z.drop_last() =~= less);
            lemma_padding((zeros - 1) as nat, t);
            assert(less + t =~= less);
        }
    } else {
        assert((z + t).drop_last() =~= z + t.drop_last());
        lemma_padding(zeros, t.drop_last());
        assert((z + t).last() == t.last());
    }
}

/// The number of chapter `i`, as it stands in its name.
pub open spec fn number_text(i: int) -> Seq<char> {
    text::zero_padded(text::decimal((i + 1) as nat), 3)
}

pub proof fn lemma_number_text(i: int)
    requires
        i >= 0,
    ensures
        text::value(number_text(i)) == i + 1,
        text::all_digits(number_text(i)),
{
    text_laws::law_digits_read_back((i + 1) as nat, 3);
}

/// The name of chapter `i` up to its title.
spec fn name_front(stem: Seq<char>, i: int) -> Seq<char> {
    stem + " - "@ + number_text(i) + " - "@
}

/// Two texts that start as the names of different chapters of one file are different.
proof fn lemma_fronts_differ(stem: Seq<char>, i: int, j: int, x: Seq<char>, y: Seq<char>)
    requires
        0 <= i,
        0 <= j,
        i != j,
    ensures
        name_front(stem, i) + x != name_front(stem, j) + y,
{
    reveal_strlit(" - ");
    lemma_number_text(i);
    lemma_number_text(j);
    let a = number_text(i);
    let b = number_text(j);
    let s = name_front(stem, i) + x;
    let t = name_front(stem, j) + y;
    let at = stem.len() as int + 3;
    assert(s.skip(at).take(a.len() as int) =~= a);
    assert(t.skip(at).take(b.len() as int) =~= b);
    assert(s[at + a.len()] == ' ');
    assert(t[at + b.len()] == ' ');
    if s == t {
        if a.len() < b.len() {
            assert(t[at + a.len()] == b[a.len() as int]);
        } else if b.len() < a.len() {
            assert(s[at + b.len()] == a[b.len() as int]);
        }
    }
}

/// The chapters of one file have different names, whatever their titles.
pub proof fn law_chapters_have_different_names(
    input_dir: Seq<char>,
    source: Seq<char>,
    i: int,
    j: int,
    c: ChapterView,
    d: ChapterView,
)
    requires
        0 <= i,
        0 <= j,
        i != j,
    ensures
        cli::chapter_item(input_dir, source, i, c).relative != cli::chapter_item(
            input_dir,
            source,
            j,
            d,
        ).relative,
{
    let rel = path::relative_to(source, input_dir);
    let stem = stem_in(rel);
    lemma_chapter_name(stem, i, c.title);
    lemma_chapter_name(stem, j, d.title);
    lemma_stem(rel);
    lemma_fronts_differ(
        stem,
        i,
        j,
        discovery::sanitized(c.title),
        discovery::sanitized(d.title),
    );
    lemma_join_keeps_apart(
        parent_in(rel),
        cli::chapter_name(stem, i, c.title),
        cli::chapter_name(stem, j, d.title),
    );
}

spec fn stem_in(rel: Seq<char>) -> Seq<char> {
    match path::file_stem(rel) {
        Some(s) => s,
        None => seq![],
    }
}

spec fn parent_in(rel: Seq<char>) -> Seq<char> {
    match path::parent(rel) {
        Some(p) => p,
        None => seq![],
    }
}

proof fn lemma_stem(rel: Seq<char>)
    ensures
        path_laws::has_no(stem_in(rel), '/'),
{
    if path::file_name(rel) is Some {
        path::lemma_file_name(rel);
        let n = path::file_name(rel)->Some_0;
        path::lemma_last_dot(n);
        assert forall|i: int| 0 <= i < stem_in(rel).len() implies #[trigger] stem_in(rel)[i]
            != '/' by {
            assert(stem_in(rel)[i] == n[i]);
        }
    }
}

proof fn lemma_chapter_name(stem: Seq<char>, i: int, title: Seq<char>)
    requires
        i >= 0,
    ensures
        cli::chapter_name(stem, i, title) == name_front(stem, i) + discovery::sanitized(title),
        cli::chapter_name(stem, i, title).len() > 3,
        path_laws::has_no(stem, '/') ==> path_laws::has_no(cli::chapter_name(stem, i, title), '/'),
{
    reveal_strlit(" - ");
    lemma_number_text(i);
    let name = cli::chapter_name(stem, i, title);
    assert(name =~= name_front(stem, i) + discovery::sanitized(title));
    discovery::law_sanitized_is_safe(title);
    if path_laws::has_no(stem, '/') {
        let number = number_text(i);
        let at = stem.len() as int + 3;
        let safe = discovery::sanitized(title);
        assert forall|k: int| 0 <= k < name.len() implies #[trigger] name[k] != '/' by {
            if k < stem.len() {
                assert(name[k] == stem[k]);
            } else if k < at {
                assert(name[k] == " - "@[k - stem.len()]);
            } else if k < at + number.len() {
                assert(name[k] == number[k - at]);
            } else if k < at + number.len() + 3 {
                assert(name[k] == " - "@[k - at - number.len()]);
            } else {
                let m = k - at - number.len() - 3;
                assert(name[k] == safe[m]);
                assert(!discovery::is_unsafe(safe[m]));
            }
        }
    }
}

proof fn lemma_join_keeps_apart(dir: Seq<char>, a: Seq<char>, b: Seq<char>)
    requires
        a.len() > 0 && a[0] != '/',
        b.len() > 0 && b[0] != '/',
        a != b,
    ensures
        path::join(dir, a) != path::join(dir, b),
{
    let k = path_laws::before_name(dir).len() as int;
    assert(path::join(dir, a).skip(k) =~= a);
    assert(path::join(dir, b).skip(k) =~= b);
}

/// What the path of a chapter starts with, below the directory for outputs.
spec fn before_chapter(output_dir: Seq<char>, rel: Seq<char>) -> Seq<char> {
    let pre = path_laws::before_name(parent_in(rel));
    if pre.len() > 0 && pre[0] == '/' {
        pre
    } else {
        path_laws::before_name(output_dir) + pre
    }
}

/// The path of a chapter below the directory for outputs ends in its name.
proof fn lemma_chapter_path(
    input_dir: Seq<char>,
    output_dir: Seq<char>,
    source: Seq<char>,
    i: int,
    c: ChapterView,
)
    requires
        0 <= i,
    ensures
        ({
            let rel = path::relative_to(source, input_dir);
            let pre = before_chapter(output_dir, rel);
            &&& path::join(output_dir, cli::chapter_item(input_dir, source, i, c).relative) == pre
                + cli::chapter_name(stem_in(rel), i, c.title)
            &&& pre.len() == 0 || pre.last() == '/'
        }),
{
    let rel = path::relative_to(source, input_dir);
    let dir = parent_in(rel);
    let name = cli::chapter_name(stem_in(rel), i, c.title);
    let relative = cli::chapter_item(input_dir, source, i, c).relative;
    let pre = before_chapter(output_dir, rel);
    lemma_stem(rel);
    lemma_chapter_name(stem_in(rel), i, c.title);
    assert(name[0] != '/');
    assert(relative =~= path_laws::before_name(dir) + name);
    assert(path::join(output_dir, relative) =~= pre + name);
    if pre.len() > 0 && path_laws::before_name(dir).len() > 0 {
        assert(pre.last() == path_laws::before_name(dir).last());
    } else if pre.len() > 0 {
        assert(pre =~= path_laws::before_name(output_dir));
    }
}

/// A new extension goes behind what stands before the last dot of a name.
proof fn lemma_new_extension(pre: Seq<char>, name: Seq<char>, ext: Seq<char>)
    requires
        pre.len() == 0 || pre.last() == '/',
        path_laws::has_no(name, '/'),
        name.len() > 2,
        ext.len() > 0,
    ensures
        path::with_extension(pre + name, ext) == pre + path::stem_of_name(name) + seq!['.'] + ext,
{
    let p = pre + name;
    assert(p.last() == name[name.len() - 1]);
    assert(p[p.len() - 2] == name[name.len() - 2]);
    assert(path::trim_end(p) == p);
    path_laws::lemma_name_start_of(pre, name);
    assert(p.skip(pre.len() as int) =~= name);
    assert(p.take(pre.len() as int) =~= pre);
    assert(path::last_component(p) == Some(name));
}

/// The last dot of a chapter's name stands in its title, if there is one.
proof fn lemma_dot_in_title(stem: Seq<char>, i: int, title: Seq<char>)
    requires
        i >= 0,
    ensures
        title.contains('.') ==> path::last_dot(cli::chapter_name(stem, i, title)) >= name_front(
            stem,
            i,
        ).len(),
        !title.contains('.') && path_laws::has_no(stem, '.') ==> path::last_dot(
            cli::chapter_name(stem, i, title),
        ) < 0,
{
    reveal_strlit(" - ");
    lemma_number_text(i);
    lemma_chapter_name(stem, i, title);
    let name = cli::chapter_name(stem, i, title);
    let front = name_front(stem, i);
    let safe = discovery::sanitized(title);
    let at = path::last_dot(name);
    path::lemma_last_dot(name);
    if title.contains('.') {
        let k = title.index_of('.');
        assert(safe[k] == '.');
        assert(name[front.len() + k] == '.');
    } else if path_laws::has_no(stem, '.') && at >= 0 {
        let number = number_text(i);
        let n = stem.len() as int + 3;
        if at < stem.len() {
            assert(name[at] == stem[at]);
        } else if at < n {
            assert(name[at] == " - "@[at - stem.len()]);
        } else if at < n + number.len() {
            assert(name[at] == number[at - n]);
        } else if at < front.len() {
            assert(name[at] == " - "@[at - n - number.len()]);
        } else {
            assert(name[at] == safe[at - front.len()]);
            assert(title[at - front.len()] == '.');
        }
    }
}

proof fn lemma_extension_is_some(f: OutputFormat)
    ensures
        f.spec_extension().len() > 0,
{
    reveal_strlit("ogg");
    reveal_strlit("mp3");
    reveal_strlit("opus");
    reveal_strlit("flac");
}

/// The output of a chapter starts with its name up to the title.
#[verifier::spinoff_prover]
#[verifier::rlimit(60)]
proof fn lemma_output_start(
    input_dir: Seq<char>,
    output_dir: Seq<char>,
    f: OutputFormat,
    source: Seq<char>,
    i: int,
    c: ChapterView,
) -> (rest: Seq<char>)
    requires
        0 <= i,
    ensures
        ({
            let rel = path::relative_to(source, input_dir);
            cli::output_of(output_dir, cli::chapter_item(input_dir, source, i, c), f)
                == name_front(before_chapter(output_dir, rel) + stem_in(rel), i) + rest
        }),
{
    let rel = path::relative_to(source, input_dir);
    let stem = stem_in(rel);
    let pre = before_chapter(output_dir, rel);
    let name = cli::chapter_name(stem, i, c.title);
    let front = name_front(stem, i);
    let safe = discovery::sanitized(c.title);
    let ext = f.spec_extension();
    lemma_stem(rel);
    lemma_chapter_name(stem, i, c.title);
    lemma_chapter_path(input_dir, output_dir, source, i, c);
    lemma_extension_is_some(f);
    assert(name_front(pre + stem, i) =~= pre + front);
    if c.title.contains('.') {
        lemma_new_extension(pre, name, ext);
        lemma_dot_in_title(stem, i, c.title);
        path::lemma_last_dot(name);
        let d = path::last_dot(name);
        assert(front.len() > 0) by {
            reveal_strlit(" - ");
        }
        assert(name.take(d) =~= front + safe.take(d - front.len()));
        let rest = safe.take(d - front.len()) + seq!['.'] + ext;
        assert(pre + name.take(d) + seq!['.'] + ext =~= pre + front + rest);
        rest
    } else {
        let rest = safe + "."@ + ext;
        assert(pre + name + "."@ + ext =~= pre + front + rest);
        rest
    }
}

/// Splitting gives every chapter of a file an output of its own, whatever its title and the
/// name of the file.
pub proof fn law_chapters_have_different_outputs(
    input_dir: Seq<char>,
    output_dir: Seq<char>,
    f: OutputFormat,
    source: Seq<char>,
    i: int,
    j: int,
    c: ChapterView,
    d: ChapterView,
)
    requires
        0 <= i,
        0 <= j,
        i != j,
    ensures
        cli::output_of(output_dir, cli::chapter_item(input_dir, source, i, c), f)
            != cli::output_of(output_dir, cli::chapter_item(input_dir, source, j, d), f),
{
    let rel = path::relative_to(source, input_dir);
    let x = lemma_output_start(input_dir, output_dir, f, source, i, c);
    let y = lemma_output_start(input_dir, output_dir, f, source, j, d);
    lemma_fronts_differ(before_chapter(output_dir, rel) + stem_in(rel), i, j, x, y);
}

/// Every output is the path of its item with the new extension, but for a chapter without a dot
/// in its title whose file has one in its stem.
pub proof fn law_outputs_change_the_extension(
    input_dir: Seq<char>,
    output_dir: Seq<char>,
    f: OutputFormat,
    source: Seq<char>,
    i: int,
    c: ChapterView,
)
    requires
        0 <= i,
    ensures
        ({
            let whole = cli::whole_file(input_dir, source);
            cli::output_of(output_dir, whole, f) == path::with_extension(
                path::join(output_dir, whole.relative),
                f.spec_extension(),
            )
        }),
        c.title.contains('.') || !path::file_stem(
            path::relative_to(source, input_dir),
        ).unwrap_or(seq![]).contains('.') ==> {
            let item = cli::chapter_item(input_dir, source, i, c);
            cli::output_of(output_dir, item, f) == path::with_extension(
                path::join(output_dir, item.relative),
                f.spec_extension(),
            )
        },
{
    let rel = path::relative_to(source, input_dir);
    let stem = stem_in(rel);
    assert(path::file_stem(rel).unwrap_or(seq![]) == stem);
    if !c.title.contains('.') && !stem.contains('.') {
        let name = cli::chapter_name(stem, i, c.title);
        let pre = before_chapter(output_dir, rel);
        let ext = f.spec_extension();
        lemma_stem(rel);
        lemma_chapter_name(stem, i, c.title);
        lemma_chapter_path(input_dir, output_dir, source, i, c);
        lemma_extension_is_some(f);
        lemma_dot_in_title(stem, i, c.title);
        lemma_new_extension(pre, name, ext);
        reveal_strlit(".");
        assert("."@ =~= seq!['.']);
    }
}

/// Resuming goes by the outputs that the run writes: an item is skipped exactly if its output
/// is there.
pub proof fn law_resume_goes_by_outputs(
    items: Seq<ItemView>,
    output_dir: Seq<char>,
    f: OutputFormat,
    existing: Seq<Seq<char>>,
    i: int,
)
    requires
        0 <= i < items.len(),
    ensures
        ({
            let done = cli::done_before(items, output_dir, f, existing);
            let there = existing.contains(cli::output_of(output_dir, items[i], f));
            &&& there ==> cli::picked(items, done, true).contains(items[i])
            &&& !there ==> cli::picked(items, done, false).contains(items[i])
        }),
{
    law_resume_skips_existing(items, cli::done_before(items, output_dir, f, existing));
}

} // verus!
