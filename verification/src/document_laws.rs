//! What holds of the documents that ffprobe prints.

use crate::assembly_laws;
use crate::assembly_laws::{kept, picks};
use crate::cache;
use crate::chapters;
use crate::chapters::ChapterView;
use crate::json;
use crate::json::Tree;
use crate::number;
use crate::number_laws;
use crate::reading;
use crate::text;
use crate::text_laws;
use vstd::prelude::*;

verus! {

// ─── Fields ────────────────────────────────────────────────────

proof fn lemma_find_field(fields: Seq<(Seq<char>, Tree)>, key: Seq<char>, from: int, i: int)
    requires
        0 <= from <= i < fields.len(),
        fields[i].0 == key,
        forall|k: int| 0 <= k < i ==> (#[trigger] fields[k]).0 != key,
    ensures
        json::find_field(fields, key, from) == Some(fields[i].1),
    decreases i - from,
{
    if from < i {
        assert(fields[from].0 != key);
        lemma_find_field(fields, key, from + 1, i);
    }
}

proof fn lemma_no_field(fields: Seq<(Seq<char>, Tree)>, key: Seq<char>, from: int)
    requires
        0 <= from <= fields.len(),
        forall|k: int| 0 <= k < fields.len() ==> (#[trigger] fields[k]).0 != key,
    ensures
        json::find_field(fields, key, from) is None,
    decreases fields.len() - from,
{
    if from < fields.len() {
        assert(fields[from].0 != key);
        lemma_no_field(fields, key, from + 1);
    }
}

/// A field is found under its own name, wherever it stands, and none under another; only a text
/// is read as a text, and only a list as a list.
pub proof fn law_fields_are_found(fields: Seq<(Seq<char>, Tree)>, key: Seq<char>, i: int)
    ensures
        0 <= i < fields.len() && fields[i].0 == key && (forall|k: int|
            0 <= k < i ==> (#[trigger] fields[k]).0 != key) ==> {
            let t = Tree::Object(fields);
            &&& json::field(t, key) == Some(fields[i].1)
            &&& fields[i].1 matches Tree::Text(s) ==> json::text_field(t, key) == Some(s)
            &&& !(fields[i].1 is Text) ==> json::text_field(t, key) is None
            &&& fields[i].1 matches Tree::List(v) ==> json::list_field(t, key) == Some(v)
            &&& !(fields[i].1 is List) ==> json::list_field(t, key) is None
        },
        (forall|k: int| 0 <= k < fields.len() ==> (#[trigger] fields[k]).0 != key) ==> json::field(
            Tree::Object(fields),
            key,
        ) is None,
{
    if 0 <= i < fields.len() && fields[i].0 == key && (forall|k: int|
        0 <= k < i ==> (#[trigger] fields[k]).0 != key) {
        lemma_find_field(fields, key, 0, i);
    }
    if forall|k: int| 0 <= k < fields.len() ==> (#[trigger] fields[k]).0 != key {
        lemma_no_field(fields, key, 0);
    }
}

/// Whether a document says this time under this name, in seconds with six digits behind the
/// point.
pub open spec fn says_time(t: Tree, name: Seq<char>, time: int) -> bool {
    json::field(t, name) == Some(Tree::Text(number::fixed6(time)))
}

// ─── Durations ─────────────────────────────────────────────────

/// A duration that ffprobe prints is found as it was printed.
pub proof fn law_durations_read_back(t: Tree, format: Tree, time: int)
    requires
        json::field(t, "format"@) == Some(format),
        says_time(format, "duration"@, time),
        -i64::MAX <= time <= i64::MAX,
    ensures
        cache::duration_in(t) == Some(time),
{
    number_laws::law_six_places_read_back(time);
}

/// What is probed is the file that is asked about, and the answer is a document.
pub proof fn law_probes_read_their_file(file: Seq<char>)
    ensures
        ({
            let d = cache::duration_probe_arguments(file);
            let c = chapters::chapter_probe_arguments(file);
            &&& d.len() > 0 && d.last() == file && d.contains("-show_format"@)
            &&& c.len() > 0 && c.last() == file && c.contains("-show_chapters"@)
            &&& reading::given(d, "-print_format"@) == seq!["json"@]
            &&& reading::given(c, "-print_format"@) == seq!["json"@]
        }),
{
    let d = cache::duration_probe_arguments(file);
    let c = chapters::chapter_probe_arguments(file);
    assert(d[4] == "-show_format"@);
    assert(c[4] == "-show_chapters"@);
    lemma_probe_option(d, file);
    lemma_probe_option(c, file);
}

proof fn lemma_probe_option(args: Seq<Seq<char>>, file: Seq<char>)
    requires
        args.len() == 6,
        args[0] == "-v"@,
        args[1] == "quiet"@,
        args[2] == "-print_format"@,
        args[3] == "json"@,
        args[4] == "-show_format"@ || args[4] == "-show_chapters"@,
    ensures
        reading::given(args, "-print_format"@) == seq!["json"@],
{
    reveal_strlit("-v");
    reveal_strlit("-print_format");
    reveal_strlit("-show_format");
    reveal_strlit("-show_chapters");
    reveal_strlit("-y");
    reveal_strlit("-vn");
    reveal_strlit("-an");
    reveal_strlit("-hide_banner");
    let o = "-print_format"@;
    let rest = args.skip(2);
    let last = rest.skip(2);
    assert("-v"@[1] == 'v' && "-y"@[1] == 'y' && "-v"@.len() == 2 && "-vn"@.len() == 3);
    assert("-an"@.len() == 3 && "-hide_banner"@.len() == 12 && "-hide_banner"@[1] == 'h');
    assert("-show_format"@[1] == 's');
    assert(o.len() == 13 && "-show_format"@.len() == 12 && "-show_chapters"@.len() == 14);
    assert(!reading::stands_alone(args[0]) && args[0] != o);
    assert(rest[0] == o && rest[1] == "json"@);
    assert(!reading::stands_alone(rest[0]));
    assert(!reading::stands_alone(last[0]) && last[0] != o);
    assert(reading::given(last.skip(2), o) =~= seq![]);
    assert(reading::given(last, o) =~= seq![]);
    assert(reading::given(rest, o) =~= seq!["json"@]);
    assert(reading::given(args, o) =~= seq!["json"@]);
}

// ─── Chapters ──────────────────────────────────────────────────

/// Which entries of a list are chapters: those that say when they start and when they end.
pub open spec fn are_chapters(list: Seq<Tree>) -> Seq<bool> {
    Seq::new(
        list.len(),
        |i: int|
            (json::text_field(list[i], "start_time"@) matches Some(s) && number::number_in(s)
                is Some) && (json::text_field(list[i], "end_time"@) matches Some(s)
                && number::number_in(s) is Some),
    )
}

/// What is found of a chapter at place `i` of its list, where the times are written as six digits
/// behind the point: when it starts and ends, and its title or its number.
pub open spec fn is_found(t: Tree, i: int, start: int, end: int, c: ChapterView) -> bool {
    &&& c.start == start
    &&& c.end == end
    &&& json::field(t, "tags"@) matches Some(tags) ==> json::text_field(tags, "title"@) matches Some(
        title,
    ) ==> c.title == title
    &&& json::field(t, "tags"@) is None ==> {
        let n = c.title.len() - 8;
        &&& n >= 2
        &&& c.title.take(8) == "Chapter "@
        &&& text::all_digits(c.title.skip(8))
        &&& text::value(c.title.skip(8)) == i + 1
    }
}

/// Every entry that says when it starts and ends is a chapter, all of them in order; and what is
/// found of each is what is printed of it.
pub proof fn law_chapters_are_found(list: Seq<Tree>, i: int, start: int, end: int)
    requires
        0 <= i < list.len(),
        says_time(list[i], "start_time"@, start),
        says_time(list[i], "end_time"@, end),
        -i64::MAX <= start <= i64::MAX,
        -i64::MAX <= end <= i64::MAX,
    ensures
        ({
            let found = chapters::chapters_of(list);
            let keep = are_chapters(list);
            &&& found.len() == kept(keep, list.len() as int)
            &&& keep[i]
            &&& 0 <= kept(keep, i) < found.len()
            &&& is_found(list[i], i, start, end, found[kept(keep, i)])
        }),
{
    let keep = are_chapters(list);
    number_laws::law_six_places_read_back(start);
    number_laws::law_six_places_read_back(end);
    lemma_chapters_picked(list, keep);
    assert(keep[i]);
    lemma_title(list[i], i);
}

proof fn lemma_title(t: Tree, i: int)
    requires
        0 <= i,
    ensures
        json::field(t, "tags"@) is None ==> {
            let title = chapters::title_of(t, i);
            &&& title.len() >= 10
            &&& title.take(8) == "Chapter "@
            &&& text::all_digits(title.skip(8))
            &&& text::value(title.skip(8)) == i + 1
        },
{
    reveal_strlit("Chapter ");
    let d = text::zero_padded(text::decimal((i + 1) as nat), 2);
    let title = "Chapter "@ + d;
    text_laws::law_digits_read_back((i + 1) as nat, 2);
    assert(title.take(8) =~= "Chapter "@);
    assert(title.skip(8) =~= d);
}

proof fn lemma_chapters_picked(list: Seq<Tree>, keep: Seq<bool>)
    requires
        keep.len() >= list.len(),
        forall|k: int| 0 <= k < list.len() ==> #[trigger] keep[k] == are_chapters(list)[k],
    ensures
        picks(
            Seq::new(list.len(), |k: int| chapters::chapter_at(list[k], k)->Some_0),
            keep,
            chapters::chapters_of(list),
        ),
    decreases list.len(),
{
    if list.len() > 0 {
        let less = list.drop_last();
        let all = Seq::new(list.len(), |k: int| chapters::chapter_at(list[k], k)->Some_0);
        assert forall|k: int| 0 <= k < less.len() implies #[trigger] keep[k] == are_chapters(
            less,
        )[k] by {
            assert(keep[k] == are_chapters(list)[k]);
            assert(less[k] == list[k]);
        }
        lemma_chapters_picked(less, keep);
        assert(all.drop_last() =~= Seq::new(
            less.len(),
            |k: int| chapters::chapter_at(less[k], k)->Some_0,
        ));
        let n = list.len() - 1;
        assert(keep[n] == are_chapters(list)[n]);
        assert(keep[n] == (chapters::chapter_at(list.last(), n) is Some));
        assembly_laws::lemma_picks_more(
            all,
            keep,
            chapters::chapters_of(less),
            chapters::chapters_of(list),
        );
    }
}

/// A document without a list of chapters has none.
pub proof fn law_no_list_no_chapters(t: Tree)
    ensures
        json::list_field(t, "chapters"@) is None ==> chapters::chapters_in(t).len() == 0,
        json::list_field(t, "chapters"@) matches Some(list) ==> chapters::chapters_in(t)
            == chapters::chapters_of(list),
{
}

} // verus!
