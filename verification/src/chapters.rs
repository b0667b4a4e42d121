//! Chapter detection: the chapters of an audio file (especially of m4b audiobooks), as
//! ffprobe prints them.

use crate::json;
use crate::json::{parse_bytes, Json, Tree};
use crate::number;
use crate::number::to_millionths;
use crate::stderr;
use crate::stderr::number_at;
use crate::text;
use crate::text::{padded_text, push_text};
use vstd::prelude::*;

verus! {

/// A single chapter with title and time range (microseconds).
#[derive(Debug)]
pub struct Chapter {
    pub title: String,
    pub start: i64,
    pub end: i64,
}

/// What a [`Chapter`] says.
pub struct ChapterView {
    pub title: Seq<char>,
    pub start: int,
    pub end: int,
}

impl View for Chapter {
    type V = ChapterView;

    open spec fn view(&self) -> ChapterView {
        ChapterView { title: self.title@, start: self.start as int, end: self.end as int }
    }
}

impl Clone for Chapter {
    fn clone(&self) -> (r: Chapter)
        ensures
            r@ == self@,
    {
        Chapter { title: self.title.clone(), start: self.start, end: self.end }
    }
}

/// The chapters in a list.
pub open spec fn chapters_view(v: Seq<Chapter>) -> Seq<ChapterView> {
    Seq::new(v.len(), |i: int| v[i]@)
}

/// The arguments that make ffprobe print the chapters of a file as JSON.
pub open spec fn chapter_probe_arguments(file: Seq<char>) -> Seq<Seq<char>> {
    seq!["-v"@, "quiet"@, "-print_format"@, "json"@, "-show_chapters"@, file]
}

/// The arguments that make ffprobe print the chapters of a file as JSON.
pub fn chapter_probe_args(file: &str) -> (r: Vec<String>)
    ensures
        text::texts(r@) == chapter_probe_arguments(file@),
{
    let mut args: Vec<String> = Vec::new();
    assert(text::texts(args@) =~= seq![]);
    push_text(&mut args, "-v");
    push_text(&mut args, "quiet");
    push_text(&mut args, "-print_format");
    push_text(&mut args, "json");
    push_text(&mut args, "-show_chapters");
    push_text(&mut args, file);
    assert(text::texts(args@) =~= chapter_probe_arguments(file@));
    args
}

/// The title of the chapter at place `i`: the tagged one, or its number.
pub open spec fn title_of(t: Tree, i: int) -> Seq<char> {
    let tagged = match json::field(t, "tags"@) {
        Some(tags) => json::text_field(tags, "title"@),
        None => None,
    };
    match tagged {
        Some(title) => title,
        None => "Chapter "@ + text::zero_padded(text::decimal((i + 1) as nat), 2),
    }
}

/// The chapter at place `i` of the list, where both of its times are there.
pub open spec fn chapter_at(t: Tree, i: int) -> Option<ChapterView> {
    match (stderr::number_field(t, "start_time"@), stderr::number_field(t, "end_time"@)) {
        (Some(start), Some(end)) => Some(
            ChapterView {
                title: title_of(t, i),
                start: number::millionths_of(start),
                end: number::millionths_of(end),
            },
        ),
        _ => None,
    }
}

/// The chapters of a list, without the entries that are none. A chapter is numbered by its
/// place in the list.
pub open spec fn chapters_of(list: Seq<Tree>) -> Seq<ChapterView>
    decreases list.len(),
{
    if list.len() == 0 {
        seq![]
    } else {
        let front = chapters_of(list.drop_last());
        match chapter_at(list.last(), list.len() - 1) {
            Some(c) => front.push(c),
            None => front,
        }
    }
}

/// The chapters in a document that ffprobe printed.
pub open spec fn chapters_in(t: Tree) -> Seq<ChapterView> {
    match json::list_field(t, "chapters"@) {
        Some(list) => chapters_of(list),
        None => seq![],
    }
}

/// The chapters in what ffprobe printed, if it printed anything.
pub open spec fn probed_chapters(stdout: Option<Vec<u8>>) -> Seq<ChapterView> {
    match stdout {
        None => seq![],
        Some(bytes) => match json::document_in_bytes(bytes@) {
            None => seq![],
            Some(t) => chapters_in(t),
        },
    }
}

fn title_text(j: &Json, i: usize) -> (r: String)
    ensures
        r@ == title_of(j.tree(), i as int),
{
    if let Some(tags) = j.get("tags") {
        if let Some(title) = tags.text_at("title") {
            return title;
        }
    }
    let mut s = "Chapter ".to_owned();
    s.append(padded_text(i as u128 + 1, 2).as_str());
    s
}

/// The chapters in a document that ffprobe printed.
pub fn chapters_from(j: &Json) -> (r: Vec<Chapter>)
    ensures
        chapters_view(r@) == chapters_in(j.tree()),
{
    let mut out: Vec<Chapter> = Vec::new();
    assert(chapters_view(out@) =~= seq![]);
    match j.get("chapters") {
        Some(Json::List(v)) => {
            let ghost list = json::list_field(j.tree(), "chapters"@)->Some_0;
            let mut i: usize = 0;
            assert(list.take(0) =~= seq![]);
            while i < v.len()
                invariant
                    i <= v@.len(),
                    list.len() == v@.len(),
                    forall|k: int| 0 <= k < v@.len() ==> #[trigger] list[k] == v@[k].tree(),
                    chapters_view(out@) == chapters_of(list.take(i as int)),
                decreases v.len() - i,
            {
                let entry = &v[i];
                let ghost before = chapters_view(out@);
                proof {
                    assert(list.take(i + 1).drop_last() =~= list.take(i as int));
                    assert(list.take(i + 1).last() == entry.tree());
                }
                if let (Some(start), Some(end)) = (
                    number_at(entry, "start_time"),
                    number_at(entry, "end_time"),
                ) {
                    let c = Chapter {
                        title: title_text(entry, i),
                        start: to_millionths(start),
                        end: to_millionths(end),
                    };
                    out.push(c);
                    assert(chapters_view(out@) =~= before.push(c@));
                }
                i += 1;
            }
            assert(list.take(i as int) =~= list);
            out
        },
        _ => out,
    }
}

/// The chapters of an audio file, from what `ffprobe -show_chapters` printed (`None` where
/// it failed). Returns an empty vec if the file has no chapters or on any error.
pub fn get_chapters(stdout: &Option<Vec<u8>>) -> (r: Vec<Chapter>)
    ensures
        chapters_view(r@) == probed_chapters(*stdout),
{
    match stdout {
        None => {
            let r: Vec<Chapter> = Vec::new();
            assert(chapters_view(r@) =~= seq![]);
            r
        },
        Some(bytes) => match parse_bytes(bytes) {
            None => {
                let r: Vec<Chapter> = Vec::new();
                assert(chapters_view(r@) =~= seq![]);
                r
            },
            Some(j) => chapters_from(&j),
        },
    }
}

} // verus!
