//! What holds of the images and covers that go to the output.

use crate::assembly_laws;
use crate::assembly_laws::picks;
use crate::command_laws;
use crate::cover;
use crate::cover::{CoverActionView, CoverEvent, CoverStep};
use crate::images;
use crate::path;
use crate::pipeline::FilePlan;
use crate::reading;
use crate::text;
use vstd::prelude::*;

verus! {

// ─── Images ────────────────────────────────────────────────────

/// Which files are images.
pub open spec fn are_images(found: Seq<Seq<char>>) -> Seq<bool> {
    Seq::new(found.len(), |i: int| images::names_image(found[i]))
}

/// Each file with the place that it has below the output, as it has it below the input.
pub open spec fn with_places(
    input_dir: Seq<char>,
    output_dir: Seq<char>,
    found: Seq<Seq<char>>,
) -> Seq<(Seq<char>, Seq<char>)> {
    Seq::new(
        found.len(),
        |i: int| (found[i], path::join(output_dir, path::relative_to(found[i], input_dir))),
    )
}

/// The images among the files are copied, all of them and nothing else, in order, and each to the
/// place below the output that it has below the input.
pub proof fn law_all_images_are_copied(
    input_dir: Seq<char>,
    output_dir: Seq<char>,
    found: Seq<Seq<char>>,
)
    ensures
        picks(
            with_places(input_dir, output_dir, found),
            are_images(found),
            images::image_copies(input_dir, output_dir, found),
        ),
{
    lemma_images(input_dir, output_dir, found, are_images(found));
}

proof fn lemma_images(
    input_dir: Seq<char>,
    output_dir: Seq<char>,
    found: Seq<Seq<char>>,
    keep: Seq<bool>,
)
    requires
        keep.len() >= found.len(),
        forall|i: int| 0 <= i < found.len() ==> #[trigger] keep[i] == images::names_image(found[i]),
    ensures
        picks(
            with_places(input_dir, output_dir, found),
            keep,
            images::image_copies(input_dir, output_dir, found),
        ),
    decreases found.len(),
{
    if found.len() > 0 {
        let all = with_places(input_dir, output_dir, found);
        lemma_images(input_dir, output_dir, found.drop_last(), keep);
        assert(all.drop_last() =~= with_places(input_dir, output_dir, found.drop_last()));
        assembly_laws::lemma_picks_more(
            all,
            keep,
            images::image_copies(input_dir, output_dir, found.drop_last()),
            images::image_copies(input_dir, output_dir, found),
        );
    }
}

/// Which copies are not there yet.
pub open spec fn not_yet(there: Seq<bool>) -> Seq<bool> {
    Seq::new(there.len(), |i: int| !there[i])
}

/// What is there already is not copied again; everything else is, in order.
pub proof fn law_missing_images_are_copied(
    pairs: Seq<(Seq<char>, Seq<char>)>,
    there: Seq<bool>,
)
    requires
        pairs.len() <= there.len(),
    ensures
        picks(pairs, not_yet(there), images::missing(pairs, there)),
    decreases pairs.len(),
{
    if pairs.len() > 0 {
        law_missing_images_are_copied(pairs.drop_last(), there);
        assembly_laws::lemma_picks_more(
            pairs,
            not_yet(there),
            images::missing(pairs.drop_last(), there),
            images::missing(pairs, there),
        );
    }
}

// ─── Covers ────────────────────────────────────────────────────

/// Whether a file is the first whose output goes to this directory.
pub open spec fn is_first_in(
    files: Seq<FilePlan>,
    output_dir: Seq<char>,
    dir: Seq<char>,
    i: int,
) -> bool {
    &&& 0 <= i < files.len()
    &&& images::directory_of(files[i].output@, output_dir) == dir
    &&& forall|k: int|
        0 <= k < i ==> images::directory_of((#[trigger] files[k]).output@, output_dir) != dir
}

/// The cover of a directory is taken from the source of the first file whose output goes there.
pub proof fn law_covers_come_from_the_first_file(
    files: Seq<FilePlan>,
    output_dir: Seq<char>,
    k: int,
) -> (i: int)
    requires
        0 <= k < images::covers(files, output_dir).len(),
    ensures
        is_first_in(files, output_dir, images::covers(files, output_dir)[k].0, i),
        images::covers(files, output_dir)[k].1 == files[i].item.source@,
    decreases files.len(),
{
    let front = files.drop_last();
    let before = images::covers(front, output_dir);
    let now = images::covers(files, output_dir);
    if k < before.len() {
        let i = law_covers_come_from_the_first_file(front, output_dir, k);
        assert(now[k] == before[k]);
        assert forall|j: int| 0 <= j < i implies images::directory_of(
            (#[trigger] files[j]).output@,
            output_dir,
        ) != now[k].0 by {
            assert(front[j] == files[j]);
        }
        i
    } else {
        images::law_one_cover_per_directory(front, output_dir);
        let dir = images::directory_of(files.last().output@, output_dir);
        assert forall|j: int| 0 <= j < files.len() - 1 implies images::directory_of(
            (#[trigger] files[j]).output@,
            output_dir,
        ) != dir by {
            assert(front[j] == files[j]);
            assert(images::has_dir(
                before,
                images::directory_of(front[j].output@, output_dir),
            ));
        }
        files.len() - 1
    }
}

/// The search for a cover after some events: how far it has come, and what was looked for.
pub struct Search {
    pub step: CoverStep,
    pub looked: Seq<Seq<char>>,
}

/// The search for a cover after some events.
pub open spec fn search(
    source: Seq<char>,
    output_dir: Seq<char>,
    events: Seq<CoverEvent>,
) -> Search
    decreases events.len(),
{
    if events.len() == 0 {
        Search { step: CoverStep::Start, looked: seq![] }
    } else {
        let before = search(source, output_dir, events.drop_last());
        let m = cover::cover_next(source, output_dir, before.step, events.last());
        Search {
            step: m.step,
            looked: match m.action {
                CoverActionView::Look { path } => before.looked.push(path),
                _ => before.looked,
            },
        }
    }
}

proof fn lemma_search(source: Seq<char>, output_dir: Seq<char>, events: Seq<CoverEvent>)
    ensures
        ({
            let s = search(source, output_dir, events);
            &&& s.looked.len() <= 19
            &&& forall|k: int|
                0 <= k < s.looked.len() ==> #[trigger] s.looked[k] == cover::candidate(source, k)
            &&& s.step is Start || s.step is Extracting ==> s.looked.len() == 0
            &&& s.step matches CoverStep::Looking { index } ==> s.looked.len() == index + 1
            &&& s.step matches CoverStep::Placing { index } ==> s.looked.len() == index + 1
        }),
    decreases events.len(),
{
    if events.len() > 0 {
        lemma_search(source, output_dir, events.drop_last());
    }
}

/// The directory that a cover is looked for in.
pub open spec fn beside(source: Seq<char>) -> Seq<char> {
    match path::parent(source) {
        Some(p) => p,
        None => "."@,
    }
}

/// What is put in place is the image that was looked for last, and was there; it goes to the
/// cover of the directory. Art is taken from the source, and nothing but a useless cover is
/// removed. Where the search ends without a cover, every name was looked for beside the source.
pub proof fn law_cover_is_what_was_found(
    source: Seq<char>,
    output_dir: Seq<char>,
    events: Seq<CoverEvent>,
    event: CoverEvent,
)
    ensures
        ({
            let s = search(source, output_dir, events);
            let m = cover::cover_next(source, output_dir, s.step, event);
            let goal = path::join(output_dir, "cover.jpg"@);
            &&& match m.action {
                CoverActionView::Extract { output, args } => output == goal && reading::inputs(args)
                    == seq![source] && reading::written(args) == goal,
                CoverActionView::Look { path } => s.looked.len() < 19 && path == path::join(
                    beside(source),
                    cover::cover_names()[s.looked.len() as int],
                ),
                CoverActionView::Copy { from, to } => {
                    &&& event == CoverEvent::Looked(true)
                    &&& s.looked.len() > 0 && from == s.looked.last()
                    &&& to == goal
                    &&& !text::ends_with(cover::cover_names()[s.looked.len() - 1], ".png"@)
                },
                CoverActionView::Convert { args } => {
                    &&& event == CoverEvent::Looked(true)
                    &&& s.looked.len() > 0 && reading::inputs(args) == seq![s.looked.last()]
                    &&& reading::written(args) == goal
                    &&& text::ends_with(cover::cover_names()[s.looked.len() - 1], ".png"@)
                },
                CoverActionView::Finish(placed) => !placed ==> s.looked.len() == 19,
                CoverActionView::Ignore => true,
            }
            &&& m.remove matches Some(p) ==> p == goal && event == (CoverEvent::Extracted {
                success: true,
                size: Some(0),
            })
        }),
{
    let s = search(source, output_dir, events);
    let goal = path::join(output_dir, "cover.jpg"@);
    lemma_search(source, output_dir, events);
    command_laws::law_cover_commands(source, goal);
    if let CoverStep::Looking { index } = s.step {
        assert(s.looked[index as int] == cover::candidate(source, index as int));
        command_laws::law_cover_commands(cover::candidate(source, index as int), goal);
    }
}

/// The words that covers are named with, in the order in which they are tried.
pub open spec fn cover_word(i: int) -> Seq<char> {
    if i == 0 {
        "cover"@
    } else if i == 1 {
        "folder"@
    } else if i == 2 {
        "front"@
    } else if i == 3 {
        "album"@
    } else if i == 4 {
        "Cover"@
    } else {
        "Folder"@
    }
}

/// The formats that covers are looked for in, in the order in which they are tried.
pub open spec fn cover_ending(i: int) -> Seq<char> {
    if i == 0 {
        ".jpg"@
    } else if i == 1 {
        ".jpeg"@
    } else {
        ".png"@
    }
}

/// Every word is tried in every format before the next one is.
pub proof fn law_every_word_in_every_format(i: int, j: int)
    requires
        0 <= i < 6,
        0 <= j < 3,
    ensures
        cover::cover_names().len() == 19,
        cover::cover_names()[3 * i + j] == cover_word(i) + cover_ending(j),
{
    reveal_strlit(".jpg");
    reveal_strlit(".jpeg");
    reveal_strlit(".png");
    lemma_names_of_cover(j);
    lemma_names_of_folder(j);
    lemma_names_of_front(j);
    lemma_names_of_album(j);
    lemma_names_of_capitals(j);
}

proof fn lemma_names_of_cover(j: int)
    requires
        0 <= j < 3,
    ensures
        cover::cover_names()[j] == cover_word(0) + cover_ending(j),
{
    reveal_strlit(".jpg");
    reveal_strlit(".jpeg");
    reveal_strlit(".png");
    reveal_strlit("cover");
    reveal_strlit("cover.jpg");
    reveal_strlit("cover.jpeg");
    reveal_strlit("cover.png");
    assert("cover"@ + ".jpg"@ =~= "cover.jpg"@);
    assert("cover"@ + ".jpeg"@ =~= "cover.jpeg"@);
    assert("cover"@ + ".png"@ =~= "cover.png"@);
}

proof fn lemma_names_of_folder(j: int)
    requires
        0 <= j < 3,
    ensures
        cover::cover_names()[3 + j] == cover_word(1) + cover_ending(j),
{
    reveal_strlit(".jpg");
    reveal_strlit(".jpeg");
    reveal_strlit(".png");
    reveal_strlit("folder");
    reveal_strlit("folder.jpg");
    reveal_strlit("folder.jpeg");
    reveal_strlit("folder.png");
    assert("folder"@ + ".jpg"@ =~= "folder.jpg"@);
    assert("folder"@ + ".jpeg"@ =~= "folder.jpeg"@);
    assert("folder"@ + ".png"@ =~= "folder.png"@);
}

proof fn lemma_names_of_front(j: int)
    requires
        0 <= j < 3,
    ensures
        cover::cover_names()[6 + j] == cover_word(2) + cover_ending(j),
{
    reveal_strlit(".jpg");
    reveal_strlit(".jpeg");
    reveal_strlit(".png");
    reveal_strlit("front");
    reveal_strlit("front.jpg");
    reveal_strlit("front.jpeg");
    reveal_strlit("front.png");
    assert("front"@ + ".jpg"@ =~= "front.jpg"@);
    assert("front"@ + ".jpeg"@ =~= "front.jpeg"@);
    assert("front"@ + ".png"@ =~= "front.png"@);
}

proof fn lemma_names_of_album(j: int)
    requires
        0 <= j < 3,
    ensures
        cover::cover_names()[9 + j] == cover_word(3) + cover_ending(j),
{
    reveal_strlit(".jpg");
    reveal_strlit(".jpeg");
    reveal_strlit(".png");
    reveal_strlit("album");
    reveal_strlit("album.jpg");
    reveal_strlit("album.jpeg");
    reveal_strlit("album.png");
    assert("album"@ + ".jpg"@ =~= "album.jpg"@);
    assert("album"@ + ".jpeg"@ =~= "album.jpeg"@);
    assert("album"@ + ".png"@ =~= "album.png"@);
}

proof fn lemma_names_of_capitals(j: int)
    requires
        0 <= j < 3,
    ensures
        cover::cover_names()[12 + j] == cover_word(4) + cover_ending(j),
        cover::cover_names()[15 + j] == cover_word(5) + cover_ending(j),
{
    reveal_strlit(".jpg");
    reveal_strlit(".jpeg");
    reveal_strlit(".png");
    reveal_strlit("Cover");
    reveal_strlit("Cover.jpg");
    reveal_strlit("Cover.jpeg");
    reveal_strlit("Cover.png");
    reveal_strlit("Folder");
    reveal_strlit("Folder.jpg");
    reveal_strlit("Folder.jpeg");
    reveal_strlit("Folder.png");
    assert("Cover"@ + ".jpg"@ =~= "Cover.jpg"@);
    assert("Cover"@ + ".jpeg"@ =~= "Cover.jpeg"@);
    assert("Cover"@ + ".png"@ =~= "Cover.png"@);
    assert("Folder"@ + ".jpg"@ =~= "Folder.jpg"@);
    assert("Folder"@ + ".jpeg"@ =~= "Folder.jpeg"@);
    assert("Folder"@ + ".png"@ =~= "Folder.png"@);
}

} // verus!
