//! Images: which files of the input directory tree are copied to the output directory
//! tree, preserving relative paths, and which output directories get a cover.

use crate::number;
use crate::number::ascii_lower_text;
use crate::path;
use crate::path::{extension_of, join_paths, parent_of, path_below};
use crate::pipeline::FilePlan;
use crate::text::same_text;
use vstd::prelude::*;

verus! {

/// Image extensions to copy from source directories.
pub open spec fn is_image_extension(e: Seq<char>) -> bool {
    ||| e == "jpg"@
    ||| e == "jpeg"@
    ||| e == "png"@
    ||| e == "bmp"@
    ||| e == "gif"@
    ||| e == "webp"@
    ||| e == "tiff"@
    ||| e == "tif"@
    ||| e == "svg"@
}

/// Whether a path has an image extension, in capitals or not.
pub open spec fn names_image(p: Seq<char>) -> bool {
    match path::extension(p) {
        Some(e) => is_image_extension(number::ascii_lower(e)),
        None => false,
    }
}

/// Check if a path has an image extension.
pub fn is_image(p: &str) -> (r: bool)
    ensures
        r == names_image(p@),
{
    match extension_of(p) {
        None => false,
        Some(e) => {
            let low = ascii_lower_text(e.as_str());
            let s = low.as_str();
            same_text(s, "jpg") || same_text(s, "jpeg") || same_text(s, "png") || same_text(s, "bmp")
                || same_text(s, "gif") || same_text(s, "webp") || same_text(s, "tiff") || same_text(
                s,
                "tif",
            ) || same_text(s, "svg")
        },
    }
}

/// From where to where something is copied, or for what a cover is extracted.
pub open spec fn pairs_view(v: Seq<(String, String)>) -> Seq<(Seq<char>, Seq<char>)> {
    Seq::new(v.len(), |i: int| (v[i].0@, v[i].1@))
}

/// The images among the files that were found, each with the place where it is copied to.
pub open spec fn image_copies(
    input_dir: Seq<char>,
    output_dir: Seq<char>,
    found: Seq<Seq<char>>,
) -> Seq<(Seq<char>, Seq<char>)>
    decreases found.len(),
{
    if found.len() == 0 {
        seq![]
    } else {
        let front = image_copies(input_dir, output_dir, found.drop_last());
        let src = found.last();
        if names_image(src) {
            front.push((src, path::join(output_dir, path::relative_to(src, input_dir))))
        } else {
            front
        }
    }
}

/// Copy all image files from the input directory tree to the output
/// directory tree, preserving relative paths: tells from where to where, given the files
/// that were found below `input_dir`. In a dry run nothing is copied.
///
/// Images that already exist in the output are to be skipped (resume-friendly).
pub fn copy_images_and_extract_covers(
    input_dir: &str,
    output_dir: &str,
    found: &Vec<String>,
    dry_run: bool,
) -> (r: Vec<(String, String)>)
    ensures
        dry_run ==> r@.len() == 0,
        !dry_run ==> pairs_view(r@) == image_copies(
            input_dir@,
            output_dir@,
            crate::text::texts(found@),
        ),
{
    let mut out: Vec<(String, String)> = Vec::new();
    if dry_run {
        return out;
    }
    let ghost all = crate::text::texts(found@);
    let mut i: usize = 0;
    proof {
        assert(all.take(0) =~= seq![]);
        assert(pairs_view(out@) =~= seq![]);
    }
    while i < found.len()
        invariant
            i <= found@.len(),
            all == crate::text::texts(found@),
            pairs_view(out@) == image_copies(input_dir@, output_dir@, all.take(i as int)),
        decreases found.len() - i,
    {
        proof {
            assert(all.take(i + 1).drop_last() =~= all.take(i as int));
            assert(all.take(i + 1).last() == found@[i as int]@);
        }
        let src = found[i].as_str();
        if is_image(src) {
            let ghost had = out@;
            let rel = path_below(src, input_dir);
            let pair = (src.to_owned(), join_paths(output_dir, rel.as_str()));
            out.push(pair);
            assert(pairs_view(out@) =~= pairs_view(had).push((pair.0@, pair.1@)));
        }
        i += 1;
    }
    assert(all.take(i as int) =~= all);
    out
}

/// The pairs at the places where nothing is there yet.
pub open spec fn missing(pairs: Seq<(Seq<char>, Seq<char>)>, there: Seq<bool>) -> Seq<
    (Seq<char>, Seq<char>),
>
    decreases pairs.len(),
{
    if pairs.len() == 0 {
        seq![]
    } else {
        let front = missing(pairs.drop_last(), there);
        if there[pairs.len() - 1] {
            front
        } else {
            front.push(pairs.last())
        }
    }
}

/// Skips images that already exist in the output (resume-friendly). `there` says for each
/// image whether it does.
pub fn skip_existing(copies: &Vec<(String, String)>, there: &Vec<bool>) -> (r: Vec<(String, String)>)
    requires
        copies@.len() == there@.len(),
    ensures
        pairs_view(r@) == missing(pairs_view(copies@), there@),
{
    let ghost all = pairs_view(copies@);
    let mut out: Vec<(String, String)> = Vec::new();
    let mut i: usize = 0;
    proof {
        assert(all.take(0) =~= seq![]);
        assert(pairs_view(out@) =~= seq![]);
    }
    while i < copies.len()
        invariant
            i <= copies@.len(),
            copies@.len() == there@.len(),
            all == pairs_view(copies@),
            pairs_view(out@) == missing(all.take(i as int), there@),
        decreases copies.len() - i,
    {
        proof {
            assert(all.take(i + 1).drop_last() =~= all.take(i as int));
            assert(all.take(i + 1).last() == (copies@[i as int].0@, copies@[i as int].1@));
        }
        if !there[i] {
            let ghost had = out@;
            let pair = (copies[i].0.clone(), copies[i].1.clone());
            out.push(pair);
            assert(pairs_view(out@) =~= pairs_view(had).push((pair.0@, pair.1@)));
        }
        i += 1;
    }
    assert(all.take(i as int) =~= all);
    out
}

// ─── Covers ────────────────────────────────────────────────────

/// The directory that an output is in.
pub open spec fn directory_of(output: Seq<char>, output_dir: Seq<char>) -> Seq<char> {
    match path::parent(output) {
        Some(p) => p,
        None => output_dir,
    }
}

/// Whether one of the pairs is for this directory.
pub open spec fn has_dir(pairs: Seq<(Seq<char>, Seq<char>)>, dir: Seq<char>) -> bool {
    exists|i: int| 0 <= i < pairs.len() && (#[trigger] pairs[i]).0 == dir
}

/// Each directory that outputs go to, with the source of the first output in it.
pub open spec fn covers(files: Seq<FilePlan>, output_dir: Seq<char>) -> Seq<(Seq<char>, Seq<char>)>
    decreases files.len(),
{
    if files.len() == 0 {
        seq![]
    } else {
        let front = covers(files.drop_last(), output_dir);
        let dir = directory_of(files.last().output@, output_dir);
        if has_dir(front, dir) {
            front
        } else {
            front.push((dir, files.last().item.source@))
        }
    }
}

fn find_dir(pairs: &Vec<(String, String)>, dir: &str) -> (r: bool)
    ensures
        r == has_dir(pairs_view(pairs@), dir@),
{
    let ghost views = pairs_view(pairs@);
    let mut i: usize = 0;
    while i < pairs.len()
        invariant
            i <= pairs@.len(),
            views == pairs_view(pairs@),
            forall|k: int| 0 <= k < i ==> (#[trigger] views[k]).0 != dir@,
        decreases pairs.len() - i,
    {
        if same_text(pairs[i].0.as_str(), dir) {
            assert(views[i as int].0 == dir@);
            return true;
        }
        assert(views[i as int].0 != dir@);
        i += 1;
    }
    false
}

/// The directories that get a cover, each with the audio file that it is taken from.
pub fn cover_dirs(file_plans: &Vec<FilePlan>, output_dir: &str) -> (r: Vec<(String, String)>)
    ensures
        pairs_view(r@) == covers(file_plans@, output_dir@),
{
    let mut out: Vec<(String, String)> = Vec::new();
    let mut i: usize = 0;
    proof {
        assert(file_plans@.take(0) =~= seq![]);
        assert(pairs_view(out@) =~= seq![]);
    }
    while i < file_plans.len()
        invariant
            i <= file_plans@.len(),
            pairs_view(out@) == covers(file_plans@.take(i as int), output_dir@),
        decreases file_plans.len() - i,
    {
        proof {
            assert(file_plans@.take(i + 1).drop_last() =~= file_plans@.take(i as int));
        }
        let fp = &file_plans[i];
        let dir = match parent_of(fp.output.as_str()) {
            Some(p) => p,
            None => output_dir.to_owned(),
        };
        if !find_dir(&out, dir.as_str()) {
            let ghost had = out@;
            let pair = (dir, fp.item.source.clone());
            out.push(pair);
            assert(pairs_view(out@) =~= pairs_view(had).push((pair.0@, pair.1@)));
        }
        i += 1;
    }
    assert(file_plans@.take(i as int) =~= file_plans@);
    out
}

/// Every directory that an output goes to gets a cover, and none gets two.
pub proof fn law_one_cover_per_directory(files: Seq<FilePlan>, output_dir: Seq<char>)
    ensures
        forall|k: int|
            0 <= k < files.len() ==> has_dir(
                covers(files, output_dir),
                directory_of((#[trigger] files[k]).output@, output_dir),
            ),
        forall|a: int, b: int|
            0 <= a < b < covers(files, output_dir).len() ==> (#[trigger] covers(
                files,
                output_dir,
            )[a]).0 != (#[trigger] covers(files, output_dir)[b]).0,
    decreases files.len(),
{
    if files.len() > 0 {
        let front = files.drop_last();
        let before = covers(front, output_dir);
        let now = covers(files, output_dir);
        law_one_cover_per_directory(front, output_dir);
        let dir = directory_of(files.last().output@, output_dir);
        assert forall|k: int| 0 <= k < files.len() implies has_dir(
            now,
            directory_of((#[trigger] files[k]).output@, output_dir),
        ) by {
            let d = directory_of(files[k].output@, output_dir);
            if k < front.len() {
                assert(front[k] == files[k]);
                assert(has_dir(before, d));
                let i = choose|i: int| 0 <= i < before.len() && (#[trigger] before[i]).0 == d;
                assert(now[i].0 == d);
            } else if !has_dir(before, dir) {
                assert(now[before.len() as int].0 == dir);
            }
        }
        assert forall|a: int, b: int| 0 <= a < b < now.len() implies (#[trigger] now[a]).0 != (
        #[trigger] now[b]).0 by {
            if b == before.len() {
                assert(before[a].0 != dir);
            } else {
                assert(before[a] == now[a] && before[b] == now[b]);
            }
        }
    }
}

} // verus!
