//! Cover images — extracted from audio files, or found under common names in the
//! source directory. They are placed as `cover.jpg` in the output directory for
//! Android audiobook players (Smart AudioBook Player, Listen, etc.).

use crate::path;
use crate::path::{join_paths, parent_of};
use crate::text;
use crate::text::{has_ending, push_text};
use vstd::prelude::*;

verus! {

/// The number of common cover file names.
pub const COVER_NAMES: usize = 19;

/// The common cover file names, in the order in which they are tried.
pub open spec fn cover_names() -> Seq<Seq<char>> {
    seq![
        "cover.jpg"@,
        "cover.jpeg"@,
        "cover.png"@,
        "folder.jpg"@,
        "folder.jpeg"@,
        "folder.png"@,
        "front.jpg"@,
        "front.jpeg"@,
        "front.png"@,
        "album.jpg"@,
        "album.jpeg"@,
        "album.png"@,
        "Cover.jpg"@,
        "Cover.jpeg"@,
        "Cover.png"@,
        "Folder.jpg"@,
        "Folder.jpeg"@,
        "Folder.png"@,
        "EmbeddedCover.jpg"@,
    ]
}

fn cover_name(i: usize) -> (r: &'static str)
    requires
        i < COVER_NAMES,
    ensures
        r@ == cover_names()[i as int],
{
    match i {
        0 => "cover.jpg",
        1 => "cover.jpeg",
        2 => "cover.png",
        3 => "folder.jpg",
        4 => "folder.jpeg",
        5 => "folder.png",
        6 => "front.jpg",
        7 => "front.jpeg",
        8 => "front.png",
        9 => "album.jpg",
        10 => "album.jpeg",
        11 => "album.png",
        12 => "Cover.jpg",
        13 => "Cover.jpeg",
        14 => "Cover.png",
        15 => "Folder.jpg",
        16 => "Folder.jpeg",
        17 => "Folder.png",
        _ => "EmbeddedCover.jpg",
    }
}

/// Where the cover goes.
pub open spec fn cover_path(output_dir: Seq<char>) -> Seq<char> {
    path::join(output_dir, "cover.jpg"@)
}

/// The `i`th place where a cover may be found beside the source.
pub open spec fn candidate(source: Seq<char>, i: int) -> Seq<char> {
    path::join(
        match path::parent(source) {
            Some(p) => p,
            None => "."@,
        },
        cover_names()[i],
    )
}

/// The arguments that extract embedded art.
pub open spec fn art_arguments(source: Seq<char>, output: Seq<char>) -> Seq<Seq<char>> {
    seq!["-y"@, "-i"@, source, "-an"@, "-vcodec"@, "mjpeg"@, "-frames:v"@, "1"@, output]
}

/// The arguments that convert an image.
pub open spec fn convert_arguments(image: Seq<char>, output: Seq<char>) -> Seq<Seq<char>> {
    seq!["-y"@, "-i"@, image, output]
}

// ─── Steps, events and actions ─────────────────────────────────

/// How far the search for a cover has come.
#[derive(Debug, Clone, Copy)]
pub enum CoverStep {
    Start,
    Extracting,
    /// Waiting whether this candidate is there.
    Looking { index: usize },
    /// Waiting whether this candidate could be placed.
    Placing { index: usize },
    Done,
}

/// What came of the last action.
#[derive(Debug, Clone, Copy)]
pub enum CoverEvent {
    /// The search begins; there is a cover already, or not.
    Begin { exists: bool },
    /// ffmpeg has tried to extract art; the size of the cover, where there is one now.
    Extracted { success: bool, size: Option<u64> },
    /// The candidate is there, or not.
    Looked(bool),
    /// The candidate was placed, or not.
    Placed(bool),
}

/// What is to be done next.
#[derive(Debug)]
pub enum CoverAction {
    /// Nothing is left to do: whether a cover is in place.
    Finish(bool),
    /// Run ffmpeg to extract embedded art.
    Extract { output: String, args: Vec<String> },
    /// See whether a file is there.
    Look { path: String },
    /// Run ffmpeg to convert an image.
    Convert { args: Vec<String> },
    /// Copy an image.
    Copy { from: String, to: String },
    /// The event does not answer the step: go on waiting.
    Ignore,
}

/// What follows an event: the next step, a useless file that is to be removed, and what is
/// to be done.
#[derive(Debug)]
pub struct CoverMove {
    pub step: CoverStep,
    pub remove: Option<String>,
    pub action: CoverAction,
}

/// What a [`CoverAction`] says.
pub enum CoverActionView {
    Finish(bool),
    Extract { output: Seq<char>, args: Seq<Seq<char>> },
    Look { path: Seq<char> },
    Convert { args: Seq<Seq<char>> },
    Copy { from: Seq<char>, to: Seq<char> },
    Ignore,
}

/// What a [`CoverMove`] says.
pub struct CoverMoveView {
    pub step: CoverStep,
    pub remove: Option<Seq<char>>,
    pub action: CoverActionView,
}

impl View for CoverMove {
    type V = CoverMoveView;

    open spec fn view(&self) -> CoverMoveView {
        CoverMoveView {
            step: self.step,
            remove: match self.remove {
                Some(p) => Some(p@),
                None => None,
            },
            action: match self.action {
                CoverAction::Finish(b) => CoverActionView::Finish(b),
                CoverAction::Extract { output, args } => CoverActionView::Extract {
                    output: output@,
                    args: text::texts(args@),
                },
                CoverAction::Look { path } => CoverActionView::Look { path: path@ },
                CoverAction::Convert { args } => CoverActionView::Convert {
                    args: text::texts(args@),
                },
                CoverAction::Copy { from, to } => CoverActionView::Copy { from: from@, to: to@ },
                CoverAction::Ignore => CoverActionView::Ignore,
            },
        }
    }
}

/// The move that ends the search.
pub open spec fn cover_finish(placed: bool) -> CoverMoveView {
    CoverMoveView {
        step: CoverStep::Done,
        remove: None,
        action: CoverActionView::Finish(placed),
    }
}

/// The move to a candidate; where none is left, the search ends without a cover.
pub open spec fn look_at(source: Seq<char>, i: int, remove: Option<Seq<char>>) -> CoverMoveView {
    if i < COVER_NAMES {
        CoverMoveView {
            step: CoverStep::Looking { index: i as usize },
            remove,
            action: CoverActionView::Look { path: candidate(source, i) },
        }
    } else {
        CoverMoveView { step: CoverStep::Done, remove, action: CoverActionView::Finish(false) }
    }
}

/// The move that puts a candidate in place: an image in another format is converted, others
/// are copied.
pub open spec fn place(source: Seq<char>, output_dir: Seq<char>, i: int) -> CoverMoveView {
    CoverMoveView {
        step: CoverStep::Placing { index: i as usize },
        remove: None,
        action: if text::ends_with(cover_names()[i], ".png"@) {
            CoverActionView::Convert {
                args: convert_arguments(candidate(source, i), cover_path(output_dir)),
            }
        } else {
            CoverActionView::Copy { from: candidate(source, i), to: cover_path(output_dir) }
        },
    }
}

/// What follows an event.
pub open spec fn cover_next(
    source: Seq<char>,
    output_dir: Seq<char>,
    step: CoverStep,
    event: CoverEvent,
) -> CoverMoveView {
    match (step, event) {
        (CoverStep::Start, CoverEvent::Begin { exists }) => if exists {
            cover_finish(true)
        } else {
            CoverMoveView {
                step: CoverStep::Extracting,
                remove: None,
                action: CoverActionView::Extract {
                    output: cover_path(output_dir),
                    args: art_arguments(source, cover_path(output_dir)),
                },
            }
        },
        (CoverStep::Extracting, CoverEvent::Extracted { success, size }) => match size {
            Some(n) if success => if n > 0 {
                cover_finish(true)
            } else {
                look_at(source, 0, Some(cover_path(output_dir)))
            },
            _ => look_at(source, 0, None),
        },
        (CoverStep::Looking { index }, CoverEvent::Looked(found)) => if found && index
            < COVER_NAMES {
            place(source, output_dir, index as int)
        } else {
            look_at(source, index + 1, None)
        },
        (CoverStep::Placing { index }, CoverEvent::Placed(ok)) => if ok {
            cover_finish(true)
        } else {
            look_at(source, index + 1, None)
        },
        _ => CoverMoveView { step, remove: None, action: CoverActionView::Ignore },
    }
}

fn cover_file(output_dir: &str) -> (r: String)
    ensures
        r@ == cover_path(output_dir@),
{
    join_paths(output_dir, "cover.jpg")
}

fn candidate_file(source: &str, i: usize) -> (r: String)
    requires
        i < COVER_NAMES,
    ensures
        r@ == candidate(source@, i as int),
{
    let dir = match parent_of(source) {
        Some(p) => p,
        None => ".".to_owned(),
    };
    join_paths(dir.as_str(), cover_name(i))
}

fn art_args(source: &str, output: &str) -> (args: Vec<String>)
    ensures
        text::texts(args@) == art_arguments(source@, output@),
{
    let mut args: Vec<String> = Vec::new();
    assert(text::texts(args@) =~= seq![]);
    push_text(&mut args, "-y");
    push_text(&mut args, "-i");
    push_text(&mut args, source);
    push_text(&mut args, "-an");
    push_text(&mut args, "-vcodec");
    push_text(&mut args, "mjpeg");
    push_text(&mut args, "-frames:v");
    push_text(&mut args, "1");
    push_text(&mut args, output);
    assert(text::texts(args@) =~= art_arguments(source@, output@));
    args
}

fn convert_args(image: &str, output: &str) -> (args: Vec<String>)
    ensures
        text::texts(args@) == convert_arguments(image@, output@),
{
    let mut args: Vec<String> = Vec::new();
    assert(text::texts(args@) =~= seq![]);
    push_text(&mut args, "-y");
    push_text(&mut args, "-i");
    push_text(&mut args, image);
    push_text(&mut args, output);
    assert(text::texts(args@) =~= convert_arguments(image@, output@));
    args
}

fn finished(placed: bool) -> (r: CoverMove)
    ensures
        r@ == cover_finish(placed),
{
    CoverMove { step: CoverStep::Done, remove: None, action: CoverAction::Finish(placed) }
}

fn try_candidate(source: &str, i: usize, remove: Option<String>) -> (r: CoverMove)
    ensures
        r@ == look_at(
            source@,
            i as int,
            match remove {
                Some(p) => Some(p@),
                None => None,
            },
        ),
{
    if i < COVER_NAMES {
        CoverMove {
            step: CoverStep::Looking { index: i },
            remove,
            action: CoverAction::Look { path: candidate_file(source, i) },
        }
    } else {
        CoverMove { step: CoverStep::Done, remove, action: CoverAction::Finish(false) }
    }
}

fn next_candidate(source: &str, i: usize) -> (r: CoverMove)
    ensures
        r@ == look_at(source@, i + 1, None),
{
    if i < COVER_NAMES {
        try_candidate(source, i + 1, None)
    } else {
        finished(false)
    }
}

fn place_candidate(source: &str, output_dir: &str, i: usize) -> (r: CoverMove)
    requires
        i < COVER_NAMES,
    ensures
        r@ == place(source@, output_dir@, i as int),
{
    let from = candidate_file(source, i);
    let to = cover_file(output_dir);
    let action = if has_ending(cover_name(i), ".png") {
        CoverAction::Convert { args: convert_args(from.as_str(), to.as_str()) }
    } else {
        CoverAction::Copy { from, to }
    };
    CoverMove { step: CoverStep::Placing { index: i }, remove: None, action }
}

/// Extract or find a cover image and place it as `cover.jpg` in `output_dir`.
///
/// Strategy:
/// 1. Skip if `cover.jpg` already exists (resume-friendly).
/// 2. Try extracting embedded art from the source file via ffmpeg.
/// 3. Fall back to common cover filenames in the source directory.
///
/// Takes how far the search has come and what came of the last action, and returns what is
/// to be done next. The search ends with whether a cover image was placed (or already
/// existed).
pub fn extract_cover_image(source: &str, output_dir: &str, step: CoverStep, event: CoverEvent) -> (r:
    CoverMove)
    ensures
        r@ == cover_next(source@, output_dir@, step, event),
{
    match (step, event) {
        (CoverStep::Start, CoverEvent::Begin { exists }) => {
            if exists {
                finished(true)
            } else {
                let output = cover_file(output_dir);
                let args = art_args(source, output.as_str());
                CoverMove {
                    step: CoverStep::Extracting,
                    remove: None,
                    action: CoverAction::Extract { output, args },
                }
            }
        },
        (CoverStep::Extracting, CoverEvent::Extracted { success, size }) => {
            if success {
                if let Some(n) = size {
                    return if n > 0 {
                        finished(true)
                    } else {
                        try_candidate(source, 0, Some(cover_file(output_dir)))
                    };
                }
            }
            try_candidate(source, 0, None)
        },
        (CoverStep::Looking { index }, CoverEvent::Looked(found)) => {
            if found && index < COVER_NAMES {
                place_candidate(source, output_dir, index)
            } else {
                next_candidate(source, index)
            }
        },
        (CoverStep::Placing { index }, CoverEvent::Placed(ok)) => {
            if ok {
                finished(true)
            } else {
                next_candidate(source, index)
            }
        },
        _ => CoverMove { step, remove: None, action: CoverAction::Ignore },
    }
}

// ─── Laws ──────────────────────────────────────────────────────

/// Whether an event answers what the step waits for.
pub open spec fn cover_answers(step: CoverStep, event: CoverEvent) -> bool {
    match step {
        CoverStep::Start => event is Begin,
        CoverStep::Extracting => event is Extracted,
        CoverStep::Looking { .. } => event is Looked,
        CoverStep::Placing { .. } => event is Placed,
        CoverStep::Done => false,
    }
}

/// How many steps may still be ahead.
pub open spec fn cover_rank(step: CoverStep) -> int {
    match step {
        CoverStep::Start => 2 * COVER_NAMES + 3,
        CoverStep::Extracting => 2 * COVER_NAMES + 2,
        CoverStep::Looking { index } => 2 * (COVER_NAMES - index) + 1,
        CoverStep::Placing { index } => 2 * (COVER_NAMES - index),
        CoverStep::Done => 0,
    }
}

/// Whether a step names a candidate that there is.
pub open spec fn cover_step_ok(step: CoverStep) -> bool {
    match step {
        CoverStep::Looking { index } => index < COVER_NAMES,
        CoverStep::Placing { index } => index < COVER_NAMES,
        _ => true,
    }
}

/// The search for a cover comes to an end: each answer brings it at least one step further.
pub proof fn law_cover_search_finishes(
    source: Seq<char>,
    output_dir: Seq<char>,
    step: CoverStep,
    event: CoverEvent,
)
    requires
        cover_step_ok(step),
        cover_answers(step, event),
    ensures
        ({
            let m = cover_next(source, output_dir, step, event);
            &&& cover_step_ok(m.step)
            &&& 0 <= cover_rank(m.step) < cover_rank(step)
            &&& m.action is Finish <==> m.step is Done
        }),
{
}

/// A cover that is already there is kept: nothing is run, written or removed.
pub proof fn law_existing_cover_is_kept(source: Seq<char>, output_dir: Seq<char>)
    ensures
        cover_next(source, output_dir, CoverStep::Start, CoverEvent::Begin { exists: true })
            == cover_finish(true),
{
}

/// The search ends with a cover only if one was there, was extracted with some content, or was
/// placed; it ends without one only if no candidate was left.
pub proof fn law_cover_result(
    source: Seq<char>,
    output_dir: Seq<char>,
    step: CoverStep,
    event: CoverEvent,
)
    requires
        cover_step_ok(step),
        cover_answers(step, event),
    ensures
        cover_next(source, output_dir, step, event).action matches CoverActionView::Finish(placed)
            ==> {
            &&& placed <==> match event {
                CoverEvent::Begin { exists } => exists,
                CoverEvent::Extracted { success, size } => success && (size matches Some(n) && n
                    > 0),
                CoverEvent::Looked(_) => false,
                CoverEvent::Placed(ok) => ok,
            }
            &&& !placed ==> match step {
                CoverStep::Looking { index } => index == COVER_NAMES - 1,
                CoverStep::Placing { index } => index == COVER_NAMES - 1,
                _ => false,
            }
        },
{
}

} // verus!
