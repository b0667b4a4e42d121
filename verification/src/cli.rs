//! Settings of a run: validation, input item expansion, and the resume filter.

use crate::chapters;
use crate::chapters::{Chapter, ChapterView};
use crate::discovery;
use crate::discovery::sanitize_filename;
use crate::ffmpeg::OutputFormat;
use crate::log::LogSettings;
use crate::number::{Number, TICK};
use crate::path;
use crate::path::{file_stem_of, join_paths, parent_of, path_below, set_extension};
use crate::text;
use crate::text::{chars_of, decimal_text, padded_text, push_text, same_text};
use vstd::prelude::*;

verus! {

// ─── Settings ──────────────────────────────────────────────────

/// The settings of a run. Times are microseconds; other fractions are millionths.
#[derive(Debug)]
pub struct Args {
    /// Input directory containing audio files (searched recursively, natural sort)
    pub input: String,
    /// Music directory containing background music files
    pub music: String,
    /// Output directory [default: <input>_processed/]
    pub output: Option<String>,
    /// Loudness drop for music (music volume = 1 / this_value) [higher = quieter music]
    pub loudness_drop: i64,
    /// Number of parallel processing threads.
    /// With many small files, each file gets its own thread.
    /// With few large files, spare threads are given to each ffmpeg
    /// subprocess for faster decoding/encoding.
    pub threads: usize,
    /// Silence between music tracks (ignored if `crossfade > 0`)
    pub pause: i64,
    /// Crossfade between music tracks (supersedes `pause`)
    pub crossfade: i64,
    /// Output audio format
    pub format: OutputFormat,
    /// Output quality (0–10 for ogg/mp3/opus, 0–12 for flac) [lower = better for mp3]
    pub quality: u8,
    /// Output sample rate in Hz
    pub sample_rate: u32,
    /// Target integrated loudness in LUFS (EBU R128)
    pub loudness_i: Number,
    /// True peak limit in dBTP
    pub loudness_tp: Number,
    /// Loudness range target in LU
    pub loudness_lra: Number,
    /// Fade in music at the start of each output file
    pub music_fade_in: i64,
    /// Fade out music at the end of each output file
    pub music_fade_out: i64,
    /// Normalize input audio files (two-pass loudnorm).
    pub normalize_input: bool,
    /// Also normalize music tracks to the same loudness target
    pub normalize_music: bool,
    /// Output directory for normalized music files (only used with `normalize_music`).
    /// [default: <music>_normalized/]
    pub normalize_music_output: Option<String>,
    /// Force re-normalization of all music files, even if normalized versions
    /// already exist in the output directory and pass duration checks.
    pub force_normalize_music: bool,
    /// Skip files whose output already exists (resume interrupted runs)
    pub resume: bool,
    /// Show what would be done without writing any files
    pub dry_run: bool,
    /// Split m4b/m4a audiobooks by embedded chapter metadata
    pub split_chapters: bool,
    /// Write a machine-readable JSON log to this file
    pub log: Option<String>,
    /// Speed up voice audio (0.5–100.0). Music tempo is unaffected.
    pub speed: i64,
}

// ─── Validation ────────────────────────────────────────────────

/// What the settings find outside.
#[derive(Debug, Clone, Copy)]
pub struct Surroundings {
    pub input_is_dir: bool,
    pub music_is_dir: bool,
    pub has_ffmpeg: bool,
    pub has_ffprobe: bool,
}

/// Why settings are refused.
#[derive(Debug, Clone, Copy, PartialEq, Eq, Structural)]
pub enum ArgError {
    LoudnessDrop,
    Threads,
    Pause,
    Crossfade,
    Quality,
    MusicFades,
    Speed,
    InputMissing,
    MusicMissing,
    FfmpegMissing,
    FfprobeMissing,
}

/// What is said about settings that are not refused.
#[derive(Debug, Clone, Copy, PartialEq, Eq, Structural)]
pub enum Notice {
    CrossfadeSupersedesPause,
    OutputWithoutNormalizeMusic,
    ForceWithoutNormalizeMusic,
}

/// The first thing that is wrong with the values themselves.
pub open spec fn value_error(a: Args) -> Option<ArgError> {
    if a.loudness_drop <= 0 {
        Some(ArgError::LoudnessDrop)
    } else if a.threads == 0 {
        Some(ArgError::Threads)
    } else if a.pause < 0 {
        Some(ArgError::Pause)
    } else if a.crossfade < 0 {
        Some(ArgError::Crossfade)
    } else if a.quality > a.format.spec_max_quality() {
        Some(ArgError::Quality)
    } else if a.music_fade_in < 0 || a.music_fade_out < 0 {
        Some(ArgError::MusicFades)
    } else if a.speed < 500_000 || a.speed > 100_000_000 {
        Some(ArgError::Speed)
    } else {
        None
    }
}

/// The first directory that is missing.
pub open spec fn dir_error(s: Surroundings) -> Option<ArgError> {
    if !s.input_is_dir {
        Some(ArgError::InputMissing)
    } else if !s.music_is_dir {
        Some(ArgError::MusicMissing)
    } else {
        None
    }
}

/// The first tool that is missing.
pub open spec fn tool_error(s: Surroundings) -> Option<ArgError> {
    if !s.has_ffmpeg {
        Some(ArgError::FfmpegMissing)
    } else if !s.has_ffprobe {
        Some(ArgError::FfprobeMissing)
    } else {
        None
    }
}

/// The first thing that is wrong: the values, then the directories, then the tools.
pub open spec fn first_error(a: Args, s: Surroundings) -> Option<ArgError> {
    if value_error(a) is Some {
        value_error(a)
    } else if dir_error(s) is Some {
        dir_error(s)
    } else {
        tool_error(s)
    }
}

/// What is said on the way to the first error: each notice comes at its place among the
/// checks.
pub open spec fn notices_for(a: Args, s: Surroundings) -> Seq<Notice> {
    let none = Seq::<Notice>::empty();
    if value_error(a) is Some {
        none
    } else {
        let first = if a.crossfade > TICK && a.pause > TICK {
            none.push(Notice::CrossfadeSupersedesPause)
        } else {
            none
        };
        if dir_error(s) is Some {
            first
        } else {
            let second = if a.normalize_music_output is Some && !a.normalize_music {
                first.push(Notice::OutputWithoutNormalizeMusic)
            } else {
                first
            };
            if a.force_normalize_music && !a.normalize_music {
                second.push(Notice::ForceWithoutNormalizeMusic)
            } else {
                second
            }
        }
    }
}

fn check_values(a: &Args) -> (r: Option<ArgError>)
    ensures
        r == value_error(*a),
{
    if a.loudness_drop <= 0 {
        Some(ArgError::LoudnessDrop)
    } else if a.threads == 0 {
        Some(ArgError::Threads)
    } else if a.pause < 0 {
        Some(ArgError::Pause)
    } else if a.crossfade < 0 {
        Some(ArgError::Crossfade)
    } else if a.quality > a.format.max_quality() {
        Some(ArgError::Quality)
    } else if a.music_fade_in < 0 || a.music_fade_out < 0 {
        Some(ArgError::MusicFades)
    } else if a.speed < 500_000 || a.speed > 100_000_000 {
        Some(ArgError::Speed)
    } else {
        None
    }
}

/// Validate all settings. Returns what is to be said, and the error that ends the run where
/// there is one.
pub fn validate_args(cli: &Args, s: &Surroundings) -> (r: (Vec<Notice>, Result<(), ArgError>))
    ensures
        r.0@ == notices_for(*cli, *s),
        match first_error(*cli, *s) {
            Some(e) => r.1 == Err::<(), ArgError>(e),
            None => r.1 == Ok::<(), ArgError>(()),
        },
{
    let mut notices: Vec<Notice> = Vec::new();
    if let Some(e) = check_values(cli) {
        return (notices, Err(e));
    }
    if cli.crossfade > TICK && cli.pause > TICK {
        notices.push(Notice::CrossfadeSupersedesPause);
    }
    if !s.input_is_dir {
        return (notices, Err(ArgError::InputMissing));
    }
    if !s.music_is_dir {
        return (notices, Err(ArgError::MusicMissing));
    }
    if cli.normalize_music_output.is_some() && !cli.normalize_music {
        notices.push(Notice::OutputWithoutNormalizeMusic);
    }
    if cli.force_normalize_music && !cli.normalize_music {
        notices.push(Notice::ForceWithoutNormalizeMusic);
    }
    if !s.has_ffmpeg {
        return (notices, Err(ArgError::FfmpegMissing));
    }
    if !s.has_ffprobe {
        return (notices, Err(ArgError::FfprobeMissing));
    }
    (notices, Ok(()))
}

/// Settings that pass validation can be worked with: no division by their threads, speed or
/// loudness drop fails, and the quality is one that the format has.
pub proof fn law_valid_settings(a: Args, s: Surroundings)
    requires
        first_error(a, s) is None,
    ensures
        a.threads > 0,
        a.loudness_drop > 0,
        500_000 <= a.speed <= 100_000_000,
        a.quality <= a.format.spec_max_quality(),
        a.pause >= 0 && a.crossfade >= 0 && a.music_fade_in >= 0 && a.music_fade_out >= 0,
{
}

/// The name of a format, as it is shown.
pub open spec fn format_name(f: OutputFormat) -> Seq<char> {
    match f {
        OutputFormat::Ogg => "Ogg"@,
        OutputFormat::Mp3 => "Mp3"@,
        OutputFormat::Opus => "Opus"@,
        OutputFormat::Flac => "Flac"@,
    }
}

fn format_name_text(f: OutputFormat) -> (r: &'static str)
    ensures
        r@ == format_name(f),
{
    match f {
        OutputFormat::Ogg => "Ogg",
        OutputFormat::Mp3 => "Mp3",
        OutputFormat::Opus => "Opus",
        OutputFormat::Flac => "Flac",
    }
}

/// What is shown for an error.
pub open spec fn error_text(e: ArgError, f: OutputFormat) -> Seq<char> {
    match e {
        ArgError::LoudnessDrop => "--loudness-drop must be > 0"@,
        ArgError::Threads => "--threads must be ≥ 1"@,
        ArgError::Pause => "--pause must be ≥ 0"@,
        ArgError::Crossfade => "--crossfade must be ≥ 0"@,
        ArgError::Quality => "--quality must be 0–"@ + text::decimal(f.spec_max_quality() as nat)
            + " for "@ + format_name(f),
        ArgError::MusicFades => "--music-fade-in and --music-fade-out must be ≥ 0"@,
        ArgError::Speed => "--speed must be between 0.5 and 100.0"@,
        ArgError::InputMissing => "Input directory does not exist"@,
        ArgError::MusicMissing => "Music directory does not exist"@,
        ArgError::FfmpegMissing => "`ffmpeg` not found in PATH. Please install FFmpeg."@,
        ArgError::FfprobeMissing => "`ffprobe` not found in PATH. Please install FFmpeg."@,
    }
}

/// What is shown for an error with this output format.
pub fn error_message(e: ArgError, f: OutputFormat) -> (r: String)
    ensures
        r@ == error_text(e, f),
{
    match e {
        ArgError::LoudnessDrop => "--loudness-drop must be > 0".to_owned(),
        ArgError::Threads => "--threads must be ≥ 1".to_owned(),
        ArgError::Pause => "--pause must be ≥ 0".to_owned(),
        ArgError::Crossfade => "--crossfade must be ≥ 0".to_owned(),
        ArgError::Quality => {
            let mut s = "--quality must be 0–".to_owned();
            s.append(decimal_text(f.max_quality() as u128).as_str());
            s.append(" for ");
            s.append(format_name_text(f));
            s
        },
        ArgError::MusicFades => "--music-fade-in and --music-fade-out must be ≥ 0".to_owned(),
        ArgError::Speed => "--speed must be between 0.5 and 100.0".to_owned(),
        ArgError::InputMissing => "Input directory does not exist".to_owned(),
        ArgError::MusicMissing => "Music directory does not exist".to_owned(),
        ArgError::FfmpegMissing => "`ffmpeg` not found in PATH. Please install FFmpeg.".to_owned(),
        ArgError::FfprobeMissing =>
            "`ffprobe` not found in PATH. Please install FFmpeg.".to_owned(),
    }
}

// ─── Input Item ────────────────────────────────────────────────

/// A single input file (or chapter segment) to process.
#[derive(Debug)]
pub struct InputItem {
    pub source: String,
    pub relative: String,
    pub chapter: Option<Chapter>,
}

/// What an [`InputItem`] says.
pub struct ItemView {
    pub source: Seq<char>,
    pub relative: Seq<char>,
    pub chapter: Option<ChapterView>,
}

impl View for InputItem {
    type V = ItemView;

    open spec fn view(&self) -> ItemView {
        ItemView {
            source: self.source@,
            relative: self.relative@,
            chapter: match self.chapter {
                Some(c) => Some(c@),
                None => None,
            },
        }
    }
}

impl Clone for InputItem {
    fn clone(&self) -> (r: InputItem)
        ensures
            r@ == self@,
    {
        InputItem {
            source: self.source.clone(),
            relative: self.relative.clone(),
            chapter: match &self.chapter {
                Some(c) => Some(c.clone()),
                None => None,
            },
        }
    }
}

/// The items in a list.
pub open spec fn items_view(v: Seq<InputItem>) -> Seq<ItemView> {
    Seq::new(v.len(), |i: int| v[i]@)
}

// ─── Chapter Expansion ─────────────────────────────────────────

/// A whole file as an item.
pub open spec fn whole_file(input_dir: Seq<char>, source: Seq<char>) -> ItemView {
    ItemView { source, relative: path::relative_to(source, input_dir), chapter: None }
}

/// The name of chapter `i` of a file: the stem of the file, a number, and the title.
pub open spec fn chapter_name(stem: Seq<char>, i: int, title: Seq<char>) -> Seq<char> {
    stem + " - "@ + text::zero_padded(text::decimal((i + 1) as nat), 3) + " - "@
        + discovery::sanitized(title)
}

/// Chapter `i` of a file as an item. It stands beside the file, under its own name.
pub open spec fn chapter_item(
    input_dir: Seq<char>,
    source: Seq<char>,
    i: int,
    c: ChapterView,
) -> ItemView {
    let rel = path::relative_to(source, input_dir);
    let parent = match path::parent(rel) {
        Some(p) => p,
        None => seq![],
    };
    let stem = match path::file_stem(rel) {
        Some(s) => s,
        None => seq![],
    };
    ItemView {
        source,
        relative: path::join(parent, chapter_name(stem, i, c.title)),
        chapter: Some(c),
    }
}

/// The items of one file: one for each chapter, or the whole file where it has none.
pub open spec fn items_of_file(
    input_dir: Seq<char>,
    source: Seq<char>,
    chaps: Seq<ChapterView>,
) -> Seq<ItemView> {
    if chaps.len() == 0 {
        seq![whole_file(input_dir, source)]
    } else {
        Seq::new(chaps.len(), |i: int| chapter_item(input_dir, source, i, chaps[i]))
    }
}

/// The items of all files, file by file. Without splitting, every file is one item.
pub open spec fn expanded(
    split: bool,
    input_dir: Seq<char>,
    files: Seq<Seq<char>>,
    chaps: Seq<Seq<ChapterView>>,
) -> Seq<ItemView>
    decreases files.len(),
{
    if files.len() == 0 {
        seq![]
    } else {
        let last = files.len() - 1;
        expanded(split, input_dir, files.drop_last(), chaps) + items_of_file(
            input_dir,
            files[last],
            if split {
                chaps[last]
            } else {
                seq![]
            },
        )
    }
}

/// The chapters of every file.
pub open spec fn chapter_lists(v: Seq<Vec<Chapter>>) -> Seq<Seq<ChapterView>> {
    Seq::new(v.len(), |i: int| chapters::chapters_view(v[i]@))
}

fn make_chapter_item(input_dir: &str, source: &str, i: usize, c: &Chapter) -> (r: InputItem)
    ensures
        r@ == chapter_item(input_dir@, source@, i as int, c@),
{
    let rel = path_below(source, input_dir);
    let parent = match parent_of(rel.as_str()) {
        Some(p) => p,
        None => String::new(),
    };
    let mut name = match file_stem_of(rel.as_str()) {
        Some(s) => s,
        None => String::new(),
    };
    name.append(" - ");
    name.append(padded_text(i as u128 + 1, 3).as_str());
    name.append(" - ");
    name.append(sanitize_filename(c.title.as_str()).as_str());
    InputItem {
        source: source.to_owned(),
        relative: join_paths(parent.as_str(), name.as_str()),
        chapter: Some(c.clone()),
    }
}

fn push_whole_file(items: &mut Vec<InputItem>, input_dir: &str, source: &str)
    ensures
        items_view(final(items)@) == items_view(old(items)@) + items_of_file(
            input_dir@,
            source@,
            seq![],
        ),
{
    let ghost before = items@;
    let item = InputItem {
        source: source.to_owned(),
        relative: path_below(source, input_dir),
        chapter: None,
    };
    items.push(item);
    assert(items_view(items@) =~= items_view(before) + items_of_file(input_dir@, source@, seq![]));
}

fn push_chapters(items: &mut Vec<InputItem>, input_dir: &str, source: &str, chaps: &Vec<Chapter>)
    requires
        chaps@.len() > 0,
    ensures
        items_view(final(items)@) == items_view(old(items)@) + items_of_file(
            input_dir@,
            source@,
            chapters::chapters_view(chaps@),
        ),
{
    let ghost before = items_view(items@);
    let ghost all = items_of_file(input_dir@, source@, chapters::chapters_view(chaps@));
    let mut i: usize = 0;
    assert(items_view(items@) =~= before + all.take(0));
    while i < chaps.len()
        invariant
            i <= chaps@.len(),
            chaps@.len() > 0,
            all == items_of_file(input_dir@, source@, chapters::chapters_view(chaps@)),
            items_view(items@) == before + all.take(i as int),
        decreases chaps.len() - i,
    {
        let ghost had = items@;
        let item = make_chapter_item(input_dir, source, i, &chaps[i]);
        items.push(item);
        assert(items_view(items@) =~= items_view(had).push(item@));
        i += 1;
        assert(items_view(items@) =~= before + all.take(i as int));
    }
    assert(all.take(i as int) =~= all);
}

/// Expand input files into items, optionally splitting by chapters. `chaps` holds the
/// chapters of each file; it is only looked at where files are split.
pub fn expand_chapters(cli: &Args, input_files: &Vec<String>, chaps: &Vec<Vec<Chapter>>) -> (r: Vec<
    InputItem,
>)
    requires
        cli.split_chapters ==> chaps@.len() == input_files@.len(),
    ensures
        items_view(r@) == expanded(
            cli.split_chapters,
            cli.input@,
            text::texts(input_files@),
            chapter_lists(chaps@),
        ),
{
    let ghost files = text::texts(input_files@);
    let ghost lists = chapter_lists(chaps@);
    let mut items: Vec<InputItem> = Vec::new();
    let mut i: usize = 0;
    assert(files.take(0) =~= seq![]);
    assert(items_view(items@) =~= seq![]);
    while i < input_files.len()
        invariant
            i <= input_files@.len(),
            cli.split_chapters ==> chaps@.len() == input_files@.len(),
            files == text::texts(input_files@),
            lists == chapter_lists(chaps@),
            items_view(items@) == expanded(
                cli.split_chapters,
                cli.input@,
                files.take(i as int),
                lists,
            ),
        decreases input_files.len() - i,
    {
        let source = input_files[i].as_str();
        proof {
            assert(files.take(i + 1).drop_last() =~= files.take(i as int));
            assert(files.take(i + 1)[i as int] == source@);
        }
        if cli.split_chapters && chaps[i].len() > 0 {
            assert(lists[i as int] == chapters::chapters_view(chaps@[i as int]@));
            push_chapters(&mut items, cli.input.as_str(), source, &chaps[i]);
        } else {
            proof {
                if cli.split_chapters {
                    assert(lists[i as int] =~= seq![]);
                }
            }
            push_whole_file(&mut items, cli.input.as_str(), source);
        }
        i += 1;
    }
    assert(files.take(i as int) =~= files);
    items
}

// ─── Resume Filter ─────────────────────────────────────────────

/// Where the output of an item goes: it gets the extension of the output in place of its own. A
/// dot before the title of a chapter starts no extension, as the number of the chapter stands
/// behind it; so where the title holds no dot, the extension is put behind the whole name.
pub open spec fn output_of(output_dir: Seq<char>, item: ItemView, f: OutputFormat) -> Seq<char> {
    let p = path::join(output_dir, item.relative);
    match item.chapter {
        Some(c) if !c.title.contains('.') => p + "."@ + f.spec_extension(),
        _ => path::with_extension(p, f.spec_extension()),
    }
}

/// Whether a text holds a dot.
fn holds_dot(s: &str) -> (r: bool)
    ensures
        r == s@.contains('.'),
{
    let chars = chars_of(s);
    let mut i: usize = 0;
    while i < chars.len()
        invariant
            i <= chars@.len(),
            chars@ == s@,
            forall|k: int| 0 <= k < i ==> #[trigger] chars@[k] != '.',
        decreases chars.len() - i,
    {
        if chars[i] == '.' {
            return true;
        }
        i += 1;
    }
    false
}

/// Where the output of an item goes.
pub fn output_path(output_dir: &str, item: &InputItem, format: OutputFormat) -> (r: String)
    ensures
        r@ == output_of(output_dir@, item@, format),
{
    let mut p = join_paths(output_dir, item.relative.as_str());
    let append = match &item.chapter {
        Some(c) => !holds_dot(c.title.as_str()),
        None => false,
    };
    if append {
        p.append(".");
        p.append(format.extension());
        p
    } else {
        set_extension(p.as_str(), format.extension())
    }
}

/// The items at the places where `flags` has this value.
pub open spec fn picked(items: Seq<ItemView>, flags: Seq<bool>, value: bool) -> Seq<ItemView>
    decreases items.len(),
{
    if items.len() == 0 {
        seq![]
    } else {
        let front = picked(items.drop_last(), flags, value);
        if flags[items.len() - 1] == value {
            front.push(items.last())
        } else {
            front
        }
    }
}

/// The relative paths of items.
pub open spec fn relatives(items: Seq<ItemView>) -> Seq<Seq<char>> {
    Seq::new(items.len(), |i: int| items[i].relative)
}

/// For each item, whether its output is among those that exist.
pub open spec fn done_before(
    items: Seq<ItemView>,
    output_dir: Seq<char>,
    f: OutputFormat,
    existing: Seq<Seq<char>>,
) -> Seq<bool> {
    Seq::new(items.len(), |i: int| existing.contains(output_of(output_dir, items[i], f)))
}

fn is_listed(list: &Vec<String>, s: &str) -> (r: bool)
    ensures
        r == text::texts(list@).contains(s@),
{
    let ghost all = text::texts(list@);
    let mut i: usize = 0;
    while i < list.len()
        invariant
            i <= list@.len(),
            all == text::texts(list@),
            forall|k: int| 0 <= k < i ==> #[trigger] all[k] != s@,
        decreases list.len() - i,
    {
        if same_text(list[i].as_str(), s) {
            assert(all[i as int] == s@);
            return true;
        }
        i += 1;
    }
    false
}

/// Whether `left` is what a run has to work on of its items, where these outputs exist, and
/// `after` names what was skipped before and what is skipped now.
pub open spec fn is_resumed(
    cli: Args,
    output_dir: Seq<char>,
    items: Seq<ItemView>,
    existing: Seq<Seq<char>>,
    left: Seq<ItemView>,
    before: Seq<Seq<char>>,
    after: Seq<Seq<char>>,
) -> bool {
    let done = done_before(items, output_dir, cli.format, existing);
    if cli.resume {
        &&& left == picked(items, done, false)
        &&& after == before + relatives(picked(items, done, true))
    } else {
        left == items && after == before
    }
}

/// Filter out already-processed files when `resume` is set. `existing` lists the output files
/// that are already there; the items whose output is among them are skipped, and listed as
/// such.
pub fn filter_resume(
    cli: &Args,
    output_dir: &str,
    items: Vec<InputItem>,
    existing: &Vec<String>,
    skipped: &mut Vec<String>,
) -> (r: Vec<InputItem>)
    ensures
        !cli.resume ==> r@ == items@ && final(skipped)@ == old(skipped)@,
        is_resumed(
            *cli,
            output_dir@,
            items_view(items@),
            text::texts(existing@),
            items_view(r@),
            text::texts(old(skipped)@),
            text::texts(final(skipped)@),
        ),
{
    if !cli.resume {
        return items;
    }
    let ghost all = items_view(items@);
    let ghost done = done_before(all, output_dir@, cli.format, text::texts(existing@));
    let ghost before = text::texts(skipped@);
    let mut out: Vec<InputItem> = Vec::new();
    let mut i: usize = 0;
    proof {
        assert(all.take(0) =~= seq![]);
        assert(items_view(out@) =~= seq![]);
        assert(text::texts(skipped@) =~= before + relatives(picked(all.take(0), done, true)));
    }
    while i < items.len()
        invariant
            i <= items@.len(),
            all == items_view(items@),
            done == done_before(all, output_dir@, cli.format, text::texts(existing@)),
            items_view(out@) == picked(all.take(i as int), done, false),
            text::texts(skipped@) == before + relatives(picked(all.take(i as int), done, true)),
        decreases items.len() - i,
    {
        proof {
            assert(all.take(i + 1).drop_last() =~= all.take(i as int));
            assert(all.take(i + 1).last() == items@[i as int]@);
        }
        let ghost was_out = out@;
        let ghost was = picked(all.take(i as int), done, true);
        let output = output_path(output_dir, &items[i], cli.format);
        if is_listed(existing, output.as_str()) {
            push_text(skipped, items[i].relative.as_str());
            assert(relatives(was.push(items@[i as int]@)) =~= relatives(was).push(
                items@[i as int].relative@,
            ));
            assert(text::texts(skipped@) =~= before + relatives(picked(all.take(i + 1), done, true)));
        } else {
            let item = items[i].clone();
            out.push(item);
            assert(items_view(out@) =~= items_view(was_out).push(item@));
        }
        i += 1;
    }
    assert(all.take(i as int) =~= all);
    out
}

// ─── Log settings ──────────────────────────────────────────────

/// Whether the log reports these settings.
pub open spec fn reports(r: LogSettings, a: Args) -> bool {
    &&& r.loudness_drop == a.loudness_drop
    &&& r.threads == a.threads
    &&& r.pause == a.pause
    &&& r.crossfade == a.crossfade
    &&& r.format@ == a.format.spec_extension()
    &&& r.quality == a.quality
    &&& r.sample_rate == a.sample_rate
    &&& r.loudness_i == a.loudness_i
    &&& r.loudness_tp == a.loudness_tp
    &&& r.loudness_lra == a.loudness_lra
    &&& r.music_fade_in == a.music_fade_in
    &&& r.music_fade_out == a.music_fade_out
    &&& r.normalize_input == a.normalize_input
    &&& r.normalize_music == a.normalize_music
    &&& r.normalize_music_output == a.normalize_music_output
    &&& r.split_chapters == a.split_chapters
    &&& r.speed == a.speed
}

impl Args {
    /// The settings as the log reports them.
    pub fn log_settings(&self) -> (r: LogSettings)
        ensures
            reports(r, *self),
    {
        LogSettings {
            loudness_drop: self.loudness_drop,
            threads: self.threads,
            pause: self.pause,
            crossfade: self.crossfade,
            format: self.format.extension().to_owned(),
            quality: self.quality,
            sample_rate: self.sample_rate,
            loudness_i: self.loudness_i,
            loudness_tp: self.loudness_tp,
            loudness_lra: self.loudness_lra,
            music_fade_in: self.music_fade_in,
            music_fade_out: self.music_fade_out,
            normalize_input: self.normalize_input,
            normalize_music: self.normalize_music,
            normalize_music_output: match &self.normalize_music_output {
                Some(s) => Some(s.clone()),
                None => None,
            },
            split_chapters: self.split_chapters,
            speed: self.speed,
        }
    }
}

} // verus!
