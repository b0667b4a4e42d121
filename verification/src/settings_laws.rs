//! What holds of the settings of a run, and of the items that they make of its files.

use crate::assembly_laws;
use crate::assembly_laws::{kept, picks};
use crate::chapters::ChapterView;
use crate::cli;
use crate::cli::{ArgError, Args, ItemView, Notice, Surroundings};
use crate::discovery;
use crate::ffmpeg::OutputFormat;
use crate::log::LogSettings;
use crate::path;
use crate::path_laws;
use crate::reading;
use crate::text;
use vstd::prelude::*;

verus! {

// ─── Refusing settings ─────────────────────────────────────────

/// Whether there is this to object to.
pub open spec fn objectionable(a: Args, s: Surroundings, e: ArgError) -> bool {
    match e {
        ArgError::LoudnessDrop => !(a.loudness_drop > 0),
        ArgError::Threads => !(a.threads >= 1),
        ArgError::Pause => !(a.pause >= 0),
        ArgError::Crossfade => !(a.crossfade >= 0),
        ArgError::Quality => match a.format {
            OutputFormat::Flac => !(a.quality <= 12),
            _ => !(a.quality <= 10),
        },
        ArgError::MusicFades => !(a.music_fade_in >= 0 && a.music_fade_out >= 0),
        ArgError::Speed => !(500_000 <= a.speed <= 100_000_000),
        ArgError::InputMissing => !s.input_is_dir,
        ArgError::MusicMissing => !s.music_is_dir,
        ArgError::FfmpegMissing => !s.has_ffmpeg,
        ArgError::FfprobeMissing => !s.has_ffprobe,
    }
}

/// The place of an objection among the others: what is asked for comes before what is there.
pub open spec fn place(e: ArgError) -> int {
    match e {
        ArgError::LoudnessDrop => 0,
        ArgError::Threads => 1,
        ArgError::Pause => 2,
        ArgError::Crossfade => 3,
        ArgError::Quality => 4,
        ArgError::MusicFades => 5,
        ArgError::Speed => 6,
        ArgError::InputMissing => 7,
        ArgError::MusicMissing => 8,
        ArgError::FfmpegMissing => 9,
        ArgError::FfprobeMissing => 10,
    }
}

/// Settings are refused exactly where there is something to object to, and for the first thing
/// that there is.
pub proof fn law_refused_for_the_first_objection(a: Args, s: Surroundings, other: ArgError)
    ensures
        cli::first_error(a, s) is None ==> !objectionable(a, s, other),
        cli::first_error(a, s) matches Some(e) ==> {
            &&& objectionable(a, s, e)
            &&& place(other) < place(e) ==> !objectionable(a, s, other)
        },
{
}

/// Settings that are not refused are remarked on exactly where one of them has no effect.
pub proof fn law_remarks(a: Args, s: Surroundings)
    requires
        cli::first_error(a, s) is None,
    ensures
        ({
            let said = cli::notices_for(a, s);
            &&& said.contains(Notice::CrossfadeSupersedesPause) <==> a.crossfade > 1_000 && a.pause
                > 1_000
            &&& said.contains(Notice::OutputWithoutNormalizeMusic) <==> a.normalize_music_output
                is Some && !a.normalize_music
            &&& said.contains(Notice::ForceWithoutNormalizeMusic) <==> a.force_normalize_music
                && !a.normalize_music
        }),
{
    let said = cli::notices_for(a, s);
    let x = a.crossfade > 1_000 && a.pause > 1_000;
    let y = a.normalize_music_output is Some && !a.normalize_music;
    let z = a.force_normalize_music && !a.normalize_music;
    let i = if x {
        1int
    } else {
        0int
    };
    let j = if y {
        i + 1
    } else {
        i
    };
    if x {
        assert(said[0] == Notice::CrossfadeSupersedesPause);
    }
    if y {
        assert(said[i] == Notice::OutputWithoutNormalizeMusic);
    }
    if z {
        assert(said[j] == Notice::ForceWithoutNormalizeMusic);
    }
}

/// The words that an objection starts with.
pub open spec fn about(e: ArgError) -> Seq<char> {
    match e {
        ArgError::LoudnessDrop => "--loudness-drop"@,
        ArgError::Threads => "--threads"@,
        ArgError::Pause => "--pause"@,
        ArgError::Crossfade => "--crossfade"@,
        ArgError::Quality => "--quality"@,
        ArgError::MusicFades => "--music-fade-in"@,
        ArgError::Speed => "--speed"@,
        ArgError::InputMissing => "Input"@,
        ArgError::MusicMissing => "Music"@,
        ArgError::FfmpegMissing => "`ffmpeg`"@,
        ArgError::FfprobeMissing => "`ffprobe`"@,
    }
}

/// Every objection starts with what it is about, and where the quality is too high it ends with
/// the format and says the highest quality of that format.
pub proof fn law_objections_say_what_they_are_about(e: ArgError, f: OutputFormat)
    ensures
        reading::starts_with(cli::error_text(e, f), about(e)),
        e is Quality ==> {
            let t = cli::error_text(e, f);
            let most = text::decimal(if f == OutputFormat::Flac {
                12
            } else {
                10
            });
            t.len() > 20 + most.len() && t.subrange(20, 20 + most.len() as int) == most
        },
{
    match e {
        ArgError::LoudnessDrop => {
            reveal_strlit("--loudness-drop");
            reveal_strlit("--loudness-drop must be > 0");
        },
        ArgError::Threads => {
            reveal_strlit("--threads");
            reveal_strlit("--threads must be ≥ 1");
        },
        ArgError::Pause => {
            reveal_strlit("--pause");
            reveal_strlit("--pause must be ≥ 0");
        },
        ArgError::Crossfade => {
            reveal_strlit("--crossfade");
            reveal_strlit("--crossfade must be ≥ 0");
        },
        ArgError::Quality => {
            reveal_strlit("--quality");
            reveal_strlit("--quality must be 0–");
            reveal_strlit(" for ");
            let t = cli::error_text(e, f);
            let most = text::decimal(if f == OutputFormat::Flac {
                12
            } else {
                10
            });
            assert(t.subrange(20, 20 + most.len() as int) =~= most);
        },
        ArgError::MusicFades => {
            reveal_strlit("--music-fade-in");
            reveal_strlit("--music-fade-in and --music-fade-out must be ≥ 0");
        },
        ArgError::Speed => {
            reveal_strlit("--speed");
            reveal_strlit("--speed must be between 0.5 and 100.0");
        },
        ArgError::InputMissing => {
            reveal_strlit("Input");
            reveal_strlit("Input directory does not exist");
        },
        ArgError::MusicMissing => {
            reveal_strlit("Music");
            reveal_strlit("Music directory does not exist");
        },
        ArgError::FfmpegMissing => {
            reveal_strlit("`ffmpeg`");
            reveal_strlit("`ffmpeg` not found in PATH. Please install FFmpeg.");
        },
        ArgError::FfprobeMissing => {
            reveal_strlit("`ffprobe`");
            reveal_strlit("`ffprobe` not found in PATH. Please install FFmpeg.");
        },
    }
    assert(cli::error_text(e, f).take(about(e).len() as int) =~= about(e));
}

// ─── Items ─────────────────────────────────────────────────────

/// How many items a file is split into: one for each chapter, or one.
pub open spec fn parts(split: bool, chaps: Seq<ChapterView>) -> nat {
    if split && chaps.len() > 0 {
        chaps.len()
    } else {
        1
    }
}

/// How many items the first `n` files are split into.
pub open spec fn parts_before(split: bool, chaps: Seq<Seq<ChapterView>>, n: int) -> int
    decreases n,
{
    if n <= 0 {
        0
    } else {
        parts_before(split, chaps, n - 1) + parts(split, chaps[n - 1])
    }
}

proof fn lemma_parts_grow(split: bool, chaps: Seq<Seq<ChapterView>>, i: int, n: int)
    requires
        0 <= i < n,
    ensures
        0 <= parts_before(split, chaps, i) + parts(split, chaps[i]) <= parts_before(
            split,
            chaps,
            n,
        ),
        0 <= parts_before(split, chaps, i),
    decreases n,
{
    if i < n - 1 {
        lemma_parts_grow(split, chaps, i, n - 1);
    } else if i > 0 {
        lemma_parts_grow(split, chaps, i - 1, n - 1);
    }
}

/// Part `j` of file `i` of a run.
pub open spec fn part(
    split: bool,
    input_dir: Seq<char>,
    files: Seq<Seq<char>>,
    chaps: Seq<Seq<ChapterView>>,
    i: int,
    j: int,
) -> ItemView {
    cli::expanded(split, input_dir, files, chaps)[parts_before(split, chaps, i) + j]
}

/// The items are the files in order, each as its chapters in order, or as a whole where it has
/// none or is not to be split.
pub proof fn law_items_are_the_chapters(
    split: bool,
    input_dir: Seq<char>,
    files: Seq<Seq<char>>,
    chaps: Seq<Seq<ChapterView>>,
    i: int,
    j: int,
)
    requires
        0 <= i < files.len(),
        0 <= j < parts(split, chaps[i]),
    ensures
        cli::expanded(split, input_dir, files, chaps).len() == parts_before(
            split,
            chaps,
            files.len() as int,
        ),
        ({
            let item = part(split, input_dir, files, chaps, i, j);
            &&& item.source == files[i]
            &&& split && chaps[i].len() > 0 ==> item.chapter == Some(chaps[i][j])
            &&& !split || chaps[i].len() == 0 ==> item.chapter is None && item.relative
                == path::relative_to(files[i], input_dir)
        }),
    decreases files.len(),
{
    let n = files.len() - 1;
    let front = files.drop_last();
    let before = cli::expanded(split, input_dir, front, chaps);
    assert(before.len() == parts_before(split, chaps, n)) by {
        lemma_items_len(split, input_dir, front, chaps);
    }
    lemma_items_len(split, input_dir, files, chaps);
    lemma_parts_grow(split, chaps, i, n + 1);
    if i < n {
        lemma_parts_grow(split, chaps, i, n);
        law_items_are_the_chapters(split, input_dir, front, chaps, i, j);
        assert(part(split, input_dir, files, chaps, i, j) == part(
            split,
            input_dir,
            front,
            chaps,
            i,
            j,
        ));
    }
}

proof fn lemma_items_len(
    split: bool,
    input_dir: Seq<char>,
    files: Seq<Seq<char>>,
    chaps: Seq<Seq<ChapterView>>,
)
    ensures
        cli::expanded(split, input_dir, files, chaps).len() == parts_before(
            split,
            chaps,
            files.len() as int,
        ),
    decreases files.len(),
{
    if files.len() > 0 {
        lemma_items_len(split, input_dir, files.drop_last(), chaps);
    }
}

/// A chapter is named after its file, its place, counted from one, and its title.
pub proof fn law_chapter_names(stem: Seq<char>, i: int, title: Seq<char>)
    requires
        0 <= i,
    ensures
        ({
            let name = cli::chapter_name(stem, i, title);
            let safe = discovery::sanitized(title);
            let at = stem.len() as int + 3;
            let number = name.subrange(at, name.len() - safe.len() - 3);
            &&& name.len() >= at + 3 + safe.len()
            &&& name.take(stem.len() as int) == stem
            &&& name.skip(name.len() - safe.len()) == safe
            &&& number.len() >= 3
            &&& text::all_digits(number)
            &&& text::value(number) == i + 1
        }),
{
    reveal_strlit(" - ");
    let name = cli::chapter_name(stem, i, title);
    let safe = discovery::sanitized(title);
    let at = stem.len() as int + 3;
    let d = text::zero_padded(text::decimal((i + 1) as nat), 3);
    assert(name.take(stem.len() as int) =~= stem);
    assert(name.skip(name.len() - safe.len()) =~= safe);
    assert(name.subrange(at, name.len() - safe.len() - 3) =~= d);
    crate::cli_laws::lemma_number_text(i);
}

/// Every output lies where its item lies below the output directory, and has the extension of its
/// format. A chapter without a dot in its title keeps its whole name in front of it.
pub proof fn law_outputs_have_their_extension(
    output_dir: Seq<char>,
    item: ItemView,
    f: OutputFormat,
)
    requires
        path::file_name(path::join(output_dir, item.relative)) is Some,
        path::trim_end(path::join(output_dir, item.relative)) == path::join(
            output_dir,
            item.relative,
        ),
    ensures
        ({
            let p = path::join(output_dir, item.relative);
            let out = cli::output_of(output_dir, item, f);
            &&& path::extension(out) == Some(f.spec_extension())
            &&& path::parent(out) == path::parent(p)
            &&& item.chapter matches Some(c) ==> !c.title.contains('.') ==> path::file_stem(out)
                == path::file_name(p)
            &&& item.chapter is None ==> path::file_stem(out) == path::file_stem(p)
        }),
{
    let p = path::join(output_dir, item.relative);
    let ext = f.spec_extension();
    law_formats_have_their_own_extensions(f, f);
    lemma_extension_is_plain(f);
    path_laws::law_new_extension(p, ext);
    path_laws::lemma_appended_extension(p, ext);
    reveal_strlit(".");
    assert(p + "."@ + ext =~= p + seq!['.'] + ext);
}

proof fn lemma_extension_is_plain(f: OutputFormat)
    ensures
        path_laws::has_no(f.spec_extension(), '.'),
        path_laws::has_no(f.spec_extension(), '/'),
{
    reveal_strlit("ogg");
    reveal_strlit("mp3");
    reveal_strlit("opus");
    reveal_strlit("flac");
}

// ─── Resuming ──────────────────────────────────────────────────

/// Which outputs are still to be written.
pub open spec fn missing(
    items: Seq<ItemView>,
    output_dir: Seq<char>,
    f: OutputFormat,
    existing: Seq<Seq<char>>,
) -> Seq<bool> {
    Seq::new(items.len(), |i: int| !existing.contains(cli::output_of(output_dir, items[i], f)))
}

/// Which outputs are there.
pub open spec fn there(
    items: Seq<ItemView>,
    output_dir: Seq<char>,
    f: OutputFormat,
    existing: Seq<Seq<char>>,
) -> Seq<bool> {
    Seq::new(items.len(), |i: int| existing.contains(cli::output_of(output_dir, items[i], f)))
}

proof fn lemma_picked(items: Seq<ItemView>, flags: Seq<bool>, value: bool, keep: Seq<bool>)
    requires
        keep.len() >= items.len(),
        forall|i: int| 0 <= i < items.len() ==> #[trigger] keep[i] == (flags[i] == value),
    ensures
        picks(items, keep, cli::picked(items, flags, value)),
    decreases items.len(),
{
    if items.len() > 0 {
        lemma_picked(items.drop_last(), flags, value, keep);
        assembly_laws::lemma_picks_more(
            items,
            keep,
            cli::picked(items.drop_last(), flags, value),
            cli::picked(items, flags, value),
        );
    }
}

/// A resumed run works on the items whose output is missing, and names those whose output is
/// there behind what was skipped before; each in order. Another run works on all of them and
/// skips none.
pub proof fn law_resumed_runs_do_the_rest(
    cli: Args,
    output_dir: Seq<char>,
    items: Seq<ItemView>,
    existing: Seq<Seq<char>>,
    left: Seq<ItemView>,
    before: Seq<Seq<char>>,
    after: Seq<Seq<char>>,
)
    requires
        cli::is_resumed(cli, output_dir, items, existing, left, before, after),
    ensures
        cli.resume ==> {
            let skip = there(items, output_dir, cli.format, existing);
            &&& picks(items, missing(items, output_dir, cli.format, existing), left)
            &&& after.len() == before.len() + kept(skip, items.len() as int)
            &&& after.take(before.len() as int) == before
            &&& forall|i: int|
                0 <= i < items.len() && #[trigger] skip[i] ==> after[before.len() + kept(skip, i)]
                    == items[i].relative
        },
        !cli.resume ==> left == items && after == before,
{
    let done = cli::done_before(items, output_dir, cli.format, existing);
    let skip = there(items, output_dir, cli.format, existing);
    lemma_picked(items, done, false, missing(items, output_dir, cli.format, existing));
    lemma_picked(items, done, true, skip);
    let names = cli::relatives(cli::picked(items, done, true));
    if cli.resume {
        assert(after.take(before.len() as int) =~= before);
        assert forall|i: int| 0 <= i < items.len() && #[trigger] skip[i] implies after[before.len()
            + kept(skip, i)] == items[i].relative by {
            assert(names[kept(skip, i)] == items[i].relative);
        }
    }
}

// ─── Log ───────────────────────────────────────────────────────

/// The log tells settings apart: two runs whose logs agree were asked for the same.
pub proof fn law_log_tells_settings_apart(r: LogSettings, a: Args, b: Args)
    requires
        cli::reports(r, a),
        cli::reports(r, b),
    ensures
        a.loudness_drop == b.loudness_drop,
        a.threads == b.threads,
        a.pause == b.pause,
        a.crossfade == b.crossfade,
        a.format == b.format,
        a.quality == b.quality,
        a.sample_rate == b.sample_rate,
        a.loudness_i == b.loudness_i,
        a.loudness_tp == b.loudness_tp,
        a.loudness_lra == b.loudness_lra,
        a.music_fade_in == b.music_fade_in,
        a.music_fade_out == b.music_fade_out,
        a.normalize_input == b.normalize_input,
        a.normalize_music == b.normalize_music,
        a.normalize_music_output == b.normalize_music_output,
        a.split_chapters == b.split_chapters,
        a.speed == b.speed,
{
    law_formats_have_their_own_extensions(a.format, b.format);
}

/// The log says the times, the numbers and the choices of the run, each under its own name.
pub proof fn law_log_says_the_settings(r: LogSettings, a: Args)
    requires
        cli::reports(r, a),
    ensures
        r.loudness_drop == a.loudness_drop && r.threads == a.threads && r.quality == a.quality,
        r.pause == a.pause && r.crossfade == a.crossfade && r.speed == a.speed,
        r.music_fade_in == a.music_fade_in && r.music_fade_out == a.music_fade_out,
        r.sample_rate == a.sample_rate && r.loudness_i == a.loudness_i,
        r.loudness_tp == a.loudness_tp && r.loudness_lra == a.loudness_lra,
        r.normalize_input == a.normalize_input && r.normalize_music == a.normalize_music,
        r.normalize_music_output == a.normalize_music_output,
        r.split_chapters == a.split_chapters,
{
}

/// Every format has an extension of its own.
pub proof fn law_formats_have_their_own_extensions(f: OutputFormat, g: OutputFormat)
    ensures
        f.spec_extension() == g.spec_extension() ==> f == g,
        !f.spec_extension().contains('.') && f.spec_extension().len() > 0,
{
    reveal_strlit("ogg");
    reveal_strlit("mp3");
    reveal_strlit("opus");
    reveal_strlit("flac");
    assert("ogg"@[1] == 'g' && "mp3"@[1] == 'p' && "opus"@[0] == 'o' && "flac"@[0] == 'f');
    assert("ogg"@.len() == 3 && "mp3"@[0] == 'm' && "opus"@.len() == 4);
}

} // verus!
