//! What holds of the graphs that mix voice and music: every piece of music goes from its own
//! input to its own place.

use crate::ffmpeg;
use crate::ffmpeg::{FileTask, OverlayCommand, OverlayConfig, OverlayEvent};
use crate::filter_laws::inputs_of;
use crate::mix_laws;
use crate::number;
use crate::plan;
use crate::plan::Piece;
use crate::reading;
use crate::reading::starts_with;
use crate::text;
use crate::text::ends_with;
use vstd::prelude::*;

verus! {

// ─── Pieces ────────────────────────────────────────────────────

/// How a line of a graph starts that reads this input.
pub open spec fn reads_input(line: Seq<char>, n: nat) -> bool {
    starts_with(line, "["@ + text::decimal(n) + ":a]"@)
}

/// Whether a line of a graph, or three for a crossfade, bring a piece from the inputs that begin
/// with `n` to a label.
pub open spec fn leads_to(
    lines: Seq<Seq<char>>,
    at: int,
    p: Piece,
    n: nat,
    label: Seq<char>,
) -> bool {
    match p {
        Piece::Segment { file, start, duration } => {
            &&& 0 <= at < lines.len()
            &&& reads_input(lines[at], n)
            &&& ends_with(lines[at], label)
        },
        Piece::Silence { duration } => {
            &&& 0 <= at < lines.len()
            &&& starts_with(lines[at], "anullsrc="@)
            &&& ends_with(lines[at], label)
        },
        Piece::Crossfade { file1, start1, dur1, file2, start2, dur2, overlap } => {
            &&& 0 <= at && at + 2 < lines.len()
            &&& reads_input(lines[at], n)
            &&& reads_input(lines[at + 1], n + 1)
            &&& fades(lines[at], lines[at + 1], lines[at + 2])
            &&& ends_with(lines[at + 2], label)
        },
    }
}

/// Whether the third line fades from what the first gives into what the second gives.
pub open spec fn fades(first: Seq<char>, second: Seq<char>, third: Seq<char>) -> bool {
    exists|from: Seq<char>, into: Seq<char>| #[trigger] crosses(first, second, third, from, into)
}

/// Whether the third line fades from one label, which the first gives, into another, which the
/// second gives.
pub open spec fn crosses(
    first: Seq<char>,
    second: Seq<char>,
    third: Seq<char>,
    from: Seq<char>,
    into: Seq<char>,
) -> bool {
    &&& from != into
    &&& ends_with(first, from)
    &&& ends_with(second, into)
    &&& starts_with(third, from + into + "acrossfade="@)
}

proof fn lemma_starts(front: Seq<char>, back: Seq<char>)
    ensures
        starts_with(front + back, front),
        ends_with(front + back, back),
{
    assert((front + back).take(front.len() as int) =~= front);
    assert((front + back).skip(front.len() as int) =~= back);
}

proof fn lemma_input_line(n: nat, format: Seq<char>, label: Seq<char>)
    ensures
        reads_input(ffmpeg::input_filter(n, format, label), n),
        ends_with(ffmpeg::input_filter(n, format, label), ffmpeg::bracketed(label)),
{
    reveal_strlit("[");
    reveal_strlit("]");
    reveal_strlit(":a]");
    reveal_strlit(",asetpts=PTS-STARTPTS[");
    reveal_strlit(",asetpts=PTS-STARTPTS");
    let line = ffmpeg::input_filter(n, format, label);
    let front = "["@ + text::decimal(n) + ":a]"@;
    let rest = format + ",asetpts=PTS-STARTPTS["@ + label + "]"@;
    assert(line =~= front + rest);
    lemma_starts(front, rest);
    assert(",asetpts=PTS-STARTPTS["@ =~= ",asetpts=PTS-STARTPTS"@ + "["@);
    let most = front + format + ",asetpts=PTS-STARTPTS"@;
    assert(line =~= most + ffmpeg::bracketed(label));
    lemma_starts(most, ffmpeg::bracketed(label));
}

proof fn lemma_silence_line(rate: int, duration: int, label: Seq<char>)
    ensures
        starts_with(ffmpeg::silence_filter(rate, duration, label), "anullsrc="@),
        ends_with(ffmpeg::silence_filter(rate, duration, label), ffmpeg::bracketed(label)),
{
    reveal_strlit("[");
    reveal_strlit("anullsrc=r=");
    reveal_strlit("anullsrc=");
    reveal_strlit(",asetpts=PTS-STARTPTS,aformat=sample_fmts=fltp:channel_layouts=stereo[");
    let line = ffmpeg::silence_filter(rate, duration, label);
    let last = ",asetpts=PTS-STARTPTS,aformat=sample_fmts=fltp:channel_layouts=stereo["@;
    assert(line.take(9) =~= "anullsrc="@);
    assert(last.drop_last() + "["@ =~= last);
    let n = line.len() - ffmpeg::bracketed(label).len();
    assert(line.skip(n) =~= ffmpeg::bracketed(label));
}

proof fn lemma_crossfade_lines(n: nat, format: Seq<char>, overlap: int, label: Seq<char>)
    ensures
        ({
            let from = label + "a"@;
            let into = label + "b"@;
            &&& fades(
                ffmpeg::input_filter(n, format, from),
                ffmpeg::input_filter(n + 1, format, into),
                ffmpeg::crossfade_filter(from, into, overlap, label),
            )
            &&& ends_with(
                ffmpeg::crossfade_filter(from, into, overlap, label),
                ffmpeg::bracketed(label),
            )
        }),
{
    reveal_strlit("a");
    reveal_strlit("b");
    reveal_strlit("[");
    reveal_strlit("]");
    reveal_strlit("][");
    reveal_strlit("]acrossfade=d=");
    reveal_strlit("acrossfade=");
    reveal_strlit(":c1=tri:c2=tri[");
    let from = label + "a"@;
    let into = label + "b"@;
    let first = ffmpeg::input_filter(n, format, from);
    let second = ffmpeg::input_filter(n + 1, format, into);
    let third = ffmpeg::crossfade_filter(from, into, overlap, label);
    lemma_input_line(n, format, from);
    lemma_input_line(n + 1, format, into);
    let x = ffmpeg::bracketed(from);
    let y = ffmpeg::bracketed(into);
    assert(x[x.len() - 2] == 'a');
    assert(y[y.len() - 2] == 'b');
    assert(third.take((x + y + "acrossfade="@).len() as int) =~= x + y + "acrossfade="@);
    assert(crosses(first, second, third, x, y));
    assert(third.skip(third.len() - ffmpeg::bracketed(label).len()) =~= ffmpeg::bracketed(label));
}

/// Which input comes first of those that a piece reads: the voice is input 0, and every piece
/// before reads as many as it has files.
pub open spec fn first_input(pieces: Seq<Piece>, j: int) -> nat {
    inputs_of(pieces.take(j)) + 1
}

proof fn lemma_next_input(pieces: Seq<Piece>, format: Seq<char>, rate: int)
    ensures
        ffmpeg::music_graph(pieces, format, rate).next_input == inputs_of(pieces) + 1,
        ffmpeg::music_graph(pieces, format, rate).labels.len() == pieces.len(),
    decreases pieces.len(),
{
    if pieces.len() > 0 {
        lemma_next_input(pieces.drop_last(), format, rate);
    }
}

/// Every piece goes from its own inputs to its own label: a segment from one input, a crossfade
/// from the first of two into the second, and silence from none.
pub proof fn law_every_piece_is_wired(
    pieces: Seq<Piece>,
    format: Seq<char>,
    rate: int,
    j: int,
) -> (at: int)
    requires
        0 <= j < pieces.len(),
    ensures
        ({
            let g = ffmpeg::music_graph(pieces, format, rate);
            &&& g.labels.len() == pieces.len()
            &&& leads_to(g.lines, at, pieces[j], first_input(pieces, j), g.labels[j])
        }),
    decreases pieces.len(),
{
    let less = pieces.drop_last();
    let before = ffmpeg::music_graph(less, format, rate);
    let g = ffmpeg::music_graph(pieces, format, rate);
    lemma_next_input(less, format, rate);
    lemma_next_input(pieces, format, rate);
    if j < less.len() {
        let at = law_every_piece_is_wired(less, format, rate, j);
        assert(less.take(j) =~= pieces.take(j));
        assert forall|k: int| 0 <= k < before.lines.len() implies #[trigger] before.lines[k]
            == g.lines[k] by {}
        at
    } else {
        assert(pieces.take(j) =~= less);
        let at = before.lines.len() as int;
        match pieces.last() {
            Piece::Segment { file, start, duration } => {
                lemma_input_line(before.next_input, format, "m"@ + text::decimal(before.next_input));
            },
            Piece::Silence { duration } => {
                lemma_silence_line(rate, duration, "z"@ + text::decimal(before.silences));
            },
            Piece::Crossfade { file1, start1, dur1, file2, start2, dur2, overlap } => {
                let label = "cf"@ + text::decimal(before.crossfades);
                lemma_input_line(before.next_input, format, label + "a"@);
                lemma_input_line(before.next_input + 1, format, label + "b"@);
                lemma_crossfade_lines(before.next_input, format, overlap, label);
            },
        }
        at
    }
}

// ─── The mix ───────────────────────────────────────────────────

/// The pieces of music enter the mix in their order: one as it is, and several joined by one
/// filter. What comes out gets its volume, and is mixed with the voice, which is input 0 and
/// comes first: it determines the length, and neither is made quieter.
pub proof fn law_voice_and_music_are_mixed(
    pieces: Seq<Piece>,
    c: OverlayConfig,
    duration: int,
) -> (parts: (Seq<char>, Seq<char>))
    requires
        pieces.len() > 0,
    ensures
        ({
            let g = ffmpeg::music_graph(
                pieces,
                ffmpeg::common_format(c.sample_rate as int),
                c.sample_rate as int,
            );
            let filter = ffmpeg::overlay_filter(pieces, c, duration);
            let end = "[mv];[0:a]"@ + ffmpeg::voice_filter(c)
                + "[v];[v][mv]amix=inputs=2:duration=first:normalize=0,alimiter=limit=1[out]"@;
            &&& filter == parts.0 + text::joined(g.labels, ""@) + parts.1 + end
            &&& ends_with(parts.0, ";"@)
            &&& pieces.len() > 1 ==> starts_with(parts.1, "concat=n="@)
            &&& pieces.len() == 1 ==> starts_with(parts.1, "afade="@) || starts_with(
                parts.1,
                "volume="@,
            )
        }),
{
    let rate = c.sample_rate as int;
    let g = ffmpeg::music_graph(pieces, ffmpeg::common_format(rate), rate);
    let tail = "[v];[v][mv]amix=inputs=2:duration=first:normalize=0,alimiter=limit=1[out]"@;
    let front = text::joined(g.lines, ";"@) + ";"@;
    let chain = ffmpeg::music_chain(g.labels);
    let fades = ffmpeg::fade_filters(c, duration);
    let volume = number::fixed6(c.volume as int);
    let voice = ffmpeg::voice_filter(c);
    let all = text::joined(g.labels, ""@);
    let mid = if pieces.len() == 1 {
        fades + ("volume="@ + volume)
    } else {
        "concat=n="@ + text::decimal(g.labels.len()) + ":v=0:a=1[mc];[mc]"@ + (fades + ("volume="@
            + volume))
    };
    lemma_next_input(pieces, ffmpeg::common_format(rate), rate);
    lemma_starts(text::joined(g.lines, ";"@), ";"@);
    lemma_regroup(front, chain, fades, "volume="@, volume, "[mv];[0:a]"@, voice, tail);
    assert(chain + (fades + ("volume="@ + volume)) == all + mid) by {
        lemma_chain(all, g.labels, fades + ("volume="@ + volume));
    }
    lemma_grouped(front, all, mid, "[mv];[0:a]"@ + voice + tail);
    lemma_middle(c, duration, g.labels.len(), volume);
    (front, mid)
}

proof fn lemma_chain(all: Seq<char>, labels: Seq<Seq<char>>, rest: Seq<char>)
    requires
        labels.len() > 0,
        all == text::joined(labels, ""@),
    ensures
        ffmpeg::music_chain(labels) + rest == all + (if labels.len() == 1 {
            rest
        } else {
            "concat=n="@ + text::decimal(labels.len()) + ":v=0:a=1[mc];[mc]"@ + rest
        }),
{
    assert(ffmpeg::music_chain(labels) + rest =~= all + (if labels.len() == 1 {
        rest
    } else {
        "concat=n="@ + text::decimal(labels.len()) + ":v=0:a=1[mc];[mc]"@ + rest
    }));
}

proof fn lemma_regroup(
    a: Seq<char>,
    b: Seq<char>,
    c: Seq<char>,
    d: Seq<char>,
    e: Seq<char>,
    f: Seq<char>,
    g: Seq<char>,
    h: Seq<char>,
)
    ensures
        a + b + c + d + e + f + g + h == a + (b + (c + (d + e))) + (f + g + h),
{
    assert(a + b + c + d + e =~= a + (b + (c + (d + e))));
    assert(a + b + c + d + e + f + g + h =~= a + (b + (c + (d + e))) + (f + g + h));
}

proof fn lemma_grouped(a: Seq<char>, b: Seq<char>, c: Seq<char>, d: Seq<char>)
    ensures
        a + (b + c) + d == a + b + c + d,
{
    assert(a + (b + c) + d =~= a + b + c + d);
}

/// What stands between the labels of the music and its end.
proof fn lemma_middle(c: OverlayConfig, duration: int, n: nat, volume: Seq<char>)
    ensures
        ({
            let rest = ffmpeg::fade_filters(c, duration) + ("volume="@ + volume);
            &&& starts_with(rest, "afade="@) || starts_with(rest, "volume="@)
            &&& starts_with(
                "concat=n="@ + text::decimal(n) + ":v=0:a=1[mc];[mc]"@ + rest,
                "concat=n="@,
            )
        }),
{
    reveal_strlit("afade=");
    reveal_strlit("afade=t=in:d=");
    reveal_strlit("afade=t=out:st=");
    let fades = ffmpeg::fade_filters(c, duration);
    let rest = fades + ("volume="@ + volume);
    if fades.len() == 0 {
        assert(rest =~= "volume="@ + volume);
        lemma_starts("volume="@, volume);
    } else {
        assert(rest.take(6) =~= "afade="@);
    }
    let all = "concat=n="@ + text::decimal(n) + ":v=0:a=1[mc];[mc]"@ + rest;
    assert(all =~= "concat=n="@ + (text::decimal(n) + ":v=0:a=1[mc];[mc]"@ + rest));
    lemma_starts("concat=n="@, text::decimal(n) + ":v=0:a=1[mc];[mc]"@ + rest);
}

// ─── Commands ──────────────────────────────────────────────────

/// The filter that ffmpeg gets with a command: in the command itself, or in the script beside it.
pub open spec fn handed_filter(r: OverlayCommand) -> Option<Seq<char>> {
    let inline = reading::given(text::texts(r.args@), "-filter_complex"@);
    match r.script {
        Some(script) => Some(script.filter@),
        None => if inline.len() == 1 {
            Some(inline[0])
        } else {
            None
        },
    }
}

/// Whatever its length, ffmpeg gets the filter of the mix: in the command where it fits, else in
/// the file that the command names. Without music there is none.
pub proof fn law_filter_is_handed_over(r: OverlayCommand, task: FileTask, config: OverlayConfig)
    requires
        ffmpeg::is_overlay_command(r, task, config),
    ensures
        ({
            let pieces = plan::pieces_view(task.pieces@);
            let args = text::texts(r.args@);
            let inline = reading::given(args, "-filter_complex"@);
            &&& pieces.len() > 0 ==> handed_filter(r) == Some(
                ffmpeg::overlay_filter(pieces, config, task.duration as int),
            )
            &&& pieces.len() == 0 ==> handed_filter(r) is None
            &&& r.script matches Some(script) ==> reading::given(args, "-filter_complex_script"@)
                == seq![script.path@] && inline.len() == 0
            &&& r.script is None ==> reading::given(args, "-filter_complex_script"@).len() == 0
        }),
{
    let pieces = plan::pieces_view(task.pieces@);
    mix_laws::law_mix_gets_its_filter(
        task.normalized@,
        task.output@,
        task.duration as int,
        pieces,
        config,
    );
}

/// A file is written exactly where ffmpeg says so. Where ffmpeg failed, its command is reported;
/// otherwise there was none, and the reasons are told apart.
pub proof fn law_results_are_reported(
    event: OverlayEvent,
    args: Seq<Seq<char>>,
    r: Result<(), (String, String)>,
)
    requires
        ffmpeg::is_overlay_result(event, args, r),
    ensures
        r is Ok <==> event == OverlayEvent::Finished(true),
        r matches Err(e) ==> {
            &&& event is Finished ==> e.1@ == ffmpeg::command_line(args) && e.1@.len() > 0
            &&& !(event is Finished) ==> e.1@.len() == 0
            &&& event matches OverlayEvent::ScriptFailed(reason) ==> ends_with(e.0@, reason@)
                && e.0@.len() > reason@.len()
        },
{
    reveal_strlit("ffmpeg ");
    reveal_strlit("Failed to write filter script: ");
    if let OverlayEvent::ScriptFailed(reason) = event {
        lemma_starts("Failed to write filter script: "@, reason@);
    }
}

/// A command that is reported can be read again: behind its name stand its arguments, in order,
/// one space before each. (An argument with a space in it reads as two.)
pub proof fn law_reported_commands_read_back(args: Seq<Seq<char>>)
    requires
        args.len() > 0,
        forall|i: int| 0 <= i < args.len() ==> reading::lacks(#[trigger] args[i], ' '),
    ensures
        starts_with(ffmpeg::command_line(args), "ffmpeg "@),
        text::split(ffmpeg::command_line(args).skip(7), ' ') == args,
{
    reveal_strlit("ffmpeg ");
    lemma_starts("ffmpeg "@, text::joined(args, " "@));
    lemma_arguments_read_back(args);
}

proof fn lemma_arguments_read_back(args: Seq<Seq<char>>)
    requires
        args.len() > 0,
        forall|i: int| 0 <= i < args.len() ==> reading::lacks(#[trigger] args[i], ' '),
    ensures
        text::split(text::joined(args, " "@), ' ') == args,
    decreases args.len(),
{
    reveal_strlit(" ");
    let last = args.last();
    assert(reading::lacks(args[args.len() - 1], ' '));
    reading::lemma_split_one(last, ' ');
    if args.len() == 1 {
        assert(seq![last] =~= args);
    } else {
        let less = args.drop_last();
        assert forall|i: int| 0 <= i < less.len() implies reading::lacks(
            #[trigger] less[i],
            ' ',
        ) by {
            assert(reading::lacks(args[i], ' '));
        }
        lemma_arguments_read_back(less);
        let front = text::joined(less, " "@);
        reading::lemma_split_cut(front, ' ', last);
        assert(text::joined(args, " "@) =~= front.push(' ') + last);
        assert(less + seq![last] =~= args);
    }
}

} // verus!
