//! What holds of the command that mixes a voice with its music, as it is read.

use crate::command_laws;
use crate::ffmpeg;
use crate::ffmpeg::{OutputFormat, OverlayConfig};
use crate::filter_laws;
use crate::number;
use crate::number_laws;
use crate::plan::Piece;
use crate::reading;
use crate::text;
use vstd::prelude::*;

verus! {

/// The files that some pieces play, in order; a crossfade plays two.
pub open spec fn files_of(pieces: Seq<Piece>) -> Seq<Seq<char>>
    decreases pieces.len(),
{
    if pieces.len() == 0 {
        seq![]
    } else {
        files_of(pieces.drop_last()) + match pieces.last() {
            Piece::Segment { file, start, duration } => seq![file],
            Piece::Silence { duration } => seq![],
            Piece::Crossfade { file1, start1, dur1, file2, start2, dur2, overlap } => seq![
                file1,
                file2,
            ],
        }
    }
}

/// From where some pieces play their files.
pub open spec fn starts_of(pieces: Seq<Piece>) -> Seq<int>
    decreases pieces.len(),
{
    if pieces.len() == 0 {
        seq![]
    } else {
        starts_of(pieces.drop_last()) + match pieces.last() {
            Piece::Segment { file, start, duration } => seq![start],
            Piece::Silence { duration } => seq![],
            Piece::Crossfade { file1, start1, dur1, file2, start2, dur2, overlap } => seq![
                start1,
                start2,
            ],
        }
    }
}

/// For how long some pieces play their files.
pub open spec fn lengths_of(pieces: Seq<Piece>) -> Seq<int>
    decreases pieces.len(),
{
    if pieces.len() == 0 {
        seq![]
    } else {
        lengths_of(pieces.drop_last()) + match pieces.last() {
            Piece::Segment { file, start, duration } => seq![duration],
            Piece::Silence { duration } => seq![],
            Piece::Crossfade { file1, start1, dur1, file2, start2, dur2, overlap } => seq![
                dur1,
                dur2,
            ],
        }
    }
}

/// Some times with six digits behind the point.
spec fn all_fixed(v: Seq<int>) -> Seq<Seq<char>> {
    Seq::new(v.len(), |i: int| number::fixed6(v[i]))
}

/// What the arguments of some pieces give an option.
spec fn pieces_given(pieces: Seq<Piece>, option: Seq<char>) -> Seq<Seq<char>> {
    if option == "-i"@ {
        files_of(pieces)
    } else if option == "-ss"@ {
        all_fixed(starts_of(pieces))
    } else if option == "-t"@ {
        all_fixed(lengths_of(pieces))
    } else {
        seq![]
    }
}

spec fn seek_given(start: int, duration: int, file: Seq<char>, option: Seq<char>) -> Seq<Seq<char>> {
    if option == "-i"@ {
        seq![file]
    } else if option == "-ss"@ {
        seq![number::fixed6(start)]
    } else if option == "-t"@ {
        seq![number::fixed6(duration)]
    } else {
        seq![]
    }
}

proof fn lemma_seek(
    start: int,
    duration: int,
    file: Seq<char>,
    rest: Seq<Seq<char>>,
    option: Seq<char>,
)
    requires
        rest.len() > 0,
    ensures
        reading::given(ffmpeg::seek_arguments(start, duration, file) + rest, option) == seek_given(
            start,
            duration,
            file,
            option,
        ) + reading::given(rest, option),
{
    command_laws::lemma_flags();
    let a = seq!["-i"@, file] + rest;
    reading::lemma_option("-i"@, file, rest, option);
    let b = seq!["-t"@, number::fixed6(duration)] + a;
    reading::lemma_option("-t"@, number::fixed6(duration), a, option);
    reading::lemma_option("-ss"@, number::fixed6(start), b, option);
    assert(ffmpeg::seek_arguments(start, duration, file) + rest =~= seq![
        "-ss"@,
        number::fixed6(start),
    ] + b);
    let none: Seq<Seq<char>> = seq![];
    assert(none + reading::given(rest, option) =~= reading::given(rest, option));
}

/// What the arguments of one piece give an option.
spec fn piece_given(p: Piece, option: Seq<char>) -> Seq<Seq<char>> {
    match p {
        Piece::Segment { file, start, duration } => seek_given(start, duration, file, option),
        Piece::Silence { duration } => seq![],
        Piece::Crossfade { file1, start1, dur1, file2, start2, dur2, overlap } => seek_given(
            start1,
            dur1,
            file1,
            option,
        ) + seek_given(start2, dur2, file2, option),
    }
}

proof fn lemma_all_fixed(a: Seq<int>, b: Seq<int>)
    ensures
        all_fixed(a + b) == all_fixed(a) + all_fixed(b),
{
    assert(all_fixed(a + b) =~= all_fixed(a) + all_fixed(b));
}

proof fn lemma_pieces_given(pieces: Seq<Piece>, option: Seq<char>)
    requires
        pieces.len() > 0,
    ensures
        pieces_given(pieces, option) == pieces_given(pieces.drop_last(), option) + piece_given(
            pieces.last(),
            option,
        ),
{
    let front = pieces.drop_last();
    let none: Seq<Seq<char>> = seq![];
    command_laws::lemma_flags();
    if option == "-i"@ {
        assert(pieces_given(pieces, option) =~= files_of(front) + piece_given(
            pieces.last(),
            option,
        ));
    } else if option == "-ss"@ {
        let new = starts_of(pieces).skip(starts_of(front).len() as int);
        assert(starts_of(pieces) =~= starts_of(front) + new);
        lemma_all_fixed(starts_of(front), new);
        assert(all_fixed(new) =~= piece_given(pieces.last(), option));
    } else if option == "-t"@ {
        let new = lengths_of(pieces).skip(lengths_of(front).len() as int);
        assert(lengths_of(pieces) =~= lengths_of(front) + new);
        lemma_all_fixed(lengths_of(front), new);
        assert(all_fixed(new) =~= piece_given(pieces.last(), option));
    } else {
        assert(piece_given(pieces.last(), option) =~= none);
        assert(none + none =~= none);
    }
}

proof fn lemma_three(a: Seq<Seq<char>>, b: Seq<Seq<char>>, c: Seq<Seq<char>>)
    ensures
        a + (b + c) == (a + b) + c,
{
    assert(a + (b + c) =~= (a + b) + c);
}

proof fn lemma_graph_given(
    pieces: Seq<Piece>,
    format: Seq<char>,
    rate: int,
    rest: Seq<Seq<char>>,
    option: Seq<char>,
)
    requires
        rest.len() > 0,
    ensures
        reading::given(ffmpeg::music_graph(pieces, format, rate).arguments + rest, option)
            == pieces_given(pieces, option) + reading::given(rest, option),
    decreases pieces.len(),
{
    let none: Seq<Seq<char>> = seq![];
    let g = ffmpeg::music_graph(pieces, format, rate);
    let after = reading::given(rest, option);
    if pieces.len() == 0 {
        assert(g.arguments + rest =~= rest);
        assert(pieces_given(pieces, option) =~= none);
        assert(none + after =~= after);
    } else {
        let front = pieces.drop_last();
        let before = ffmpeg::music_graph(front, format, rate);
        let had = pieces_given(front, option);
        lemma_pieces_given(pieces, option);
        match pieces.last() {
            Piece::Segment { file, start, duration } => {
                let seek = ffmpeg::seek_arguments(start, duration, file);
                lemma_seek(start, duration, file, rest, option);
                lemma_graph_given(front, format, rate, seek + rest, option);
                lemma_three(before.arguments, seek, rest);
                lemma_three(had, seek_given(start, duration, file, option), after);
            },
            Piece::Silence { duration } => {
                lemma_graph_given(front, format, rate, rest, option);
                assert(had + none =~= had);
            },
            Piece::Crossfade { file1, start1, dur1, file2, start2, dur2, overlap } => {
                let one = ffmpeg::seek_arguments(start1, dur1, file1);
                let two = ffmpeg::seek_arguments(start2, dur2, file2);
                lemma_seek(start2, dur2, file2, rest, option);
                lemma_seek(start1, dur1, file1, two + rest, option);
                lemma_graph_given(front, format, rate, one + (two + rest), option);
                lemma_three(before.arguments, one, two + rest);
                lemma_three(before.arguments + one, two, rest);
                let x = seek_given(start1, dur1, file1, option);
                let y = seek_given(start2, dur2, file2, option);
                lemma_three(x, y, after);
                lemma_three(had, x + y, after);
            },
        }
    }
}

/// What an encoder is told about quality, and how.
pub open spec fn says_quality(args: Seq<Seq<char>>, f: OutputFormat, quality: int) -> bool {
    match f {
        OutputFormat::Ogg => {
            &&& reading::given(args, "-codec:a"@) == seq!["libvorbis"@]
            &&& reading::all_whole(reading::given(args, "-q:a"@)) == seq![quality]
        },
        OutputFormat::Mp3 => {
            &&& reading::given(args, "-codec:a"@) == seq!["libmp3lame"@]
            &&& reading::all_whole(reading::given(args, "-q:a"@)) == seq![quality]
        },
        OutputFormat::Opus => {
            let rate = reading::given(args, "-b:a"@);
            &&& reading::given(args, "-codec:a"@) == seq!["libopus"@]
            &&& rate.len() == 1 && rate[0].len() > 1 && rate[0].last() == 'k'
            &&& text::value(rate[0].drop_last()) == 64 + 16 * quality
        },
        OutputFormat::Flac => {
            &&& reading::given(args, "-codec:a"@) == seq!["flac"@]
            &&& reading::all_whole(reading::given(args, "-compression_level"@)) == seq![quality]
        },
    }
}

/// What the encoder arguments at the end of a command give an option.
spec fn encoder_given(f: OutputFormat, quality: int, option: Seq<char>) -> Seq<Seq<char>> {
    let e = ffmpeg::encoder_arguments(f, quality);
    if option == e[0] {
        seq![e[1]]
    } else if option == e[2] {
        seq![e[3]]
    } else {
        seq![]
    }
}

proof fn lemma_encoder(f: OutputFormat, quality: int, output: Seq<char>, option: Seq<char>)
    ensures
        reading::given(ffmpeg::encoder_arguments(f, quality) + seq![output], option)
            == encoder_given(f, quality, option),
{
    command_laws::lemma_flags();
    let e = ffmpeg::encoder_arguments(f, quality);
    let a = seq![output];
    let b = seq![e[2], e[3]] + a;
    let none: Seq<Seq<char>> = seq![];
    reading::lemma_option(e[2], e[3], a, option);
    reading::lemma_option(e[0], e[1], b, option);
    assert(e + a =~= seq![e[0], e[1]] + b);
    assert(reading::given(a, option) =~= none);
    assert(seq![e[3]] + none =~= seq![e[3]]);
    assert(seq![e[1]] + none =~= seq![e[1]]);
}

/// The options of a mix.
spec fn is_mix_option(option: Seq<char>) -> bool {
    ||| option == "-i"@
    ||| option == "-ss"@
    ||| option == "-t"@
    ||| option == "-threads"@
    ||| option == "-af"@
    ||| option == "-filter_complex"@
    ||| option == "-filter_complex_script"@
    ||| option == "-map"@
    ||| option == "-codec:a"@
    ||| option == "-q:a"@
    ||| option == "-b:a"@
    ||| option == "-compression_level"@
}

spec fn mix_given(
    normalized: Seq<char>,
    output: Seq<char>,
    duration: int,
    pieces: Seq<Piece>,
    c: OverlayConfig,
    option: Seq<char>,
) -> Seq<Seq<char>> {
    let filter = ffmpeg::overlay_filter(pieces, c, duration);
    let long = ffmpeg::needs_script(filter);
    if option == "-i"@ {
        seq![normalized] + files_of(pieces)
    } else if option == "-ss"@ || option == "-t"@ {
        pieces_given(pieces, option)
    } else if option == "-threads"@ {
        if c.ffmpeg_threads > 1 {
            seq![text::decimal(c.ffmpeg_threads as nat)]
        } else {
            seq![]
        }
    } else if option == "-af"@ {
        if pieces.len() == 0 {
            seq![ffmpeg::voice_filter(c)]
        } else {
            seq![]
        }
    } else if option == "-filter_complex"@ {
        if pieces.len() > 0 && !long {
            seq![filter]
        } else {
            seq![]
        }
    } else if option == "-filter_complex_script"@ {
        if pieces.len() > 0 && long {
            seq![ffmpeg::script_path(output)]
        } else {
            seq![]
        }
    } else if option == "-map"@ {
        if pieces.len() > 0 {
            seq!["[out]"@]
        } else {
            seq![]
        }
    } else {
        encoder_given(c.format, c.quality as int, option)
    }
}

#[verifier::spinoff_prover]
#[verifier::rlimit(60)]
proof fn lemma_mix_given(
    normalized: Seq<char>,
    output: Seq<char>,
    duration: int,
    pieces: Seq<Piece>,
    c: OverlayConfig,
    option: Seq<char>,
)
    requires
        is_mix_option(option),
    ensures
        reading::given(
            ffmpeg::overlay_arguments(normalized, output, duration, pieces, c),
            option,
        ) == mix_given(normalized, output, duration, pieces, c, option),
{
    command_laws::lemma_flags();
    let rate = c.sample_rate as int;
    let format = ffmpeg::common_format(rate);
    let filter = ffmpeg::overlay_filter(pieces, c, duration);
    let long = ffmpeg::needs_script(filter);
    let threads = c.ffmpeg_threads as int;
    let none: Seq<Seq<char>> = seq![];
    let back = ffmpeg::encoder_arguments(c.format, c.quality as int) + seq![output];
    let end = encoder_given(c.format, c.quality as int, option);
    let args = ffmpeg::overlay_arguments(normalized, output, duration, pieces, c);
    lemma_encoder(c.format, c.quality as int, output, option);
    let mid = if pieces.len() == 0 {
        seq!["-af"@, ffmpeg::voice_filter(c)] + back
    } else {
        let map = seq!["-map"@, "[out]"@] + back;
        reading::lemma_option("-map"@, "[out]"@, back, option);
        let (flag, v) = if long {
            ("-filter_complex_script"@, ffmpeg::script_path(output))
        } else {
            ("-filter_complex"@, filter)
        };
        let handed = seq![flag, v] + map;
        reading::lemma_option(flag, v, map, option);
        lemma_graph_given(pieces, format, rate, handed, option);
        ffmpeg::music_graph(pieces, format, rate).arguments + handed
    };
    if pieces.len() == 0 {
        reading::lemma_option("-af"@, ffmpeg::voice_filter(c), back, option);
        assert(files_of(pieces) =~= none);
        assert(all_fixed(starts_of(pieces)) =~= none);
        assert(all_fixed(lengths_of(pieces)) =~= none);
    }
    let voice = seq!["-i"@, normalized] + mid;
    reading::lemma_option("-i"@, normalized, mid, option);
    command_laws::lemma_threads(threads, voice, option);
    let all = ffmpeg::thread_arguments(threads) + voice;
    reading::lemma_alone("-y"@, all, option);
    assert(args =~= seq!["-y"@] + all);
    assert(reading::given(all, option) =~= mix_given(
        normalized,
        output,
        duration,
        pieces,
        c,
        option,
    ));
}

/// Whether some values say these times.
pub open spec fn all_say(v: Seq<Seq<char>>, times: Seq<int>) -> bool {
    v.len() == times.len() && forall|i: int|
        0 <= i < v.len() ==> command_laws::says(#[trigger] v[i], times[i])
}

proof fn lemma_all_say(times: Seq<int>)
    requires
        forall|i: int| 0 <= i < times.len() ==> filter_laws::in_range(#[trigger] times[i]),
    ensures
        all_say(all_fixed(times), times),
{
    assert forall|i: int| 0 <= i < times.len() implies command_laws::says(
        #[trigger] all_fixed(times)[i],
        times[i],
    ) by {
        assert(filter_laws::in_range(times[i]));
        number_laws::law_six_places_read_back(times[i]);
    }
}

proof fn lemma_times_in_range(pieces: Seq<Piece>)
    requires
        filter_laws::lengths_ok(pieces),
    ensures
        forall|i: int|
            0 <= i < starts_of(pieces).len() ==> filter_laws::in_range(
                #[trigger] starts_of(pieces)[i],
            ),
        forall|i: int|
            0 <= i < lengths_of(pieces).len() ==> filter_laws::in_range(
                #[trigger] lengths_of(pieces)[i],
            ),
    decreases pieces.len(),
{
    if pieces.len() > 0 {
        let front = pieces.drop_last();
        assert forall|i: int| 0 <= i < front.len() implies match #[trigger] front[i] {
            Piece::Segment { file, start, duration } => filter_laws::in_range(start)
                && filter_laws::in_range(duration),
            Piece::Silence { duration } => filter_laws::in_range(duration),
            Piece::Crossfade { file1, start1, dur1, file2, start2, dur2, overlap } =>
                filter_laws::in_range(start1) && filter_laws::in_range(dur1)
                && filter_laws::in_range(start2) && filter_laws::in_range(dur2)
                && filter_laws::in_range(overlap),
        } by {
            assert(pieces[i] == front[i]);
        }
        lemma_times_in_range(front);
        let last = pieces[pieces.len() - 1];
        assert(match last {
            Piece::Segment { file, start, duration } => filter_laws::in_range(start)
                && filter_laws::in_range(duration),
            Piece::Silence { duration } => filter_laws::in_range(duration),
            Piece::Crossfade { file1, start1, dur1, file2, start2, dur2, overlap } =>
                filter_laws::in_range(start1) && filter_laws::in_range(dur1)
                && filter_laws::in_range(start2) && filter_laws::in_range(dur2)
                && filter_laws::in_range(overlap),
        });
        let a = starts_of(front);
        let b = lengths_of(front);
        assert forall|i: int| 0 <= i < starts_of(pieces).len() implies filter_laws::in_range(
            #[trigger] starts_of(pieces)[i],
        ) by {
            if i < a.len() {
                assert(starts_of(pieces)[i] == a[i]);
            }
        }
        assert forall|i: int| 0 <= i < lengths_of(pieces).len() implies filter_laws::in_range(
            #[trigger] lengths_of(pieces)[i],
        ) by {
            if i < b.len() {
                assert(lengths_of(pieces)[i] == b[i]);
            }
        }
    }
}

/// A mix reads the voice and then the file of every piece, each from where and for as long as it
/// was planned; it writes the output, with as many threads as it may use.
pub proof fn law_mix_reads_what_was_planned(
    normalized: Seq<char>,
    output: Seq<char>,
    duration: int,
    pieces: Seq<Piece>,
    c: OverlayConfig,
)
    requires
        filter_laws::lengths_ok(pieces),
    ensures
        ({
            let args = ffmpeg::overlay_arguments(normalized, output, duration, pieces, c);
            &&& reading::inputs(args) == seq![normalized] + files_of(pieces)
            &&& all_say(reading::given(args, "-ss"@), starts_of(pieces))
            &&& all_say(reading::given(args, "-t"@), lengths_of(pieces))
            &&& args.len() > 0 && reading::written(args) == output
            &&& command_laws::uses_threads(args, c.ffmpeg_threads as int)
        }),
{
    let args = ffmpeg::overlay_arguments(normalized, output, duration, pieces, c);
    lemma_mix_written(normalized, output, duration, pieces, c);
    lemma_mix_given(normalized, output, duration, pieces, c, "-i"@);
    assert(all_say(reading::given(args, "-ss"@), starts_of(pieces))) by {
        lemma_mix_times(normalized, output, duration, pieces, c);
    }
    assert(all_say(reading::given(args, "-t"@), lengths_of(pieces))) by {
        lemma_mix_times(normalized, output, duration, pieces, c);
    }
    assert(command_laws::uses_threads(args, c.ffmpeg_threads as int)) by {
        command_laws::lemma_flags();
        lemma_mix_given(normalized, output, duration, pieces, c, "-threads"@);
        command_laws::lemma_uses_threads(args, c.ffmpeg_threads as int);
    }
}

#[verifier::spinoff_prover]
#[verifier::rlimit(60)]
proof fn lemma_mix_written(
    normalized: Seq<char>,
    output: Seq<char>,
    duration: int,
    pieces: Seq<Piece>,
    c: OverlayConfig,
)
    ensures
        ({
            let args = ffmpeg::overlay_arguments(normalized, output, duration, pieces, c);
            args.len() > 0 && reading::written(args) == output
        }),
{
}

proof fn lemma_mix_times(
    normalized: Seq<char>,
    output: Seq<char>,
    duration: int,
    pieces: Seq<Piece>,
    c: OverlayConfig,
)
    requires
        filter_laws::lengths_ok(pieces),
    ensures
        ({
            let args = ffmpeg::overlay_arguments(normalized, output, duration, pieces, c);
            &&& all_say(reading::given(args, "-ss"@), starts_of(pieces))
            &&& all_say(reading::given(args, "-t"@), lengths_of(pieces))
        }),
{
    command_laws::lemma_flags();
    lemma_mix_given(normalized, output, duration, pieces, c, "-ss"@);
    lemma_mix_given(normalized, output, duration, pieces, c, "-t"@);
    lemma_times_in_range(pieces);
    lemma_all_say(starts_of(pieces));
    lemma_all_say(lengths_of(pieces));
}

/// A mix is handed its filter, in the command or in a file beside the output, and writes what
/// the filter gives; a voice without music gets the voice's filter alone.
pub proof fn law_mix_gets_its_filter(
    normalized: Seq<char>,
    output: Seq<char>,
    duration: int,
    pieces: Seq<Piece>,
    c: OverlayConfig,
)
    ensures
        ({
            let args = ffmpeg::overlay_arguments(normalized, output, duration, pieces, c);
            let filter = ffmpeg::overlay_filter(pieces, c, duration);
            let inline = reading::given(args, "-filter_complex"@);
            let script = reading::given(args, "-filter_complex_script"@);
            &&& pieces.len() == 0 ==> reading::given(args, "-af"@) == seq![ffmpeg::voice_filter(c)]
                && inline.len() == 0 && script.len() == 0
            &&& pieces.len() > 0 ==> {
                &&& !ffmpeg::needs_script(filter) ==> inline == seq![filter] && script.len() == 0
                &&& ffmpeg::needs_script(filter) ==> inline.len() == 0 && script
                    == seq![ffmpeg::script_path(output)]
                &&& reading::given(args, "-map"@) == seq!["[out]"@]
                &&& reading::given(args, "-af"@).len() == 0
            }
        }),
{
    command_laws::lemma_flags();
    lemma_mix_given(normalized, output, duration, pieces, c, "-af"@);
    lemma_mix_given(normalized, output, duration, pieces, c, "-filter_complex"@);
    lemma_mix_given(normalized, output, duration, pieces, c, "-filter_complex_script"@);
    lemma_mix_given(normalized, output, duration, pieces, c, "-map"@);
}

/// A mix is encoded in the format and the quality that are asked for. (The bit rate of Opus grows
/// by sixteen thousand for each step of quality.)
pub proof fn law_mix_is_encoded_as_asked(
    normalized: Seq<char>,
    output: Seq<char>,
    duration: int,
    pieces: Seq<Piece>,
    c: OverlayConfig,
)
    ensures
        says_quality(
            ffmpeg::overlay_arguments(normalized, output, duration, pieces, c),
            c.format,
            c.quality as int,
        ),
{
    let args = ffmpeg::overlay_arguments(normalized, output, duration, pieces, c);
    let q = c.quality as int;
    command_laws::lemma_flags();
    lemma_mix_given(normalized, output, duration, pieces, c, "-codec:a"@);
    match c.format {
        OutputFormat::Opus => {
            lemma_mix_given(normalized, output, duration, pieces, c, "-b:a"@);
            let d = text::decimal((64 + q * 16) as nat);
            reveal_strlit("k");
            text::lemma_decimal((64 + q * 16) as nat);
            assert(d.len() > 0);
            assert((d + "k"@).drop_last() =~= d);
            assert((d + "k"@).last() == 'k');
        },
        OutputFormat::Flac => {
            lemma_mix_given(normalized, output, duration, pieces, c, "-compression_level"@);
            command_laws::lemma_whole(reading::given(args, "-compression_level"@), q as nat);
        },
        _ => {
            lemma_mix_given(normalized, output, duration, pieces, c, "-q:a"@);
            command_laws::lemma_whole(reading::given(args, "-q:a"@), q as nat);
        },
    }
}

} // verus!
