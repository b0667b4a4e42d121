//! What holds of the commands that ffmpeg is called with, as they are read: which files they
//! read and write, and that every setting arrives as it was asked for.

use crate::cover;
use crate::ffmpeg;
use crate::ffmpeg::{LoudnessTarget, LoudnormMeasurement, NormConfig};
use crate::number;
use crate::number::{Number, MAX_PARTS};
use crate::number_laws;
use crate::pipeline;
use crate::reading;
use crate::text;
use vstd::prelude::*;

verus! {

// ─── Loudness options ──────────────────────────────────────────

/// Whether a number is one that can be written and read back.
pub open spec fn readable(n: Number) -> bool {
    n matches Number::Finite { negative, parts } ==> parts <= MAX_PARTS
}

pub open spec fn readable_target(t: LoudnessTarget) -> bool {
    readable(t.i) && readable(t.tp) && readable(t.lra)
}

pub open spec fn readable_measurement(m: LoudnormMeasurement) -> bool {
    readable(m.input_i) && readable(m.input_tp) && readable(m.input_lra) && readable(m.input_thresh)
        && readable(m.target_offset)
}

/// The options of the loudnorm filter.
spec fn is_loudness_option(name: Seq<char>) -> bool {
    ||| name == "loudnorm=I="@
    ||| name == "TP="@
    ||| name == "LRA="@
    ||| name == "measured_I="@
    ||| name == "measured_TP="@
    ||| name == "measured_LRA="@
    ||| name == "measured_thresh="@
    ||| name == "offset="@
    ||| name == "linear="@
    ||| name == "print_format="@
}

proof fn lemma_loudness_word(own: Seq<char>, v: Seq<char>, name: Seq<char>)
    requires
        is_loudness_option(own),
        is_loudness_option(name),
    ensures
        reading::value(own + v, name) == if own == name {
            seq![v]
        } else {
            seq![]
        },
        reading::lacks(own, ':'),
{
    reveal_strlit("loudnorm=I=");
    reveal_strlit("TP=");
    reveal_strlit("LRA=");
    reveal_strlit("measured_I=");
    reveal_strlit("measured_TP=");
    reveal_strlit("measured_LRA=");
    reveal_strlit("measured_thresh=");
    reveal_strlit("offset=");
    reveal_strlit("linear=");
    reveal_strlit("print_format=");
    assert forall|i: int| 0 <= i < own.len() implies #[trigger] own[i] != ':' by {
        assert(own.len() <= 16);
        assert(i == 0 || i == 1 || i == 2 || i == 3 || i == 4 || i == 5 || i == 6 || i == 7 || i == 8
            || i == 9 || i == 10 || i == 11 || i == 12 || i == 13 || i == 14 || i == 15);
    }
    if own == name {
        reading::lemma_value(name, v);
    } else if own[0] != name[0] {
        assert((own + v)[0] == own[0]);
        reading::lemma_no_value(own + v, name, 0);
    } else if own[1] != name[1] {
        assert((own + v)[1] == own[1]);
        reading::lemma_no_value(own + v, name, 1);
    } else {
        assert((own + v)[9] == own[9]);
        reading::lemma_no_value(own + v, name, 9);
    }
}

/// A number is written without colons.
proof fn lemma_plain_lacks_colon(n: Number)
    ensures
        reading::lacks(number::plain(n), ':'),
{
    reveal_strlit("-");
    reveal_strlit(".");
    reveal_strlit("-inf");
    reveal_strlit("inf");
    reveal_strlit("NaN");
    match n {
        Number::Finite { negative, parts } => {
            let whole = (parts / number::PARTS) as nat;
            let part = (parts % number::PARTS) as nat;
            text::lemma_decimal(whole);
            let w = text::decimal(whole);
            let f = text::zero_padded(text::decimal(part), 18);
            let t = number::without_end_zeros(f);
            number_laws::lemma_part_digits(part);
            let s = number::plain(n);
            let k = number::sign_text(negative).len() as int;
            assert forall|i: int| 0 <= i < s.len() implies #[trigger] s[i] != ':' by {
                if i >= k && i < k + w.len() {
                    assert(s[i] == w[i - k]);
                } else if i > k + w.len() {
                    assert(s[i] == t[i - k - w.len() - 1]);
                }
            }
        },
        _ => {},
    }
}

/// One option more at the end of a filter.
proof fn lemma_add_option(front: Seq<char>, own: Seq<char>, v: Seq<char>, name: Seq<char>)
    requires
        is_loudness_option(own),
        is_loudness_option(name),
        reading::lacks(v, ':'),
    ensures
        reading::entries(front + ":"@ + own + v, ':', name) == reading::entries(front, ':', name)
            + (if own == name {
            seq![v]
        } else {
            seq![]
        }),
{
    reveal_strlit(":");
    lemma_loudness_word(own, v, name);
    assert(front + ":"@ + own + v =~= front.push(':') + (own + v));
    assert forall|i: int| 0 <= i < (own + v).len() implies #[trigger] (own + v)[i] != ':' by {
        if i < own.len() {
            assert((own + v)[i] == own[i]);
        } else {
            assert((own + v)[i] == v[i - own.len()]);
        }
    }
    reading::lemma_entries_cut(front, ':', own + v, name);
    reading::lemma_entries_one(own + v, ':', name);
}

spec fn chosen(own: Seq<char>, name: Seq<char>, n: Number) -> Seq<Seq<char>> {
    if own == name {
        seq![number::plain(n)]
    } else {
        seq![]
    }
}

proof fn lemma_target_options(t: LoudnessTarget, name: Seq<char>)
    requires
        is_loudness_option(name),
    ensures
        reading::entries(ffmpeg::target_options(t), ':', name) == chosen("loudnorm=I="@, name, t.i)
            + chosen("TP="@, name, t.tp) + chosen("LRA="@, name, t.lra),
{
    reveal_strlit(":");
    reveal_strlit("TP=");
    reveal_strlit("LRA=");
    reveal_strlit(":TP=");
    reveal_strlit(":LRA=");
    lemma_plain_lacks_colon(t.i);
    lemma_plain_lacks_colon(t.tp);
    lemma_plain_lacks_colon(t.lra);
    let a = "loudnorm=I="@ + number::plain(t.i);
    lemma_loudness_word("loudnorm=I="@, number::plain(t.i), name);
    assert forall|i: int| 0 <= i < a.len() implies #[trigger] a[i] != ':' by {
        if i < "loudnorm=I="@.len() {
            assert(a[i] == "loudnorm=I="@[i]);
        } else {
            assert(a[i] == number::plain(t.i)[i - "loudnorm=I="@.len()]);
        }
    }
    reading::lemma_entries_one(a, ':', name);
    lemma_add_option(a, "TP="@, number::plain(t.tp), name);
    assert(a + ":"@ + "TP="@ =~= a + ":TP="@);
    let b = a + ":TP="@ + number::plain(t.tp);
    lemma_add_option(b, "LRA="@, number::plain(t.lra), name);
    assert(b + ":"@ + "LRA="@ =~= b + ":LRA="@);
}

#[verifier::spinoff_prover]
#[verifier::rlimit(60)]
proof fn lemma_all_options(t: LoudnessTarget, m: LoudnormMeasurement, name: Seq<char>)
    requires
        is_loudness_option(name),
    ensures
        reading::entries(ffmpeg::target_options(t) + ffmpeg::measured_options(m), ':', name)
            == chosen("loudnorm=I="@, name, t.i) + chosen("TP="@, name, t.tp) + chosen(
            "LRA="@,
            name,
            t.lra,
        ) + chosen("measured_I="@, name, m.input_i) + chosen("measured_TP="@, name, m.input_tp)
            + chosen("measured_LRA="@, name, m.input_lra) + chosen(
            "measured_thresh="@,
            name,
            m.input_thresh,
        ) + chosen("offset="@, name, m.target_offset) + (if name == "linear="@ {
            seq!["true"@]
        } else {
            seq![]
        }),
{
    let a = ffmpeg::target_options(t);
    let none: Seq<char> = seq![];
    lemma_target_options(t, name);
    lemma_plain_lacks_colon(m.input_i);
    lemma_plain_lacks_colon(m.input_tp);
    lemma_plain_lacks_colon(m.input_lra);
    lemma_plain_lacks_colon(m.input_thresh);
    lemma_plain_lacks_colon(m.target_offset);
    lemma_colons();
    assert(a + none =~= a);
    let p = ":measured_I="@ + number::plain(m.input_i);
    lemma_next_option(a, none, "measured_I="@, number::plain(m.input_i), name);
    assert(none + ":measured_I="@ + number::plain(m.input_i) =~= p);
    let q = p + ":measured_TP="@ + number::plain(m.input_tp);
    lemma_next_option(a, p, "measured_TP="@, number::plain(m.input_tp), name);
    let r = q + ":measured_LRA="@ + number::plain(m.input_lra);
    lemma_next_option(a, q, "measured_LRA="@, number::plain(m.input_lra), name);
    let u = r + ":measured_thresh="@ + number::plain(m.input_thresh);
    lemma_next_option(a, r, "measured_thresh="@, number::plain(m.input_thresh), name);
    let v = u + ":offset="@ + number::plain(m.target_offset);
    lemma_next_option(a, u, "offset="@, number::plain(m.target_offset), name);
    lemma_next_option(a, v, "linear="@, "true"@, name);
    assert(v + (":"@ + "linear="@) + "true"@ =~= v + ":linear=true"@);
}

/// One option more behind the first options of a filter.
proof fn lemma_next_option(
    a: Seq<char>,
    p: Seq<char>,
    own: Seq<char>,
    v: Seq<char>,
    name: Seq<char>,
)
    requires
        is_loudness_option(own),
        is_loudness_option(name),
        reading::lacks(v, ':'),
    ensures
        reading::entries(a + (p + (":"@ + own) + v), ':', name) == reading::entries(a + p, ':', name)
            + (if own == name {
            seq![v]
        } else {
            seq![]
        }),
{
    lemma_add_option(a + p, own, v, name);
    lemma_regroup(a, p, ":"@, own, v);
}

proof fn lemma_regroup(a: Seq<char>, p: Seq<char>, x: Seq<char>, y: Seq<char>, z: Seq<char>)
    ensures
        (a + p) + x + y + z == a + (p + (x + y) + z),
{
    assert((a + p) + x + y + z =~= a + (p + (x + y) + z));
}

/// The options behind their colons.
proof fn lemma_colons()
    ensures
        ":measured_I="@ == ":"@ + "measured_I="@,
        ":measured_TP="@ == ":"@ + "measured_TP="@,
        ":measured_LRA="@ == ":"@ + "measured_LRA="@,
        ":measured_thresh="@ == ":"@ + "measured_thresh="@,
        ":offset="@ == ":"@ + "offset="@,
        ":linear=true"@ == ":"@ + "linear="@ + "true"@,
        reading::lacks("true"@, ':'),
{
    reveal_strlit(":");
    reveal_strlit("measured_I=");
    reveal_strlit("measured_TP=");
    reveal_strlit("measured_LRA=");
    reveal_strlit("measured_thresh=");
    reveal_strlit("offset=");
    reveal_strlit("linear=");
    reveal_strlit("true");
    reveal_strlit(":measured_I=");
    reveal_strlit(":measured_TP=");
    reveal_strlit(":measured_LRA=");
    reveal_strlit(":measured_thresh=");
    reveal_strlit(":offset=");
    reveal_strlit(":linear=true");
    assert(":measured_I="@ =~= ":"@ + "measured_I="@);
    assert(":measured_TP="@ =~= ":"@ + "measured_TP="@);
    assert(":measured_LRA="@ =~= ":"@ + "measured_LRA="@);
    assert(":measured_thresh="@ =~= ":"@ + "measured_thresh="@);
    assert(":offset="@ =~= ":"@ + "offset="@);
    assert(":linear=true"@ =~= ":"@ + "linear="@ + "true"@);
    assert forall|i: int| 0 <= i < "true"@.len() implies #[trigger] "true"@[i] != ':' by {
        assert(i == 0 || i == 1 || i == 2 || i == 3);
    }
}

/// Whether the options of a loudnorm filter say these numbers.
pub open spec fn says_target(filter: Seq<char>, t: LoudnessTarget) -> bool {
    &&& reading::all_numbers(reading::entries(filter, ':', "loudnorm=I="@)) == seq![Some(t.i)]
    &&& reading::all_numbers(reading::entries(filter, ':', "TP="@)) == seq![Some(t.tp)]
    &&& reading::all_numbers(reading::entries(filter, ':', "LRA="@)) == seq![Some(t.lra)]
}

/// Whether the options of a loudnorm filter say that these numbers were measured.
pub open spec fn says_measurement(filter: Seq<char>, m: LoudnormMeasurement) -> bool {
    &&& reading::all_numbers(reading::entries(filter, ':', "measured_I="@)) == seq![
        Some(m.input_i),
    ]
    &&& reading::all_numbers(reading::entries(filter, ':', "measured_TP="@)) == seq![
        Some(m.input_tp),
    ]
    &&& reading::all_numbers(reading::entries(filter, ':', "measured_LRA="@)) == seq![
        Some(m.input_lra),
    ]
    &&& reading::all_numbers(reading::entries(filter, ':', "measured_thresh="@)) == seq![
        Some(m.input_thresh),
    ]
    &&& reading::all_numbers(reading::entries(filter, ':', "offset="@)) == seq![
        Some(m.target_offset),
    ]
}

/// One number that was written reads back.
proof fn lemma_one_number(v: Seq<Seq<char>>, n: Number)
    requires
        v == seq![number::plain(n)],
        readable(n),
    ensures
        reading::all_numbers(v) == seq![Some(n)],
{
    number_laws::law_numbers_read_back(n);
    assert(reading::all_numbers(v) =~= seq![Some(n)]);
}

/// What the names of the options start with.
proof fn lemma_option_names()
    ensures
        "loudnorm=I="@[0] == 'l',
        "loudnorm=I="@[1] == 'o',
        "TP="@[0] == 'T',
        "TP="@[1] == 'P',
        "LRA="@[0] == 'L',
        "LRA="@[1] == 'R',
        "measured_I="@[0] == 'm',
        "measured_I="@[1] == 'e',
        "measured_I="@[9] == 'I',
        "measured_TP="@[0] == 'm',
        "measured_TP="@[1] == 'e',
        "measured_TP="@[9] == 'T',
        "measured_LRA="@[0] == 'm',
        "measured_LRA="@[1] == 'e',
        "measured_LRA="@[9] == 'L',
        "measured_thresh="@[0] == 'm',
        "measured_thresh="@[1] == 'e',
        "measured_thresh="@[9] == 't',
        "offset="@[0] == 'o',
        "offset="@[1] == 'f',
        "linear="@[0] == 'l',
        "linear="@[1] == 'i',
        "print_format="@[0] == 'p',
        "print_format="@[1] == 'r',
{
    reveal_strlit("loudnorm=I=");
    reveal_strlit("TP=");
    reveal_strlit("LRA=");
    reveal_strlit("measured_I=");
    reveal_strlit("measured_TP=");
    reveal_strlit("measured_LRA=");
    reveal_strlit("measured_thresh=");
    reveal_strlit("offset=");
    reveal_strlit("linear=");
    reveal_strlit("print_format=");
}

/// Both passes of loudnorm are told the loudness that was asked for, and the second one the
/// loudness that was measured: every number of them reads back from its own option.
pub proof fn law_loudness_is_handed_on(t: LoudnessTarget, m: LoudnormMeasurement)
    requires
        readable_target(t),
        readable_measurement(m),
    ensures
        says_target(ffmpeg::target_options(t) + ":print_format=json"@, t),
        says_target(ffmpeg::target_options(t) + ffmpeg::measured_options(m), t),
        says_measurement(ffmpeg::target_options(t) + ffmpeg::measured_options(m), m),
        reading::entries(
            ffmpeg::target_options(t) + ffmpeg::measured_options(m),
            ':',
            "linear="@,
        ) == seq!["true"@],
        reading::entries(ffmpeg::target_options(t) + ":print_format=json"@, ':', "print_format="@)
            == seq!["json"@],
{
    lemma_first_pass_says(t);
    lemma_second_pass_says_target(t, m);
    lemma_second_pass_says_measurement(t, m);
}

proof fn lemma_first_pass_says(t: LoudnessTarget)
    requires
        readable_target(t),
    ensures
        says_target(ffmpeg::target_options(t) + ":print_format=json"@, t),
        reading::entries(ffmpeg::target_options(t) + ":print_format=json"@, ':', "print_format="@)
            == seq!["json"@],
{
    let first = ffmpeg::target_options(t) + ":print_format=json"@;
    reveal_strlit(":");
    reveal_strlit("json");
    reveal_strlit(":print_format=json");
    reveal_strlit("print_format=");
    lemma_option_names();
    assert(first =~= ffmpeg::target_options(t) + ":"@ + "print_format="@ + "json"@);
    assert(reading::lacks("json"@, ':')) by {
        assert forall|i: int| 0 <= i < "json"@.len() implies #[trigger] "json"@[i] != ':' by {
            assert(i == 0 || i == 1 || i == 2 || i == 3);
        }
    }
    lemma_target_options(t, "loudnorm=I="@);
    lemma_target_options(t, "TP="@);
    lemma_target_options(t, "LRA="@);
    lemma_target_options(t, "print_format="@);
    lemma_add_option(ffmpeg::target_options(t), "print_format="@, "json"@, "loudnorm=I="@);
    lemma_add_option(ffmpeg::target_options(t), "print_format="@, "json"@, "TP="@);
    lemma_add_option(ffmpeg::target_options(t), "print_format="@, "json"@, "LRA="@);
    lemma_add_option(ffmpeg::target_options(t), "print_format="@, "json"@, "print_format="@);
    assert(reading::entries(first, ':', "print_format="@) =~= seq!["json"@]);
    assert(reading::entries(first, ':', "loudnorm=I="@) =~= seq![number::plain(t.i)]);
    assert(reading::entries(first, ':', "TP="@) =~= seq![number::plain(t.tp)]);
    assert(reading::entries(first, ':', "LRA="@) =~= seq![number::plain(t.lra)]);
    lemma_one_number(reading::entries(first, ':', "loudnorm=I="@), t.i);
    lemma_one_number(reading::entries(first, ':', "TP="@), t.tp);
    lemma_one_number(reading::entries(first, ':', "LRA="@), t.lra);
}

proof fn lemma_second_pass_says_target(t: LoudnessTarget, m: LoudnormMeasurement)
    requires
        readable_target(t),
    ensures
        says_target(ffmpeg::target_options(t) + ffmpeg::measured_options(m), t),
        reading::entries(
            ffmpeg::target_options(t) + ffmpeg::measured_options(m),
            ':',
            "linear="@,
        ) == seq!["true"@],
{
    let filter = ffmpeg::target_options(t) + ffmpeg::measured_options(m);
    lemma_option_names();
    lemma_all_options(t, m, "loudnorm=I="@);
    lemma_all_options(t, m, "TP="@);
    lemma_all_options(t, m, "LRA="@);
    lemma_all_options(t, m, "linear="@);
    assert(reading::entries(filter, ':', "loudnorm=I="@) =~= seq![number::plain(t.i)]);
    assert(reading::entries(filter, ':', "TP="@) =~= seq![number::plain(t.tp)]);
    assert(reading::entries(filter, ':', "LRA="@) =~= seq![number::plain(t.lra)]);
    assert(reading::entries(filter, ':', "linear="@) =~= seq!["true"@]);
    lemma_one_number(reading::entries(filter, ':', "loudnorm=I="@), t.i);
    lemma_one_number(reading::entries(filter, ':', "TP="@), t.tp);
    lemma_one_number(reading::entries(filter, ':', "LRA="@), t.lra);
}

proof fn lemma_second_pass_says_measurement(t: LoudnessTarget, m: LoudnormMeasurement)
    requires
        readable_measurement(m),
    ensures
        says_measurement(ffmpeg::target_options(t) + ffmpeg::measured_options(m), m),
{
    let filter = ffmpeg::target_options(t) + ffmpeg::measured_options(m);
    lemma_option_names();
    lemma_all_options(t, m, "measured_I="@);
    lemma_all_options(t, m, "measured_TP="@);
    lemma_all_options(t, m, "measured_LRA="@);
    lemma_all_options(t, m, "measured_thresh="@);
    lemma_all_options(t, m, "offset="@);
    assert(reading::entries(filter, ':', "measured_I="@) =~= seq![number::plain(m.input_i)]);
    assert(reading::entries(filter, ':', "measured_TP="@) =~= seq![number::plain(m.input_tp)]);
    assert(reading::entries(filter, ':', "measured_LRA="@) =~= seq![number::plain(m.input_lra)]);
    assert(reading::entries(filter, ':', "measured_thresh="@) =~= seq![
        number::plain(m.input_thresh),
    ]);
    assert(reading::entries(filter, ':', "offset="@) =~= seq![number::plain(m.target_offset)]);
    lemma_one_number(reading::entries(filter, ':', "measured_I="@), m.input_i);
    lemma_one_number(reading::entries(filter, ':', "measured_TP="@), m.input_tp);
    lemma_one_number(reading::entries(filter, ':', "measured_LRA="@), m.input_lra);
    lemma_one_number(reading::entries(filter, ':', "measured_thresh="@), m.input_thresh);
    lemma_one_number(reading::entries(filter, ':', "offset="@), m.target_offset);
}

// ─── Commands ──────────────────────────────────────────────────

/// How long the options are, and what they start with.
pub proof fn lemma_flags()
    ensures
        "-y"@.len() == 2,
        "-y"@[1] == 'y',
        "-hide_banner"@.len() == 12,
        "-hide_banner"@[1] == 'h',
        "-hide_banner"@[2] == 'i',
        "-vn"@.len() == 3,
        "-vn"@[1] == 'v',
        "-vn"@[2] == 'n',
        "-an"@.len() == 3,
        "-an"@[1] == 'a',
        "-an"@[2] == 'n',
        "-i"@.len() == 2,
        "-i"@[1] == 'i',
        "-ss"@.len() == 3,
        "-ss"@[1] == 's',
        "-ss"@[2] == 's',
        "-t"@.len() == 2,
        "-t"@[1] == 't',
        "-threads"@.len() == 8,
        "-threads"@[1] == 't',
        "-threads"@[2] == 'h',
        "-af"@.len() == 3,
        "-af"@[1] == 'a',
        "-af"@[2] == 'f',
        "-ar"@.len() == 3,
        "-ar"@[1] == 'a',
        "-ar"@[2] == 'r',
        "-ac"@.len() == 3,
        "-ac"@[1] == 'a',
        "-ac"@[2] == 'c',
        "-f"@.len() == 2,
        "-f"@[1] == 'f',
        "-map"@.len() == 4,
        "-map"@[1] == 'm',
        "-map"@[2] == 'a',
        "-codec:a"@.len() == 8,
        "-codec:a"@[1] == 'c',
        "-codec:a"@[2] == 'o',
        "-codec:a"@[3] == 'd',
        "-q:a"@.len() == 4,
        "-q:a"@[1] == 'q',
        "-q:a"@[2] == ':',
        "-b:a"@.len() == 4,
        "-b:a"@[1] == 'b',
        "-b:a"@[2] == ':',
        "-compression_level"@.len() == 18,
        "-compression_level"@[1] == 'c',
        "-compression_level"@[2] == 'o',
        "-compression_level"@[3] == 'm',
        "-filter_complex"@.len() == 15,
        "-filter_complex"@[1] == 'f',
        "-filter_complex"@[2] == 'i',
        "-filter_complex_script"@.len() == 22,
        "-filter_complex_script"@[1] == 'f',
        "-filter_complex_script"@[2] == 'i',
        "-vcodec"@.len() == 7,
        "-vcodec"@[1] == 'v',
        "-vcodec"@[2] == 'c',
        "-frames:v"@.len() == 9,
        "-frames:v"@[1] == 'f',
        "-frames:v"@[2] == 'r',
{
    reveal_strlit("-y");
    reveal_strlit("-hide_banner");
    reveal_strlit("-vn");
    reveal_strlit("-an");
    reveal_strlit("-i");
    reveal_strlit("-ss");
    reveal_strlit("-t");
    reveal_strlit("-threads");
    reveal_strlit("-af");
    reveal_strlit("-ar");
    reveal_strlit("-ac");
    reveal_strlit("-f");
    reveal_strlit("-map");
    reveal_strlit("-codec:a");
    reveal_strlit("-q:a");
    reveal_strlit("-b:a");
    reveal_strlit("-compression_level");
    reveal_strlit("-filter_complex");
    reveal_strlit("-filter_complex_script");
    reveal_strlit("-vcodec");
    reveal_strlit("-frames:v");
}

/// What a command is told about threads stands before everything else.
pub proof fn lemma_threads(threads: int, rest: Seq<Seq<char>>, option: Seq<char>)
    requires
        rest.len() > 0,
    ensures
        reading::given(ffmpeg::thread_arguments(threads) + rest, option) == (if threads > 1
            && option == "-threads"@ {
            seq![text::decimal(threads as nat)]
        } else {
            seq![]
        }) + reading::given(rest, option),
{
    lemma_flags();
    let none: Seq<Seq<char>> = seq![];
    assert(none + reading::given(rest, option) =~= reading::given(rest, option));
    if threads > 1 {
        reading::lemma_option("-threads"@, text::decimal(threads as nat), rest, option);
        assert(ffmpeg::thread_arguments(threads) + rest =~= seq![
            "-threads"@,
            text::decimal(threads as nat),
        ] + rest);
    } else {
        assert(ffmpeg::thread_arguments(threads) + rest =~= rest);
    }
}

/// Whether a command is given as many threads as it may use.
pub open spec fn uses_threads(args: Seq<Seq<char>>, threads: int) -> bool {
    reading::all_whole(reading::given(args, "-threads"@)) == if threads > 1 {
        seq![threads]
    } else {
        seq![]
    }
}

pub proof fn lemma_whole(v: Seq<Seq<char>>, n: nat)
    requires
        v == seq![text::decimal(n)],
    ensures
        reading::all_whole(v) == seq![n as int],
{
    text::lemma_decimal(n);
    assert(reading::all_whole(v) =~= seq![n as int]);
}

pub proof fn lemma_uses_threads(args: Seq<Seq<char>>, threads: int)
    requires
        reading::given(args, "-threads"@) == (if threads > 1 {
            seq![text::decimal(threads as nat)]
        } else {
            seq![]
        }),
    ensures
        uses_threads(args, threads),
{
    if threads > 1 {
        lemma_whole(reading::given(args, "-threads"@), threads as nat);
    } else {
        assert(reading::all_whole(reading::given(args, "-threads"@)) =~= seq![]);
    }
}

proof fn lemma_normalize_options(
    input: Seq<char>,
    output: Seq<char>,
    config: NormConfig,
    m: LoudnormMeasurement,
    option: Seq<char>,
)
    requires
        option == "-i"@ || option == "-af"@ || option == "-ar"@ || option == "-ac"@ || option
            == "-threads"@,
    ensures
        ({
            let args = ffmpeg::normalize_arguments(input, output, config, m);
            let filter = ffmpeg::target_options(config.target) + ffmpeg::measured_options(m);
            reading::given(args, option) == if option == "-i"@ {
                seq![input]
            } else if option == "-af"@ {
                seq![filter]
            } else if option == "-ar"@ {
                seq![text::decimal(config.sample_rate as nat)]
            } else if option == "-ac"@ {
                seq!["2"@]
            } else if config.ffmpeg_threads > 1 {
                seq![text::decimal(config.ffmpeg_threads as nat)]
            } else {
                seq![]
            }
        }),
{
    lemma_flags();
    let filter = ffmpeg::target_options(config.target) + ffmpeg::measured_options(m);
    let rate = text::decimal(config.sample_rate as nat);
    let a = seq![output];
    let b = seq!["-ac"@, "2"@] + a;
    reading::lemma_option("-ac"@, "2"@, a, option);
    let c = seq!["-ar"@, rate] + b;
    reading::lemma_option("-ar"@, rate, b, option);
    let d = seq!["-af"@, filter] + c;
    reading::lemma_option("-af"@, filter, c, option);
    let e = seq!["-vn"@] + d;
    reading::lemma_alone("-vn"@, d, option);
    let f = seq!["-i"@, input] + e;
    reading::lemma_option("-i"@, input, e, option);
    let threads = config.ffmpeg_threads as int;
    let g = ffmpeg::thread_arguments(threads) + f;
    lemma_threads(threads, f, option);
    reading::lemma_alone("-y"@, g, option);
    assert(ffmpeg::normalize_arguments(input, output, config, m) =~= seq!["-y"@] + g);
    let none: Seq<Seq<char>> = seq![];
    assert(reading::given(a, option) =~= none);
    assert(reading::given(seq!["-y"@] + g, option) =~= reading::given(g, option));
    if option == "-i"@ {
        assert(reading::given(g, option) =~= seq![input]);
    } else if option == "-af"@ {
        assert(reading::given(g, option) =~= seq![filter]);
    } else if option == "-ar"@ {
        assert(reading::given(g, option) =~= seq![rate]);
    } else if option == "-ac"@ {
        assert(reading::given(g, option) =~= seq!["2"@]);
    } else if threads > 1 {
        assert(reading::given(g, option) =~= seq![text::decimal(threads as nat)]);
    } else {
        assert(reading::given(g, option) =~= none);
    }
}

/// Whether a command is the second pass of loudnorm over a file: it reads this file and no
/// other, writes that one in stereo, and is told the loudness that is asked for and the one that
/// was measured.
pub open spec fn is_second_pass(
    args: Seq<Seq<char>>,
    input: Seq<char>,
    output: Seq<char>,
    config: NormConfig,
    m: LoudnormMeasurement,
) -> bool {
    &&& reading::inputs(args) == seq![input]
    &&& args.len() > 0 && reading::written(args) == output
    &&& reading::given(args, "-af"@).len() == 1
    &&& says_target(reading::given(args, "-af"@)[0], config.target)
    &&& says_measurement(reading::given(args, "-af"@)[0], m)
    &&& reading::all_whole(reading::given(args, "-ar"@)) == seq![config.sample_rate as int]
    &&& reading::given(args, "-ac"@) == seq!["2"@]
    &&& uses_threads(args, config.ffmpeg_threads as int)
}

/// Whether a command is the first pass of loudnorm over a file: it reads this file and no
/// other, writes none, and prints what it measures against the loudness that is asked for.
pub open spec fn is_first_pass(
    args: Seq<Seq<char>>,
    input: Seq<char>,
    target: LoudnessTarget,
    threads: int,
) -> bool {
    &&& reading::inputs(args) == seq![input]
    &&& reading::given(args, "-f"@) == seq!["null"@]
    &&& reading::given(args, "-af"@).len() == 1
    &&& says_target(reading::given(args, "-af"@)[0], target)
    &&& reading::entries(reading::given(args, "-af"@)[0], ':', "print_format="@) == seq!["json"@]
    &&& uses_threads(args, threads)
}

/// The second pass reads its input and writes its output, with every number in its place.
pub proof fn law_second_pass(
    input: Seq<char>,
    output: Seq<char>,
    config: NormConfig,
    m: LoudnormMeasurement,
)
    requires
        readable_target(config.target),
        readable_measurement(m),
    ensures
        is_second_pass(
            ffmpeg::normalize_arguments(input, output, config, m),
            input,
            output,
            config,
            m,
        ),
{
    let args = ffmpeg::normalize_arguments(input, output, config, m);
    lemma_flags();
    lemma_normalize_options(input, output, config, m, "-i"@);
    lemma_normalize_options(input, output, config, m, "-af"@);
    lemma_normalize_options(input, output, config, m, "-ar"@);
    lemma_normalize_options(input, output, config, m, "-ac"@);
    lemma_normalize_options(input, output, config, m, "-threads"@);
    law_loudness_is_handed_on(config.target, m);
    lemma_whole(reading::given(args, "-ar"@), config.sample_rate as nat);
    lemma_uses_threads(args, config.ffmpeg_threads as int);
}

proof fn lemma_measure_options(
    input: Seq<char>,
    target: LoudnessTarget,
    threads: int,
    option: Seq<char>,
)
    requires
        option == "-i"@ || option == "-af"@ || option == "-f"@ || option == "-threads"@,
    ensures
        ({
            let args = ffmpeg::measure_arguments(input, target, threads);
            reading::given(args, option) == if option == "-i"@ {
                seq![input]
            } else if option == "-af"@ {
                seq![ffmpeg::target_options(target) + ":print_format=json"@]
            } else if option == "-f"@ {
                seq!["null"@]
            } else if threads > 1 {
                seq![text::decimal(threads as nat)]
            } else {
                seq![]
            }
        }),
{
    lemma_flags();
    let filter = ffmpeg::target_options(target) + ":print_format=json"@;
    let a = seq!["-"@];
    let b = seq!["-f"@, "null"@] + a;
    reading::lemma_option("-f"@, "null"@, a, option);
    let c = seq!["-af"@, filter] + b;
    reading::lemma_option("-af"@, filter, b, option);
    let d = seq!["-i"@, input] + c;
    reading::lemma_option("-i"@, input, c, option);
    let e = ffmpeg::thread_arguments(threads) + d;
    lemma_threads(threads, d, option);
    let f = seq!["-y"@] + e;
    reading::lemma_alone("-y"@, e, option);
    reading::lemma_alone("-hide_banner"@, f, option);
    assert(ffmpeg::measure_arguments(input, target, threads) =~= seq!["-hide_banner"@] + f);
    let none: Seq<Seq<char>> = seq![];
    assert(reading::given(a, option) =~= none);
    if option == "-i"@ {
        assert(reading::given(e, option) =~= seq![input]);
    } else if option == "-af"@ {
        assert(reading::given(e, option) =~= seq![filter]);
    } else if option == "-f"@ {
        assert(reading::given(e, option) =~= seq!["null"@]);
    } else if threads > 1 {
        assert(reading::given(e, option) =~= seq![text::decimal(threads as nat)]);
    } else {
        assert(reading::given(e, option) =~= none);
    }
}

/// The first pass reads its input, writes no file, and prints its measurement.
pub proof fn law_first_pass(input: Seq<char>, target: LoudnessTarget, threads: int)
    requires
        readable_target(target),
    ensures
        is_first_pass(
            ffmpeg::measure_arguments(input, target, threads),
            input,
            target,
            threads,
        ),
{
    let args = ffmpeg::measure_arguments(input, target, threads);
    lemma_flags();
    lemma_measure_options(input, target, threads, "-i"@);
    lemma_measure_options(input, target, threads, "-af"@);
    lemma_measure_options(input, target, threads, "-f"@);
    lemma_measure_options(input, target, threads, "-threads"@);
    lemma_first_pass_says(target);
    lemma_uses_threads(args, threads);
}

proof fn lemma_extract_options(
    source: Seq<char>,
    start: int,
    length: int,
    threads: int,
    rate: int,
    output: Seq<char>,
    option: Seq<char>,
)
    requires
        option == "-i"@ || option == "-ss"@ || option == "-t"@ || option == "-ar"@ || option
            == "-ac"@ || option == "-threads"@,
    ensures
        ({
            let args = pipeline::extract_arguments(source, start, length, threads, rate, output);
            reading::given(args, option) == if option == "-i"@ {
                seq![source]
            } else if option == "-ss"@ {
                seq![number::fixed6(start)]
            } else if option == "-t"@ {
                seq![number::fixed6(length)]
            } else if option == "-ar"@ {
                seq![text::decimal(rate as nat)]
            } else if option == "-ac"@ {
                seq!["2"@]
            } else if threads > 1 {
                seq![text::decimal(threads as nat)]
            } else {
                seq![]
            }
        }),
{
    lemma_flags();
    let a = seq![output];
    let b = seq!["-ac"@, "2"@] + a;
    reading::lemma_option("-ac"@, "2"@, a, option);
    let c = seq!["-ar"@, text::decimal(rate as nat)] + b;
    reading::lemma_option("-ar"@, text::decimal(rate as nat), b, option);
    let d = seq!["-vn"@] + c;
    reading::lemma_alone("-vn"@, c, option);
    let e = seq!["-t"@, number::fixed6(length)] + d;
    reading::lemma_option("-t"@, number::fixed6(length), d, option);
    let f = seq!["-ss"@, number::fixed6(start)] + e;
    reading::lemma_option("-ss"@, number::fixed6(start), e, option);
    let g = seq!["-i"@, source] + f;
    reading::lemma_option("-i"@, source, f, option);
    let h = ffmpeg::thread_arguments(threads) + g;
    lemma_threads(threads, g, option);
    reading::lemma_alone("-y"@, h, option);
    assert(pipeline::extract_arguments(source, start, length, threads, rate, output) =~= seq![
        "-y"@,
    ] + h);
    let none: Seq<Seq<char>> = seq![];
    assert(reading::given(a, option) =~= none);
    if option == "-i"@ {
        assert(reading::given(h, option) =~= seq![source]);
    } else if option == "-ss"@ {
        assert(reading::given(h, option) =~= seq![number::fixed6(start)]);
    } else if option == "-t"@ {
        assert(reading::given(h, option) =~= seq![number::fixed6(length)]);
    } else if option == "-ar"@ {
        assert(reading::given(h, option) =~= seq![text::decimal(rate as nat)]);
    } else if option == "-ac"@ {
        assert(reading::given(h, option) =~= seq!["2"@]);
    } else if threads > 1 {
        assert(reading::given(h, option) =~= seq![text::decimal(threads as nat)]);
    } else {
        assert(reading::given(h, option) =~= none);
    }
}

/// Whether a value says this many millionths.
pub open spec fn says(v: Seq<char>, x: int) -> bool {
    number::number_in(v) matches Some(n) && number::millionths_of(n) == x
}

/// Whether a command cuts a stretch out of a file: it reads this file and no other, writes that
/// one in stereo, and takes `length` from `start` on.
pub open spec fn is_cut(
    args: Seq<Seq<char>>,
    source: Seq<char>,
    start: int,
    length: int,
    threads: int,
    rate: int,
    output: Seq<char>,
) -> bool {
    &&& reading::inputs(args) == seq![source]
    &&& args.len() > 0 && reading::written(args) == output
    &&& reading::given(args, "-ss"@).len() == 1 && says(reading::given(args, "-ss"@)[0], start)
    &&& reading::given(args, "-t"@).len() == 1 && says(reading::given(args, "-t"@)[0], length)
    &&& reading::all_whole(reading::given(args, "-ar"@)) == seq![rate]
    &&& reading::given(args, "-ac"@) == seq!["2"@]
    &&& uses_threads(args, threads)
}

/// A chapter is cut out of its file from its start, for its length.
pub proof fn law_cut(
    source: Seq<char>,
    start: int,
    length: int,
    threads: int,
    rate: int,
    output: Seq<char>,
)
    requires
        -i64::MAX <= start <= i64::MAX,
        -i64::MAX <= length <= i64::MAX,
        rate >= 0,
    ensures
        is_cut(
            pipeline::extract_arguments(source, start, length, threads, rate, output),
            source,
            start,
            length,
            threads,
            rate,
            output,
        ),
{
    let args = pipeline::extract_arguments(source, start, length, threads, rate, output);
    lemma_flags();
    lemma_extract_options(source, start, length, threads, rate, output, "-i"@);
    lemma_extract_options(source, start, length, threads, rate, output, "-ss"@);
    lemma_extract_options(source, start, length, threads, rate, output, "-t"@);
    lemma_extract_options(source, start, length, threads, rate, output, "-ar"@);
    lemma_extract_options(source, start, length, threads, rate, output, "-ac"@);
    lemma_extract_options(source, start, length, threads, rate, output, "-threads"@);
    number_laws::law_six_places_read_back(start);
    number_laws::law_six_places_read_back(length);
    lemma_whole(reading::given(args, "-ar"@), rate as nat);
    lemma_uses_threads(args, threads);
}

/// Embedded art is taken from its file, and an image is converted from itself; both are written
/// where they are wanted.
pub proof fn law_cover_commands(source: Seq<char>, output: Seq<char>)
    ensures
        reading::inputs(cover::art_arguments(source, output)) == seq![source],
        reading::written(cover::art_arguments(source, output)) == output,
        reading::given(cover::art_arguments(source, output), "-frames:v"@) == seq!["1"@],
        reading::inputs(cover::convert_arguments(source, output)) == seq![source],
        reading::written(cover::convert_arguments(source, output)) == output,
{
    lemma_flags();
    let a = seq![output];
    let b = seq!["-frames:v"@, "1"@] + a;
    let c = seq!["-vcodec"@, "mjpeg"@] + b;
    let d = seq!["-an"@] + c;
    let e = seq!["-i"@, source] + d;
    let f = seq!["-i"@, source] + a;
    let none: Seq<Seq<char>> = seq![];
    assert(reading::given(a, "-i"@) =~= none);
    assert(reading::given(a, "-frames:v"@) =~= none);
    reading::lemma_option("-frames:v"@, "1"@, a, "-i"@);
    reading::lemma_option("-frames:v"@, "1"@, a, "-frames:v"@);
    reading::lemma_option("-vcodec"@, "mjpeg"@, b, "-i"@);
    reading::lemma_option("-vcodec"@, "mjpeg"@, b, "-frames:v"@);
    reading::lemma_alone("-an"@, c, "-i"@);
    reading::lemma_alone("-an"@, c, "-frames:v"@);
    reading::lemma_option("-i"@, source, d, "-i"@);
    reading::lemma_option("-i"@, source, d, "-frames:v"@);
    reading::lemma_alone("-y"@, e, "-i"@);
    reading::lemma_alone("-y"@, e, "-frames:v"@);
    reading::lemma_option("-i"@, source, a, "-i"@);
    reading::lemma_alone("-y"@, f, "-i"@);
    assert(cover::art_arguments(source, output) =~= seq!["-y"@] + e);
    assert(cover::convert_arguments(source, output) =~= seq!["-y"@] + f);
    assert(seq![source] + none =~= seq![source]);
    assert(seq!["1"@] + none =~= seq!["1"@]);
}

} // verus!
