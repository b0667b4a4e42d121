//! What holds of the filter graphs that ffmpeg is called with, as they are read: every setting
//! arrives as it was asked for, and every piece of music as it was planned.

use crate::ffmpeg;
use crate::ffmpeg::OverlayConfig;
use crate::ffmpeg_laws;
use crate::number;
use crate::number::TICK;
use crate::number_laws;
use crate::plan::Piece;
use crate::reading;
use crate::text;
use vstd::prelude::*;

verus! {

// ─── The words of a filter graph ───────────────────────────────

/// The names of filters whose settings are read.
spec fn is_name(name: Seq<char>) -> bool {
    ||| name == "aresample="@
    ||| name == "atrim=0:"@
    ||| name == "acrossfade=d="@
    ||| name == "concat=n="@
    ||| name == "volume="@
    ||| name == "atempo="@
    ||| name == "afade=t=in:d="@
    ||| name == "afade=t=out:st="@
}

/// What else a filter can start with.
spec fn is_filter(name: Seq<char>) -> bool {
    ||| is_name(name)
    ||| name == "aformat=sample_fmts=fltp:channel_layouts=stereo"@
    ||| name == "asetpts=PTS-STARTPTS"@
    ||| name == "anullsrc=r="@
    ||| name == "amix=inputs=2:duration=first:normalize=0"@
    ||| name == "alimiter=limit=1"@
}

proof fn lemma_filter_word(own: Seq<char>, v: Seq<char>, name: Seq<char>)
    requires
        is_filter(own),
        is_name(name),
    ensures
        reading::value(own + v, name) == if own == name {
            seq![v]
        } else {
            seq![]
        },
{
    reveal_strlit("aresample=");
    reveal_strlit("atrim=0:");
    reveal_strlit("acrossfade=d=");
    reveal_strlit("concat=n=");
    reveal_strlit("volume=");
    reveal_strlit("atempo=");
    reveal_strlit("afade=t=in:d=");
    reveal_strlit("afade=t=out:st=");
    reveal_strlit("aformat=sample_fmts=fltp:channel_layouts=stereo");
    reveal_strlit("asetpts=PTS-STARTPTS");
    reveal_strlit("anullsrc=r=");
    reveal_strlit("amix=inputs=2:duration=first:normalize=0");
    reveal_strlit("alimiter=limit=1");
    let w = own + v;
    assert(w[0] == own[0] && w[1] == own[1] && w[2] == own[2]);
    if own == name {
        reading::lemma_value(name, v);
    } else if own[0] != name[0] {
        reading::lemma_no_value(w, name, 0);
    } else if own[1] != name[1] {
        reading::lemma_no_value(w, name, 1);
    } else if own[2] != name[2] {
        reading::lemma_no_value(w, name, 2);
    } else {
        assert(w[8] == own[8]);
        reading::lemma_no_value(w, name, 8);
    }
}

/// Whether a word is a label and no filter.
spec fn is_label(w: Seq<char>) -> bool {
    ||| w.len() < 2
    ||| '0' <= w[0] <= '9'
    ||| w[0] == 'm'
    ||| w[0] == 'z'
    ||| w[0] == 'o'
    ||| w[0] == 'c' && w[1] == 'f'
}

proof fn lemma_label_word(w: Seq<char>, name: Seq<char>)
    requires
        is_label(w),
        is_name(name),
    ensures
        reading::value(w, name) == Seq::<Seq<char>>::empty(),
{
    reveal_strlit("aresample=");
    reveal_strlit("atrim=0:");
    reveal_strlit("acrossfade=d=");
    reveal_strlit("concat=n=");
    reveal_strlit("volume=");
    reveal_strlit("atempo=");
    reveal_strlit("afade=t=in:d=");
    reveal_strlit("afade=t=out:st=");
    if w.len() >= 2 && w[0] != name[0] {
        reading::lemma_no_value(w, name, 0);
    } else {
        reading::lemma_no_value(w, name, 1);
    }
}

/// Whether no mark stands in `s` from place `i` on.
spec fn unmarked_from(s: Seq<char>, i: int) -> bool
    decreases s.len() - i,
{
    i >= s.len() || (!reading::is_mark(s[i]) && unmarked_from(s, i + 1))
}

proof fn lemma_unmarked_from(s: Seq<char>, i: int)
    requires
        0 <= i,
        unmarked_from(s, i),
    ensures
        forall|k: int| i <= k < s.len() ==> !reading::is_mark(#[trigger] s[k]),
    decreases s.len() - i,
{
    if i < s.len() {
        lemma_unmarked_from(s, i + 1);
    }
}

proof fn lemma_unmarked_both(a: Seq<char>, b: Seq<char>)
    requires
        reading::unmarked(a),
        reading::unmarked(b),
    ensures
        reading::unmarked(a + b),
{
    let s = a + b;
    assert forall|i: int| 0 <= i < s.len() implies !reading::is_mark(#[trigger] s[i]) by {
        if i < a.len() {
            assert(s[i] == a[i]);
        } else {
            assert(s[i] == b[i - a.len()]);
        }
    }
}

proof fn lemma_unmarked_digits(s: Seq<char>)
    requires
        text::all_digits(s),
    ensures
        reading::unmarked(s),
{
    assert forall|i: int| 0 <= i < s.len() implies !reading::is_mark(#[trigger] s[i]) by {
        assert('0' <= s[i] <= '9');
    }
}

proof fn lemma_unmarked_decimal(n: nat)
    ensures
        reading::unmarked(text::decimal(n)),
        text::decimal(n).len() > 0,
        '0' <= text::decimal(n)[0] <= '9',
{
    text::lemma_decimal(n);
    lemma_unmarked_digits(text::decimal(n));
    assert(text::decimal(n).len() > 0);
}

/// No mark stands in the words that filter graphs are made of.
#[verifier::spinoff_prover]
#[verifier::rlimit(50)]
proof fn lemma_unmarked_words()
    ensures
        reading::unmarked("aresample="@),
        reading::unmarked("atrim=0:"@),
        reading::unmarked("acrossfade=d="@),
        reading::unmarked("concat=n="@),
        reading::unmarked("volume="@),
        reading::unmarked("atempo="@),
        reading::unmarked("afade=t=in:d="@),
        reading::unmarked("afade=t=out:st="@),
        reading::unmarked("aformat=sample_fmts=fltp:channel_layouts=stereo"@),
        reading::unmarked("asetpts=PTS-STARTPTS"@),
        reading::unmarked("anullsrc=r="@),
        reading::unmarked("amix=inputs=2:duration=first:normalize=0"@),
        reading::unmarked("alimiter=limit=1"@),
        reading::unmarked(":a"@),
        reading::unmarked("m"@),
        reading::unmarked("z"@),
        reading::unmarked("cf"@),
        reading::unmarked("a"@),
        reading::unmarked("b"@),
        reading::unmarked("r"@),
        reading::unmarked("mc"@),
        reading::unmarked("mv"@),
        reading::unmarked("v"@),
        reading::unmarked("out"@),
        reading::unmarked("0:a"@),
        reading::unmarked(":cl=stereo"@),
        reading::unmarked(":c1=tri:c2=tri"@),
        reading::unmarked(":v=0:a=1"@),
        reading::unmarked("."@),
        reading::unmarked("-"@),
        reading::unmarked(":d="@),
{
    assert(reading::unmarked("aresample="@)) by {
        reveal_with_fuel(unmarked_from, 11);
        reveal_strlit("aresample=");
        lemma_unmarked_from("aresample="@, 0);
    }
    assert(reading::unmarked("atrim=0:"@)) by {
        reveal_with_fuel(unmarked_from, 9);
        reveal_strlit("atrim=0:");
        lemma_unmarked_from("atrim=0:"@, 0);
    }
    assert(reading::unmarked("acrossfade=d="@)) by {
        reveal_with_fuel(unmarked_from, 14);
        reveal_strlit("acrossfade=d=");
        lemma_unmarked_from("acrossfade=d="@, 0);
    }
    assert(reading::unmarked("concat=n="@)) by {
        reveal_with_fuel(unmarked_from, 10);
        reveal_strlit("concat=n=");
        lemma_unmarked_from("concat=n="@, 0);
    }
    assert(reading::unmarked("volume="@)) by {
        reveal_with_fuel(unmarked_from, 8);
        reveal_strlit("volume=");
        lemma_unmarked_from("volume="@, 0);
    }
    assert(reading::unmarked("atempo="@)) by {
        reveal_with_fuel(unmarked_from, 8);
        reveal_strlit("atempo=");
        lemma_unmarked_from("atempo="@, 0);
    }
    assert(reading::unmarked("afade=t=in:d="@)) by {
        reveal_with_fuel(unmarked_from, 14);
        reveal_strlit("afade=t=in:d=");
        lemma_unmarked_from("afade=t=in:d="@, 0);
    }
    assert(reading::unmarked("afade=t=out:st="@)) by {
        reveal_with_fuel(unmarked_from, 16);
        reveal_strlit("afade=t=out:st=");
        lemma_unmarked_from("afade=t=out:st="@, 0);
    }
    assert(reading::unmarked("aformat=sample_fmts=fltp:channel_layouts=stereo"@)) by {
        reveal_with_fuel(unmarked_from, 48);
        reveal_strlit("aformat=sample_fmts=fltp:channel_layouts=stereo");
        lemma_unmarked_from("aformat=sample_fmts=fltp:channel_layouts=stereo"@, 0);
    }
    assert(reading::unmarked("asetpts=PTS-STARTPTS"@)) by {
        reveal_with_fuel(unmarked_from, 21);
        reveal_strlit("asetpts=PTS-STARTPTS");
        lemma_unmarked_from("asetpts=PTS-STARTPTS"@, 0);
    }
    assert(reading::unmarked("anullsrc=r="@)) by {
        reveal_with_fuel(unmarked_from, 12);
        reveal_strlit("anullsrc=r=");
        lemma_unmarked_from("anullsrc=r="@, 0);
    }
    assert(reading::unmarked("amix=inputs=2:duration=first:normalize=0"@)) by {
        reveal_with_fuel(unmarked_from, 41);
        reveal_strlit("amix=inputs=2:duration=first:normalize=0");
        lemma_unmarked_from("amix=inputs=2:duration=first:normalize=0"@, 0);
    }
    assert(reading::unmarked("alimiter=limit=1"@)) by {
        reveal_with_fuel(unmarked_from, 17);
        reveal_strlit("alimiter=limit=1");
        lemma_unmarked_from("alimiter=limit=1"@, 0);
    }
    assert(reading::unmarked(":a"@)) by {
        reveal_with_fuel(unmarked_from, 3);
        reveal_strlit(":a");
        lemma_unmarked_from(":a"@, 0);
    }
    assert(reading::unmarked("m"@)) by {
        reveal_with_fuel(unmarked_from, 2);
        reveal_strlit("m");
        lemma_unmarked_from("m"@, 0);
    }
    assert(reading::unmarked("z"@)) by {
        reveal_with_fuel(unmarked_from, 2);
        reveal_strlit("z");
        lemma_unmarked_from("z"@, 0);
    }
    assert(reading::unmarked("cf"@)) by {
        reveal_with_fuel(unmarked_from, 3);
        reveal_strlit("cf");
        lemma_unmarked_from("cf"@, 0);
    }
    assert(reading::unmarked("a"@)) by {
        reveal_with_fuel(unmarked_from, 2);
        reveal_strlit("a");
        lemma_unmarked_from("a"@, 0);
    }
    assert(reading::unmarked("b"@)) by {
        reveal_with_fuel(unmarked_from, 2);
        reveal_strlit("b");
        lemma_unmarked_from("b"@, 0);
    }
    assert(reading::unmarked("r"@)) by {
        reveal_with_fuel(unmarked_from, 2);
        reveal_strlit("r");
        lemma_unmarked_from("r"@, 0);
    }
    assert(reading::unmarked("mc"@)) by {
        reveal_with_fuel(unmarked_from, 3);
        reveal_strlit("mc");
        lemma_unmarked_from("mc"@, 0);
    }
    assert(reading::unmarked("mv"@)) by {
        reveal_with_fuel(unmarked_from, 3);
        reveal_strlit("mv");
        lemma_unmarked_from("mv"@, 0);
    }
    assert(reading::unmarked("v"@)) by {
        reveal_with_fuel(unmarked_from, 2);
        reveal_strlit("v");
        lemma_unmarked_from("v"@, 0);
    }
    assert(reading::unmarked("out"@)) by {
        reveal_with_fuel(unmarked_from, 4);
        reveal_strlit("out");
        lemma_unmarked_from("out"@, 0);
    }
    assert(reading::unmarked("0:a"@)) by {
        reveal_with_fuel(unmarked_from, 4);
        reveal_strlit("0:a");
        lemma_unmarked_from("0:a"@, 0);
    }
    assert(reading::unmarked(":cl=stereo"@)) by {
        reveal_with_fuel(unmarked_from, 11);
        reveal_strlit(":cl=stereo");
        lemma_unmarked_from(":cl=stereo"@, 0);
    }
    assert(reading::unmarked(":c1=tri:c2=tri"@)) by {
        reveal_with_fuel(unmarked_from, 15);
        reveal_strlit(":c1=tri:c2=tri");
        lemma_unmarked_from(":c1=tri:c2=tri"@, 0);
    }
    assert(reading::unmarked(":v=0:a=1"@)) by {
        reveal_with_fuel(unmarked_from, 9);
        reveal_strlit(":v=0:a=1");
        lemma_unmarked_from(":v=0:a=1"@, 0);
    }
    assert(reading::unmarked("."@)) by {
        reveal_with_fuel(unmarked_from, 2);
        reveal_strlit(".");
        lemma_unmarked_from("."@, 0);
    }
    assert(reading::unmarked("-"@)) by {
        reveal_with_fuel(unmarked_from, 2);
        reveal_strlit("-");
        lemma_unmarked_from("-"@, 0);
    }
    assert(reading::unmarked(":d="@)) by {
        reveal_with_fuel(unmarked_from, 4);
        reveal_strlit(":d=");
        lemma_unmarked_from(":d="@, 0);
    }
}

proof fn lemma_unmarked_fixed6(x: int)
    ensures
        reading::unmarked(number::fixed6(x)),
        reading::lacks(number::fixed6(x), ':'),
{
    lemma_unmarked_words();
    reveal_strlit(".");
    reveal_strlit("-");
    let sign = number::sign_text(x < 0);
    let whole = text::decimal((number::abs(x) / 1_000_000) as nat);
    let part = text::zero_padded(text::decimal((number::abs(x) % 1_000_000) as nat), 6);
    text::lemma_decimal((number::abs(x) / 1_000_000) as nat);
    ffmpeg_laws::lemma_padded_digits((number::abs(x) % 1_000_000) as nat, 6);
    lemma_unmarked_digits(whole);
    lemma_unmarked_digits(part);
    lemma_unmarked_both(sign, whole);
    lemma_unmarked_both(sign + whole, "."@);
    lemma_unmarked_both(sign + whole + "."@, part);
    let s = number::fixed6(x);
    let k = sign.len() as int;
    assert forall|i: int| 0 <= i < s.len() implies #[trigger] s[i] != ':' by {
        if i >= k && i < k + whole.len() {
            assert(s[i] == whole[i - k]);
        } else if i > k + whole.len() {
            assert(s[i] == part[i - k - whole.len() - 1]);
        }
    }
}

/// What one filter adds to what is read.
spec fn picked(own: Seq<char>, name: Seq<char>, v: Seq<char>) -> Seq<Seq<char>> {
    if own == name {
        seq![v]
    } else {
        seq![]
    }
}

/// A filter more at the end of a graph.
proof fn lemma_add_filter(front: Seq<char>, mark: char, own: Seq<char>, v: Seq<char>, name: Seq<char>)
    requires
        reading::is_mark(mark),
        is_filter(own),
        is_name(name),
        reading::unmarked(v),
    ensures
        reading::settings(front.push(mark) + (own + v), name) == reading::settings(front, name)
            + picked(own, name, v),
{
    lemma_unmarked_words();
    lemma_unmarked_both(own, v);
    reading::lemma_settings_cut(front, mark, own + v, name);
    reading::lemma_settings_one(own + v, name);
    lemma_filter_word(own, v, name);
}

/// A label more at the end of a graph.
proof fn lemma_add_label(front: Seq<char>, mark: char, w: Seq<char>, name: Seq<char>)
    requires
        reading::is_mark(mark),
        is_label(w),
        is_name(name),
        reading::unmarked(w),
    ensures
        reading::settings(front.push(mark) + w, name) == reading::settings(front, name),
{
    reading::lemma_settings_cut(front, mark, w, name);
    reading::lemma_settings_one(w, name);
    lemma_label_word(w, name);
    assert(reading::settings(front, name) + Seq::<Seq<char>>::empty() =~= reading::settings(
        front,
        name,
    ));
}

/// A mark at the end of a graph.
proof fn lemma_add_mark(front: Seq<char>, mark: char, name: Seq<char>)
    requires
        reading::is_mark(mark),
        is_name(name),
    ensures
        reading::settings(front.push(mark), name) == reading::settings(front, name),
{
    let none: Seq<char> = seq![];
    lemma_add_label(front, mark, none, name);
    assert(front.push(mark) + none =~= front.push(mark));
}

proof fn lemma_nothing(name: Seq<char>)
    requires
        is_name(name),
    ensures
        reading::settings(seq![], name) == Seq::<Seq<char>>::empty(),
{
    let none: Seq<char> = seq![];
    reading::lemma_settings_one(none, name);
    lemma_label_word(none, name);
}

// ─── Lines ─────────────────────────────────────────────────────

proof fn lemma_format_settings(rate: int, name: Seq<char>)
    requires
        is_name(name),
    ensures
        reading::settings(ffmpeg::common_format(rate), name) == picked(
            "aresample="@,
            name,
            text::decimal(rate as nat),
        ),
{
    let d = text::decimal(rate as nat);
    let none: Seq<char> = seq![];
    let stereo = "aformat=sample_fmts=fltp:channel_layouts=stereo"@;
    reveal_strlit(",aformat=sample_fmts=fltp:channel_layouts=stereo");
    reveal_strlit("aformat=sample_fmts=fltp:channel_layouts=stereo");
    lemma_unmarked_words();
    lemma_unmarked_decimal(rate as nat);
    lemma_unmarked_both("aresample="@, d);
    reading::lemma_settings_one("aresample="@ + d, name);
    lemma_filter_word("aresample="@, d, name);
    lemma_add_filter("aresample="@ + d, ',', stereo, none, name);
    assert(("aresample="@ + d).push(',') + (stereo + none) =~= ffmpeg::common_format(rate));
    lemma_names_differ();
    assert(picked(stereo, name, none) =~= seq![]);
    assert(picked("aresample="@, name, d) + Seq::<Seq<char>>::empty() =~= picked(
        "aresample="@,
        name,
        d,
    ));
}

/// How the names differ.
proof fn lemma_names_differ()
    ensures
        "aresample="@[0] == 'a',
        "aresample="@[1] == 'r',
        "aresample="@[2] == 'e',
        "atrim=0:"@[0] == 'a',
        "atrim=0:"@[1] == 't',
        "atrim=0:"@[2] == 'r',
        "acrossfade=d="@[0] == 'a',
        "acrossfade=d="@[1] == 'c',
        "acrossfade=d="@[2] == 'r',
        "concat=n="@[0] == 'c',
        "concat=n="@[1] == 'o',
        "concat=n="@[2] == 'n',
        "volume="@[0] == 'v',
        "volume="@[1] == 'o',
        "volume="@[2] == 'l',
        "atempo="@[0] == 'a',
        "atempo="@[1] == 't',
        "atempo="@[2] == 'e',
        "afade=t=in:d="@[0] == 'a',
        "afade=t=in:d="@[1] == 'f',
        "afade=t=in:d="@[2] == 'a',
        "afade=t=in:d="@[8] == 'i',
        "afade=t=out:st="@[0] == 'a',
        "afade=t=out:st="@[1] == 'f',
        "afade=t=out:st="@[2] == 'a',
        "afade=t=out:st="@[8] == 'o',
        "aformat=sample_fmts=fltp:channel_layouts=stereo"@[0] == 'a',
        "aformat=sample_fmts=fltp:channel_layouts=stereo"@[1] == 'f',
        "aformat=sample_fmts=fltp:channel_layouts=stereo"@[2] == 'o',
        "asetpts=PTS-STARTPTS"@[0] == 'a',
        "asetpts=PTS-STARTPTS"@[1] == 's',
        "asetpts=PTS-STARTPTS"@[2] == 'e',
        "anullsrc=r="@[0] == 'a',
        "anullsrc=r="@[1] == 'n',
        "anullsrc=r="@[2] == 'u',
        "amix=inputs=2:duration=first:normalize=0"@[0] == 'a',
        "amix=inputs=2:duration=first:normalize=0"@[1] == 'm',
        "amix=inputs=2:duration=first:normalize=0"@[2] == 'i',
        "alimiter=limit=1"@[0] == 'a',
        "alimiter=limit=1"@[1] == 'l',
        "alimiter=limit=1"@[2] == 'i',
{
    reveal_strlit("aresample=");
    reveal_strlit("atrim=0:");
    reveal_strlit("acrossfade=d=");
    reveal_strlit("concat=n=");
    reveal_strlit("volume=");
    reveal_strlit("atempo=");
    reveal_strlit("afade=t=in:d=");
    reveal_strlit("afade=t=out:st=");
    reveal_strlit("aformat=sample_fmts=fltp:channel_layouts=stereo");
    reveal_strlit("asetpts=PTS-STARTPTS");
    reveal_strlit("anullsrc=r=");
    reveal_strlit("amix=inputs=2:duration=first:normalize=0");
    reveal_strlit("alimiter=limit=1");
}

/// Whether a label is one that pieces of music get.
spec fn is_piece_label(w: Seq<char>) -> bool {
    reading::unmarked(w) && w.len() > 1 && (w[0] == 'm' || w[0] == 'z' || w[0] == 'c' && w[1] == 'f')
}

proof fn lemma_input_settings(n: nat, rate: int, label: Seq<char>, name: Seq<char>)
    requires
        is_name(name),
        is_piece_label(label),
    ensures
        reading::settings(
            ffmpeg::input_filter(n, ffmpeg::common_format(rate), label),
            name,
        ) == picked("aresample="@, name, text::decimal(rate as nat)),
{
    let format = ffmpeg::common_format(rate);
    let d = text::decimal(n);
    let none: Seq<char> = seq![];
    let reset = "asetpts=PTS-STARTPTS"@;
    reveal_strlit("[");
    reveal_strlit("]");
    reveal_strlit(":a");
    reveal_strlit(":a]");
    reveal_strlit("asetpts=PTS-STARTPTS");
    reveal_strlit(",asetpts=PTS-STARTPTS[");
    lemma_unmarked_words();
    lemma_unmarked_decimal(n);
    lemma_unmarked_both(d, ":a"@);
    lemma_names_differ();
    lemma_nothing(name);
    lemma_format_settings(rate, name);
    assert((d + ":a"@)[0] == d[0]);
    let a = none.push('[') + (d + ":a"@);
    lemma_add_label(none, '[', d + ":a"@, name);
    let b = a.push(']') + format;
    reading::lemma_settings_cut(a, ']', format, name);
    let c = b.push(',') + (reset + none);
    lemma_add_filter(b, ',', reset, none, name);
    let e = c.push('[') + label;
    lemma_add_label(c, '[', label, name);
    lemma_add_mark(e, ']', name);
    assert("["@ + d + ":a]"@ =~= a.push(']'));
    assert("["@ + d + ":a]"@ + format + ",asetpts=PTS-STARTPTS["@ =~= c.push('['));
    assert(ffmpeg::input_filter(n, format, label) =~= e.push(']'));
    let got = picked("aresample="@, name, text::decimal(rate as nat));
    assert(Seq::<Seq<char>>::empty() + got =~= got);
    assert(got + picked(reset, name, none) =~= got);
}

proof fn lemma_silence_settings(rate: int, duration: int, label: Seq<char>, name: Seq<char>)
    requires
        is_name(name),
        is_piece_label(label),
    ensures
        reading::settings(ffmpeg::silence_filter(rate, duration, label), name) == picked(
            "atrim=0:"@,
            name,
            number::fixed6(duration),
        ),
{
    let d = text::decimal(rate as nat);
    let t = number::fixed6(duration);
    let none: Seq<char> = seq![];
    let reset = "asetpts=PTS-STARTPTS"@;
    let stereo = "aformat=sample_fmts=fltp:channel_layouts=stereo"@;
    reveal_strlit("r");
    reveal_strlit("]");
    reveal_strlit("r];[");
    reveal_strlit("r]atrim=0:");
    reveal_strlit("atrim=0:");
    reveal_strlit(":cl=stereo");
    reveal_strlit(":cl=stereo[");
    reveal_strlit("asetpts=PTS-STARTPTS");
    reveal_strlit("aformat=sample_fmts=fltp:channel_layouts=stereo");
    reveal_strlit(",asetpts=PTS-STARTPTS,aformat=sample_fmts=fltp:channel_layouts=stereo[");
    lemma_unmarked_words();
    lemma_unmarked_decimal(rate as nat);
    lemma_unmarked_fixed6(duration);
    lemma_unmarked_both(d, ":cl=stereo"@);
    lemma_unmarked_both("anullsrc=r="@, d + ":cl=stereo"@);
    lemma_unmarked_both(label, "r"@);
    lemma_names_differ();
    let raw = label + "r"@;
    assert(raw[0] == label[0] && raw[1] == label[1]);
    let a = "anullsrc=r="@ + (d + ":cl=stereo"@);
    reading::lemma_settings_one(a, name);
    lemma_filter_word("anullsrc=r="@, d + ":cl=stereo"@, name);
    let b = a.push('[') + raw;
    lemma_add_label(a, '[', raw, name);
    lemma_add_mark(b, ']', name);
    lemma_add_mark(b.push(']'), ';', name);
    let c = b.push(']').push(';').push('[') + raw;
    lemma_add_label(b.push(']').push(';'), '[', raw, name);
    let e = c.push(']') + ("atrim=0:"@ + t);
    lemma_add_filter(c, ']', "atrim=0:"@, t, name);
    let f = e.push(',') + (reset + none);
    lemma_add_filter(e, ',', reset, none, name);
    let g = f.push(',') + (stereo + none);
    lemma_add_filter(f, ',', stereo, none, name);
    let h = g.push('[') + label;
    lemma_add_label(g, '[', label, name);
    lemma_add_mark(h, ']', name);
    assert("anullsrc=r="@ + d + ":cl=stereo["@ =~= a.push('['));
    assert("anullsrc=r="@ + d + ":cl=stereo["@ + label + "r];["@ =~= b.push(']').push(';').push('['));
    assert("anullsrc=r="@ + d + ":cl=stereo["@ + label + "r];["@ + label + "r]atrim=0:"@ + t =~= e);
    assert(",asetpts=PTS-STARTPTS,aformat=sample_fmts=fltp:channel_layouts=stereo["@ =~= none.push(
        ',',
    ) + reset + none.push(',') + stereo + none.push('['));
    assert(ffmpeg::silence_filter(rate, duration, label) =~= h.push(']'));
    let got = picked("atrim=0:"@, name, t);
    assert(Seq::<Seq<char>>::empty() + got =~= got);
    assert(got + picked(reset, name, none) =~= got);
    assert(got + picked(stereo, name, none) =~= got);
}

proof fn lemma_crossfade_settings(
    from: Seq<char>,
    into: Seq<char>,
    overlap: int,
    label: Seq<char>,
    name: Seq<char>,
)
    requires
        is_name(name),
        is_piece_label(from),
        is_piece_label(into),
        is_piece_label(label),
    ensures
        reading::settings(ffmpeg::crossfade_filter(from, into, overlap, label), name) == picked(
            "acrossfade=d="@,
            name,
            number::fixed6(overlap) + ":c1=tri:c2=tri"@,
        ),
{
    let t = number::fixed6(overlap);
    let v = t + ":c1=tri:c2=tri"@;
    let none: Seq<char> = seq![];
    reveal_strlit("[");
    reveal_strlit("][");
    reveal_strlit("]");
    reveal_strlit("acrossfade=d=");
    reveal_strlit("]acrossfade=d=");
    reveal_strlit(":c1=tri:c2=tri");
    reveal_strlit(":c1=tri:c2=tri[");
    lemma_unmarked_words();
    lemma_unmarked_fixed6(overlap);
    lemma_unmarked_both(t, ":c1=tri:c2=tri"@);
    lemma_nothing(name);
    let a = none.push('[') + from;
    lemma_add_label(none, '[', from, name);
    lemma_add_mark(a, ']', name);
    let b = a.push(']').push('[') + into;
    lemma_add_label(a.push(']'), '[', into, name);
    let c = b.push(']') + ("acrossfade=d="@ + v);
    lemma_add_filter(b, ']', "acrossfade=d="@, v, name);
    let d = c.push('[') + label;
    lemma_add_label(c, '[', label, name);
    lemma_add_mark(d, ']', name);
    assert("["@ + from + "]["@ + into =~= b);
    assert("["@ + from + "]["@ + into + "]acrossfade=d="@ + t + ":c1=tri:c2=tri["@ =~= c.push('['));
    assert(ffmpeg::crossfade_filter(from, into, overlap, label) =~= d.push(']'));
    let got = picked("acrossfade=d="@, name, v);
    assert(Seq::<Seq<char>>::empty() + got =~= got);
}

// ─── Graphs ────────────────────────────────────────────────────

/// Two parts of a graph with a mark between them are read one after the other.
proof fn lemma_both(a: Seq<char>, b: Seq<char>, name: Seq<char>)
    requires
        is_name(name),
        (a.len() > 0 && reading::is_mark(a.last())) || (b.len() > 0 && reading::is_mark(b[0])),
    ensures
        reading::settings(a + b, name) == reading::settings(a, name) + reading::settings(b, name),
{
    if a.len() > 0 && reading::is_mark(a.last()) {
        let front = a.drop_last();
        reading::lemma_settings_cut(front, a.last(), b, name);
        lemma_add_mark(front, a.last(), name);
        assert(front.push(a.last()) =~= a);
    } else {
        let rest = b.skip(1);
        let none: Seq<char> = seq![];
        reading::lemma_settings_cut(a, b[0], rest, name);
        reading::lemma_settings_cut(none, b[0], rest, name);
        lemma_nothing(name);
        assert(a.push(b[0]) + rest =~= a + b);
        assert(none.push(b[0]) + rest =~= b);
        assert(Seq::<Seq<char>>::empty() + reading::settings(rest, name) =~= reading::settings(
            rest,
            name,
        ));
    }
}

/// What is read of several texts, one after the other.
spec fn all_settings(parts: Seq<Seq<char>>, name: Seq<char>) -> Seq<Seq<char>>
    decreases parts.len(),
{
    if parts.len() == 0 {
        seq![]
    } else {
        all_settings(parts.drop_last(), name) + reading::settings(parts.last(), name)
    }
}

proof fn lemma_joined_settings(parts: Seq<Seq<char>>, sep: Seq<char>, name: Seq<char>)
    requires
        is_name(name),
        sep.len() == 1,
        reading::is_mark(sep[0]),
    ensures
        reading::settings(text::joined(parts, sep), name) == all_settings(parts, name),
    decreases parts.len(),
{
    let none: Seq<Seq<char>> = seq![];
    if parts.len() == 0 {
        lemma_nothing(name);
    } else if parts.len() == 1 {
        assert(all_settings(parts.drop_last(), name) =~= none);
        assert(none + reading::settings(parts[0], name) =~= reading::settings(parts[0], name));
    } else {
        let front = parts.drop_last();
        lemma_joined_settings(front, sep, name);
        reading::lemma_settings_cut(text::joined(front, sep), sep[0], parts.last(), name);
        assert(text::joined(front, sep).push(sep[0]) + parts.last() =~= text::joined(parts, sep));
    }
}

/// What one piece of music adds to what is read.
spec fn piece_settings(p: Piece, rate: int, name: Seq<char>) -> Seq<Seq<char>> {
    let resampled = picked("aresample="@, name, text::decimal(rate as nat));
    match p {
        Piece::Segment { .. } => resampled,
        Piece::Silence { duration } => picked("atrim=0:"@, name, number::fixed6(duration)),
        Piece::Crossfade { overlap, .. } => resampled + resampled + picked(
            "acrossfade=d="@,
            name,
            number::fixed6(overlap) + ":c1=tri:c2=tri"@,
        ),
    }
}

spec fn pieces_settings(pieces: Seq<Piece>, rate: int, name: Seq<char>) -> Seq<Seq<char>>
    decreases pieces.len(),
{
    if pieces.len() == 0 {
        seq![]
    } else {
        pieces_settings(pieces.drop_last(), rate, name) + piece_settings(pieces.last(), rate, name)
    }
}

/// Whether all labels of a graph are labels in brackets.
spec fn labels_ok(labels: Seq<Seq<char>>) -> bool {
    forall|i: int| 0 <= i < labels.len() ==> is_bracketed(#[trigger] labels[i])
}

spec fn is_bracketed(label: Seq<char>) -> bool {
    exists|l: Seq<char>| is_piece_label(l) && label == #[trigger] ffmpeg::bracketed(l)
}

proof fn lemma_piece_labels(n: nat)
    ensures
        is_piece_label("m"@ + text::decimal(n)),
        is_piece_label("z"@ + text::decimal(n)),
        is_piece_label("cf"@ + text::decimal(n)),
        is_piece_label("cf"@ + text::decimal(n) + "a"@),
        is_piece_label("cf"@ + text::decimal(n) + "b"@),
{
    reveal_strlit("m");
    reveal_strlit("z");
    reveal_strlit("cf");
    reveal_strlit("a");
    reveal_strlit("b");
    lemma_unmarked_words();
    lemma_unmarked_decimal(n);
    let d = text::decimal(n);
    lemma_unmarked_both("m"@, d);
    lemma_unmarked_both("z"@, d);
    lemma_unmarked_both("cf"@, d);
    lemma_unmarked_both("cf"@ + d, "a"@);
    lemma_unmarked_both("cf"@ + d, "b"@);
    assert(("m"@ + d)[0] == 'm' && ("z"@ + d)[0] == 'z');
    assert(("cf"@ + d)[0] == 'c' && ("cf"@ + d)[1] == 'f');
    assert(("cf"@ + d + "a"@)[0] == 'c' && ("cf"@ + d + "a"@)[1] == 'f');
    assert(("cf"@ + d + "b"@)[0] == 'c' && ("cf"@ + d + "b"@)[1] == 'f');
}

proof fn lemma_push_settings(parts: Seq<Seq<char>>, x: Seq<char>, name: Seq<char>)
    ensures
        all_settings(parts.push(x), name) == all_settings(parts, name) + reading::settings(x, name),
{
    assert(parts.push(x).drop_last() =~= parts);
}

proof fn lemma_graph_settings(pieces: Seq<Piece>, rate: int, name: Seq<char>)
    requires
        is_name(name),
    ensures
        ({
            let g = ffmpeg::music_graph(pieces, ffmpeg::common_format(rate), rate);
            &&& all_settings(g.lines, name) == pieces_settings(pieces, rate, name)
            &&& labels_ok(g.labels)
            &&& g.labels.len() == pieces.len()
        }),
    decreases pieces.len(),
{
    if pieces.len() > 0 {
        let format = ffmpeg::common_format(rate);
        let before = ffmpeg::music_graph(pieces.drop_last(), format, rate);
        let g = ffmpeg::music_graph(pieces, format, rate);
        let had = pieces_settings(pieces.drop_last(), rate, name);
        lemma_graph_settings(pieces.drop_last(), rate, name);
        lemma_names_differ();
        let label = match pieces.last() {
            Piece::Segment { file, start, duration } => {
                let label = "m"@ + text::decimal(before.next_input);
                lemma_piece_labels(before.next_input);
                lemma_input_settings(before.next_input, rate, label, name);
                lemma_push_settings(
                    before.lines,
                    ffmpeg::input_filter(before.next_input, format, label),
                    name,
                );
                label
            },
            Piece::Silence { duration } => {
                let label = "z"@ + text::decimal(before.silences);
                lemma_piece_labels(before.silences);
                lemma_silence_settings(rate, duration, label, name);
                lemma_push_settings(
                    before.lines,
                    ffmpeg::silence_filter(rate, duration, label),
                    name,
                );
                label
            },
            Piece::Crossfade { file1, start1, dur1, file2, start2, dur2, overlap } => {
                let label = "cf"@ + text::decimal(before.crossfades);
                let from = label + "a"@;
                let into = label + "b"@;
                let x = ffmpeg::input_filter(before.next_input, format, from);
                let y = ffmpeg::input_filter(before.next_input + 1, format, into);
                let z = ffmpeg::crossfade_filter(from, into, overlap, label);
                lemma_piece_labels(before.crossfades);
                lemma_input_settings(before.next_input, rate, from, name);
                lemma_input_settings(before.next_input + 1, rate, into, name);
                lemma_crossfade_settings(from, into, overlap, label, name);
                lemma_push_settings(before.lines, x, name);
                lemma_push_settings(before.lines.push(x), y, name);
                lemma_push_settings(before.lines.push(x).push(y), z, name);
                let r = picked("aresample="@, name, text::decimal(rate as nat));
                let v = picked(
                    "acrossfade=d="@,
                    name,
                    number::fixed6(overlap) + ":c1=tri:c2=tri"@,
                );
                assert(had + r + r + v =~= had + (r + r + v));
                label
            },
        };
        assert(g.labels =~= before.labels.push(ffmpeg::bracketed(label)));
        assert forall|i: int| 0 <= i < g.labels.len() implies is_bracketed(
            #[trigger] g.labels[i],
        ) by {
            if i < before.labels.len() {
                assert(is_bracketed(before.labels[i]));
            } else {
                assert(is_piece_label(label));
            }
        }
    }
}

proof fn lemma_label_settings(label: Seq<char>, name: Seq<char>)
    requires
        is_name(name),
        is_bracketed(label),
    ensures
        reading::settings(label, name) == Seq::<Seq<char>>::empty(),
        label.len() > 0,
        reading::is_mark(label[0]),
        reading::is_mark(label.last()),
{
    let l = choose|l: Seq<char>| is_piece_label(l) && label == #[trigger] ffmpeg::bracketed(l);
    let none: Seq<char> = seq![];
    reveal_strlit("[");
    reveal_strlit("]");
    lemma_nothing(name);
    lemma_add_label(none, '[', l, name);
    lemma_add_mark(none.push('[') + l, ']', name);
    assert((none.push('[') + l).push(']') =~= label);
    assert(label[0] == '[' && label.last() == ']');
}

proof fn lemma_labels_settings(labels: Seq<Seq<char>>, name: Seq<char>)
    requires
        is_name(name),
        labels_ok(labels),
    ensures
        reading::settings(text::joined(labels, ""@), name) == Seq::<Seq<char>>::empty(),
        labels.len() > 0 ==> text::joined(labels, ""@).len() > 0 && reading::is_mark(
            text::joined(labels, ""@).last(),
        ) && reading::is_mark(text::joined(labels, ""@)[0]),
    decreases labels.len(),
{
    reveal_strlit("");
    if labels.len() == 0 {
        lemma_nothing(name);
    } else {
        let front = labels.drop_last();
        assert(is_bracketed(labels[labels.len() - 1]));
        lemma_label_settings(labels.last(), name);
        assert forall|i: int| 0 <= i < front.len() implies is_bracketed(#[trigger] front[i]) by {
            assert(is_bracketed(labels[i]));
        }
        lemma_labels_settings(front, name);
        if labels.len() > 1 {
            let s = text::joined(front, ""@);
            lemma_both(s, labels.last(), name);
            assert(text::joined(labels, ""@) =~= s + labels.last());
            assert(text::joined(labels, ""@).last() == labels.last().last());
            assert(text::joined(labels, ""@)[0] == s[0]);
            let none: Seq<Seq<char>> = seq![];
            assert(none + none =~= none);
        }
    }
}

proof fn lemma_chain_settings(labels: Seq<Seq<char>>, name: Seq<char>)
    requires
        is_name(name),
        labels_ok(labels),
        labels.len() > 0,
    ensures
        reading::settings(ffmpeg::music_chain(labels), name) == if labels.len() == 1 {
            seq![]
        } else {
            picked("concat=n="@, name, text::decimal(labels.len()) + ":v=0:a=1"@)
        },
        ffmpeg::music_chain(labels).len() > 0,
        reading::is_mark(ffmpeg::music_chain(labels).last()),
{
    assert(is_bracketed(labels[0]));
    lemma_label_settings(labels[0], name);
    if labels.len() > 1 {
        let all = text::joined(labels, ""@);
        let v = text::decimal(labels.len()) + ":v=0:a=1"@;
        reveal_strlit("mc");
        reveal_strlit(":v=0:a=1");
        reveal_strlit(":v=0:a=1[mc];[mc]");
        lemma_labels_settings(labels, name);
        lemma_unmarked_words();
        lemma_unmarked_decimal(labels.len());
        lemma_unmarked_both(text::decimal(labels.len()), ":v=0:a=1"@);
        let front = all.drop_last();
        let a = front.push(all.last()) + ("concat=n="@ + v);
        lemma_add_filter(front, all.last(), "concat=n="@, v, name);
        lemma_add_mark(front, all.last(), name);
        assert(front.push(all.last()) =~= all);
        let b = a.push('[') + "mc"@;
        lemma_add_label(a, '[', "mc"@, name);
        lemma_add_mark(b, ']', name);
        lemma_add_mark(b.push(']'), ';', name);
        let c = b.push(']').push(';').push('[') + "mc"@;
        lemma_add_label(b.push(']').push(';'), '[', "mc"@, name);
        lemma_add_mark(c, ']', name);
        assert(ffmpeg::music_chain(labels) =~= c.push(']'));
        let got = picked("concat=n="@, name, v);
        assert(Seq::<Seq<char>>::empty() + got =~= got);
    }
}

/// What the fades add to what is read.
spec fn fade_settings(c: OverlayConfig, duration: int, name: Seq<char>) -> Seq<Seq<char>> {
    (if c.music_fade_in > TICK {
        picked("afade=t=in:d="@, name, number::fixed6(c.music_fade_in as int))
    } else {
        seq![]
    }) + (if c.music_fade_out > TICK {
        picked(
            "afade=t=out:st="@,
            name,
            number::fixed6(fade_out_start(c, duration)) + ":d="@ + number::fixed6(
                c.music_fade_out as int,
            ),
        )
    } else {
        seq![]
    })
}

/// Where the music starts to fade out: so that it has faded at the end of the file, but not
/// before the file starts.
pub open spec fn fade_out_start(c: OverlayConfig, duration: int) -> int {
    if duration <= c.music_fade_out {
        0
    } else {
        duration - c.music_fade_out
    }
}

proof fn lemma_fade_settings(c: OverlayConfig, duration: int, name: Seq<char>)
    requires
        is_name(name),
    ensures
        reading::settings(ffmpeg::fade_filters(c, duration), name) == fade_settings(
            c,
            duration,
            name,
        ),
        ffmpeg::fade_filters(c, duration).len() > 0 ==> reading::is_mark(
            ffmpeg::fade_filters(c, duration).last(),
        ),
{
    let none: Seq<char> = seq![];
    let nothing: Seq<Seq<char>> = seq![];
    let x = number::fixed6(c.music_fade_in as int);
    let st = number::fixed6(fade_out_start(c, duration));
    let y = number::fixed6(c.music_fade_out as int);
    let v = st + ":d="@ + y;
    reveal_strlit(",");
    lemma_unmarked_words();
    lemma_unmarked_fixed6(c.music_fade_in as int);
    lemma_unmarked_fixed6(fade_out_start(c, duration));
    lemma_unmarked_fixed6(c.music_fade_out as int);
    lemma_unmarked_both(st, ":d="@);
    lemma_unmarked_both(st + ":d="@, y);
    lemma_unmarked_both("afade=t=in:d="@, x);
    lemma_unmarked_both("afade=t=out:st="@, v);
    let one = "afade=t=in:d="@ + x;
    let two = "afade=t=out:st="@ + v;
    reading::lemma_settings_one(one, name);
    reading::lemma_settings_one(two, name);
    lemma_filter_word("afade=t=in:d="@, x, name);
    lemma_filter_word("afade=t=out:st="@, v, name);
    lemma_add_mark(one, ',', name);
    lemma_add_mark(two, ',', name);
    lemma_nothing(name);
    let first = if c.music_fade_in > TICK {
        one.push(',')
    } else {
        none
    };
    let second = if c.music_fade_out > TICK {
        two.push(',')
    } else {
        none
    };
    assert("afade=t=in:d="@ + x + ","@ =~= one.push(','));
    assert("afade=t=out:st="@ + st + ":d="@ + y + ","@ =~= two.push(','));
    assert(ffmpeg::fade_filters(c, duration) =~= first + second);
    if c.music_fade_in > TICK {
        lemma_both(first, second, name);
        if c.music_fade_out > TICK {
            assert((first + second).last() == second.last());
        } else {
            assert(first + second =~= first);
        }
    } else {
        assert(first + second =~= second);
        assert(nothing + reading::settings(second, name) =~= reading::settings(second, name));
    }
}

// ─── The voice ─────────────────────────────────────────────────

/// The factor at place `i` of a tempo chain, as it is written.
spec fn factor_text(speed: int, i: int) -> Seq<char> {
    let factors = ffmpeg::tempo_factors(speed);
    if i < factors.len() - 1 {
        if speed > 2_000_000 {
            "2.0"@
        } else {
            "0.5"@
        }
    } else {
        number::fixed6(factors[i])
    }
}

/// The factors of a tempo chain, as they are written.
spec fn factor_texts(speed: int) -> Seq<Seq<char>> {
    if ffmpeg::is_normal_speed(speed) {
        seq![]
    } else {
        Seq::new(ffmpeg::tempo_factors(speed).len(), |i: int| factor_text(speed, i))
    }
}

proof fn lemma_factor_word(speed: int, i: int)
    ensures
        ffmpeg::tempo_part(speed, i) == "atempo="@ + factor_text(speed, i),
        0 <= i < ffmpeg::tempo_factors(speed).len() ==> reading::unmarked(factor_text(speed, i))
            && reading::lacks(factor_text(speed, i), ':'),
{
    reveal_strlit("atempo=");
    reveal_strlit("2.0");
    reveal_strlit("0.5");
    reveal_strlit("atempo=2.0");
    reveal_strlit("atempo=0.5");
    assert("atempo=2.0"@ =~= "atempo="@ + "2.0"@);
    assert("atempo=0.5"@ =~= "atempo="@ + "0.5"@);
    assert forall|k: int| 0 <= k < 3 implies !reading::is_mark(#[trigger] "2.0"@[k])
        && !reading::is_mark("0.5"@[k]) && "2.0"@[k] != ':' && "0.5"@[k] != ':' by {
        assert(k == 0 || k == 1 || k == 2);
    }
    assert forall|k: int| 0 <= k < "0.5"@.len() implies !reading::is_mark(#[trigger] "0.5"@[k])
        && "0.5"@[k] != ':' by {
        assert(!reading::is_mark("2.0"@[k]));
    }
    let factors = ffmpeg::tempo_factors(speed);
    if 0 <= i < factors.len() {
        lemma_unmarked_fixed6(factors[i]);
    }
}

proof fn lemma_tempo_settings(speed: int, name: Seq<char>)
    requires
        is_name(name),
    ensures
        reading::settings(ffmpeg::tempo_chain(speed), name) == if name == "atempo="@ {
            factor_texts(speed)
        } else {
            seq![]
        },
{
    let none: Seq<Seq<char>> = seq![];
    if ffmpeg::is_normal_speed(speed) {
        lemma_nothing(name);
        assert(factor_texts(speed) =~= none);
    } else {
        let n = ffmpeg::tempo_factors(speed).len();
        let parts = Seq::new(n, |i: int| ffmpeg::tempo_part(speed, i));
        reveal_strlit(",");
        lemma_joined_settings(parts, ","@, name);
        lemma_parts_settings(speed, n, name);
        assert(parts =~= Seq::new(n, |i: int| ffmpeg::tempo_part(speed, i)));
    }
}

proof fn lemma_parts_settings(speed: int, k: nat, name: Seq<char>)
    requires
        is_name(name),
        k <= ffmpeg::tempo_factors(speed).len(),
    ensures
        all_settings(Seq::new(k, |i: int| ffmpeg::tempo_part(speed, i)), name) == if name
            == "atempo="@ {
            Seq::new(k, |i: int| factor_text(speed, i))
        } else {
            seq![]
        },
    decreases k,
{
    let parts = Seq::new(k, |i: int| ffmpeg::tempo_part(speed, i));
    let texts = Seq::new(k, |i: int| factor_text(speed, i));
    let none: Seq<Seq<char>> = seq![];
    if k == 0 {
        assert(texts =~= none);
    } else {
        let j = (k - 1) as nat;
        let v = factor_text(speed, j as int);
        lemma_parts_settings(speed, j, name);
        assert(parts.drop_last() =~= Seq::new(j, |i: int| ffmpeg::tempo_part(speed, i)));
        lemma_factor_word(speed, j as int);
        lemma_unmarked_words();
        lemma_unmarked_both("atempo="@, v);
        reading::lemma_settings_one("atempo="@ + v, name);
        lemma_filter_word("atempo="@, v, name);
        lemma_names_differ();
        assert(Seq::new(j, |i: int| factor_text(speed, i)) + seq![v] =~= texts);
        assert(none + none =~= none);
    }
}

/// What the voice's part adds to what is read.
spec fn voice_settings(c: OverlayConfig, name: Seq<char>) -> Seq<Seq<char>> {
    picked("aresample="@, name, text::decimal(c.sample_rate as nat)) + (if name == "atempo="@ {
        factor_texts(c.speed as int)
    } else {
        seq![]
    })
}

proof fn lemma_voice_settings(c: OverlayConfig, name: Seq<char>)
    requires
        is_name(name),
        c.speed > 0,
    ensures
        reading::settings(ffmpeg::voice_filter(c), name) == voice_settings(c, name),
{
    let format = ffmpeg::common_format(c.sample_rate as int);
    let tempo = ffmpeg::tempo_chain(c.speed as int);
    lemma_format_settings(c.sample_rate as int, name);
    lemma_tempo_settings(c.speed as int, name);
    if tempo.len() == 0 {
        assert(tempo =~= seq![]);
        lemma_nothing(name);
        assert(reading::settings(format, name) + Seq::<Seq<char>>::empty() =~= reading::settings(
            format,
            name,
        ));
    } else {
        reveal_strlit(",");
        reading::lemma_settings_cut(format, ',', tempo, name);
        assert(format + ","@ + tempo =~= format.push(',') + tempo);
    }
}

proof fn lemma_tail_settings(name: Seq<char>)
    requires
        is_name(name),
    ensures
        reading::settings(
            "[v];[v][mv]amix=inputs=2:duration=first:normalize=0,alimiter=limit=1[out]"@,
            name,
        ) == Seq::<Seq<char>>::empty(),
        reading::settings("[mv];[0:a]"@, name) == Seq::<Seq<char>>::empty(),
        reading::is_mark(
            "[v];[v][mv]amix=inputs=2:duration=first:normalize=0,alimiter=limit=1[out]"@[0],
        ),
        "[v];[v][mv]amix=inputs=2:duration=first:normalize=0,alimiter=limit=1[out]"@.len() > 0,
        "[mv];[0:a]"@.len() == 10,
        "[mv];[0:a]"@[0] == '[',
        "[mv];[0:a]"@[9] == ']',
{
    let none: Seq<char> = seq![];
    let nothing: Seq<Seq<char>> = seq![];
    let amix = "amix=inputs=2:duration=first:normalize=0"@;
    let limit = "alimiter=limit=1"@;
    reveal_strlit("v");
    reveal_strlit("mv");
    reveal_strlit("out");
    reveal_strlit("0:a");
    reveal_strlit("[mv];[0:a]");
    reveal_strlit("amix=inputs=2:duration=first:normalize=0");
    reveal_strlit("alimiter=limit=1");
    reveal_strlit("[v];[v][mv]amix=inputs=2:duration=first:normalize=0,alimiter=limit=1[out]");
    lemma_unmarked_words();
    lemma_names_differ();
    lemma_nothing(name);
    let p = none.push('[') + "mv"@;
    lemma_add_label(none, '[', "mv"@, name);
    lemma_add_mark(p, ']', name);
    lemma_add_mark(p.push(']'), ';', name);
    let q = p.push(']').push(';').push('[') + "0:a"@;
    lemma_add_label(p.push(']').push(';'), '[', "0:a"@, name);
    lemma_add_mark(q, ']', name);
    assert("[mv];[0:a]"@ =~= q.push(']'));
    let a = none.push('[') + "v"@;
    lemma_add_label(none, '[', "v"@, name);
    lemma_add_mark(a, ']', name);
    lemma_add_mark(a.push(']'), ';', name);
    let b = a.push(']').push(';').push('[') + "v"@;
    lemma_add_label(a.push(']').push(';'), '[', "v"@, name);
    lemma_add_mark(b, ']', name);
    let c = b.push(']').push('[') + "mv"@;
    lemma_add_label(b.push(']'), '[', "mv"@, name);
    let d = c.push(']') + (amix + none);
    lemma_add_filter(c, ']', amix, none, name);
    let e = d.push(',') + (limit + none);
    lemma_add_filter(d, ',', limit, none, name);
    let f = e.push('[') + "out"@;
    lemma_add_label(e, '[', "out"@, name);
    lemma_add_mark(f, ']', name);
    assert("[v];[v][mv]amix=inputs=2:duration=first:normalize=0,alimiter=limit=1[out]"@ =~= f.push(
        ']',
    ));
    assert(picked(amix, name, none) =~= nothing);
    assert(picked(limit, name, none) =~= nothing);
    assert(nothing + nothing =~= nothing);
}

// ─── The whole graph ───────────────────────────────────────────

/// All that is read of a graph.
spec fn overlay_settings(
    pieces: Seq<Piece>,
    c: OverlayConfig,
    duration: int,
    name: Seq<char>,
) -> Seq<Seq<char>> {
    pieces_settings(pieces, c.sample_rate as int, name) + (if pieces.len() == 1 {
        seq![]
    } else {
        picked("concat=n="@, name, text::decimal(pieces.len()) + ":v=0:a=1"@)
    }) + fade_settings(c, duration, name) + picked(
        "volume="@,
        name,
        number::fixed6(c.volume as int),
    ) + voice_settings(c, name)
}

proof fn lemma_overlay_settings(pieces: Seq<Piece>, c: OverlayConfig, duration: int, name: Seq<char>)
    requires
        is_name(name),
        pieces.len() > 0,
        c.speed > 0,
    ensures
        reading::settings(ffmpeg::overlay_filter(pieces, c, duration), name) == overlay_settings(
            pieces,
            c,
            duration,
            name,
        ),
{
    let rate = c.sample_rate as int;
    let g = ffmpeg::music_graph(pieces, ffmpeg::common_format(rate), rate);
    let none: Seq<Seq<char>> = seq![];
    let v = number::fixed6(c.volume as int);
    reveal_strlit(";");
    lemma_graph_settings(pieces, rate, name);
    lemma_joined_settings(g.lines, ";"@, name);
    lemma_chain_settings(g.labels, name);
    lemma_fade_settings(c, duration, name);
    lemma_unmarked_words();
    lemma_unmarked_fixed6(c.volume as int);
    lemma_unmarked_both("volume="@, v);
    reading::lemma_settings_one("volume="@ + v, name);
    lemma_filter_word("volume="@, v, name);
    lemma_voice_settings(c, name);
    lemma_tail_settings(name);
    let lines = text::joined(g.lines, ";"@);
    let a = lines + ";"@;
    lemma_add_mark(lines, ';', name);
    assert(a =~= lines.push(';'));
    let b = a + ffmpeg::music_chain(g.labels);
    lemma_both(a, ffmpeg::music_chain(g.labels), name);
    assert(b.last() == ffmpeg::music_chain(g.labels).last());
    let d = b + ffmpeg::fade_filters(c, duration);
    lemma_both(b, ffmpeg::fade_filters(c, duration), name);
    if ffmpeg::fade_filters(c, duration).len() == 0 {
        assert(d =~= b);
    } else {
        assert(d.last() == ffmpeg::fade_filters(c, duration).last());
    }
    let e = d + ("volume="@ + v);
    lemma_both(d, "volume="@ + v, name);
    let f = e + "[mv];[0:a]"@;
    lemma_both(e, "[mv];[0:a]"@, name);
    assert(f.last() == "[mv];[0:a]"@[9]);
    let h = f + ffmpeg::voice_filter(c);
    lemma_both(f, ffmpeg::voice_filter(c), name);
    lemma_both(
        h,
        "[v];[v][mv]amix=inputs=2:duration=first:normalize=0,alimiter=limit=1[out]"@,
        name,
    );
    assert(d + "volume="@ + v =~= e);
    let chain = if pieces.len() == 1 {
        none
    } else {
        picked("concat=n="@, name, text::decimal(pieces.len()) + ":v=0:a=1"@)
    };
    assert(reading::settings(e, name) + none =~= reading::settings(e, name));
    assert(reading::settings(h, name) + none =~= reading::settings(h, name));
}

// ─── Laws ──────────────────────────────────────────────────────

/// What is written with six digits behind the point is read, whatever follows a colon.
proof fn lemma_millionths(x: int, rest: Seq<char>)
    requires
        -i64::MAX <= x <= i64::MAX,
        rest.len() > 0 ==> rest[0] == ':',
    ensures
        reading::millionths(number::fixed6(x) + rest) == Some(x),
{
    let t = number::fixed6(x);
    lemma_unmarked_fixed6(x);
    reading::lemma_split_one(t, ':');
    number_laws::law_six_places_read_back(x);
    if rest.len() == 0 {
        assert(t + rest =~= t);
    } else {
        let tail = rest.skip(1);
        reading::lemma_split_cut(t, ':', tail);
        assert(t.push(':') + tail =~= t + rest);
        assert((seq![t] + text::split(tail, ':'))[0] == t);
    }
}

proof fn lemma_one_millionth(v: Seq<Seq<char>>, x: int, rest: Seq<char>)
    requires
        v == seq![number::fixed6(x) + rest],
        -i64::MAX <= x <= i64::MAX,
        rest.len() > 0 ==> rest[0] == ':',
    ensures
        reading::all_millionths(v) == seq![Some(x)],
{
    lemma_millionths(x, rest);
    assert(reading::all_millionths(v) =~= seq![Some(x)]);
}

/// The music gets the volume that is asked for: the filter sets a volume once, and the number
/// behind it reads back as that volume.
pub proof fn law_volume_arrives(pieces: Seq<Piece>, c: OverlayConfig, duration: int)
    requires
        pieces.len() > 0,
        c.speed > 0,
        -i64::MAX <= c.volume,
    ensures
        reading::all_millionths(
            reading::settings(ffmpeg::overlay_filter(pieces, c, duration), "volume="@),
        ) == seq![Some(c.volume as int)],
{
    let none: Seq<char> = seq![];
    let nothing: Seq<Seq<char>> = seq![];
    let v = number::fixed6(c.volume as int);
    lemma_names_differ();
    lemma_overlay_settings(pieces, c, duration, "volume="@);
    lemma_other_settings(pieces, c.sample_rate as int, "volume="@);
    assert(overlay_settings(pieces, c, duration, "volume="@) =~= seq![v]);
    assert(v + none =~= v);
    lemma_one_millionth(seq![v], c.volume as int, none);
}

/// Two volumes are never mixed alike.
pub proof fn law_volumes_are_told_apart(
    pieces: Seq<Piece>,
    c: OverlayConfig,
    d: OverlayConfig,
    duration: int,
)
    requires
        pieces.len() > 0,
        c.speed > 0,
        d.speed > 0,
        -i64::MAX <= c.volume,
        -i64::MAX <= d.volume,
        c.volume != d.volume,
    ensures
        ffmpeg::overlay_filter(pieces, c, duration) != ffmpeg::overlay_filter(pieces, d, duration),
{
    law_volume_arrives(pieces, c, duration);
    law_volume_arrives(pieces, d, duration);
    let x = seq![Some(c.volume as int)];
    let y = seq![Some(d.volume as int)];
    assert(x[0] != y[0]);
}

/// Pieces only resample, trim and crossfade.
proof fn lemma_other_settings(pieces: Seq<Piece>, rate: int, name: Seq<char>)
    requires
        is_name(name),
        name != "aresample="@,
        name != "atrim=0:"@,
        name != "acrossfade=d="@,
    ensures
        pieces_settings(pieces, rate, name) == Seq::<Seq<char>>::empty(),
    decreases pieces.len(),
{
    let none: Seq<Seq<char>> = seq![];
    if pieces.len() > 0 {
        lemma_other_settings(pieces.drop_last(), rate, name);
        assert(none + none =~= none);
        assert(none + none + none =~= none);
    }
}

/// The music fades in for as long as is asked for, and fades out for as long as is asked for so
/// that it has faded at the end of the file; a fade of a millisecond or less is none.
pub proof fn law_fades_arrive(pieces: Seq<Piece>, c: OverlayConfig, duration: int)
    requires
        pieces.len() > 0,
        c.speed > 0,
        0 <= duration <= i64::MAX,
    ensures
        ({
            let filter = ffmpeg::overlay_filter(pieces, c, duration);
            let fade_in = reading::settings(filter, "afade=t=in:d="@);
            let fade_out = reading::settings(filter, "afade=t=out:st="@);
            &&& c.music_fade_in > 1_000 ==> reading::all_millionths(fade_in) == seq![
                Some(c.music_fade_in as int),
            ]
            &&& c.music_fade_in <= 1_000 ==> fade_in.len() == 0
            &&& c.music_fade_out <= 1_000 ==> fade_out.len() == 0
            &&& c.music_fade_out > 1_000 ==> {
                let start = reading::millionths(fade_out[0]);
                let lasting = reading::entries(fade_out[0], ':', "d="@);
                &&& fade_out.len() == 1
                &&& reading::all_millionths(lasting) == seq![Some(c.music_fade_out as int)]
                &&& start is Some
                &&& duration >= c.music_fade_out ==> start->Some_0 + c.music_fade_out == duration
                &&& duration < c.music_fade_out ==> start->Some_0 == 0
            }
        }),
{
    let rate = c.sample_rate as int;
    let none: Seq<char> = seq![];
    let nothing: Seq<Seq<char>> = seq![];
    let one = "afade=t=in:d="@;
    let two = "afade=t=out:st="@;
    lemma_names_differ();
    lemma_overlay_settings(pieces, c, duration, one);
    lemma_overlay_settings(pieces, c, duration, two);
    lemma_other_settings(pieces, rate, one);
    lemma_other_settings(pieces, rate, two);
    let x = number::fixed6(c.music_fade_in as int);
    let st = number::fixed6(fade_out_start(c, duration));
    let y = number::fixed6(c.music_fade_out as int);
    if c.music_fade_in > TICK {
        assert(overlay_settings(pieces, c, duration, one) =~= seq![x]);
        assert(x + none =~= x);
        lemma_one_millionth(seq![x], c.music_fade_in as int, none);
    } else {
        assert(overlay_settings(pieces, c, duration, one) =~= nothing);
    }
    if c.music_fade_out > TICK {
        let v = st + ":d="@ + y;
        assert(overlay_settings(pieces, c, duration, two) =~= seq![v]);
        reveal_strlit(":d=");
        reveal_strlit("d=");
        assert(v =~= st + (":d="@ + y));
        lemma_millionths(fade_out_start(c, duration), ":d="@ + y);
        lemma_unmarked_fixed6(fade_out_start(c, duration));
        lemma_unmarked_fixed6(c.music_fade_out as int);
        let w = "d="@ + y;
        assert forall|i: int| 0 <= i < w.len() implies #[trigger] w[i] != ':' by {
            if i >= 2 {
                assert(w[i] == y[i - 2]);
            }
        }
        reading::lemma_entries_cut(st, ':', w, "d="@);
        reading::lemma_entries_one(st, ':', "d="@);
        reading::lemma_entries_one(w, ':', "d="@);
        assert(st.push(':') + w =~= v);
        lemma_fixed6_start(fade_out_start(c, duration));
        reading::lemma_no_value(st, "d="@, 0);
        reading::lemma_value("d="@, y);
        assert(nothing + seq![y] =~= seq![y]);
        assert(y + none =~= y);
        lemma_one_millionth(seq![y], c.music_fade_out as int, none);
    } else {
        assert(overlay_settings(pieces, c, duration, two) =~= nothing);
    }
}

/// A number starts with a digit or a sign.
proof fn lemma_fixed6_start(x: int)
    ensures
        number::fixed6(x).len() > 0,
        number::fixed6(x)[0] == '-' || '0' <= number::fixed6(x)[0] <= '9',
{
    let whole = (number::abs(x) / 1_000_000) as nat;
    reveal_strlit("-");
    lemma_unmarked_decimal(whole);
    if x < 0 {
        assert(number::fixed6(x)[0] == "-"@[0]);
    } else {
        assert(number::fixed6(x)[0] == text::decimal(whole)[0]);
    }
}

/// How long the silences among some pieces last, in order.
pub open spec fn silences(pieces: Seq<Piece>) -> Seq<Option<int>>
    decreases pieces.len(),
{
    if pieces.len() == 0 {
        seq![]
    } else {
        let front = silences(pieces.drop_last());
        match pieces.last() {
            Piece::Silence { duration } => front.push(Some(duration)),
            _ => front,
        }
    }
}

/// How long the crossfades among some pieces last, in order.
pub open spec fn overlaps(pieces: Seq<Piece>) -> Seq<Option<int>>
    decreases pieces.len(),
{
    if pieces.len() == 0 {
        seq![]
    } else {
        let front = overlaps(pieces.drop_last());
        match pieces.last() {
            Piece::Crossfade { file1, start1, dur1, file2, start2, dur2, overlap } => front.push(
                Some(overlap),
            ),
            _ => front,
        }
    }
}

/// Whether the lengths of some pieces can be written and read back.
pub open spec fn lengths_ok(pieces: Seq<Piece>) -> bool {
    forall|i: int|
        0 <= i < pieces.len() ==> match #[trigger] pieces[i] {
            Piece::Segment { file, start, duration } => in_range(start) && in_range(duration),
            Piece::Silence { duration } => in_range(duration),
            Piece::Crossfade { file1, start1, dur1, file2, start2, dur2, overlap } => in_range(
                start1,
            ) && in_range(dur1) && in_range(start2) && in_range(dur2) && in_range(overlap),
        }
}

pub open spec fn in_range(x: int) -> bool {
    -i64::MAX <= x <= i64::MAX
}

proof fn lemma_read_push(v: Seq<Seq<char>>, w: Seq<char>, x: int, had: Seq<Option<int>>)
    requires
        reading::all_millionths(v) == had,
        reading::millionths(w) == Some(x),
    ensures
        reading::all_millionths(v + seq![w]) == had.push(Some(x)),
{
    assert(reading::all_millionths(v + seq![w]) =~= had.push(Some(x)));
}

proof fn lemma_lengths_read(pieces: Seq<Piece>, rate: int)
    requires
        lengths_ok(pieces),
    ensures
        reading::all_millionths(pieces_settings(pieces, rate, "atrim=0:"@)) == silences(pieces),
        reading::all_millionths(pieces_settings(pieces, rate, "acrossfade=d="@)) == overlaps(
            pieces,
        ),
    decreases pieces.len(),
{
    let none: Seq<Seq<char>> = seq![];
    let empty: Seq<char> = seq![];
    if pieces.len() == 0 {
        assert(reading::all_millionths(none) =~= seq![]);
    } else {
        let front = pieces.drop_last();
        assert forall|i: int| 0 <= i < front.len() implies match #[trigger] front[i] {
            Piece::Segment { file, start, duration } => in_range(start) && in_range(duration),
            Piece::Silence { duration } => in_range(duration),
            Piece::Crossfade { file1, start1, dur1, file2, start2, dur2, overlap } => in_range(
                start1,
            ) && in_range(dur1) && in_range(start2) && in_range(dur2) && in_range(overlap),
        } by {
            assert(pieces[i] == front[i]);
        }
        lemma_lengths_read(front, rate);
        lemma_names_differ();
        let a = pieces_settings(front, rate, "atrim=0:"@);
        let b = pieces_settings(front, rate, "acrossfade=d="@);
        assert(a + none =~= a);
        assert(b + none =~= b);
        assert(pieces[pieces.len() - 1] == pieces.last());
        match pieces.last() {
            Piece::Segment { .. } => {},
            Piece::Silence { duration } => {
                let t = number::fixed6(duration);
                assert(t + empty =~= t);
                lemma_millionths(duration, empty);
                lemma_read_push(a, t, duration, silences(front));
            },
            Piece::Crossfade { file1, start1, dur1, file2, start2, dur2, overlap } => {
                let w = number::fixed6(overlap) + ":c1=tri:c2=tri"@;
                reveal_strlit(":c1=tri:c2=tri");
                lemma_millionths(overlap, ":c1=tri:c2=tri"@);
                lemma_read_push(b, w, overlap, overlaps(front));
                assert(none + none + seq![w] =~= seq![w]);
                assert(none + none + none =~= none);
            },
        }
    }
}

/// Every pause and every crossfade of the plan lasts in the filter as long as it was planned, in
/// the order of the plan, and there are no others.
pub proof fn law_lengths_arrive(pieces: Seq<Piece>, c: OverlayConfig, duration: int)
    requires
        pieces.len() > 0,
        c.speed > 0,
        lengths_ok(pieces),
    ensures
        ({
            let filter = ffmpeg::overlay_filter(pieces, c, duration);
            &&& reading::all_millionths(reading::settings(filter, "atrim=0:"@)) == silences(pieces)
            &&& reading::all_millionths(reading::settings(filter, "acrossfade=d="@)) == overlaps(
                pieces,
            )
        }),
{
    let rate = c.sample_rate as int;
    lemma_names_differ();
    lemma_overlay_settings(pieces, c, duration, "atrim=0:"@);
    lemma_overlay_settings(pieces, c, duration, "acrossfade=d="@);
    lemma_lengths_read(pieces, rate);
    assert(overlay_settings(pieces, c, duration, "atrim=0:"@) =~= pieces_settings(
        pieces,
        rate,
        "atrim=0:"@,
    ));
    assert(overlay_settings(pieces, c, duration, "acrossfade=d="@) =~= pieces_settings(
        pieces,
        rate,
        "acrossfade=d="@,
    ));
}

/// How many inputs some pieces are made from: a segment has one, and a crossfade two.
pub open spec fn inputs_of(pieces: Seq<Piece>) -> nat
    decreases pieces.len(),
{
    if pieces.len() == 0 {
        0
    } else {
        inputs_of(pieces.drop_last()) + match pieces.last() {
            Piece::Segment { .. } => 1nat,
            Piece::Silence { .. } => 0nat,
            Piece::Crossfade { .. } => 2nat,
        }
    }
}

proof fn lemma_rates_read(pieces: Seq<Piece>, rate: int)
    requires
        rate >= 0,
    ensures
        reading::all_whole(pieces_settings(pieces, rate, "aresample="@)) == Seq::new(
            inputs_of(pieces),
            |i: int| rate,
        ),
    decreases pieces.len(),
{
    let none: Seq<Seq<char>> = seq![];
    lemma_names_differ();
    text::lemma_decimal(rate as nat);
    if pieces.len() == 0 {
        assert(reading::all_whole(none) =~= Seq::new(0, |i: int| rate));
    } else {
        let front = pieces.drop_last();
        lemma_rates_read(front, rate);
        let had = pieces_settings(front, rate, "aresample="@);
        let now = pieces_settings(pieces, rate, "aresample="@);
        let d = text::decimal(rate as nat);
        match pieces.last() {
            Piece::Segment { .. } => {
                assert(now =~= had + seq![d]);
            },
            Piece::Silence { .. } => {
                assert(now =~= had);
            },
            Piece::Crossfade { .. } => {
                assert(now =~= had + seq![d, d]);
            },
        }
        assert(reading::all_whole(had).len() == inputs_of(front));
        assert(reading::all_whole(now) =~= Seq::new(inputs_of(pieces), |i: int| rate)) by {
            assert forall|i: int| 0 <= i < now.len() implies text::value(#[trigger] now[i])
                == rate by {
                if i < had.len() {
                    assert(reading::all_whole(had)[i] == rate);
                }
            }
        }
    }
}

/// Every input of the mix, the voice among them, is brought to the sample rate that is asked for.
pub proof fn law_rate_arrives(pieces: Seq<Piece>, c: OverlayConfig, duration: int)
    requires
        pieces.len() > 0,
        c.speed > 0,
    ensures
        reading::all_whole(
            reading::settings(ffmpeg::overlay_filter(pieces, c, duration), "aresample="@),
        ) == Seq::new(inputs_of(pieces) + 1, |i: int| c.sample_rate as int),
        reading::all_whole(reading::settings(ffmpeg::voice_filter(c), "aresample="@)) == seq![
            c.sample_rate as int,
        ],
{
    let rate = c.sample_rate as int;
    let d = text::decimal(rate as nat);
    let had = pieces_settings(pieces, rate, "aresample="@);
    lemma_names_differ();
    lemma_overlay_settings(pieces, c, duration, "aresample="@);
    lemma_voice_settings(c, "aresample="@);
    lemma_rates_read(pieces, rate);
    text::lemma_decimal(rate as nat);
    let all = overlay_settings(pieces, c, duration, "aresample="@);
    assert(all =~= had + seq![d]);
    assert(reading::all_whole(had).len() == inputs_of(pieces));
    assert forall|i: int| 0 <= i < all.len() implies text::value(#[trigger] all[i]) == rate by {
        if i < had.len() {
            assert(reading::all_whole(had)[i] == rate);
        }
    }
    assert(reading::all_whole(all) =~= Seq::new(inputs_of(pieces) + 1, |i: int| rate));
    assert(voice_settings(c, "aresample="@) =~= seq![d]);
    assert(reading::all_whole(seq![d]) =~= seq![rate]);
}

/// All pieces are joined where there is more than one.
pub proof fn law_all_pieces_are_joined(pieces: Seq<Piece>, c: OverlayConfig, duration: int)
    requires
        pieces.len() > 0,
        c.speed > 0,
    ensures
        ({
            let joins = reading::settings(ffmpeg::overlay_filter(pieces, c, duration), "concat=n="@);
            &&& pieces.len() == 1 ==> joins.len() == 0
            &&& pieces.len() > 1 ==> joins.len() == 1 && text::value(text::split(joins[0], ':')[0])
                == pieces.len()
        }),
{
    let d = text::decimal(pieces.len());
    let v = d + ":v=0:a=1"@;
    let nothing: Seq<Seq<char>> = seq![];
    lemma_names_differ();
    lemma_overlay_settings(pieces, c, duration, "concat=n="@);
    lemma_other_settings(pieces, c.sample_rate as int, "concat=n="@);
    if pieces.len() == 1 {
        assert(overlay_settings(pieces, c, duration, "concat=n="@) =~= nothing);
    } else {
        assert(overlay_settings(pieces, c, duration, "concat=n="@) =~= seq![v]);
        reveal_strlit(":v=0:a=1");
        text::lemma_decimal(pieces.len());
        let tail = ":v=0:a=1"@.skip(1);
        assert forall|i: int| 0 <= i < d.len() implies #[trigger] d[i] != ':' by {
            assert('0' <= d[i] <= '9');
        }
        reading::lemma_split_one(d, ':');
        reading::lemma_split_cut(d, ':', tail);
        assert(d.push(':') + tail =~= v);
        assert((seq![d] + text::split(tail, ':'))[0] == d);
    }
}

// ─── The speed of the voice ────────────────────────────────────

/// The tempo factors that are written in a filter, in millionths.
pub open spec fn written_factors(filter: Seq<char>) -> Seq<int> {
    let v = reading::all_millionths(reading::settings(filter, "atempo="@));
    Seq::new(v.len(), |i: int| v[i]->Some_0)
}

/// Whether the tempo factors that are written in a filter multiply to a speed, up to a thousandth
/// of it; and each is one that an `atempo` filter accepts.
pub open spec fn multiply_to(filter: Seq<char>, speed: int) -> bool {
    let v = reading::all_millionths(reading::settings(filter, "atempo="@));
    let f = written_factors(filter);
    let one = ffmpeg_laws::millions(f.len());
    &&& forall|i: int| 0 <= i < v.len() ==> (#[trigger] v[i]) is Some
    &&& ffmpeg_laws::all_accepted(f)
    &&& -speed * one <= 1000 * (ffmpeg_laws::product(f) * 1_000_000 - speed * one) <= speed * one
    &&& f.len() == 0 ==> 999_000 <= speed <= 1_001_000
}

proof fn lemma_same_factors(n: nat, x: int)
    requires
        x == 2_000_000 || x == 500_000,
    ensures
        x == 2_000_000 ==> ffmpeg_laws::product(Seq::new(n, |i: int| x)) == ffmpeg::power2(n)
            * ffmpeg_laws::millions(n),
        x == 500_000 ==> ffmpeg_laws::product(Seq::new(n, |i: int| x)) * ffmpeg::power2(n)
            == ffmpeg_laws::millions(n),
    decreases n,
{
    let s = Seq::new(n, |i: int| x);
    if n > 0 {
        let m = (n - 1) as nat;
        lemma_same_factors(m, x);
        assert(s.drop_last() =~= Seq::new(m, |i: int| x));
        let p = ffmpeg_laws::product(s.drop_last());
        let a = ffmpeg::power2(m);
        let b = ffmpeg_laws::millions(m);
        if x == 2_000_000 {
            assert(p * 2_000_000 == (2 * a) * (b * 1_000_000)) by (nonlinear_arith)
                requires
                    p == a * b,
            ;
        } else {
            assert((p * 500_000) * (2 * a) == b * 1_000_000) by (nonlinear_arith)
                requires
                    p * a == b,
            ;
        }
    }
}

proof fn lemma_product_push(s: Seq<int>, x: int)
    ensures
        ffmpeg_laws::product(s.push(x)) == ffmpeg_laws::product(s) * x,
{
    assert(s.push(x).drop_last() =~= s);
}

/// The factors of a speed multiply to it.
proof fn lemma_factors_multiply(speed: int)
    requires
        speed > 0,
    ensures
        ({
            let f = ffmpeg::tempo_factors(speed);
            let one = ffmpeg_laws::millions(f.len());
            -speed * one <= 1000 * (ffmpeg_laws::product(f) * 1_000_000 - speed * one) <= speed * one
        }),
{
    let f = ffmpeg::tempo_factors(speed);
    let n = (f.len() - 1) as nat;
    let scale = ffmpeg::power2(n);
    let q = f.last();
    let b = ffmpeg_laws::millions(n);
    let one = ffmpeg_laws::millions(f.len());
    ffmpeg::law_tempo_factors_multiply(speed);
    ffmpeg::lemma_power2(n);
    lemma_millions_positive(n);
    assert(one == b * 1_000_000);
    if speed > 2_000_000 {
        let front = Seq::new(n, |i: int| 2_000_000int);
        lemma_same_factors(n, 2_000_000);
        assert(f =~= front.push(q));
        lemma_product_push(front, q);
        ffmpeg::lemma_doublings(speed, 2_000_000);
        assert(ffmpeg_laws::product(f) * 1_000_000 - speed * one == (scale * q - speed) * one)
            by (nonlinear_arith)
            requires
                ffmpeg_laws::product(f) == (scale * b) * q,
                one == b * 1_000_000,
        ;
        let e = scale * q - speed;
        assert(e == q * scale - speed) by (nonlinear_arith)
            requires
                e == scale * q - speed,
        ;
        assert(-speed <= 1000 * e <= speed);
        assert(-speed * one <= 1000 * (e * one) <= speed * one) by (nonlinear_arith)
            requires
                -speed <= 1000 * e <= speed,
                one >= 0,
        ;
    } else {
        let front = Seq::new(n, |i: int| 500_000int);
        lemma_same_factors(n, 500_000);
        assert(f =~= front.push(q));
        lemma_product_push(front, q);
        let p = ffmpeg_laws::product(front);
        assert((p * q) * 1_000_000 == speed * one) by (nonlinear_arith)
            requires
                p * scale == b,
                q == speed * scale,
                one == b * 1_000_000,
        ;
        assert(-speed * one <= 0 <= speed * one) by (nonlinear_arith)
            requires
                speed > 0,
                one >= 0,
        ;
    }
}

proof fn lemma_millions_positive(n: nat)
    ensures
        ffmpeg_laws::millions(n) >= 1,
    decreases n,
{
    if n > 0 {
        lemma_millions_positive((n - 1) as nat);
    }
}

/// The factors that are written are those of the speed.
proof fn lemma_factors_read(speed: int)
    requires
        0 < speed <= i64::MAX,
        !ffmpeg::is_normal_speed(speed),
    ensures
        reading::all_millionths(factor_texts(speed)) == Seq::new(
            ffmpeg::tempo_factors(speed).len(),
            |i: int| Some(ffmpeg::tempo_factors(speed)[i]),
        ),
{
    let f = ffmpeg::tempo_factors(speed);
    let texts = factor_texts(speed);
    let none: Seq<char> = seq![];
    let read = reading::all_millionths(texts);
    assert forall|i: int| 0 <= i < f.len() implies #[trigger] read[i] == Some(f[i]) by {
        ffmpeg::law_tempo_factors_accepted(speed, i);
        lemma_factor_word(speed, i);
        let t = factor_text(speed, i);
        assert(texts[i] == t);
        if i < f.len() - 1 {
            number_laws::lemma_tempo_words();
            reading::lemma_split_one(t, ':');
        } else {
            assert(t + none =~= t);
            lemma_millionths(f[i], none);
        }
    }
    assert(read =~= Seq::new(f.len(), |i: int| Some(f[i])));
}

proof fn lemma_multiply_to(filter: Seq<char>, speed: int)
    requires
        0 < speed <= i64::MAX,
        reading::settings(filter, "atempo="@) == factor_texts(speed),
    ensures
        multiply_to(filter, speed),
{
    let v = reading::all_millionths(reading::settings(filter, "atempo="@));
    let w = written_factors(filter);
    if ffmpeg::is_normal_speed(speed) {
        assert(w =~= seq![]);
        assert(ffmpeg_laws::product(w) == 1);
        assert(ffmpeg_laws::millions(0) == 1);
    } else {
        let f = ffmpeg::tempo_factors(speed);
        lemma_factors_read(speed);
        assert(w =~= f);
        assert forall|i: int| 0 <= i < f.len() implies 500_000 <= #[trigger] f[i] <= 2_000_000 by {
            ffmpeg::law_tempo_factors_accepted(speed, i);
        }
        lemma_factors_multiply(speed);
    }
}

/// The voice gets the speed that is asked for: the factors that are written in the tempo chain,
/// in the filter of a voice without music, and in that of a mix multiply to it. There is none
/// only where the speed is at most a thousandth away from one.
pub proof fn law_speed_arrives(pieces: Seq<Piece>, c: OverlayConfig, duration: int)
    requires
        pieces.len() > 0,
        c.speed > 0,
    ensures
        multiply_to(ffmpeg::tempo_chain(c.speed as int), c.speed as int),
        multiply_to(ffmpeg::voice_filter(c), c.speed as int),
        multiply_to(ffmpeg::overlay_filter(pieces, c, duration), c.speed as int),
{
    let name = "atempo="@;
    let speed = c.speed as int;
    let nothing: Seq<Seq<char>> = seq![];
    lemma_names_differ();
    lemma_tempo_settings(speed, name);
    lemma_voice_settings(c, name);
    lemma_overlay_settings(pieces, c, duration, name);
    lemma_other_settings(pieces, c.sample_rate as int, name);
    assert(voice_settings(c, name) =~= factor_texts(speed));
    assert(overlay_settings(pieces, c, duration, name) =~= factor_texts(speed));
    lemma_multiply_to(ffmpeg::tempo_chain(speed), speed);
    lemma_multiply_to(ffmpeg::voice_filter(c), speed);
    lemma_multiply_to(ffmpeg::overlay_filter(pieces, c, duration), speed);
}

/// A tempo chain consists of tempo filters and nothing else.
pub proof fn law_chain_is_all_tempo(speed: int, i: int)
    requires
        speed > 0,
        ffmpeg::tempo_chain(speed).len() > 0,
        0 <= i < reading::words(ffmpeg::tempo_chain(speed)).len(),
    ensures
        reading::starts_with(reading::words(ffmpeg::tempo_chain(speed))[i], "atempo="@),
{
    let n = ffmpeg::tempo_factors(speed).len();
    let parts = Seq::new(n, |i: int| ffmpeg::tempo_part(speed, i));
    assert forall|k: int| 0 <= k < n implies reading::unmarked(#[trigger] parts[k]) by {
        lemma_factor_word(speed, k);
        lemma_unmarked_words();
        lemma_unmarked_both("atempo="@, factor_text(speed, k));
    }
    lemma_words_joined(parts);
    lemma_factor_word(speed, i);
    reading::lemma_value("atempo="@, factor_text(speed, i));
    assert(("atempo="@ + factor_text(speed, i)).take("atempo="@.len() as int) =~= "atempo="@);
}

proof fn lemma_words_joined(parts: Seq<Seq<char>>)
    requires
        parts.len() > 0,
        forall|i: int| 0 <= i < parts.len() ==> reading::unmarked(#[trigger] parts[i]),
    ensures
        reading::words(text::joined(parts, ","@)) == parts,
    decreases parts.len(),
{
    reveal_strlit(",");
    let last = parts.last();
    assert(reading::unmarked(parts[parts.len() - 1]));
    reading::lemma_words_one(last);
    if parts.len() == 1 {
        assert(parts =~= seq![last]);
    } else {
        let front = parts.drop_last();
        assert forall|i: int| 0 <= i < front.len() implies reading::unmarked(
            #[trigger] front[i],
        ) by {
            assert(reading::unmarked(parts[i]));
        }
        lemma_words_joined(front);
        reading::lemma_words_cut(text::joined(front, ","@), ',', last);
        assert(text::joined(front, ","@).push(',') + last =~= text::joined(parts, ","@));
        assert(front + seq![last] =~= parts);
    }
}

} // verus!
