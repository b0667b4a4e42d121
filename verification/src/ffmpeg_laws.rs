//! What holds of the tempo filters: there are no more of them than needed, and they stand in the
//! voice's part of the filter only.

use crate::ffmpeg;
use crate::ffmpeg::{Graph, OverlayConfig};
use crate::number;
use crate::plan::Piece;
use crate::text;
use vstd::prelude::*;

verus! {

// ─── The shortest chain ────────────────────────────────────────

/// The product of some factors.
pub open spec fn product(factors: Seq<int>) -> int
    decreases factors.len(),
{
    if factors.len() == 0 {
        1
    } else {
        product(factors.drop_last()) * factors.last()
    }
}

/// A million to the power of `n`: what `n` factors in millionths that are one multiply to.
pub open spec fn millions(n: nat) -> int
    decreases n,
{
    if n == 0 {
        1
    } else {
        millions((n - 1) as nat) * 1_000_000
    }
}

/// Whether one `atempo` filter accepts each of the factors.
pub open spec fn all_accepted(factors: Seq<int>) -> bool {
    forall|i: int| 0 <= i < factors.len() ==> 500_000 <= #[trigger] factors[i] <= 2_000_000
}

proof fn lemma_product_bounds(factors: Seq<int>)
    requires
        all_accepted(factors),
    ensures
        millions(factors.len()) >= 1,
        product(factors) >= 1,
        product(factors) <= ffmpeg::power2(factors.len()) * millions(factors.len()),
        product(factors) * ffmpeg::power2(factors.len()) >= millions(factors.len()),
    decreases factors.len(),
{
    let n = factors.len();
    assert(ffmpeg::power2(0) == 1);
    if n > 0 {
        let front = factors.drop_last();
        assert forall|i: int| 0 <= i < front.len() implies 500_000 <= #[trigger] front[i]
            <= 2_000_000 by {
            assert(factors[i] <= 2_000_000);
        }
        lemma_product_bounds(front);
        let m = (n - 1) as nat;
        let p = product(front);
        let a = ffmpeg::power2(m);
        let big = millions(m);
        let f = factors[n - 1];
        ffmpeg::lemma_power2(m);
        assert(p * f <= (2 * a) * (big * 1_000_000)) by (nonlinear_arith)
            requires
                1 <= p <= a * big,
                500_000 <= f <= 2_000_000,
                a >= 1,
                big >= 1,
        ;
        assert((p * f) * (2 * a) >= big * 1_000_000) by (nonlinear_arith)
            requires
                p * a >= big,
                500_000 <= f,
                p >= 1,
                a >= 1,
                big >= 1,
        ;
        assert(p * f >= 1) by (nonlinear_arith)
            requires
                p >= 1,
                f >= 500_000,
        ;
    }
}

proof fn lemma_power2_grows(a: nat, b: nat)
    requires
        a <= b,
    ensures
        ffmpeg::power2(a) <= ffmpeg::power2(b),
    decreases b,
{
    if a < b {
        lemma_power2_grows(a, (b - 1) as nat);
        ffmpeg::lemma_power2((b - 1) as nat);
    }
}

/// The tempo chain is the shortest there is: factors that `atempo` filters accept, and that
/// multiply to the speed, are never fewer.
pub proof fn law_tempo_chain_is_shortest(speed: int, factors: Seq<int>)
    requires
        speed > 0,
        !ffmpeg::is_normal_speed(speed),
        all_accepted(factors),
        product(factors) * 1_000_000 == speed * millions(factors.len()),
    ensures
        ffmpeg::tempo_factors(speed).len() <= factors.len(),
{
    let n = factors.len();
    let p = product(factors);
    let a = ffmpeg::power2(n);
    let big = millions(n);
    lemma_product_bounds(factors);
    assert(speed <= 1_000_000 * a && speed * a >= 1_000_000) by (nonlinear_arith)
        requires
            p * 1_000_000 == speed * big,
            p <= a * big,
            p * a >= big,
            big >= 1,
    {
        assert(speed * big <= (1_000_000 * a) * big);
        assert((speed * a) * big == (p * a) * 1_000_000);
        assert((speed * a) * big >= 1_000_000 * big);
    }
    assert(ffmpeg::power2(0) == 1);
    if speed > 2_000_000 {
        let k = ffmpeg::doublings(speed, 2_000_000);
        ffmpeg::lemma_doublings(speed, 2_000_000);
        if n <= k {
            lemma_power2_grows(n, k);
        }
    } else {
        let k = ffmpeg::raises(speed);
        ffmpeg::lemma_raises(speed);
        if n <= k {
            lemma_power2_grows(n, k);
            assert(speed * a <= speed * ffmpeg::power2(k)) by (nonlinear_arith)
                requires
                    a <= ffmpeg::power2(k),
                    speed > 0,
            ;
            assert(k == 0);
            assert(n == 0);
        }
    }
}

// ─── Where the tempo filters stand ─────────────────────────────

/// Whether no `m` follows an `e` in `s` from place `i` on.
spec fn quiet_from(s: Seq<char>, i: int) -> bool
    decreases s.len() - i,
{
    i >= s.len() || (!(s[i - 1] == 'e' && s[i] == 'm') && quiet_from(s, i + 1))
}

/// Whether no `m` follows an `e` in `s`, nor can follow behind it. The word `atempo` has such
/// a place, and the other words of a filter have none.
spec fn quiet(s: Seq<char>) -> bool {
    &&& forall|i: int| 0 < i < s.len() ==> !(s[i - 1] == 'e' && #[trigger] s[i] == 'm')
    &&& s.len() > 0 ==> s.last() != 'e'
}

proof fn lemma_quiet_from(s: Seq<char>, i: int)
    requires
        0 < i,
        quiet_from(s, i),
    ensures
        forall|k: int| i <= k < s.len() ==> !(s[k - 1] == 'e' && #[trigger] s[k] == 'm'),
    decreases s.len() - i,
{
    if i < s.len() {
        lemma_quiet_from(s, i + 1);
    }
}

proof fn lemma_quiet_both(a: Seq<char>, b: Seq<char>)
    requires
        quiet(a),
        quiet(b),
    ensures
        quiet(a + b),
{
    let s = a + b;
    assert forall|i: int| 0 < i < s.len() implies !(s[i - 1] == 'e' && #[trigger] s[i] == 'm') by {
        if i < a.len() {
            assert(s[i] == a[i] && s[i - 1] == a[i - 1]);
        } else if i > a.len() {
            assert(s[i] == b[i - a.len()] && s[i - 1] == b[i - a.len() - 1]);
        }
    }
    if b.len() > 0 {
        assert(s.last() == b.last());
    } else {
        assert(s =~= a);
    }
}

proof fn lemma_quiet_joined(parts: Seq<Seq<char>>, sep: Seq<char>)
    requires
        forall|i: int| 0 <= i < parts.len() ==> quiet(#[trigger] parts[i]),
        quiet(sep),
    ensures
        quiet(text::joined(parts, sep)),
    decreases parts.len(),
{
    if parts.len() > 1 {
        let front = parts.drop_last();
        assert forall|i: int| 0 <= i < front.len() implies quiet(#[trigger] front[i]) by {
            assert(quiet(parts[i]));
        }
        lemma_quiet_joined(front, sep);
        assert(quiet(parts[parts.len() - 1]));
        lemma_quiet_both(text::joined(front, sep), sep);
        lemma_quiet_both(text::joined(front, sep) + sep, parts.last());
    } else if parts.len() == 1 {
        assert(quiet(parts[0]));
    }
}

proof fn lemma_quiet_digits(s: Seq<char>)
    requires
        text::all_digits(s),
    ensures
        quiet(s),
{
    if s.len() > 0 {
        assert('0' <= s[s.len() - 1] <= '9');
    }
    assert forall|i: int| 0 < i < s.len() implies !(s[i - 1] == 'e' && #[trigger] s[i] == 'm') by {
        assert('0' <= s[i] <= '9');
    }
}

proof fn lemma_quiet_decimal(n: nat)
    ensures
        quiet(text::decimal(n)),
{
    text::lemma_decimal(n);
    lemma_quiet_digits(text::decimal(n));
}

/// A padded number consists of digits.
pub proof fn lemma_padded_digits(n: nat, width: nat)
    ensures
        text::all_digits(text::zero_padded(text::decimal(n), width)),
        text::zero_padded(text::decimal(n), width).len() >= width,
{
    text::lemma_decimal(n);
    let t = text::decimal(n);
    let s = text::zero_padded(t, width);
    let zeros = s.len() - t.len();
    assert forall|i: int| 0 <= i < s.len() implies '0' <= #[trigger] s[i] <= '9' by {
        if i >= zeros {
            assert(s[i] == t[i - zeros]);
        }
    }
}

proof fn lemma_quiet_fixed6(x: int)
    ensures
        quiet(number::fixed6(x)),
        number::fixed6(x).len() > 0,
{
    lemma_words();
    let whole = text::decimal((number::abs(x) / 1_000_000) as nat);
    let part = text::zero_padded(text::decimal((number::abs(x) % 1_000_000) as nat), 6);
    let sign = number::sign_text(x < 0);
    lemma_quiet_decimal((number::abs(x) / 1_000_000) as nat);
    lemma_padded_digits((number::abs(x) % 1_000_000) as nat, 6);
    lemma_quiet_digits(part);
    lemma_quiet_both(sign, whole);
    lemma_quiet_both(sign + whole, "."@);
    lemma_quiet_both(sign + whole + "."@, part);
}

/// The words of the music's part of a filter are quiet.
#[verifier::spinoff_prover]
#[verifier::rlimit(50)]
proof fn lemma_words()
    ensures
        quiet("["@),
        quiet(":a]"@),
        quiet("]"@),
        quiet("aresample="@),
        quiet("anullsrc=r="@),
        quiet(":cl=stereo["@),
        quiet("r];["@),
        quiet("r]atrim=0:"@),
        quiet("]["@),
        quiet("m"@),
        quiet("z"@),
        quiet("cf"@),
        quiet("a"@),
        quiet("b"@),
        quiet("concat=n="@),
        quiet(","@),
        quiet(":d="@),
        quiet("volume="@),
        quiet("[mv];[0:a]"@),
        quiet(";"@),
        quiet(""@),
        quiet("."@),
        quiet("-"@),
        quiet(",asetpts=PTS-STARTPTS["@),
        quiet(",aformat=sample_fmts=fltp:channel_layouts=stereo"@),
        quiet(",asetpts=PTS-STARTPTS,aformat=sample_fmts=fltp:channel_layouts=stereo["@),
        quiet("]acrossfade=d="@),
        quiet(":c1=tri:c2=tri["@),
        quiet(":v=0:a=1[mc];[mc]"@),
        quiet("afade=t=in:d="@),
        quiet("afade=t=out:st="@),
{
    assert(quiet("["@)) by {
        reveal_with_fuel(quiet_from, 3);
        reveal_strlit("[");
        lemma_quiet_from("["@, 1);
    }
    assert(quiet(":a]"@)) by {
        reveal_with_fuel(quiet_from, 5);
        reveal_strlit(":a]");
        lemma_quiet_from(":a]"@, 1);
    }
    assert(quiet("]"@)) by {
        reveal_with_fuel(quiet_from, 3);
        reveal_strlit("]");
        lemma_quiet_from("]"@, 1);
    }
    assert(quiet("aresample="@)) by {
        reveal_with_fuel(quiet_from, 12);
        reveal_strlit("aresample=");
        lemma_quiet_from("aresample="@, 1);
    }
    assert(quiet("anullsrc=r="@)) by {
        reveal_with_fuel(quiet_from, 13);
        reveal_strlit("anullsrc=r=");
        lemma_quiet_from("anullsrc=r="@, 1);
    }
    assert(quiet(":cl=stereo["@)) by {
        reveal_with_fuel(quiet_from, 13);
        reveal_strlit(":cl=stereo[");
        lemma_quiet_from(":cl=stereo["@, 1);
    }
    assert(quiet("r];["@)) by {
        reveal_with_fuel(quiet_from, 6);
        reveal_strlit("r];[");
        lemma_quiet_from("r];["@, 1);
    }
    assert(quiet("r]atrim=0:"@)) by {
        reveal_with_fuel(quiet_from, 12);
        reveal_strlit("r]atrim=0:");
        lemma_quiet_from("r]atrim=0:"@, 1);
    }
    assert(quiet("]["@)) by {
        reveal_with_fuel(quiet_from, 4);
        reveal_strlit("][");
        lemma_quiet_from("]["@, 1);
    }
    assert(quiet("m"@)) by {
        reveal_with_fuel(quiet_from, 3);
        reveal_strlit("m");
        lemma_quiet_from("m"@, 1);
    }
    assert(quiet("z"@)) by {
        reveal_with_fuel(quiet_from, 3);
        reveal_strlit("z");
        lemma_quiet_from("z"@, 1);
    }
    assert(quiet("cf"@)) by {
        reveal_with_fuel(quiet_from, 4);
        reveal_strlit("cf");
        lemma_quiet_from("cf"@, 1);
    }
    assert(quiet("a"@)) by {
        reveal_with_fuel(quiet_from, 3);
        reveal_strlit("a");
        lemma_quiet_from("a"@, 1);
    }
    assert(quiet("b"@)) by {
        reveal_with_fuel(quiet_from, 3);
        reveal_strlit("b");
        lemma_quiet_from("b"@, 1);
    }
    assert(quiet("concat=n="@)) by {
        reveal_with_fuel(quiet_from, 11);
        reveal_strlit("concat=n=");
        lemma_quiet_from("concat=n="@, 1);
    }
    assert(quiet(","@)) by {
        reveal_with_fuel(quiet_from, 3);
        reveal_strlit(",");
        lemma_quiet_from(","@, 1);
    }
    assert(quiet(":d="@)) by {
        reveal_with_fuel(quiet_from, 5);
        reveal_strlit(":d=");
        lemma_quiet_from(":d="@, 1);
    }
    assert(quiet("volume="@)) by {
        reveal_with_fuel(quiet_from, 9);
        reveal_strlit("volume=");
        lemma_quiet_from("volume="@, 1);
    }
    assert(quiet("[mv];[0:a]"@)) by {
        reveal_with_fuel(quiet_from, 12);
        reveal_strlit("[mv];[0:a]");
        lemma_quiet_from("[mv];[0:a]"@, 1);
    }
    assert(quiet(";"@)) by {
        reveal_with_fuel(quiet_from, 3);
        reveal_strlit(";");
        lemma_quiet_from(";"@, 1);
    }
    assert(quiet(""@)) by {
        reveal_with_fuel(quiet_from, 2);
        reveal_strlit("");
        lemma_quiet_from(""@, 1);
    }
    assert(quiet("-"@)) by {
        reveal_with_fuel(quiet_from, 3);
        reveal_strlit("-");
        lemma_quiet_from("-"@, 1);
    }
    assert(quiet("."@)) by {
        reveal_with_fuel(quiet_from, 3);
        reveal_strlit(".");
        lemma_quiet_from("."@, 1);
    }
    assert(quiet(",asetpts=PTS-STARTPTS["@)) by {
        reveal_with_fuel(quiet_from, 24);
        reveal_strlit(",asetpts=PTS-STARTPTS[");
        lemma_quiet_from(",asetpts=PTS-STARTPTS["@, 1);
    }
    assert(quiet(",aformat=sample_fmts=fltp:channel_layouts=stereo"@)) by {
        reveal_with_fuel(quiet_from, 50);
        reveal_strlit(",aformat=sample_fmts=fltp:channel_layouts=stereo");
        lemma_quiet_from(",aformat=sample_fmts=fltp:channel_layouts=stereo"@, 1);
    }
    assert(quiet(",asetpts=PTS-STARTPTS,aformat=sample_fmts=fltp:channel_layouts=stereo["@)) by {
        reveal_with_fuel(quiet_from, 72);
        reveal_strlit(",asetpts=PTS-STARTPTS,aformat=sample_fmts=fltp:channel_layouts=stereo[");
        lemma_quiet_from(",asetpts=PTS-STARTPTS,aformat=sample_fmts=fltp:channel_layouts=stereo["@, 1);
    }
    assert(quiet("]acrossfade=d="@)) by {
        reveal_with_fuel(quiet_from, 16);
        reveal_strlit("]acrossfade=d=");
        lemma_quiet_from("]acrossfade=d="@, 1);
    }
    assert(quiet(":c1=tri:c2=tri["@)) by {
        reveal_with_fuel(quiet_from, 17);
        reveal_strlit(":c1=tri:c2=tri[");
        lemma_quiet_from(":c1=tri:c2=tri["@, 1);
    }
    assert(quiet(":v=0:a=1[mc];[mc]"@)) by {
        reveal_with_fuel(quiet_from, 19);
        reveal_strlit(":v=0:a=1[mc];[mc]");
        lemma_quiet_from(":v=0:a=1[mc];[mc]"@, 1);
    }
    assert(quiet("afade=t=in:d="@)) by {
        reveal_with_fuel(quiet_from, 15);
        reveal_strlit("afade=t=in:d=");
        lemma_quiet_from("afade=t=in:d="@, 1);
    }
    assert(quiet("afade=t=out:st="@)) by {
        reveal_with_fuel(quiet_from, 17);
        reveal_strlit("afade=t=out:st=");
        lemma_quiet_from("afade=t=out:st="@, 1);
    }
}

/// So is what mixes voice and music, behind the voice's part.
proof fn lemma_tail()
    ensures
        quiet("[v];[v][mv]amix=inputs=2:duration=first:normalize=0,alimiter=limit=1[out]"@),
        "[v];[v][mv]amix=inputs=2:duration=first:normalize=0,alimiter=limit=1[out]"@.len() > 0,
        "[v];[v][mv]amix=inputs=2:duration=first:normalize=0,alimiter=limit=1[out]"@[0] == '[',
{
    reveal_with_fuel(quiet_from, 75);
    reveal_strlit("[v];[v][mv]amix=inputs=2:duration=first:normalize=0,alimiter=limit=1[out]");
    lemma_quiet_from("[v];[v][mv]amix=inputs=2:duration=first:normalize=0,alimiter=limit=1[out]"@, 1);
}

proof fn lemma_quiet_format(rate: int)
    ensures
        quiet(ffmpeg::common_format(rate)),
{
    lemma_words();
    lemma_quiet_decimal(rate as nat);
    lemma_quiet_both("aresample="@, text::decimal(rate as nat));
    lemma_quiet_both(
        "aresample="@ + text::decimal(rate as nat),
        ",aformat=sample_fmts=fltp:channel_layouts=stereo"@,
    );
}

proof fn lemma_quiet_input(n: nat, format: Seq<char>, label: Seq<char>)
    requires
        quiet(format),
        quiet(label),
    ensures
        quiet(ffmpeg::input_filter(n, format, label)),
{
    lemma_words();
    let d = text::decimal(n);
    lemma_quiet_decimal(n);
    lemma_quiet_both("["@, d);
    lemma_quiet_both("["@ + d, ":a]"@);
    lemma_quiet_both("["@ + d + ":a]"@, format);
    lemma_quiet_both("["@ + d + ":a]"@ + format, ",asetpts=PTS-STARTPTS["@);
    lemma_quiet_both("["@ + d + ":a]"@ + format + ",asetpts=PTS-STARTPTS["@, label);
    lemma_quiet_both("["@ + d + ":a]"@ + format + ",asetpts=PTS-STARTPTS["@ + label, "]"@);
}

proof fn lemma_quiet_silence(rate: int, duration: int, label: Seq<char>)
    requires
        quiet(label),
    ensures
        quiet(ffmpeg::silence_filter(rate, duration, label)),
{
    lemma_words();
    let d = text::decimal(rate as nat);
    let t = number::fixed6(duration);
    lemma_quiet_decimal(rate as nat);
    lemma_quiet_fixed6(duration);
    let a = "anullsrc=r="@ + d;
    lemma_quiet_both("anullsrc=r="@, d);
    let b = a + ":cl=stereo["@;
    lemma_quiet_both(a, ":cl=stereo["@);
    let e = b + label;
    lemma_quiet_both(b, label);
    let f = e + "r];["@;
    lemma_quiet_both(e, "r];["@);
    let g = f + label;
    lemma_quiet_both(f, label);
    let h = g + "r]atrim=0:"@;
    lemma_quiet_both(g, "r]atrim=0:"@);
    let i = h + t;
    lemma_quiet_both(h, t);
    let j = i
        + ",asetpts=PTS-STARTPTS,aformat=sample_fmts=fltp:channel_layouts=stereo["@;
    lemma_quiet_both(
        i,
        ",asetpts=PTS-STARTPTS,aformat=sample_fmts=fltp:channel_layouts=stereo["@,
    );
    lemma_quiet_both(j, label);
    lemma_quiet_both(j + label, "]"@);
}

proof fn lemma_quiet_crossfade(from: Seq<char>, into: Seq<char>, overlap: int, label: Seq<char>)
    requires
        quiet(from),
        quiet(into),
        quiet(label),
    ensures
        quiet(ffmpeg::crossfade_filter(from, into, overlap, label)),
{
    lemma_words();
    let t = number::fixed6(overlap);
    lemma_quiet_fixed6(overlap);
    let a = "["@ + from;
    lemma_quiet_both("["@, from);
    let b = a + "]["@;
    lemma_quiet_both(a, "]["@);
    let d = b + into;
    lemma_quiet_both(b, into);
    let e = d + "]acrossfade=d="@;
    lemma_quiet_both(d, "]acrossfade=d="@);
    let f = e + t;
    lemma_quiet_both(e, t);
    let g = f + ":c1=tri:c2=tri["@;
    lemma_quiet_both(f, ":c1=tri:c2=tri["@);
    lemma_quiet_both(g, label);
    lemma_quiet_both(g + label, "]"@);
}

/// Whether all lines and labels of a graph are quiet.
spec fn quiet_graph(g: Graph) -> bool {
    &&& forall|i: int| 0 <= i < g.lines.len() ==> quiet(#[trigger] g.lines[i])
    &&& forall|i: int| 0 <= i < g.labels.len() ==> quiet(#[trigger] g.labels[i])
}

proof fn lemma_quiet_push(list: Seq<Seq<char>>, s: Seq<char>)
    requires
        forall|i: int| 0 <= i < list.len() ==> quiet(#[trigger] list[i]),
        quiet(s),
    ensures
        forall|i: int| 0 <= i < list.push(s).len() ==> quiet(#[trigger] list.push(s)[i]),
{
    let more = list.push(s);
    assert forall|i: int| 0 <= i < more.len() implies quiet(#[trigger] more[i]) by {
        if i < list.len() {
            assert(quiet(list[i]));
        }
    }
}

proof fn lemma_quiet_label(name: Seq<char>, n: nat)
    requires
        quiet(name),
    ensures
        quiet(name + text::decimal(n)),
        quiet(ffmpeg::bracketed(name + text::decimal(n))),
{
    lemma_words();
    lemma_quiet_decimal(n);
    let label = name + text::decimal(n);
    lemma_quiet_both(name, text::decimal(n));
    lemma_quiet_both("["@, label);
    lemma_quiet_both("["@ + label, "]"@);
}

proof fn lemma_quiet_piece(g: Graph, p: Piece, format: Seq<char>, rate: int)
    requires
        quiet_graph(g),
        quiet(format),
    ensures
        quiet_graph(ffmpeg::add_piece(g, p, format, rate)),
{
    lemma_words();
    match p {
        Piece::Segment { file, start, duration } => {
            let label = "m"@ + text::decimal(g.next_input);
            lemma_quiet_label("m"@, g.next_input);
            lemma_quiet_input(g.next_input, format, label);
            lemma_quiet_push(g.lines, ffmpeg::input_filter(g.next_input, format, label));
            lemma_quiet_push(g.labels, ffmpeg::bracketed(label));
        },
        Piece::Silence { duration } => {
            let label = "z"@ + text::decimal(g.silences);
            lemma_quiet_label("z"@, g.silences);
            lemma_quiet_silence(rate, duration, label);
            lemma_quiet_push(g.lines, ffmpeg::silence_filter(rate, duration, label));
            lemma_quiet_push(g.labels, ffmpeg::bracketed(label));
        },
        Piece::Crossfade { file1, start1, dur1, file2, start2, dur2, overlap } => {
            let label = "cf"@ + text::decimal(g.crossfades);
            let from = label + "a"@;
            let into = label + "b"@;
            lemma_quiet_label("cf"@, g.crossfades);
            lemma_quiet_both(label, "a"@);
            lemma_quiet_both(label, "b"@);
            lemma_quiet_input(g.next_input, format, from);
            lemma_quiet_input(g.next_input + 1, format, into);
            lemma_quiet_crossfade(from, into, overlap, label);
            let one = g.lines.push(ffmpeg::input_filter(g.next_input, format, from));
            lemma_quiet_push(g.lines, ffmpeg::input_filter(g.next_input, format, from));
            let two = one.push(ffmpeg::input_filter(g.next_input + 1, format, into));
            lemma_quiet_push(one, ffmpeg::input_filter(g.next_input + 1, format, into));
            lemma_quiet_push(two, ffmpeg::crossfade_filter(from, into, overlap, label));
            lemma_quiet_push(g.labels, ffmpeg::bracketed(label));
        },
    }
}

proof fn lemma_quiet_graph(pieces: Seq<Piece>, format: Seq<char>, rate: int)
    requires
        quiet(format),
    ensures
        quiet_graph(ffmpeg::music_graph(pieces, format, rate)),
    decreases pieces.len(),
{
    if pieces.len() > 0 {
        lemma_quiet_graph(pieces.drop_last(), format, rate);
        lemma_quiet_piece(
            ffmpeg::music_graph(pieces.drop_last(), format, rate),
            pieces.last(),
            format,
            rate,
        );
    }
}

proof fn lemma_quiet_fades(c: OverlayConfig, duration: int)
    ensures
        quiet(ffmpeg::fade_filters(c, duration)),
{
    lemma_words();
    let fade_in = number::fixed6(c.music_fade_in as int);
    let start = number::fixed6(crate::plan::max(duration - c.music_fade_out, 0));
    let fade_out = number::fixed6(c.music_fade_out as int);
    lemma_quiet_fixed6(c.music_fade_in as int);
    lemma_quiet_fixed6(crate::plan::max(duration - c.music_fade_out, 0));
    lemma_quiet_fixed6(c.music_fade_out as int);
    lemma_quiet_both("afade=t=in:d="@, fade_in);
    let one = "afade=t=in:d="@ + fade_in + ","@;
    lemma_quiet_both("afade=t=in:d="@ + fade_in, ","@);
    let a = "afade=t=out:st="@ + start;
    lemma_quiet_both("afade=t=out:st="@, start);
    let b = a + ":d="@;
    lemma_quiet_both(a, ":d="@);
    let d = b + fade_out;
    lemma_quiet_both(b, fade_out);
    let two = d + ","@;
    lemma_quiet_both(d, ","@);
    let empty: Seq<char> = seq![];
    lemma_quiet_both(
        if c.music_fade_in > crate::number::TICK {
            one
        } else {
            empty
        },
        if c.music_fade_out > crate::number::TICK {
            two
        } else {
            empty
        },
    );
}

proof fn lemma_quiet_chain(labels: Seq<Seq<char>>)
    requires
        forall|i: int| 0 <= i < labels.len() ==> quiet(#[trigger] labels[i]),
    ensures
        quiet(ffmpeg::music_chain(labels)),
{
    lemma_words();
    if labels.len() == 1 {
        assert(quiet(labels[0]));
    } else {
        let d = text::decimal(labels.len());
        lemma_quiet_decimal(labels.len());
        lemma_quiet_joined(labels, ""@);
        let a = text::joined(labels, ""@) + "concat=n="@;
        lemma_quiet_both(text::joined(labels, ""@), "concat=n="@);
        lemma_quiet_both(a, d);
        lemma_quiet_both(a + d, ":v=0:a=1[mc];[mc]"@);
    }
}

proof fn lemma_quiet_music(pieces: Seq<Piece>, c: OverlayConfig, duration: int)
    ensures
        quiet(ffmpeg::music_filter(pieces, c, duration)),
        ffmpeg::music_filter(pieces, c, duration).len() > 0,
        ffmpeg::music_filter(pieces, c, duration).last() == ']',
{
    lemma_words();
    let rate = c.sample_rate as int;
    let format = ffmpeg::common_format(rate);
    lemma_quiet_format(rate);
    lemma_quiet_graph(pieces, format, rate);
    let g = ffmpeg::music_graph(pieces, format, rate);
    lemma_quiet_joined(g.lines, ";"@);
    lemma_quiet_chain(g.labels);
    lemma_quiet_fades(c, duration);
    lemma_quiet_fixed6(c.volume as int);
    let a = text::joined(g.lines, ";"@) + ";"@;
    lemma_quiet_both(text::joined(g.lines, ";"@), ";"@);
    let b = a + ffmpeg::music_chain(g.labels);
    lemma_quiet_both(a, ffmpeg::music_chain(g.labels));
    let d = b + ffmpeg::fade_filters(c, duration);
    lemma_quiet_both(b, ffmpeg::fade_filters(c, duration));
    let e = d + "volume="@;
    lemma_quiet_both(d, "volume="@);
    let f = e + number::fixed6(c.volume as int);
    lemma_quiet_both(e, number::fixed6(c.volume as int));
    lemma_quiet_both(f, "[mv];[0:a]"@);
    reveal_strlit("[mv];[0:a]");
    assert((f + "[mv];[0:a]"@).last() == "[mv];[0:a]"@.last());
}

/// The voice's part does not end in an `e`.
proof fn lemma_voice_end(c: OverlayConfig)
    ensures
        ffmpeg::voice_filter(c).len() > 0,
        ffmpeg::voice_filter(c).last() != 'e',
        ffmpeg::is_normal_speed(c.speed as int) ==> quiet(ffmpeg::voice_filter(c)),
{
    let format = ffmpeg::common_format(c.sample_rate as int);
    let speed = c.speed as int;
    lemma_quiet_format(c.sample_rate as int);
    reveal_strlit(",aformat=sample_fmts=fltp:channel_layouts=stereo");
    assert(format.len() > 0);
    let tempo = ffmpeg::tempo_chain(speed);
    if tempo.len() > 0 {
        let n = ffmpeg::tempo_factors(speed).len();
        let parts = Seq::new(n, |i: int| ffmpeg::tempo_part(speed, i));
        let last = parts[n - 1];
        let x = number::fixed6(ffmpeg::tempo_factors(speed)[n - 1]);
        lemma_quiet_fixed6(ffmpeg::tempo_factors(speed)[n - 1]);
        assert(last == "atempo="@ + x);
        assert(last.last() == x.last());
        if n > 1 {
            assert(tempo.last() == parts.last().last());
        }
        assert((format + ","@ + tempo).last() == tempo.last());
    }
}

/// Where the word is found in three texts behind each other, of which the outer two are quiet and
/// the middle one is set off by brackets, it lies within the middle one.
proof fn lemma_word_in_middle(music: Seq<char>, voice: Seq<char>, tail: Seq<char>, i: int)
    requires
        quiet(music),
        quiet(tail),
        music.len() > 0,
        music.last() == ']',
        voice.len() > 0,
        voice.last() != 'e',
        tail.len() > 0,
        tail[0] == '[',
        0 <= i,
        i + 6 <= (music + voice + tail).len(),
        (music + voice + tail).subrange(i, i + 6) == "atempo"@,
    ensures
        !quiet(voice),
        music.len() <= i,
        i + 6 <= music.len() + voice.len(),
{
    let s = music + voice + tail;
    let w = s.subrange(i, i + 6);
    reveal_strlit("atempo");
    assert(w[2] == 'e' && w[3] == 'm');
    assert forall|k: int| i <= k < i + 6 implies s[k] != '[' && s[k] != ']' by {
        assert(w[k - i] != '[' && w[k - i] != ']');
    }
    let a = music.len() as int;
    let b = a + voice.len();
    let k = i + 3;
    assert(s[k] == 'm' && s[k - 1] == 'e');
    assert(s[a - 1] == music[a - 1]);
    assert(s[b - 1] == voice[b - 1 - a]);
    assert(s[b] == tail[0]);
    if k < a {
        assert(s[k] == music[k] && s[k - 1] == music[k - 1]);
    } else if k > b {
        assert(s[k] == tail[k - b] && s[k - 1] == tail[k - 1 - b]);
    } else if a < k < b {
        assert(s[k] == voice[k - a] && s[k - 1] == voice[k - 1 - a]);
    }
}

/// Tempo filters stand in the voice's part of the filter only, and only where the speed is not
/// normal: wherever the word occurs, it lies within that part.
pub proof fn law_tempo_stands_in_the_voice_only(
    pieces: Seq<Piece>,
    c: OverlayConfig,
    duration: int,
    i: int,
)
    requires
        0 <= i,
        i + 6 <= ffmpeg::overlay_filter(pieces, c, duration).len(),
        ffmpeg::overlay_filter(pieces, c, duration).subrange(i, i + 6) == "atempo"@,
    ensures
        !ffmpeg::is_normal_speed(c.speed as int),
        ffmpeg::music_filter(pieces, c, duration).len() <= i,
        i + 6 <= ffmpeg::music_filter(pieces, c, duration).len() + ffmpeg::voice_filter(c).len(),
{
    let tail = "[v];[v][mv]amix=inputs=2:duration=first:normalize=0,alimiter=limit=1[out]"@;
    let music = ffmpeg::music_filter(pieces, c, duration);
    let voice = ffmpeg::voice_filter(c);
    assert(ffmpeg::overlay_filter(pieces, c, duration) == music + voice + tail);
    lemma_quiet_music(pieces, c, duration);
    lemma_voice_end(c);
    lemma_tail();
    lemma_word_in_middle(music, voice, tail, i);
}

} // verus!
