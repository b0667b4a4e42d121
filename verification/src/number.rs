//! Decimal numbers.
//!
//! A written number is read with eighteen digits behind the point, so that a loudness is handed
//! on as it was given. Times, speeds and volumes are whole numbers of millionths: microseconds
//! for a time, which is the resolution that ffmpeg's arguments are written with.

use crate::text;
use crate::text::{chars_of, decimal_text, padded_text, same_text, text_of};
use vstd::prelude::*;

verus! {

/// One second in microseconds; the unit that a plain `1` stands for.
pub const ONE: i64 = 1_000_000;

/// One millisecond in microseconds. Times no longer than this count as nothing.
pub const TICK: i64 = 1_000;

/// How many parts of a written number make one.
pub const PARTS: u128 = 1_000_000_000_000_000_000;

/// How many parts make a millionth.
pub const PARTS_OF_MILLIONTH: u128 = 1_000_000_000_000;

/// The most parts that a number is read with: as many as the largest `i64` of millionths has.
pub const MAX_PARTS: u128 = 9_223_372_036_854_775_807_000_000_000_000;

/// What a written number says.
#[derive(Debug, Clone, Copy, PartialEq, Eq, Structural)]
pub enum Number {
    /// A finite number, as a sign and a count of parts. Zero has a sign too.
    Finite { negative: bool, parts: u128 },
    /// An infinite number.
    Infinite { negative: bool },
    /// The text `nan`.
    NotANumber,
}

pub open spec fn is_digit(c: char) -> bool {
    '0' <= c <= '9'
}

/// How many digits `s` starts with.
pub open spec fn digit_run(s: Seq<char>) -> nat
    decreases s.len(),
{
    if s.len() > 0 && is_digit(s[0]) {
        1 + digit_run(s.skip(1))
    } else {
        0
    }
}

/// The value of the digit at `i`; zero outside of `d`.
pub open spec fn digit_at(d: Seq<char>, i: int) -> int {
    if 0 <= i < d.len() {
        d[i] as int - 48
    } else {
        0
    }
}

/// The number that the first `k` digits of `d` write, with zeros behind its end.
pub open spec fn leading(d: Seq<char>, k: int) -> int
    decreases k,
{
    if k <= 0 {
        0
    } else {
        leading(d, k - 1) * 10 + digit_at(d, k - 1)
    }
}

/// The whole number nearest to the number that `d` writes with its point behind
/// `k` digits; a half is rounded up.
pub open spec fn nearest(d: Seq<char>, k: int) -> int {
    leading(d, k) + if digit_at(d, k) >= 5 {
        1int
    } else {
        0int
    }
}

/// `n`, or the most parts that a number is read with where `n` is larger.
pub open spec fn at_most_max(n: int) -> int {
    if n > MAX_PARTS {
        MAX_PARTS as int
    } else {
        n
    }
}

/// The characters of `s` with ASCII capitals made small.
pub open spec fn ascii_lower(s: Seq<char>) -> Seq<char> {
    Seq::new(s.len(), |i: int| lower_char(s[i]))
}

pub open spec fn lower_char(c: char) -> char {
    if 'A' <= c <= 'Z' {
        (c as u32 + 32) as char
    } else {
        c
    }
}

/// The exponent that a tail such as `e-3` writes; zero for no tail at all, `None`
/// for anything else.
pub open spec fn exponent(tail: Seq<char>) -> Option<int> {
    if tail.len() == 0 {
        Some(0)
    } else if tail[0] != 'e' && tail[0] != 'E' {
        None
    } else {
        let signed = tail.len() > 1 && (tail[1] == '+' || tail[1] == '-');
        let digits = if signed {
            tail.skip(2)
        } else {
            tail.skip(1)
        };
        if digits.len() == 0 || digit_run(digits) != digits.len() {
            None
        } else if signed && tail[1] == '-' {
            Some(-leading(digits, digits.len() as int))
        } else {
            Some(leading(digits, digits.len() as int))
        }
    }
}

/// The parts of a number written without a sign: digits with an optional point
/// among, before or behind them, and an optional exponent.
pub open spec fn magnitude(body: Seq<char>) -> Option<int> {
    let whole = digit_run(body) as int;
    let pointed = whole < body.len() && body[whole] == '.';
    let after = if pointed {
        whole + 1
    } else {
        whole
    };
    let fraction = if pointed {
        digit_run(body.skip(after)) as int
    } else {
        0
    };
    let digits = body.take(whole) + body.subrange(after, after + fraction);
    match exponent(body.skip(after + fraction)) {
        Some(e) if digits.len() > 0 => Some(at_most_max(nearest(digits, whole + e + 18))),
        _ => None,
    }
}

/// What the text `s` says as a number, if it is one: an optional sign, then `inf`,
/// `infinity` or `nan` in any case, or digits.
pub open spec fn number_in(s: Seq<char>) -> Option<Number> {
    let negative = s.len() > 0 && s[0] == '-';
    let body = if s.len() > 0 && (s[0] == '-' || s[0] == '+') {
        s.skip(1)
    } else {
        s
    };
    if ascii_lower(body) == "inf"@ || ascii_lower(body) == "infinity"@ {
        Some(Number::Infinite { negative })
    } else if ascii_lower(body) == "nan"@ {
        Some(Number::NotANumber)
    } else {
        match magnitude(body) {
            Some(m) => Some(Number::Finite { negative, parts: m as u128 }),
            None => None,
        }
    }
}

/// A number as a signed count of millionths, rounded to the nearest; what does not fit comes
/// out as the nearest count that does, and `nan` as zero.
pub open spec fn millionths_of(n: Number) -> int {
    match n {
        Number::Finite { negative, parts } => {
            let m = within_i64(nearest_quotient(parts as int, PARTS_OF_MILLIONTH as int));
            if negative {
                -m
            } else {
                m
            }
        },
        Number::Infinite { negative } => if negative {
            i64::MIN as int
        } else {
            i64::MAX as int
        },
        Number::NotANumber => 0,
    }
}

// ─── Properties of digits ──────────────────────────────────────

pub proof fn lemma_digit_run_bounds(s: Seq<char>)
    ensures
        digit_run(s) <= s.len(),
        forall|i: int| 0 <= i < digit_run(s) ==> is_digit(#[trigger] s[i]),
        digit_run(s) < s.len() ==> !is_digit(s[digit_run(s) as int]),
    decreases s.len(),
{
    if s.len() > 0 && is_digit(s[0]) {
        let t = s.skip(1);
        lemma_digit_run_bounds(t);
        assert forall|i: int| 0 <= i < digit_run(s) implies is_digit(#[trigger] s[i]) by {
            if i > 0 {
                assert(is_digit(t[i - 1]));
            }
        }
        if digit_run(s) < s.len() {
            assert(!is_digit(t[digit_run(t) as int]));
        }
    }
}

spec fn all_digits(d: Seq<char>) -> bool {
    forall|i: int| 0 <= i < d.len() ==> is_digit(#[trigger] d[i])
}

proof fn lemma_leading_grows(d: Seq<char>, k: int, m: int)
    requires
        all_digits(d),
        k <= m,
    ensures
        0 <= leading(d, k) <= leading(d, m),
    decreases (if m > 0 { m } else { 0 }), (if m > k { m - k } else { 0 }),
{
    if m <= 0 {
    } else if k < m {
        lemma_leading_grows(d, k, m - 1);
        if 0 <= m - 1 < d.len() {
            assert(is_digit(d[m - 1]));
        }
    } else {
        lemma_leading_grows(d, k - 1, k - 1);
        if 0 <= k - 1 < d.len() {
            assert(is_digit(d[k - 1]));
        }
    }
}

proof fn lemma_leading_zero(d: Seq<char>, k: int)
    requires
        all_digits(d),
        k >= d.len(),
        leading(d, d.len() as int) == 0,
    ensures
        leading(d, k) == 0,
    decreases k - d.len(),
{
    if k > d.len() {
        lemma_leading_zero(d, k - 1);
    }
}

/// Far behind the last digit every further place makes the number ten times as large.
proof fn lemma_leading_far(d: Seq<char>, k: int, n: nat)
    requires
        all_digits(d),
        k >= d.len() + n,
        leading(d, d.len() as int) > 0,
    ensures
        leading(d, k) >= vstd::arithmetic::power::pow(10, n),
    decreases k - d.len(),
{
    reveal(vstd::arithmetic::power::pow);
    if k == d.len() {
    } else if n == 0 {
        lemma_leading_grows(d, d.len() as int, k);
    } else {
        lemma_leading_far(d, k - 1, (n - 1) as nat);
    }
}

proof fn lemma_pow_31()
    ensures
        vstd::arithmetic::power::pow(10, 31) == 10_000_000_000_000_000_000_000_000_000_000,
{
    reveal_with_fuel(vstd::arithmetic::power::pow, 32);
}

/// The place of the point does not matter any more once it is far to the right.
proof fn lemma_far_right(d: Seq<char>, k: int)
    requires
        all_digits(d),
        k >= d.len() + 31,
    ensures
        at_most_max(nearest(d, k)) == (if leading(d, d.len() as int) == 0 {
            0
        } else {
            MAX_PARTS as int
        }),
{
    lemma_leading_grows(d, 0, d.len() as int);
    if leading(d, d.len() as int) == 0 {
        lemma_leading_zero(d, k);
    } else {
        lemma_leading_far(d, k, 31);
        lemma_pow_31();
    }
}

// ─── Reading ───────────────────────────────────────────────────

/// Where the digits that start at `from` end.
fn run_end(chars: &Vec<char>, from: usize) -> (end: usize)
    requires
        from <= chars@.len(),
    ensures
        end == from + digit_run(chars@.skip(from as int)),
        from <= end <= chars@.len(),
{
    let mut i: usize = from;
    while i < chars.len() && chars[i] >= '0' && chars[i] <= '9'
        invariant
            from <= i <= chars@.len(),
            digit_run(chars@.skip(from as int)) == (i - from) + digit_run(chars@.skip(i as int)),
        decreases chars.len() - i,
    {
        assert(chars@.skip(i as int).skip(1) =~= chars@.skip(i + 1));
        i += 1;
    }
    assert(digit_run(chars@.skip(i as int)) == 0);
    i
}

/// The nearest whole number of `digits` with the point behind `k` of them.
fn round_at(digits: &Vec<char>, k: i128) -> (r: u128)
    requires
        all_digits(digits@),
    ensures
        r == at_most_max(nearest(digits@, k as int)),
{
    let mut v: i128 = 0;
    let mut i: usize = 0;
    while i < digits.len() && (i as i128) < k
        invariant
            0 <= i <= digits@.len(),
            i <= k || i == 0,
            all_digits(digits@),
            0 <= v <= MAX_PARTS,
            v == leading(digits@, i as int),
        decreases digits.len() - i,
    {
        let c = digits[i];
        assert(is_digit(digits@[i as int]));
        let d: i128 = (c as u32) as i128 - 48;
        v = v * 10 + d;
        i += 1;
        if v > MAX_PARTS as i128 {
            proof {
                lemma_leading_grows(digits@, i as int, k as int);
                if 0 <= k < digits@.len() {
                    assert(is_digit(digits@[k as int]));
                }
            }
            return MAX_PARTS;
        }
    }
    if k < 0 {
        return 0;
    }
    let mut j: i128 = i as i128;
    if v == 0 && i == digits.len() {
        proof {
            lemma_leading_zero(digits@, k as int);
        }
        return 0;
    }
    while j < k
        invariant
            i <= j <= k || j == k,
            all_digits(digits@),
            0 <= v <= MAX_PARTS,
            v == leading(digits@, j as int),
            j < k ==> j >= digits@.len(),
            j < k ==> v > 0,
        decreases k - j,
    {
        proof {
            lemma_leading_grows(digits@, j as int, j + 1);
        }
        v = v * 10;
        j += 1;
        if v > MAX_PARTS as i128 {
            proof {
                lemma_leading_grows(digits@, j as int, k as int);
            }
            return MAX_PARTS;
        }
    }
    if k < digits.len() as i128 {
        let c = digits[k as usize];
        assert(is_digit(digits@[k as int]));
        let d: i128 = (c as u32) as i128 - 48;
        if d >= 5 {
            v = v + 1;
        }
        if v > MAX_PARTS as i128 {
            return MAX_PARTS;
        }
    }
    v as u128
}

/// An exponent this large moves the point past every digit.
const FAR: i128 = 0x4000_0000_0000_0000_0000_0000_0000;

/// The number that `chars[from..]` writes, or `FAR` where it is larger.
fn capped_value(chars: &Vec<char>, from: usize) -> (r: i128)
    requires
        from <= chars@.len(),
        all_digits(chars@.skip(from as int)),
    ensures
        ({
            let v = leading(chars@.skip(from as int), chars@.len() - from);
            r == if v > FAR {
                FAR as int
            } else {
                v
            }
        }),
{
    let ghost d = chars@.skip(from as int);
    let mut v: i128 = 0;
    let mut i: usize = from;
    while i < chars.len()
        invariant
            from <= i <= chars@.len(),
            d == chars@.skip(from as int),
            all_digits(d),
            0 <= v <= FAR,
            v == leading(d, i - from),
        decreases chars.len() - i,
    {
        let c = chars[i];
        assert(d[i - from] == chars@[i as int]);
        assert(is_digit(d[i - from]));
        v = v * 10 + ((c as u32) as i128 - 48);
        i += 1;
        if v > FAR {
            proof {
                lemma_leading_grows(d, i - from, chars@.len() - from);
            }
            return FAR;
        }
    }
    v
}

/// The exponent in `chars[from..]`, kept within `FAR` of zero.
fn read_exponent(chars: &Vec<char>, from: usize) -> (r: Option<i128>)
    requires
        from <= chars@.len(),
    ensures
        match exponent(chars@.skip(from as int)) {
            None => r is None,
            Some(e) => r == Some(
                if e > FAR {
                    FAR
                } else if e < -FAR {
                    (-FAR) as i128
                } else {
                    e as i128
                },
            ),
        },
{
    let ghost tail = chars@.skip(from as int);
    if from == chars.len() {
        return Some(0);
    }
    assert(tail[0] == chars@[from as int]);
    if chars[from] != 'e' && chars[from] != 'E' {
        return None;
    }
    let mut at: usize = from + 1;
    let mut negative = false;
    if at < chars.len() {
        assert(tail[1] == chars@[at as int]);
        if chars[at] == '+' || chars[at] == '-' {
            negative = chars[at] == '-';
            at += 1;
        }
    }
    let ghost digits = chars@.skip(at as int);
    assert(digits =~= tail.skip(at - from));
    let end = run_end(chars, at);
    if at == chars.len() || end != chars.len() {
        return None;
    }
    proof {
        lemma_digit_run_bounds(digits);
        assert(all_digits(digits));
        lemma_leading_grows(digits, 0, digits.len() as int);
    }
    let v = capped_value(chars, at);
    if negative {
        Some(-v)
    } else {
        Some(v)
    }
}

/// Keeping the exponent within `FAR` of zero does not change the rounded number.
proof fn lemma_capped_exponent(digits: Seq<char>, whole: int, e: int)
    requires
        all_digits(digits),
        0 <= whole <= digits.len() <= 2 * usize::MAX,
    ensures
        ({
            let c = if e > FAR {
                FAR as int
            } else if e < -FAR {
                -FAR as int
            } else {
                e
            };
            at_most_max(nearest(digits, whole + c + 18)) == at_most_max(
                nearest(digits, whole + e + 18),
            )
        }),
        0 <= at_most_max(nearest(digits, whole + e + 18)) <= MAX_PARTS,
{
    lemma_leading_grows(digits, whole + e + 18, whole + e + 18);
    if e > FAR {
        lemma_far_right(digits, whole + FAR + 18);
        lemma_far_right(digits, whole + e + 18);
    }
}

/// The characters `chars[a..b]` and `chars[c..d]`.
fn two_parts(chars: &Vec<char>, a: usize, b: usize, c: usize, d: usize) -> (r: Vec<char>)
    requires
        a <= b <= c <= d <= chars@.len(),
    ensures
        r@ == chars@.subrange(a as int, b as int) + chars@.subrange(c as int, d as int),
{
    let mut out: Vec<char> = Vec::new();
    let mut i: usize = a;
    while i < b
        invariant
            a <= i <= b <= chars@.len(),
            out@ == chars@.subrange(a as int, i as int),
        decreases b - i,
    {
        out.push(chars[i]);
        i += 1;
        assert(out@ =~= chars@.subrange(a as int, i as int));
    }
    i = c;
    while i < d
        invariant
            c <= i <= d <= chars@.len(),
            out@ == chars@.subrange(a as int, b as int) + chars@.subrange(c as int, i as int),
        decreases d - i,
    {
        out.push(chars[i]);
        i += 1;
        assert(out@ =~= chars@.subrange(a as int, b as int) + chars@.subrange(c as int, i as int));
    }
    out
}

/// The parts of the number written in `chars[from..]`.
#[verifier::spinoff_prover]
#[verifier::rlimit(40)]
fn read_magnitude(chars: &Vec<char>, from: usize) -> (r: Option<u128>)
    requires
        from <= chars@.len(),
    ensures
        match magnitude(chars@.skip(from as int)) {
            None => r is None,
            Some(m) => r == Some(m as u128) && 0 <= m <= MAX_PARTS,
        },
{
    let ghost body = chars@.skip(from as int);
    let whole_end = run_end(chars, from);
    proof {
        lemma_digit_run_bounds(body);
    }
    let mut after: usize = whole_end;
    let mut end: usize = whole_end;
    if whole_end < chars.len() && chars[whole_end] == '.' {
        after = whole_end + 1;
        end = run_end(chars, after);
        assert(chars@.skip(after as int) =~= body.skip(after - from));
        proof {
            lemma_digit_run_bounds(body.skip(after - from));
        }
    }
    let ghost whole = digit_run(body) as int;
    let ghost digits = body.take(whole) + body.subrange(after - from, end - from);
    let d = two_parts(chars, from, whole_end, after, end);
    proof {
        assert(d@ =~= digits);
        assert(body.skip(end - from) =~= chars@.skip(end as int));
        assert(all_digits(digits)) by {
            assert forall|j: int| 0 <= j < digits.len() implies is_digit(#[trigger] digits[j]) by {
                if j < whole {
                    assert(is_digit(body[j]));
                } else {
                    let f = body.skip(after - from);
                    assert(is_digit(f[j - whole]));
                }
            }
        }
    }
    match read_exponent(chars, end) {
        None => None,
        Some(e) => {
            if d.len() == 0 {
                return None;
            }
            let k: i128 = (whole_end - from) as i128 + e + 18;
            proof {
                lemma_capped_exponent(digits, whole, exponent(body.skip(end - from))->Some_0);
            }
            Some(round_at(&d, k))
        },
    }
}

/// What is read has at most `MAX_PARTS` parts.
pub proof fn lemma_read_in_range(s: Seq<char>)
    ensures
        number_in(s) matches Some(Number::Finite { negative, parts }) ==> parts <= MAX_PARTS,
{
    let body = if s.len() > 0 && (s[0] == '-' || s[0] == '+') {
        s.skip(1)
    } else {
        s
    };
    let whole = digit_run(body) as int;
    let pointed = whole < body.len() && body[whole] == '.';
    let after = if pointed {
        whole + 1
    } else {
        whole
    };
    let rest = body.skip(after);
    let fraction = if pointed {
        digit_run(rest) as int
    } else {
        0
    };
    let digits = body.take(whole) + body.subrange(after, after + fraction);
    lemma_digit_run_bounds(body);
    lemma_digit_run_bounds(rest);
    assert forall|j: int| 0 <= j < digits.len() implies is_digit(#[trigger] digits[j]) by {
        if j < whole {
            assert(is_digit(body[j]));
        } else {
            assert(is_digit(rest[j - whole]));
        }
    }
    if let Some(e) = exponent(body.skip(after + fraction)) {
        lemma_leading_grows(digits, whole + e + 18, whole + e + 18);
    }
}

fn char_to_lower(c: char) -> (r: char)
    ensures
        r == lower_char(c),
{
    if 'A' <= c && c <= 'Z' {
        let b: u8 = c as u8;
        (b + 32) as char
    } else {
        c
    }
}

/// `s` with ASCII capitals made small.
pub fn ascii_lower_text(s: &str) -> (r: String)
    ensures
        r@ == ascii_lower(s@),
{
    let chars = chars_of(s);
    let mut out = String::new();
    let mut i: usize = 0;
    while i < chars.len()
        invariant
            0 <= i <= chars@.len(),
            chars@ == s@,
            out@ == ascii_lower(s@.take(i as int)),
        decreases chars.len() - i,
    {
        out.push(char_to_lower(chars[i]));
        i += 1;
        assert(out@ =~= ascii_lower(s@.take(i as int)));
    }
    assert(s@.take(i as int) =~= s@);
    out
}

/// Reads a number.
pub fn parse_number(s: &str) -> (r: Option<Number>)
    ensures
        r == number_in(s@),
{
    let chars = chars_of(s);
    let mut from: usize = 0;
    let mut negative = false;
    if chars.len() > 0 && (chars[0] == '-' || chars[0] == '+') {
        negative = chars[0] == '-';
        from = 1;
    }
    let ghost body = chars@.skip(from as int);
    assert(s@.skip(0) =~= s@);
    let word = ascii_lower_text(text_of(&chars, from, chars.len()).as_str());
    assert(chars@.subrange(from as int, chars@.len() as int) =~= body);
    if same_text(word.as_str(), "inf") || same_text(word.as_str(), "infinity") {
        return Some(Number::Infinite { negative });
    }
    if same_text(word.as_str(), "nan") {
        return Some(Number::NotANumber);
    }
    match read_magnitude(&chars, from) {
        Some(parts) => Some(Number::Finite { negative, parts }),
        None => None,
    }
}

/// A number as a signed count of millionths.
pub fn to_millionths(n: Number) -> (r: i64)
    ensures
        r == millionths_of(n),
{
    match n {
        Number::Finite { negative, parts } => {
            let mut n: u128 = parts / PARTS_OF_MILLIONTH;
            if parts % PARTS_OF_MILLIONTH >= PARTS_OF_MILLIONTH / 2 {
                n = n + 1;
            }
            assert(n == nearest_quotient(parts as int, PARTS_OF_MILLIONTH as int)) by {
                let c = PARTS_OF_MILLIONTH as int;
                assert(2 * parts + c == n * (2 * c) + (2 * parts + c - n * (2 * c)));
                vstd::arithmetic::div_mod::lemma_fundamental_div_mod_converse(
                    2 * parts + c,
                    2 * c,
                    n as int,
                    2 * parts + c - n * (2 * c),
                );
            }
            let m: i64 = if n > i64::MAX as u128 {
                i64::MAX
            } else {
                n as i64
            };
            if negative {
                -m
            } else {
                m
            }
        },
        Number::Infinite { negative } => if negative {
            i64::MIN
        } else {
            i64::MAX
        },
        Number::NotANumber => 0,
    }
}

// ─── Writing ───────────────────────────────────────────────────

pub open spec fn sign_text(negative: bool) -> Seq<char> {
    if negative {
        "-"@
    } else {
        Seq::empty()
    }
}

pub open spec fn abs(x: int) -> int {
    if x < 0 {
        -x
    } else {
        x
    }
}

/// `x` millionths with six digits behind the point.
pub open spec fn fixed6(x: int) -> Seq<char> {
    sign_text(x < 0) + text::decimal((abs(x) / 1_000_000) as nat) + "."@ + text::zero_padded(
        text::decimal((abs(x) % 1_000_000) as nat),
        6,
    )
}

/// `x` millionths rounded to three digits behind the point, a half away from zero.
pub open spec fn fixed3(x: int) -> Seq<char> {
    let thousandths = (abs(x) + 500) / 1000;
    sign_text(x < 0) + text::decimal((thousandths / 1000) as nat) + "."@ + text::zero_padded(
        text::decimal((thousandths % 1000) as nat),
        3,
    )
}

/// `s` without the zeros at its end.
pub open spec fn without_end_zeros(s: Seq<char>) -> Seq<char>
    decreases s.len(),
{
    if s.len() > 0 && s.last() == '0' {
        without_end_zeros(s.drop_last())
    } else {
        s
    }
}

/// A number with as many digits behind the point as it needs.
pub open spec fn plain(n: Number) -> Seq<char> {
    match n {
        Number::Finite { negative, parts } => {
            let whole = sign_text(negative) + text::decimal((parts / PARTS) as nat);
            if parts % PARTS == 0 {
                whole
            } else {
                whole + "."@ + without_end_zeros(
                    text::zero_padded(text::decimal((parts % PARTS) as nat), 18),
                )
            }
        },
        Number::Infinite { negative } => if negative {
            "-inf"@
        } else {
            "inf"@
        },
        Number::NotANumber => "NaN"@,
    }
}

fn magnitude_of(x: i64) -> (m: u64)
    ensures
        m == abs(x as int),
{
    if x == i64::MIN {
        0x8000_0000_0000_0000
    } else if x < 0 {
        (-x) as u64
    } else {
        x as u64
    }
}

/// Writes `x` millionths with six digits behind the point.
pub fn fixed6_text(x: i64) -> (r: String)
    ensures
        r@ == fixed6(x as int),
{
    let m = magnitude_of(x);
    let mut s = String::new();
    if x < 0 {
        s.append("-");
    }
    s.append(decimal_text((m / 1_000_000) as u128).as_str());
    s.append(".");
    s.append(padded_text((m % 1_000_000) as u128, 6).as_str());
    assert(s@ =~= fixed6(x as int));
    s
}

/// Writes `x` millionths with three digits behind the point.
pub fn fixed3_text(x: i64) -> (r: String)
    ensures
        r@ == fixed3(x as int),
{
    let t: u64 = (magnitude_of(x) + 500) / 1000;
    let mut s = String::new();
    if x < 0 {
        s.append("-");
    }
    s.append(decimal_text((t / 1000) as u128).as_str());
    s.append(".");
    s.append(padded_text((t % 1000) as u128, 3).as_str());
    assert(s@ =~= fixed3(x as int));
    s
}

fn drop_end_zeros(s: &str) -> (r: String)
    ensures
        r@ == without_end_zeros(s@),
{
    let chars = chars_of(s);
    let mut end: usize = chars.len();
    assert(s@.take(end as int) =~= s@);
    while end > 0 && chars[end - 1] == '0'
        invariant
            end <= chars@.len(),
            chars@ == s@,
            without_end_zeros(s@.take(end as int)) == without_end_zeros(s@),
        decreases end,
    {
        assert(s@.take(end as int).drop_last() =~= s@.take(end - 1));
        end -= 1;
    }
    assert(s@.take(end as int) =~= s@.subrange(0, end as int));
    text_of(&chars, 0, end)
}

/// Writes a number with as many digits behind the point as it needs.
pub fn plain_text(n: Number) -> (r: String)
    ensures
        r@ == plain(n),
{
    match n {
        Number::Finite { negative, parts } => {
            let mut s = String::new();
            if negative {
                s.append("-");
            }
            s.append(decimal_text(parts / PARTS).as_str());
            assert(s@ =~= sign_text(negative) + text::decimal((parts / PARTS) as nat));
            if parts % PARTS != 0 {
                s.append(".");
                s.append(drop_end_zeros(padded_text(parts % PARTS, 18).as_str()).as_str());
            }
            s
        },
        Number::Infinite { negative } => if negative {
            "-inf".to_owned()
        } else {
            "inf".to_owned()
        },
        Number::NotANumber => "NaN".to_owned(),
    }
}

// ─── Dividing ──────────────────────────────────────────────────

/// The whole number nearest to `a / b` for a positive `b`; a half is rounded up.
pub open spec fn nearest_quotient(a: int, b: int) -> int {
    (2 * a + b) / (2 * b)
}

/// `n` held within the range of `i64`.
pub open spec fn within_i64(n: int) -> int {
    if n > i64::MAX {
        i64::MAX as int
    } else if n < i64::MIN {
        i64::MIN as int
    } else {
        n
    }
}

/// What `a` millionths divided by `b` millionths comes to, in millionths.
pub open spec fn quotient(a: int, b: int) -> int {
    within_i64(nearest_quotient(a * 1_000_000, b))
}

/// Divides `a` millionths by `b` millionths.
pub fn divide(a: i64, b: i64) -> (r: i64)
    requires
        b > 0,
    ensures
        r == quotient(a as int, b as int),
{
    let n: i128 = 2 * (a as i128 * 1_000_000) + b as i128;
    let d: i128 = 2 * b as i128;
    let q: i128 = if n >= 0 {
        n / d
    } else {
        proof {
            let m = -n;
            assert(n as int / d as int == -((m + d - 1) / d as int)) by (nonlinear_arith)
                requires
                    m == -n,
                    d > 0,
                    n < 0,
            {
                let q = (m + d - 1) / d as int;
                let t = (m + d - 1) % d as int;
                assert(m + d - 1 == q * d + t);
                assert(n == (-q) * d + (d - 1 - t));
                vstd::arithmetic::div_mod::lemma_fundamental_div_mod_converse(
                    n as int,
                    d as int,
                    -q,
                    d - 1 - t,
                );
            }
        }
        -((-n + d - 1) / d)
    };
    if q > i64::MAX as i128 {
        i64::MAX
    } else if q < i64::MIN as i128 {
        i64::MIN
    } else {
        q as i64
    }
}

} // verus!
