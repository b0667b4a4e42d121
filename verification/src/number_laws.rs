//! What holds of written numbers: reading one gives back what was written.

use crate::number;
use crate::number::{Number, MAX_PARTS, PARTS};
use crate::text;
use vstd::arithmetic::power::pow;
use vstd::prelude::*;

verus! {

proof fn lemma_all_run(s: Seq<char>)
    requires
        text::all_digits(s),
    ensures
        number::digit_run(s) == s.len(),
    decreases s.len(),
{
    if s.len() > 0 {
        let t = s.skip(1);
        assert('0' <= s[0] <= '9');
        assert forall|i: int| 0 <= i < t.len() implies '0' <= #[trigger] t[i] <= '9' by {
            assert('0' <= s[i + 1] <= '9');
        }
        lemma_all_run(t);
    }
}

proof fn lemma_run_before(a: Seq<char>, b: Seq<char>)
    requires
        text::all_digits(a),
        b.len() > 0,
        !number::is_digit(b[0]),
    ensures
        number::digit_run(a + b) == a.len(),
    decreases a.len(),
{
    let s = a + b;
    if a.len() > 0 {
        let t = a.skip(1);
        assert('0' <= a[0] <= '9');
        assert(s[0] == a[0]);
        assert forall|i: int| 0 <= i < t.len() implies '0' <= #[trigger] t[i] <= '9' by {
            assert('0' <= a[i + 1] <= '9');
        }
        lemma_run_before(t, b);
        assert(s.skip(1) =~= t + b);
    } else {
        assert(s[0] == b[0]);
    }
}

proof fn lemma_leading_is_value(d: Seq<char>, k: int)
    requires
        0 <= k <= d.len(),
    ensures
        number::leading(d, k) == text::value(d.take(k)),
    decreases k,
{
    if k > 0 {
        lemma_leading_is_value(d, k - 1);
        assert(d.take(k).drop_last() =~= d.take(k - 1));
    }
}

/// The digits of `b` behind those of `a`.
proof fn lemma_leading_both(a: Seq<char>, b: Seq<char>, k: nat)
    ensures
        number::leading(a + b, (a.len() + k) as int) == number::leading(a, a.len() as int) * pow(10, k)
            + number::leading(b, k as int),
    decreases k,
{
    reveal(pow);
    let s = a + b;
    let n = number::leading(a, a.len() as int);
    if k == 0 {
        lemma_leading_alike(s, a, a.len() as int);
    } else {
        let j = (k - 1) as nat;
        lemma_leading_both(a, b, j);
        assert(number::digit_at(s, (a.len() + j) as int) == number::digit_at(b, j as int));
        let p = pow(10, j);
        assert((n * p) * 10 == n * (10 * p)) by (nonlinear_arith);
        assert(pow(10, k) == 10 * p);
    }
}

/// Only the digits before the point matter.
proof fn lemma_leading_alike(a: Seq<char>, b: Seq<char>, k: int)
    requires
        forall|i: int|
            0 <= i < k ==> #[trigger] number::digit_at(a, i) == number::digit_at(b, i),
    ensures
        number::leading(a, k) == number::leading(b, k),
    decreases k,
{
    if k > 0 {
        lemma_leading_alike(a, b, k - 1);
        assert(number::digit_at(a, k - 1) == number::digit_at(b, k - 1));
    }
}

proof fn lemma_leading_zeros(k: nat, n: nat)
    requires
        k <= n,
    ensures
        number::leading(Seq::new(n, |i: int| '0'), k as int) == 0,
    decreases k,
{
    if k > 0 {
        lemma_leading_zeros((k - 1) as nat, n);
    }
}

proof fn lemma_decimal_length(n: nat, k: nat)
    requires
        n < pow(10, k),
        k >= 1,
    ensures
        1 <= text::decimal(n).len() <= k,
    decreases k,
{
    reveal(pow);
    if n >= 10 {
        let j = (k - 1) as nat;
        if j == 0 {
            assert(pow(10, 0) == 1);
        }
        assert(pow(10, k) == 10 * pow(10, j));
        lemma_decimal_length(n / 10, j);
    }
}

/// Padding with zeros does not change the number.
proof fn lemma_padded(n: nat, k: nat)
    requires
        n < pow(10, k),
        k >= 1,
    ensures
        text::zero_padded(text::decimal(n), k).len() == k,
        text::all_digits(text::zero_padded(text::decimal(n), k)),
        number::leading(text::zero_padded(text::decimal(n), k), k as int) == n,
{
    let t = text::decimal(n);
    lemma_decimal_length(n, k);
    text::lemma_decimal(n);
    lemma_leading_is_value(t, t.len() as int);
    assert(t.take(t.len() as int) =~= t);
    let zeros = Seq::new((k - t.len()) as nat, |i: int| '0');
    let s = zeros + t;
    lemma_leading_zeros(zeros.len(), zeros.len());
    lemma_leading_both(zeros, t, t.len());
    if t.len() == k {
        assert(s =~= t);
    }
    assert forall|i: int| 0 <= i < s.len() implies '0' <= #[trigger] s[i] <= '9' by {
        if i >= zeros.len() {
            assert(s[i] == t[i - zeros.len()]);
        }
    }
}

/// Only zeros are missing where zeros at the end are left out.
proof fn lemma_without_end_zeros(s: Seq<char>)
    requires
        text::all_digits(s),
    ensures
        number::without_end_zeros(s).len() <= s.len(),
        text::all_digits(number::without_end_zeros(s)),
        forall|i: int| #[trigger]
            number::digit_at(number::without_end_zeros(s), i) == number::digit_at(s, i),
    decreases s.len(),
{
    if s.len() > 0 && s.last() == '0' {
        let t = s.drop_last();
        assert forall|i: int| 0 <= i < t.len() implies '0' <= #[trigger] t[i] <= '9' by {
            assert('0' <= s[i] <= '9');
        }
        lemma_without_end_zeros(t);
        let w = number::without_end_zeros(s);
        assert forall|i: int| #[trigger] number::digit_at(w, i) == number::digit_at(s, i) by {
            assert(number::digit_at(number::without_end_zeros(t), i) == number::digit_at(t, i));
        }
    }
}

/// The digits behind the point of a number that is written with as many as it needs.
pub proof fn lemma_part_digits(part: nat)
    requires
        part < PARTS,
    ensures
        text::all_digits(
            number::without_end_zeros(text::zero_padded(text::decimal(part), 18)),
        ),
{
    lemma_pow_18();
    lemma_padded(part, 18);
    lemma_without_end_zeros(text::zero_padded(text::decimal(part), 18));
}

proof fn lemma_pow_18()
    ensures
        pow(10, 18) == PARTS,
{
    reveal_with_fuel(pow, 19);
}

/// A whole number without a sign.
proof fn lemma_whole(whole: nat)
    ensures
        number::magnitude(text::decimal(whole)) == Some(
            number::at_most_max(whole * PARTS as int),
        ),
{
    let w = text::decimal(whole);
    let n = w.len() as int;
    let none: Seq<char> = seq![];
    text::lemma_decimal(whole);
    lemma_all_run(w);
    lemma_pow_18();
    lemma_leading_is_value(w, n);
    assert(w.take(n) =~= w);
    assert(w.take(n) + w.subrange(n, n) =~= w);
    assert(w.skip(n) =~= none);
    lemma_leading_both(w, none, 18);
    assert(w + none =~= w);
    reveal_with_fuel(number::leading, 19);
    assert(number::leading(none, 18) == 0);
    assert(w.len() > 0) by {
        assert(text::decimal(whole).len() > 0);
    }
    assert(number::nearest(w, n + 18) == whole * PARTS);
}

/// A number with digits behind the point, without a sign.
proof fn lemma_fraction(whole: nat, part: nat)
    requires
        part < PARTS,
    ensures
        number::magnitude(
            text::decimal(whole) + "."@ + number::without_end_zeros(
                text::zero_padded(text::decimal(part), 18),
            ),
        ) == Some(number::at_most_max(whole * PARTS + part)),
{
    let w = text::decimal(whole);
    let f = text::zero_padded(text::decimal(part), 18);
    let t = number::without_end_zeros(f);
    let n = w.len() as int;
    let body = w + "."@ + t;
    let none: Seq<char> = seq![];
    reveal_strlit(".");
    lemma_pow_18();
    text::lemma_decimal(whole);
    lemma_padded(part, 18);
    lemma_without_end_zeros(f);
    lemma_all_run(t);
    assert(body =~= w + ("."@ + t));
    lemma_run_before(w, "."@ + t);
    assert(body[n] == '.');
    assert(body.skip(n + 1) =~= t);
    let digits = body.take(n) + body.subrange(n + 1, n + 1 + t.len());
    assert(digits =~= w + t);
    assert(body.skip(n + 1 + t.len()) =~= none);
    lemma_leading_is_value(w, n);
    assert(w.take(n) =~= w);
    lemma_leading_both(w, t, 18);
    lemma_leading_alike(t, f, 18);
    assert(number::digit_at(digits, n + 18) == 0);
    assert(number::nearest(digits, n + 18) == whole * PARTS + part);
    assert(w.len() > 0) by {
        assert(text::decimal(whole).len() > 0);
    }
}

/// What is written after the sign is read as a number, not as a word.
proof fn lemma_no_word(body: Seq<char>)
    requires
        body.len() > 0,
        number::is_digit(body[0]),
    ensures
        number::ascii_lower(body) != "inf"@,
        number::ascii_lower(body) != "infinity"@,
        number::ascii_lower(body) != "nan"@,
{
    reveal_strlit("inf");
    reveal_strlit("infinity");
    reveal_strlit("nan");
    assert(number::ascii_lower(body)[0] == body[0]);
}

/// A finite number that was written is read as itself.
proof fn lemma_finite_reads_back(negative: bool, parts: u128)
    requires
        parts <= MAX_PARTS,
    ensures
        number::number_in(number::plain(Number::Finite { negative, parts })) == Some(
            Number::Finite { negative, parts },
        ),
{
    let s = number::plain(Number::Finite { negative, parts });
    let whole = (parts / PARTS) as nat;
    let part = (parts % PARTS) as nat;
    let w = text::decimal(whole);
    let body = if part == 0 {
        w
    } else {
        w + "."@ + number::without_end_zeros(text::zero_padded(text::decimal(part), 18))
    };
    reveal_strlit("-");
    text::lemma_decimal(whole);
    assert(w.len() > 0);
    assert('0' <= w[0] <= '9');
    assert(body[0] == w[0]);
    assert(whole * PARTS + part == parts);
    if part == 0 {
        lemma_whole(whole);
    } else {
        lemma_fraction(whole, part);
    }
    lemma_no_word(body);
    if negative {
        assert(s[0] == '-');
        assert(s.skip(1) =~= body);
    } else {
        assert(s =~= body);
    }
}

/// Reading a number that was written gives that number back.
pub proof fn law_numbers_read_back(n: Number)
    requires
        n matches Number::Finite { negative, parts } ==> parts <= MAX_PARTS,
    ensures
        number::number_in(number::plain(n)) == Some(n),
{
    match n {
        Number::Finite { negative, parts } => {
            lemma_finite_reads_back(negative, parts);
        },
        Number::Infinite { negative } => {
            reveal_strlit("-inf");
            reveal_strlit("inf");
            assert("-inf"@.skip(1) =~= "inf"@);
            assert(number::ascii_lower("inf"@) =~= "inf"@);
        },
        Number::NotANumber => {
            reveal_strlit("NaN");
            reveal_strlit("nan");
            reveal_strlit("inf");
            reveal_strlit("infinity");
            let lower = number::ascii_lower("NaN"@);
            assert('N' as u32 + 32 == 'n' as u32);
            assert(lower[0] == 'n');
            assert(lower =~= "nan"@);
            assert("inf"@[0] == 'i' && "infinity"@[0] == 'i');
        },
    }
}

/// So what was read is written in a way that reads the same, however it was spelled.
pub proof fn law_writing_keeps_what_was_read(s: Seq<char>)
    requires
        number::number_in(s) is Some,
    ensures
        number::number_in(number::plain(number::number_in(s)->Some_0)) == number::number_in(s),
{
    number::lemma_read_in_range(s);
    law_numbers_read_back(number::number_in(s)->Some_0);
}

// ─── Fixed places ──────────────────────────────────────────────

/// Digits behind the last place of a number make it longer, not larger.
proof fn lemma_leading_padded(d: Seq<char>, k: nat)
    ensures
        number::leading(d, (d.len() + k) as int) == number::leading(d, d.len() as int) * pow(10, k),
    decreases k,
{
    reveal(pow);
    if k > 0 {
        let j = (k - 1) as nat;
        lemma_leading_padded(d, j);
        let n = number::leading(d, d.len() as int);
        let p = pow(10, j);
        assert((n * p) * 10 == n * (10 * p)) by (nonlinear_arith);
    }
}

/// What a number with some digits behind the point is read as.
pub proof fn lemma_pointed_number(negative: bool, whole: nat, digits: Seq<char>)
    requires
        text::all_digits(digits),
        digits.len() <= 18,
    ensures
        ({
            let parts = whole * PARTS + number::leading(digits, digits.len() as int) * pow(
                10,
                (18 - digits.len()) as nat,
            );
            parts <= MAX_PARTS ==> number::number_in(
                number::sign_text(negative) + text::decimal(whole) + "."@ + digits,
            ) == Some(Number::Finite { negative, parts: parts as u128 })
        }),
{
    let w = text::decimal(whole);
    let n = w.len() as int;
    let body = w + "."@ + digits;
    let s = number::sign_text(negative) + text::decimal(whole) + "."@ + digits;
    let none: Seq<char> = seq![];
    let k = (18 - digits.len()) as nat;
    reveal_strlit(".");
    reveal_strlit("-");
    lemma_pow_18();
    text::lemma_decimal(whole);
    lemma_all_run(digits);
    assert(body =~= w + ("."@ + digits));
    lemma_run_before(w, "."@ + digits);
    assert(body[n] == '.');
    assert(body.skip(n + 1) =~= digits);
    let all = body.take(n) + body.subrange(n + 1, n + 1 + digits.len());
    assert(all =~= w + digits);
    assert(body.skip(n + 1 + digits.len()) =~= none);
    lemma_leading_is_value(w, n);
    assert(w.take(n) =~= w);
    lemma_leading_both(w, digits, 18);
    lemma_leading_padded(digits, k);
    assert(number::digit_at(all, n + 18) == 0);
    assert(w.len() > 0);
    assert('0' <= w[0] <= '9');
    assert(body[0] == w[0]);
    lemma_no_word(body);
    assert forall|i: int| 0 <= i < digits.len() implies number::is_digit(
        #[trigger] digits[i],
    ) by {
        assert('0' <= digits[i] <= '9');
    }
    lemma_leading_positive(digits, 18);
    assert(whole * PARTS >= 0) by (nonlinear_arith)
        requires
            whole >= 0,
            PARTS >= 0,
    ;
    if negative {
        assert(s[0] == '-');
        assert(s.skip(1) =~= body);
    } else {
        assert(s =~= body);
    }
}

proof fn lemma_leading_positive(d: Seq<char>, k: int)
    requires
        forall|i: int| 0 <= i < d.len() ==> number::is_digit(#[trigger] d[i]),
    ensures
        number::leading(d, k) >= 0,
    decreases k,
{
    if k > 0 {
        lemma_leading_positive(d, k - 1);
        if 0 <= k - 1 < d.len() {
            assert(number::is_digit(d[k - 1]));
        }
    }
}

proof fn lemma_small_powers()
    ensures
        pow(10, 6) == 1_000_000,
        pow(10, 12) == 1_000_000_000_000,
        pow(10, 17) == 100_000_000_000_000_000,
        pow(10, 18) == 1_000_000_000_000_000_000,
{
    reveal_with_fuel(pow, 19);
}

/// What is written with six digits behind the point reads back as the millionths that were
/// written. So different times, speeds and volumes are never written alike.
pub proof fn law_six_places_read_back(x: int)
    requires
        -i64::MAX <= x <= i64::MAX,
    ensures
        number::number_in(number::fixed6(x)) is Some,
        number::millionths_of(number::number_in(number::fixed6(x))->Some_0) == x,
{
    let m = number::abs(x);
    let whole = (m / 1_000_000) as nat;
    let part = (m % 1_000_000) as nat;
    let digits = text::zero_padded(text::decimal(part), 6);
    lemma_small_powers();
    lemma_padded(part, 6);
    lemma_pointed_number(x < 0, whole, digits);
    let parts = whole * PARTS + part * 1_000_000_000_000;
    assert(whole * 1_000_000_000_000_000_000 + part * 1_000_000_000_000 == m * 1_000_000_000_000)
        by (nonlinear_arith)
        requires
            m == whole * 1_000_000 + part,
    ;
    let c = number::PARTS_OF_MILLIONTH as int;
    vstd::arithmetic::div_mod::lemma_fundamental_div_mod_converse(2 * parts + c, 2 * c, m, c);
}

/// A digit before the point and one behind it read as that many tenths.
proof fn lemma_tenths(whole: nat, digits: Seq<char>, tenths: int)
    requires
        text::all_digits(digits),
        digits.len() == 1,
        whole <= 9,
        tenths == 10 * whole + number::leading(digits, 1),
        0 <= number::leading(digits, 1) <= 9,
    ensures
        ({
            let s = number::sign_text(false) + text::decimal(whole) + "."@ + digits;
            &&& number::number_in(s) is Some
            &&& number::millionths_of(number::number_in(s)->Some_0) == tenths * 100_000
        }),
{
    lemma_small_powers();
    lemma_pointed_number(false, whole, digits);
    let parts = whole * PARTS + number::leading(digits, 1) * pow(10, 17);
    assert(parts == tenths * 100_000_000_000_000_000);
    let c = number::PARTS_OF_MILLIONTH as int;
    vstd::arithmetic::div_mod::lemma_fundamental_div_mod_converse(
        2 * parts + c,
        2 * c,
        tenths * 100_000,
        c,
    );
}

/// The two whole factors that a tempo chain starts with read as themselves.
pub proof fn lemma_tempo_words()
    ensures
        number::number_in("2.0"@) is Some,
        number::millionths_of(number::number_in("2.0"@)->Some_0) == 2_000_000,
        number::number_in("0.5"@) is Some,
        number::millionths_of(number::number_in("0.5"@)->Some_0) == 500_000,
{
    reveal_strlit("2.0");
    reveal_strlit("0.5");
    reveal_strlit(".");
    let zero: Seq<char> = seq!['0'];
    let five: Seq<char> = seq!['5'];
    reveal_with_fuel(number::leading, 2);
    assert(number::leading(zero, 1) == 0);
    assert(number::leading(five, 1) == 5);
    lemma_tenths(2, zero, 20);
    lemma_tenths(0, five, 5);
    assert("2.0"@ =~= number::sign_text(false) + text::decimal(2) + "."@ + zero);
    assert("0.5"@ =~= number::sign_text(false) + text::decimal(0) + "."@ + five);
}

// ─── Dividing ──────────────────────────────────────────────────

/// A quotient times its divisor is what was divided, up to half the divisor: what is divided and
/// multiplied again comes out as it was.
pub proof fn law_quotients_multiply_back(a: int, b: int)
    requires
        b > 0,
    ensures
        ({
            let q = number::quotient(a, b);
            i64::MIN < q < i64::MAX ==> -b <= 2 * (q * b - a * 1_000_000) <= b
        }),
        0 <= a <= i64::MAX / 4 && b >= 500_000 ==> 0 <= number::quotient(a, b) < i64::MAX,
{
    let n = a * 1_000_000;
    let q = number::nearest_quotient(n, b);
    assert(-b <= 2 * (q * b - n) <= b) by (nonlinear_arith)
        requires
            b > 0,
            q == (2 * n + b) / (2 * b),
    ;
    if 0 <= a <= i64::MAX / 4 && b >= 500_000 {
        assert(0 <= q <= 2 * a + 1) by (nonlinear_arith)
            requires
                b >= 500_000,
                a >= 0,
                n == a * 1_000_000,
                q == (2 * n + b) / (2 * b),
        ;
    }
}

// ─── Rounding ──────────────────────────────────────────────────

/// A number comes out as the count of millionths that is nearest to it: it is off by half a
/// millionth at most. The sign changes nothing else, what is infinite comes out as far away as
/// can be, and what is no number as nothing.
pub proof fn law_millionths_are_nearest(parts: u128)
    requires
        parts <= MAX_PARTS,
    ensures
        ({
            let m = number::millionths_of(Number::Finite { negative: false, parts });
            &&& -1_000_000_000_000 <= 2 * (m * 1_000_000_000_000 - parts) <= 1_000_000_000_000
            &&& number::millionths_of(Number::Finite { negative: true, parts }) == -m
        }),
        number::millionths_of(Number::Infinite { negative: false }) == i64::MAX,
        number::millionths_of(Number::Infinite { negative: true }) == i64::MIN,
        number::millionths_of(Number::NotANumber) == 0,
{
}

/// What is written with three digits behind the point reads back as what was written, up to half
/// a thousandth.
pub proof fn law_three_places_read_back(x: int)
    requires
        -i64::MAX / 2 <= x <= i64::MAX / 2,
    ensures
        number::number_in(number::fixed3(x)) is Some,
        -500 <= number::millionths_of(number::number_in(number::fixed3(x))->Some_0) - x <= 500,
{
    let m = number::abs(x);
    let t = (m + 500) / 1000;
    let whole = (t / 1000) as nat;
    let part = (t % 1000) as nat;
    let digits = text::zero_padded(text::decimal(part), 3);
    lemma_thousands();
    lemma_padded(part, 3);
    lemma_pointed_number(x < 0, whole, digits);
    let parts = whole * PARTS + part * 1_000_000_000_000_000;
    assert(whole * 1_000_000_000_000_000_000 + part * 1_000_000_000_000_000 == t
        * 1_000_000_000_000_000) by (nonlinear_arith)
        requires
            t == whole * 1000 + part,
    ;
    let c = number::PARTS_OF_MILLIONTH as int;
    vstd::arithmetic::div_mod::lemma_fundamental_div_mod_converse(
        2 * parts + c,
        2 * c,
        t * 1000,
        c,
    );
}

proof fn lemma_thousands()
    ensures
        pow(10, 3) == 1_000,
        pow(10, 15) == 1_000_000_000_000_000,
{
    reveal_with_fuel(pow, 16);
}

// ─── Forms of numbers ──────────────────────────────────────────

/// A number with the other sign.
pub open spec fn negated(n: Option<Number>) -> Option<Number> {
    match n {
        Some(Number::Finite { negative, parts }) => Some(
            Number::Finite { negative: !negative, parts },
        ),
        Some(Number::Infinite { negative }) => Some(Number::Infinite { negative: !negative }),
        _ => n,
    }
}

/// A minus in front turns the sign of what is read, and a plus changes nothing.
pub proof fn law_signs(s: Seq<char>)
    requires
        s.len() > 0 ==> s[0] != '-' && s[0] != '+',
    ensures
        number::number_in(seq!['-'] + s) == negated(number::number_in(s)),
        number::number_in(seq!['+'] + s) == number::number_in(s),
{
    assert((seq!['-'] + s).skip(1) =~= s);
    assert((seq!['+'] + s).skip(1) =~= s);
}

/// An exponent moves the point: to the right by as many places as it says, or to the left where
/// it is negative.
pub proof fn law_exponents_move_the_point(n: nat, k: nat)
    ensures
        n * pow(10, k + 18) <= MAX_PARTS ==> number::number_in(
            text::decimal(n) + seq!['e'] + text::decimal(k),
        ) == Some(Number::Finite { negative: false, parts: (n * pow(10, k + 18)) as u128 }),
        k <= 18 && n * pow(10, (18 - k) as nat) <= MAX_PARTS ==> number::number_in(
            text::decimal(n) + seq!['e', '-'] + text::decimal(k),
        ) == Some(
            Number::Finite { negative: false, parts: (n * pow(10, (18 - k) as nat)) as u128 },
        ),
{
    lemma_with_exponent(n, seq!['e'] + text::decimal(k), k as int);
    lemma_with_exponent(n, seq!['e', '-'] + text::decimal(k), -k);
    assert(text::decimal(n) + (seq!['e'] + text::decimal(k)) =~= text::decimal(n) + seq!['e']
        + text::decimal(k));
    assert(text::decimal(n) + (seq!['e', '-'] + text::decimal(k)) =~= text::decimal(n) + seq![
        'e',
        '-',
    ] + text::decimal(k));
}

proof fn lemma_with_exponent(n: nat, tail: Seq<char>, e: int)
    requires
        e >= 0 ==> tail == seq!['e'] + text::decimal(e as nat) || (e == 0 && tail == seq!['e', '-']
            + text::decimal(0)),
        e < 0 ==> tail == seq!['e', '-'] + text::decimal((-e) as nat),
    ensures
        e >= -18 && n * pow(10, (e + 18) as nat) <= MAX_PARTS ==> number::number_in(
            text::decimal(n) + tail,
        ) == Some(
            Number::Finite { negative: false, parts: (n * pow(10, (e + 18) as nat)) as u128 },
        ),
{
    let w = text::decimal(n);
    let k = number::abs(e) as nat;
    let d = text::decimal(k);
    let body = w + tail;
    let m = w.len() as int;
    let none: Seq<char> = seq![];
    text::lemma_decimal(n);
    text::lemma_decimal(k);
    lemma_run_before(w, tail);
    lemma_all_run(d);
    lemma_leading_is_value(w, m);
    lemma_leading_is_value(d, d.len() as int);
    assert(w.take(m) =~= w);
    assert(d.take(d.len() as int) =~= d);
    assert(body[m] == 'e');
    assert(body.take(m) + body.subrange(m, m) =~= w);
    assert(body.skip(m) =~= tail);
    assert('0' <= w[0] <= '9');
    assert('0' <= d[0] <= '9');
    assert(body[0] == w[0]);
    lemma_no_word(body);
    if tail.len() == d.len() + 2 && tail[1] == '-' {
        assert(tail.skip(2) =~= d);
    } else {
        assert(tail[1] == d[0]);
        assert(tail.skip(1) =~= d);
    }
    assert(number::exponent(tail) == Some(e));
    if e >= -18 {
        lemma_leading_padded(w, (e + 18) as nat);
        assert(number::digit_at(w, m + e + 18) == 0);
        lemma_power_positive(n, (e + 18) as nat);
    }
}

proof fn lemma_power_positive(n: nat, k: nat)
    ensures
        0 <= n * pow(10, k),
{
    vstd::arithmetic::power::lemma_pow_positive(10, k);
    assert(n * pow(10, k) >= 0) by (nonlinear_arith)
        requires
            pow(10, k) > 0,
            n >= 0,
    ;
}

/// Whether a character can stand in a number that is written in digits.
pub open spec fn is_number_char(c: char) -> bool {
    '0' <= c <= '9' || c == '.' || c == 'e' || c == 'E' || c == '+' || c == '-'
}

/// What is read as a finite number is written in digits, with nothing else but a sign, a point and
/// an exponent.
pub proof fn law_finite_numbers_are_digits(s: Seq<char>, i: int)
    requires
        number::number_in(s) matches Some(Number::Finite { negative, parts }),
        0 <= i < s.len(),
    ensures
        is_number_char(s[i]),
{
    let body = if s.len() > 0 && (s[0] == '-' || s[0] == '+') {
        s.skip(1)
    } else {
        s
    };
    let whole = number::digit_run(body) as int;
    let pointed = whole < body.len() && body[whole] == '.';
    let after = if pointed {
        whole + 1
    } else {
        whole
    };
    let fraction = if pointed {
        number::digit_run(body.skip(after)) as int
    } else {
        0
    };
    let tail = body.skip(after + fraction);
    number::lemma_digit_run_bounds(body);
    number::lemma_digit_run_bounds(body.skip(after));
    assert(number::exponent(tail) is Some);
    let k = i - (s.len() - body.len());
    if k >= 0 {
        assert(body[k] == s[i]);
        if k < whole {
            assert(number::is_digit(body[k]));
        } else if k >= after && k < after + fraction {
            assert(number::is_digit(body.skip(after)[k - after]));
        } else if k >= after + fraction {
            let j = k - after - fraction;
            assert(tail[j] == body[k]);
            let signed = tail.len() > 1 && (tail[1] == '+' || tail[1] == '-');
            let digits = if signed {
                tail.skip(2)
            } else {
                tail.skip(1)
            };
            number::lemma_digit_run_bounds(digits);
            if signed && j >= 2 {
                assert(number::is_digit(digits[j - 2]));
            } else if !signed && j >= 1 {
                assert(number::is_digit(digits[j - 1]));
            }
        }
    }
}

} // verus!
