//! Decimal numbers in text: the grammar of a numeral, and whether the double
//! nearest to it is finite.

use vstd::prelude::*;
use crate::text::to_chars;

verus! {

/// The ten digits `0` to `9`.
pub open spec fn is_digit(c: char) -> bool {
    0x30 <= c as u32 <= 0x39
}

/// The two signs.
pub open spec fn is_sign(c: char) -> bool {
    c == '+' || c == '-'
}

/// The letter that starts an exponent, small or capital.
pub open spec fn is_exponent_mark(c: char) -> bool {
    c == 'e' || c == 'E'
}

/// Whether every character of `s` from `from` up to `to`, `to` left out, is a
/// digit.
pub open spec fn digits_between(s: Seq<char>, from: int, to: int) -> bool {
    forall|i: int| from <= i < to ==> is_digit(#[trigger] s[i])
}

/// Whether `s` from `from` up to `to` is digits with at most one point among
/// them, and one digit at least.
pub open spec fn plain_between(s: Seq<char>, from: int, to: int) -> bool {
    ||| from < to && digits_between(s, from, to)
    ||| exists|p: int|
        {
            &&& from <= p < to
            &&& #[trigger] s[p] == '.'
            &&& to - from > 1
            &&& digits_between(s, from, p)
            &&& digits_between(s, p + 1, to)
        }
}

/// Whether `s` from `from` up to `to` is an optional sign and then digits, one
/// at least.
pub open spec fn exponent_between(s: Seq<char>, from: int, to: int) -> bool {
    let first = if from < to && is_sign(s[from]) {
        from + 1
    } else {
        from
    };
    first < to && digits_between(s, first, to)
}

/// Where the number starts: behind the sign, if there is one.
pub open spec fn number_start(s: Seq<char>) -> int {
    if s.len() > 0 && is_sign(s[0]) {
        1
    } else {
        0
    }
}

/// Whether `s` is a decimal numeral: an optional sign; digits with at most one
/// point among them, one digit at least; then an optional exponent, which is
/// its mark, an optional sign and one digit or more. Nothing may stand before
/// or after it, and no word for infinity or for a value that is no number is
/// one.
pub open spec fn is_numeral(s: Seq<char>) -> bool {
    ||| plain_between(s, number_start(s), s.len() as int)
    ||| exists|e: int|
        {
            &&& number_start(s) <= e < s.len()
            &&& is_exponent_mark(#[trigger] s[e])
            &&& plain_between(s, number_start(s), e)
            &&& exponent_between(s, e + 1, s.len() as int)
        }
}

/// Where the run of digits that starts at `from` ends.
pub open spec fn digits_end(s: Seq<char>, from: int) -> int
    decreases s.len() - from,
{
    if 0 <= from < s.len() && is_digit(s[from]) {
        digits_end(s, from + 1)
    } else {
        from
    }
}

/// Where the run of zeros that starts at `from` ends.
pub open spec fn zeros_end(s: Seq<char>, from: int) -> int
    decreases s.len() - from,
{
    if 0 <= from < s.len() && s[from] as u32 == 0x30 {
        zeros_end(s, from + 1)
    } else {
        from
    }
}

/// Where the digits before the point end.
pub open spec fn whole_end(s: Seq<char>) -> int {
    digits_end(s, number_start(s))
}

/// Where the digits behind the point start; without a point, where those
/// before it end.
pub open spec fn fraction_start(s: Seq<char>) -> int {
    if whole_end(s) < s.len() && s[whole_end(s)] == '.' {
        whole_end(s) + 1
    } else {
        whole_end(s)
    }
}

/// Where the digits behind the point end.
pub open spec fn fraction_end(s: Seq<char>) -> int {
    digits_end(s, fraction_start(s))
}

/// The digits of a numeral before its exponent, without the point.
pub open spec fn mantissa(s: Seq<char>) -> Seq<char> {
    s.subrange(number_start(s), whole_end(s)) + s.subrange(fraction_start(s), fraction_end(s))
}

/// The digits of a numeral from its first digit that is not zero.
pub open spec fn significant(s: Seq<char>) -> Seq<char> {
    mantissa(s).skip(zeros_end(mantissa(s), 0))
}

/// The number that a digit stands for.
pub open spec fn digit_value(c: char) -> nat {
    if is_digit(c) {
        (c as u32 - 0x30) as nat
    } else {
        0
    }
}

/// The number that the digits of `s` from `from` up to `to` spell.
pub open spec fn digits_value(s: Seq<char>, from: int, to: int) -> nat
    decreases to - from,
{
    if to <= from {
        0
    } else {
        digits_value(s, from, to - 1) * 10 + digit_value(s[to - 1])
    }
}

/// The exponent that a numeral is written with, zero where it has none.
pub open spec fn exponent_of(s: Seq<char>) -> int {
    let mark = fraction_end(s);
    if mark >= s.len() {
        0
    } else if mark + 1 < s.len() && s[mark + 1] == '-' {
        -(digits_value(s, mark + 2, s.len() as int) as int)
    } else if mark + 1 < s.len() && s[mark + 1] == '+' {
        digits_value(s, mark + 2, s.len() as int) as int
    } else {
        digits_value(s, mark + 1, s.len() as int) as int
    }
}

/// The power of ten that a numeral is below and not below a tenth of: with
/// its significant digits read as a fraction behind a point, the numeral is
/// that fraction times ten to this power.
pub open spec fn scale_of(s: Seq<char>) -> int {
    (whole_end(s) - number_start(s)) - zeros_end(mantissa(s), 0) + exponent_of(s)
}

/// The digits of the least number that no finite double is nearest to: the
/// middle between the greatest double and two to the power 1024.
pub open spec fn overflow_digits() -> Seq<char> {
    "179769313486231580793728971405303415079934132710037826936173778980444968292764750946649017977587207096330286416692887910946555547851940402630657488671505820681908902000708383676273854845817711531764475730270069855571366959622842914819860834936475292719074168444365510704342711559699508093042880177904174497792"@
}

/// How many digits the overflow bound has before its point.
pub const OVERFLOW_SCALE: usize = 309;

/// Whether `a` and `b` have the same characters at the first `n` places.
pub open spec fn same_start(a: Seq<char>, b: Seq<char>, n: int) -> bool {
    forall|j: int| 0 <= j < n ==> (#[trigger] a[j] as u32) == (b[j] as u32)
}

/// Whether `digits`, read as a fraction behind a point, are less than
/// `bound` read so: at the first place where the two differ `digits` has the
/// lesser digit, or `digits` end before `bound` does.
pub open spec fn digits_below(digits: Seq<char>, bound: Seq<char>) -> bool {
    exists|i: int|
        {
            &&& 0 <= i < bound.len()
            &&& i <= digits.len()
            &&& #[trigger] same_start(digits, bound, i)
            &&& (i == digits.len() || (digits[i] as u32) < (bound[i] as u32))
        }
}

/// Ten to the power `n`.
pub open spec fn pow10(n: nat) -> nat
    decreases n,
{
    if n == 0 {
        1
    } else {
        10 * pow10((n - 1) as nat)
    }
}

/// Zeros in front spell nothing: where the first `z` of `n` digits are
/// zeros, the `n` digits spell what those behind the zeros spell.
pub proof fn lemma_leading_zeros_spell_nothing(d: Seq<char>, z: int, n: int)
    requires
        0 <= z <= n <= d.len(),
        forall|j: int| 0 <= j < z ==> (#[trigger] d[j] as u32) == 0x30,
    ensures
        digits_value(d, 0, n) == digits_value(d, z, n),
    decreases n,
{
    if n > z {
        lemma_leading_zeros_spell_nothing(d, z, n - 1);
    } else if n > 0 {
        lemma_leading_zeros_spell_nothing(d, z - 1, n - 1);
        assert((d[n - 1] as u32) == 0x30);
        assert(digits_value(d, z, n) == 0);
        assert(digits_value(d, z - 1, n - 1) == 0);
    }
}

/// A run of `n` digits spells a number below ten to the power `n`, and,
/// where its first digit is not zero, one not below ten to the power `n - 1`.
pub proof fn lemma_digits_value_bounds(d: Seq<char>, n: int)
    requires
        0 <= n <= d.len(),
        digits_between(d, 0, n),
    ensures
        digits_value(d, 0, n) < pow10(n as nat),
        n > 0 && (d[0] as u32) != 0x30 ==> pow10((n - 1) as nat) <= digits_value(d, 0, n),
    decreases n,
{
    if n > 0 {
        lemma_digits_value_bounds(d, n - 1);
        assert(is_digit(d[n - 1]));
        assert(is_digit(d[0]));
        assert(pow10(n as nat) == 10 * pow10((n - 1) as nat));
        if n == 1 {
            assert(digits_value(d, 0, 0) == 0);
            assert(pow10(0) == 1);
        } else {
            assert(pow10((n - 1) as nat) == 10 * pow10((n - 2) as nat));
        }
    }
}

/// Ten to the power of a sum is the product of the powers.
pub proof fn lemma_pow10_adds(a: nat, b: nat)
    ensures
        pow10(a + b) == pow10(a) * pow10(b),
        pow10(a) > 0,
    decreases a,
{
    if a > 0 {
        lemma_pow10_adds((a - 1) as nat, b);
        assert(pow10(a + b) == 10 * pow10((a - 1 + b) as nat));
        assert(10 * (pow10((a - 1) as nat) * pow10(b)) == (10 * pow10((a - 1) as nat)) * pow10(b))
            by (nonlinear_arith);
    } else {
        assert(pow10(0) * pow10(b) == pow10(b)) by (nonlinear_arith)
            requires
                pow10(0) == 1,
        ;
    }
}

/// The powers of ten rise with the exponent.
pub proof fn lemma_pow10_rises(a: nat, b: nat)
    requires
        a <= b,
    ensures
        pow10(a) <= pow10(b),
    decreases b,
{
    if a < b {
        lemma_pow10_rises(a, (b - 1) as nat);
    }
}

/// Whether `m` times ten to the power `p` is less than `bound`, `p` being
/// of either sign.
pub open spec fn scaled_below(m: nat, p: int, bound: nat) -> bool {
    if p >= 0 {
        m * pow10(p as nat) < bound
    } else {
        m < bound * pow10((-p) as nat)
    }
}

/// Away from the scale of the bound the scale decides. Let `m` be spelt by
/// `k` digits of which the first is not zero, so that it lies from ten to the
/// power `k - 1` up to ten to the power `k`, and let the bound lie from ten
/// to the power 308 up to ten to the power 309. Then `m` times ten to the
/// power `scale - k` is below the bound where the scale is less than 309,
/// and is not where the scale is more.
pub proof fn lemma_scale_decides(m: nat, k: nat, scale: int, bound: nat)
    requires
        k > 0,
        pow10((k - 1) as nat) <= m < pow10(k),
        pow10(308) <= bound < pow10(309),
        scale != 309,
    ensures
        scaled_below(m, scale - k, bound) <==> scale < 309,
{
    let p = scale - k;
    if p >= 0 {
        let e = p as nat;
        lemma_pow10_adds(e, 0);
        lemma_pow10_adds(k, e);
        lemma_pow10_adds((k - 1) as nat, e);
        if scale < 309 {
            lemma_pow10_rises(k + e, 308);
            assert(m * pow10(e) < pow10(k) * pow10(e)) by (nonlinear_arith)
                requires
                    m < pow10(k),
                    pow10(e) > 0,
            ;
        } else {
            lemma_pow10_rises(309, (k - 1 + e) as nat);
            assert(pow10((k - 1) as nat) * pow10(e) <= m * pow10(e)) by (nonlinear_arith)
                requires
                    pow10((k - 1) as nat) <= m,
            ;
        }
    } else {
        let e = (-p) as nat;
        lemma_pow10_adds(e, 0);
        lemma_pow10_adds(308, e);
        lemma_pow10_adds(309, e);
        if scale < 309 {
            lemma_pow10_rises(k, 308 + e);
            assert(pow10(308) * pow10(e) <= bound * pow10(e)) by (nonlinear_arith)
                requires
                    pow10(308) <= bound,
            ;
        } else {
            lemma_pow10_rises(309 + e, (k - 1) as nat);
            assert(bound * pow10(e) < pow10(309) * pow10(e)) by (nonlinear_arith)
                requires
                    bound < pow10(309),
                    pow10(e) > 0,
            ;
        }
    }
}

/// Whether some place below `n` is the first where `a` and `b` differ, and
/// `a` has the lesser digit there.
pub open spec fn lesser_at_first_difference(a: Seq<char>, b: Seq<char>, n: int) -> bool {
    exists|i: int|
        0 <= i < n && #[trigger] same_start(a, b, i) && (a[i] as u32) < (b[i] as u32)
}

/// The order of digits is the order of numbers: of the first `n` digits of
/// `a` and of `b`, either they are the same and spell the same number, or at
/// the first place where they differ one has the lesser digit, and spells
/// the lesser number.
pub proof fn lemma_order_of_digits(a: Seq<char>, b: Seq<char>, n: int)
    requires
        0 <= n <= a.len(),
        n <= b.len(),
        digits_between(a, 0, n),
        digits_between(b, 0, n),
    ensures
        same_start(a, b, n) ==> digits_value(a, 0, n) == digits_value(b, 0, n),
        lesser_at_first_difference(a, b, n) ==> digits_value(a, 0, n) < digits_value(b, 0, n),
        lesser_at_first_difference(b, a, n) ==> digits_value(b, 0, n) < digits_value(a, 0, n),
        same_start(a, b, n) || lesser_at_first_difference(a, b, n) || lesser_at_first_difference(
            b,
            a,
            n,
        ),
    decreases n,
{
    if n > 0 {
        lemma_order_of_digits(a, b, n - 1);
        assert(is_digit(a[n - 1]) && is_digit(b[n - 1]));
        if same_start(a, b, n) {
            assert(same_start(a, b, n - 1));
            assert((a[n - 1] as u32) == (b[n - 1] as u32));
        }
        if lesser_at_first_difference(a, b, n) {
            let i = choose|i: int|
                0 <= i < n && #[trigger] same_start(a, b, i) && (a[i] as u32) < (b[i] as u32);
            if i < n - 1 {
                assert(lesser_at_first_difference(a, b, n - 1));
            }
        }
        if lesser_at_first_difference(b, a, n) {
            let i = choose|i: int|
                0 <= i < n && #[trigger] same_start(b, a, i) && (b[i] as u32) < (a[i] as u32);
            if i < n - 1 {
                assert(lesser_at_first_difference(b, a, n - 1));
            }
        }
        if same_start(a, b, n - 1) {
            assert(same_start(b, a, n - 1));
            if (a[n - 1] as u32) == (b[n - 1] as u32) {
                assert(same_start(a, b, n));
            } else if (a[n - 1] as u32) < (b[n - 1] as u32) {
                assert(lesser_at_first_difference(a, b, n));
            } else {
                assert(lesser_at_first_difference(b, a, n));
            }
        } else if lesser_at_first_difference(a, b, n - 1) {
            let i = choose|i: int|
                0 <= i < n - 1 && #[trigger] same_start(a, b, i) && (a[i] as u32) < (b[i] as u32);
            assert(lesser_at_first_difference(a, b, n));
        } else {
            let i = choose|i: int|
                0 <= i < n - 1 && #[trigger] same_start(b, a, i) && (b[i] as u32) < (a[i] as u32);
            assert(lesser_at_first_difference(b, a, n));
        }
    }
}

/// More digits behind a run multiply what it spells by ten for each and add
/// less than one in its last place: the first `n` digits spell at least what
/// the first `k` spell times ten to the power `n - k`, more than that where
/// the last of them is not zero, and less than one more than the first `k`
/// spell, times that power.
pub proof fn lemma_more_digits(d: Seq<char>, k: int, n: int)
    requires
        0 <= k <= n <= d.len(),
        digits_between(d, 0, n),
    ensures
        digits_value(d, 0, k) * pow10((n - k) as nat) <= digits_value(d, 0, n),
        digits_value(d, 0, n) < (digits_value(d, 0, k) + 1) * pow10((n - k) as nat),
        n > k && (d[n - 1] as u32) != 0x30 ==> digits_value(d, 0, k) * pow10((n - k) as nat)
            < digits_value(d, 0, n),
    decreases n,
{
    let x = digits_value(d, 0, k);
    if n == k {
        assert(x * pow10(0) == x && (x + 1) * pow10(0) == x + 1) by (nonlinear_arith)
            requires
                pow10(0) == 1,
        ;
    } else {
        lemma_more_digits(d, k, n - 1);
        let q = pow10((n - 1 - k) as nat);
        let y = digits_value(d, 0, n - 1);
        let c = digit_value(d[n - 1]);
        assert(is_digit(d[n - 1]));
        assert(pow10((n - k) as nat) == 10 * q);
        assert(digits_value(d, 0, n) == y * 10 + c);
        assert(x * (10 * q) <= y * 10 + c && y * 10 + c < (x + 1) * (10 * q) && (c > 0 ==> x * (10
            * q) < y * 10 + c)) by (nonlinear_arith)
            requires
                x * q <= y,
                y < (x + 1) * q,
                0 <= c <= 9,
        ;
    }
}

/// Being below as a fraction is being less as a number, whatever the two
/// lengths: `a` is below `b` exactly where what `a` spells, times ten to the
/// power of the digits that `b` has more, is less than what `b` spells. The
/// last digit of `b` must not be zero.
pub proof fn lemma_digits_below_is_scaled_less(a: Seq<char>, b: Seq<char>)
    requires
        digits_between(a, 0, a.len() as int),
        digits_between(b, 0, b.len() as int),
        b.len() > 0,
        (b[b.len() - 1] as u32) != 0x30,
    ensures
        digits_below(a, b) <==> scaled_below(
            digits_value(a, 0, a.len() as int),
            b.len() - a.len(),
            digits_value(b, 0, b.len() as int),
        ),
{
    let k = a.len() as int;
    let n = b.len() as int;
    let j = if k <= n {
        k
    } else {
        n
    };
    lemma_order_of_digits(a, b, j);
    let aj = digits_value(a, 0, j);
    let bj = digits_value(b, 0, j);
    let av = digits_value(a, 0, k);
    let bv = digits_value(b, 0, n);
    if digits_below(a, b) {
        let i = choose|i: int|
            {
                &&& 0 <= i < b.len()
                &&& i <= a.len()
                &&& #[trigger] same_start(a, b, i)
                &&& (i == a.len() || (a[i] as u32) < (b[i] as u32))
            };
        if i < k {
            assert(lesser_at_first_difference(a, b, j));
        } else {
            assert(same_start(a, b, j) && k < n);
        }
    }
    if lesser_at_first_difference(a, b, j) {
        let i = choose|i: int|
            0 <= i < j && #[trigger] same_start(a, b, i) && (a[i] as u32) < (b[i] as u32);
        assert(digits_below(a, b));
    }
    if same_start(a, b, j) && k < n {
        assert(digits_below(a, b));
    }
    if k <= n {
        let p = pow10((n - k) as nat);
        lemma_more_digits(b, k, n);
        lemma_pow10_adds((n - k) as nat, 0);
        assert(av < bj ==> av * p < bj * p) by (nonlinear_arith)
            requires
                p > 0,
        ;
        assert(bj < av ==> (bj + 1) * p <= av * p) by (nonlinear_arith)
            requires
                p > 0,
        ;
    } else {
        let p = pow10((k - n) as nat);
        lemma_more_digits(a, n, k);
        lemma_pow10_adds((k - n) as nat, 0);
        assert(aj < bv ==> (aj + 1) * p <= bv * p) by (nonlinear_arith)
            requires
                p > 0,
        ;
        assert(bv < aj ==> bv * p < aj * p) by (nonlinear_arith)
            requires
                p > 0,
        ;
    }
}

/// The rule on digits is the comparison of numbers. Let `digits` be the
/// significant digits of a numeral of the given scale, the first of them not
/// zero, and let `bound` be the 309 digits of a whole number, of which the
/// first and the last are not zero. Then the scale is less than 309, or is
/// 309 with the digits below those of the bound, exactly where the numeral,
/// which is what its digits spell times ten to the power of the scale less
/// their count, is less than the bound.
pub proof fn lemma_finite_rule(digits: Seq<char>, scale: int, bound: Seq<char>)
    requires
        digits.len() > 0,
        digits_between(digits, 0, digits.len() as int),
        (digits[0] as u32) != 0x30,
        bound.len() == OVERFLOW_SCALE,
        digits_between(bound, 0, bound.len() as int),
        (bound[0] as u32) != 0x30,
        (bound[bound.len() - 1] as u32) != 0x30,
    ensures
        (scale < OVERFLOW_SCALE || (scale == OVERFLOW_SCALE && digits_below(digits, bound)))
            <==> scaled_below(
            digits_value(digits, 0, digits.len() as int),
            scale - digits.len(),
            digits_value(bound, 0, bound.len() as int),
        ),
{
    lemma_digits_value_bounds(digits, digits.len() as int);
    lemma_digits_value_bounds(bound, bound.len() as int);
    if scale == 309 {
        lemma_digits_below_is_scaled_less(digits, bound);
    } else {
        lemma_scale_decides(
            digits_value(digits, 0, digits.len() as int),
            digits.len(),
            scale,
            digits_value(bound, 0, bound.len() as int),
        );
    }
}

/// A run of digits holds digits only, and ends within the text.
pub proof fn lemma_digits_end(s: Seq<char>, from: int)
    requires
        0 <= from <= s.len(),
    ensures
        run_ends(s, from, digits_end(s, from)),
    decreases s.len() - from,
{
    if from < s.len() && is_digit(s[from]) {
        lemma_digits_end(s, from + 1);
    }
}

/// A run of zeros holds zeros only, ends within the text, and no zero
/// follows it.
pub proof fn lemma_zeros_end(s: Seq<char>, from: int)
    requires
        0 <= from <= s.len(),
    ensures
        from <= zeros_end(s, from) <= s.len(),
        forall|j: int| from <= j < zeros_end(s, from) ==> (#[trigger] s[j] as u32) == 0x30,
        zeros_end(s, from) < s.len() ==> (s[zeros_end(s, from)] as u32) != 0x30,
    decreases s.len() - from,
{
    if from < s.len() && s[from] as u32 == 0x30 {
        lemma_zeros_end(s, from + 1);
    }
}

/// What digits spell does not depend on what stands before them.
pub proof fn lemma_value_of_tail(d: Seq<char>, z: int, n: int)
    requires
        0 <= z <= n <= d.len(),
    ensures
        digits_value(d, z, n) == digits_value(d.skip(z), 0, n - z),
    decreases n,
{
    if n > z {
        lemma_value_of_tail(d, z, n - 1);
        assert(d.skip(z)[n - z - 1] == d[n - 1]);
    }
}

/// The overflow digits are 309 digits, of which the first and the last are
/// not zero.
pub proof fn lemma_overflow_digits()
    ensures
        overflow_digits().len() == OVERFLOW_SCALE,
        digits_between(overflow_digits(), 0, OVERFLOW_SCALE as int),
        (overflow_digits()[0] as u32) != 0x30,
        (overflow_digits()[OVERFLOW_SCALE - 1] as u32) != 0x30,
{
    reveal_strlit(
        "179769313486231580793728971405303415079934132710037826936173778980444968292764750946649017977587207096330286416692887910946555547851940402630657488671505820681908902000708383676273854845817711531764475730270069855571366959622842914819860834936475292719074168444365510704342711559699508093042880177904174497792",
    );
    assert(overflow_digits().len() == 309);
    assert(overflow_digits()[0] == '1');
    assert(overflow_digits()[308] == '2');
    assert forall|i: int| 0 <= i < 309 implies is_digit(#[trigger] overflow_digits()[i]) by {
    }
}

/// The rule on digits, said of the numeral's parts. The numeral is what its
/// mantissa spells, times ten to the power of its exponent less the count of
/// its digits behind the point. The double nearest to it is finite exactly
/// where the numeral is zero or less than the whole number that the overflow
/// digits spell.
pub proof fn lemma_rounds_finite_is_below_bound(s: Seq<char>)
    ensures
        rounds_finite(s) <==> {
            ||| digits_value(mantissa(s), 0, mantissa(s).len() as int) == 0
            ||| scaled_below(
                digits_value(mantissa(s), 0, mantissa(s).len() as int),
                exponent_of(s) - (fraction_end(s) - fraction_start(s)),
                digits_value(overflow_digits(), 0, OVERFLOW_SCALE as int),
            )
        },
{
    let m = mantissa(s);
    let n = m.len() as int;
    let z = zeros_end(m, 0);
    let sig = significant(s);
    lemma_overflow_digits();
    lemma_digits_end(s, number_start(s));
    lemma_digits_end(s, fraction_start(s));
    assert(digits_between(m, 0, n));
    lemma_zeros_end(m, 0);
    lemma_leading_zeros_spell_nothing(m, z, n);
    lemma_value_of_tail(m, z, n);
    assert(sig.len() == n - z);
    assert(digits_between(sig, 0, sig.len() as int)) by {
        assert forall|i: int| 0 <= i < sig.len() implies is_digit(#[trigger] sig[i]) by {
            assert(sig[i] == m[i + z]);
        }
    }
    if sig.len() == 0 {
        assert(digits_value(sig, 0, 0) == 0);
    } else {
        assert(sig[0] == m[z]);
        lemma_digits_value_bounds(sig, sig.len() as int);
        lemma_pow10_adds((sig.len() - 1) as nat, 0);
        lemma_finite_rule(sig, scale_of(s), overflow_digits());
        assert(scale_of(s) - sig.len() == exponent_of(s) - (fraction_end(s) - fraction_start(
            s,
        )));
    }
}

/// Whether the double nearest to a numeral is finite: the numeral is zero, or
/// its magnitude is below the overflow bound. With `k` significant digits
/// that spell `m`, the magnitude is `m` times ten to the power of the scale
/// less `k`, which lies from ten to the power of the scale less one up to ten
/// to the power of the scale. The bound has the scale 309: a lesser scale is
/// below it, a greater one is not, and at the same scale the digits decide.
pub open spec fn rounds_finite(s: Seq<char>) -> bool {
    ||| significant(s).len() == 0
    ||| scale_of(s) < OVERFLOW_SCALE
    ||| scale_of(s) == OVERFLOW_SCALE && digits_below(significant(s), overflow_digits())
}

/// Whether `s` is a decimal number: a decimal numeral that a finite double is
/// nearest to.
pub open spec fn is_decimal(s: Seq<char>) -> bool {
    is_numeral(s) && rounds_finite(s)
}

/// Whether `end` is where the run of digits that starts at `from` ends: the
/// position of the first character at or after `from` that is no digit, or
/// the length of `s`.
pub open spec fn run_ends(s: Seq<char>, from: int, end: int) -> bool {
    &&& from <= end <= s.len()
    &&& digits_between(s, from, end)
    &&& (end == s.len() || !is_digit(s[end]))
}

/// What a scan from the start finds of a number without exponent: with the
/// run of digits ending at `whole_end` and, behind a point there, the next run
/// ending at `fraction_end`, such a number can only end at `fraction_end`,
/// and it ends there where the two runs hold a digit.
proof fn lemma_plain_by_scan(s: Seq<char>, start: int, whole_end: int, fraction_end: int)
    requires
        0 <= start,
        run_ends(s, start, whole_end),
        run_ends(
            s,
            if whole_end < s.len() && s[whole_end] == '.' {
                whole_end + 1
            } else {
                whole_end
            },
            fraction_end,
        ),
    ensures
        forall|to: int|
            start <= to <= s.len() && #[trigger] plain_between(s, start, to) ==> to
                <= fraction_end,
        forall|e: int|
            start <= e < s.len() && is_exponent_mark(#[trigger] s[e]) && plain_between(
                s,
                start,
                e,
            ) ==> e == fraction_end,
        plain_between(s, start, fraction_end) <==> fraction_end - start > (if whole_end < s.len()
            && s[whole_end] == '.' {
            1int
        } else {
            0int
        }),
{
    let pointed = whole_end < s.len() && s[whole_end] == '.';
    let fraction_start = if pointed {
        whole_end + 1
    } else {
        whole_end
    };
    assert forall|to: int| start <= to <= s.len() && #[trigger] plain_between(s, start, to) implies to
        <= fraction_end by {
        if start < to && digits_between(s, start, to) {
            if to > whole_end {
                assert(is_digit(s[whole_end]));
            }
        } else {
            let p = choose|p: int|
                {
                    &&& start <= p < to
                    &&& #[trigger] s[p] == '.'
                    &&& to - start > 1
                    &&& digits_between(s, start, p)
                    &&& digits_between(s, p + 1, to)
                };
            if p > whole_end {
                assert(is_digit(s[whole_end]));
            }
            if p < whole_end {
                assert(is_digit(s[p]));
            }
            assert(p == whole_end);
            if to > fraction_end {
                assert(is_digit(s[fraction_end]));
            }
        }
    }
    assert forall|e: int|
        start <= e < s.len() && is_exponent_mark(#[trigger] s[e]) && plain_between(
            s,
            start,
            e,
        ) implies e == fraction_end by {
        if e < fraction_end {
            if e < whole_end {
                assert(is_digit(s[e]));
            } else if e >= fraction_start {
                assert(is_digit(s[e]));
            }
        }
    }
    if plain_between(s, start, fraction_end) {
        if start < fraction_end && digits_between(s, start, fraction_end) {
            if pointed {
                assert(is_digit(s[whole_end]));
            }
        }
    }
    if fraction_end - start > (if pointed {
        1int
    } else {
        0int
    }) {
        if pointed {
            assert(s[whole_end] == '.');
            assert(plain_between(s, start, fraction_end));
        } else {
            assert(fraction_end == whole_end);
            assert(plain_between(s, start, fraction_end));
        }
    }
}

/// Decides whether the character is a digit.
pub fn digit(c: char) -> (b: bool)
    ensures
        b == is_digit(c),
{
    let n: u32 = c as u32;
    0x30 <= n && n <= 0x39
}

/// Scans the run of digits that starts at `from`.
pub fn scan_digits(chars: &Vec<char>, from: usize) -> (end: usize)
    requires
        from <= chars.len(),
    ensures
        run_ends(chars@, from as int, end as int),
        end == digits_end(chars@, from as int),
{
    let mut i: usize = from;
    while i < chars.len() && digit(chars[i])
        invariant
            from <= i <= chars.len(),
            digits_between(chars@, from as int, i as int),
            digits_end(chars@, from as int) == digits_end(chars@, i as int),
        decreases chars.len() - i,
    {
        i += 1;
    }
    i
}

/// Decides whether the characters are a decimal numeral.
pub fn is_numeral_chars(chars: &Vec<char>) -> (b: bool)
    ensures
        b == is_numeral(chars@),
{
    let n: usize = chars.len();
    let start: usize = if n > 0 && (chars[0] == '+' || chars[0] == '-') {
        1
    } else {
        0
    };
    let whole_end: usize = scan_digits(chars, start);
    let pointed: bool = whole_end < n && chars[whole_end] == '.';
    let fraction_start: usize = if pointed {
        whole_end + 1
    } else {
        whole_end
    };
    let fraction_end: usize = scan_digits(chars, fraction_start);
    proof {
        lemma_plain_by_scan(chars@, start as int, whole_end as int, fraction_end as int);
    }
    if (whole_end - start) + (fraction_end - fraction_start) == 0 {
        return false;
    }
    if fraction_end == n {
        return true;
    }
    if !(chars[fraction_end] == 'e' || chars[fraction_end] == 'E') {
        return false;
    }
    let first: usize = if fraction_end + 1 < n && (chars[fraction_end + 1] == '+'
        || chars[fraction_end + 1] == '-') {
        fraction_end + 2
    } else {
        fraction_end + 1
    };
    let last: usize = scan_digits(chars, first);
    last > first && last == n
}

/// Scans the run of zeros that starts at `from`.
pub fn scan_zeros(chars: &Vec<char>, from: usize) -> (end: usize)
    requires
        from <= chars.len(),
    ensures
        from <= end <= chars.len(),
        end == zeros_end(chars@, from as int),
{
    let mut i: usize = from;
    while i < chars.len() && chars[i] as u32 == 0x30
        invariant
            from <= i <= chars.len(),
            zeros_end(chars@, from as int) == zeros_end(chars@, i as int),
        decreases chars.len() - i,
    {
        i += 1;
    }
    i
}

/// Beyond this an exponent is not told from a greater one: ten to the power
/// of thirty.
pub const EXPONENT_CAP: u128 = 1_000_000_000_000_000_000_000_000_000_000;

/// The lesser of a number and the cap on exponents.
pub open spec fn capped(v: nat) -> nat {
    if v <= EXPONENT_CAP {
        v
    } else {
        EXPONENT_CAP as nat
    }
}

/// The number that the digits from `from` up to `to` spell, or the cap on
/// exponents where it is more.
pub fn capped_value(chars: &Vec<char>, from: usize, to: usize) -> (v: u128)
    requires
        from <= to <= chars.len(),
    ensures
        v == capped(digits_value(chars@, from as int, to as int)),
{
    let mut v: u128 = 0;
    let mut i: usize = from;
    while i < to
        invariant
            from <= i <= to <= chars.len(),
            v == capped(digits_value(chars@, from as int, i as int)),
        decreases to - i,
    {
        let c: char = chars[i];
        let d: u128 = if digit(c) {
            (c as u32 - 0x30) as u128
        } else {
            0
        };
        assert(d == digit_value(chars@[i as int]));
        assert(digits_value(chars@, from as int, i + 1) == digits_value(
            chars@,
            from as int,
            i as int,
        ) * 10 + d);
        let next: u128 = v * 10 + d;
        v = if next > EXPONENT_CAP {
            EXPONENT_CAP
        } else {
            next
        };
        i += 1;
    }
    v
}

/// Appends the characters from `from` up to `to`.
fn append_range(out: &mut Vec<char>, chars: &Vec<char>, from: usize, to: usize)
    requires
        from <= to <= chars.len(),
    ensures
        final(out)@ == old(out)@ + chars@.subrange(from as int, to as int),
{
    let ghost before = out@;
    let mut i: usize = from;
    assert(out@ =~= before + chars@.subrange(from as int, from as int));
    while i < to
        invariant
            from <= i <= to <= chars.len(),
            out@ == before + chars@.subrange(from as int, i as int),
        decreases to - i,
    {
        out.push(chars[i]);
        assert(out@ =~= before + chars@.subrange(from as int, i + 1));
        i += 1;
    }
}

/// Decides whether the digits from `from` on, read as a fraction behind a
/// point, are less than the bound read so.
pub fn below_digits(digits: &Vec<char>, from: usize, bound: &Vec<char>) -> (b: bool)
    requires
        from <= digits.len(),
    ensures
        b == digits_below(digits@.skip(from as int), bound@),
{
    let ghost tail = digits@.skip(from as int);
    let rest: usize = digits.len() - from;
    let mut i: usize = 0;
    while i < bound.len() && i < rest && (digits[from + i] as u32) == (bound[i] as u32)
        invariant
            from + rest == digits.len(),
            tail == digits@.skip(from as int),
            i <= bound.len(),
            i <= rest,
            same_start(tail, bound@, i as int),
        decreases bound.len() - i,
    {
        i += 1;
    }
    let b: bool = i < bound.len() && (i == rest || (digits[from + i] as u32) < (bound[i] as u32));
    proof {
        if !b {
            assert forall|k: int|
                0 <= k < bound@.len() && k <= tail.len() && #[trigger] same_start(
                    tail,
                    bound@,
                    k,
                ) implies !(k == tail.len() || (tail[k] as u32) < (bound@[k] as u32)) by {
                if k > i {
                    assert((tail[i as int] as u32) == (bound@[i as int] as u32));
                }
                if k < i {
                    assert((tail[k] as u32) == (bound@[k] as u32));
                }
            }
        }
    }
    b
}

/// Decides whether the double nearest to the numeral is finite.
#[verifier::rlimit(50)]
pub fn rounds_finite_chars(chars: &Vec<char>) -> (b: bool)
    ensures
        b == rounds_finite(chars@),
{
    let n: usize = chars.len();
    let start: usize = if n > 0 && (chars[0] == '+' || chars[0] == '-') {
        1
    } else {
        0
    };
    let whole: usize = scan_digits(chars, start);
    let behind: usize = if whole < n && chars[whole] == '.' {
        whole + 1
    } else {
        whole
    };
    let mark: usize = scan_digits(chars, behind);
    let mut digits: Vec<char> = Vec::new();
    append_range(&mut digits, chars, start, whole);
    append_range(&mut digits, chars, behind, mark);
    assert(digits@ =~= mantissa(chars@));
    let zeros: usize = scan_zeros(&digits, 0);
    if zeros == digits.len() {
        return true;
    }
    let negative: bool = mark < n && mark + 1 < n && chars[mark + 1] == '-';
    let first: usize = if mark >= n {
        n
    } else if mark + 1 < n && (chars[mark + 1] == '+' || chars[mark + 1] == '-') {
        mark + 2
    } else {
        mark + 1
    };
    let written: u128 = capped_value(chars, first, n);
    let ghost exact = digits_value(chars@, first as int, n as int);
    assert(mark >= n ==> exact == 0);
    assert(exponent_of(chars@) == (if negative {
        -(exact as int)
    } else {
        exact as int
    }));
    let base: i128 = (whole - start) as i128 - zeros as i128;
    let scale: i128 = if negative {
        base - written as i128
    } else {
        base + written as i128
    };
    if scale < 309 {
        true
    } else if scale > 309 {
        false
    } else {
        let bound = to_chars(
            "179769313486231580793728971405303415079934132710037826936173778980444968292764750946649017977587207096330286416692887910946555547851940402630657488671505820681908902000708383676273854845817711531764475730270069855571366959622842914819860834936475292719074168444365510704342711559699508093042880177904174497792",
        );
        below_digits(&digits, zeros, &bound)
    }
}

/// Decides whether the characters are a decimal number.
pub fn is_decimal_chars(chars: &Vec<char>) -> (b: bool)
    ensures
        b == is_decimal(chars@),
{
    is_numeral_chars(chars) && rounds_finite_chars(chars)
}

/// Decides whether `s` is a decimal number.
pub fn is_decimal_text(s: &str) -> (b: bool)
    ensures
        b == is_decimal(s@),
{
    let chars = to_chars(s);
    is_decimal_chars(&chars)
}

} // verus!
