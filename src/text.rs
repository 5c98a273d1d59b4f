//! Reading the numbers of board and cut specifications.
use vstd::prelude::*;
use vstd::string::StrSliceExecFns;

use crate::model::RESOLUTION;

verus! {

pub open spec fn is_digit(c: char) -> bool {
    '0' <= c && c <= '9'
}

pub open spec fn digit_value(c: char) -> int {
    c as int - '0' as int
}

pub open spec fn all_digits(s: Seq<char>) -> bool {
    forall|i: int| 0 <= i < s.len() ==> is_digit(#[trigger] s[i])
}

/// The number that a run of decimal digits writes, most significant first.
pub open spec fn digits_value(s: Seq<char>) -> int
    decreases s.len(),
{
    if s.len() == 0 {
        0
    } else {
        digits_value(s.drop_last()) * 10 + digit_value(s.last())
    }
}

pub open spec fn pow10(n: nat) -> int
    decreases n,
{
    if n == 0 {
        1
    } else {
        10 * pow10((n - 1) as nat)
    }
}

/// Position of the first `c` in `s`, or the length of `s` when there is none.
pub open spec fn first_index(s: Seq<char>, c: char) -> int
    decreases s.len(),
{
    if s.len() == 0 || s[0] == c {
        0
    } else {
        1 + first_index(s.drop_first(), c)
    }
}

/// Length of a leading `+` or `-`.
pub open spec fn sign_len(s: Seq<char>) -> int {
    if s.len() > 0 && (s[0] == '+' || s[0] == '-') {
        1
    } else {
        0
    }
}

pub open spec fn is_negative(s: Seq<char>) -> bool {
    sign_len(s) == 1 && s[0] == '-'
}

/// The text after the sign.
pub open spec fn unsigned_part(s: Seq<char>) -> Seq<char> {
    s.skip(sign_len(s))
}

/// Position of the first exponent marker (`e` or `E`) in `s`, or the length
/// of `s` when there is none.
pub open spec fn exponent_index(s: Seq<char>) -> int
    decreases s.len(),
{
    if s.len() == 0 || s[0] == 'e' || s[0] == 'E' {
        0
    } else {
        1 + exponent_index(s.drop_first())
    }
}

/// The unsigned text before the exponent marker.
pub open spec fn mantissa(s: Seq<char>) -> Seq<char> {
    unsigned_part(s).take(exponent_index(unsigned_part(s)))
}

pub open spec fn has_exponent(s: Seq<char>) -> bool {
    exponent_index(unsigned_part(s)) < unsigned_part(s).len()
}

/// The text after the exponent marker.
pub open spec fn exponent_part(s: Seq<char>) -> Seq<char> {
    if has_exponent(s) {
        unsigned_part(s).skip(exponent_index(unsigned_part(s)) + 1)
    } else {
        Seq::empty()
    }
}

/// The digits before the decimal point.
pub open spec fn whole_digits(s: Seq<char>) -> Seq<char> {
    mantissa(s).take(first_index(mantissa(s), '.'))
}

/// The digits after the decimal point.
pub open spec fn fraction_digits(s: Seq<char>) -> Seq<char> {
    let m = mantissa(s);
    let p = first_index(m, '.');
    if p < m.len() {
        m.skip(p + 1)
    } else {
        Seq::empty()
    }
}

/// An optional sign followed by at least one digit.
pub open spec fn is_integer(s: Seq<char>) -> bool {
    unsigned_part(s).len() >= 1 && all_digits(unsigned_part(s))
}

/// An optional sign, digits, and optionally a point and more digits, with at
/// least one digit in all; then optionally `e` or `E` and an integer.
pub open spec fn is_decimal(s: Seq<char>) -> bool {
    &&& all_digits(whole_digits(s))
    &&& all_digits(fraction_digits(s))
    &&& whole_digits(s).len() + fraction_digits(s).len() >= 1
    &&& has_exponent(s) ==> is_integer(exponent_part(s))
}

/// The power of ten that the exponent part writes (0 without one).
pub open spec fn exponent_value(s: Seq<char>) -> int {
    if has_exponent(s) {
        let e = exponent_part(s);
        if is_negative(e) {
            -digits_value(unsigned_part(e))
        } else {
            digits_value(unsigned_part(e))
        }
    } else {
        0
    }
}

/// The digits of the mantissa read as one integer, the point left out.
pub open spec fn mantissa_value(s: Seq<char>) -> int {
    digits_value(whole_digits(s) + fraction_digits(s))
}

/// The magnitude of a decimal in steps of `1 / RESOLUTION`, rounded down:
/// `mantissa_value * RESOLUTION * 10^(exponent - fraction digits)`.
pub open spec fn decimal_steps(s: Seq<char>) -> int {
    scaled_steps(mantissa_value(s), exponent_value(s) - fraction_digits(s).len())
}

/// `d * RESOLUTION * 10^q`, rounded down.
pub open spec fn scaled_steps(d: int, q: int) -> int {
    if q >= 0 {
        d * RESOLUTION * pow10(q as nat)
    } else {
        d * RESOLUTION / pow10((-q) as nat)
    }
}

/// A positive number of steps, by whether a `u32` holds it.
pub open spec fn steps_class(v: int) -> Number {
    if v == 0 {
        Number::TooSmall
    } else if v > u32::MAX {
        Number::TooLarge
    } else {
        Number::Positive(v as u32)
    }
}

/// What a numeric field of a specification holds.
pub enum Number {
    /// Not a number of the expected form.
    Malformed,
    /// Negative or zero.
    NotPositive,
    /// Positive but less than one step.
    TooSmall,
    /// Positive but beyond what the field can hold.
    TooLarge,
    Positive(u32),
}

/// A length or width, read as a decimal and counted in steps.
pub open spec fn measure(s: Seq<char>) -> Number {
    if !is_decimal(s) {
        Number::Malformed
    } else if is_negative(s) || mantissa_value(s) == 0 {
        Number::NotPositive
    } else if decimal_steps(s) == 0 {
        Number::TooSmall
    } else if decimal_steps(s) > u32::MAX {
        Number::TooLarge
    } else {
        Number::Positive(decimal_steps(s) as u32)
    }
}

/// A count, read as an integer that must lie in the range of an `i32`.
pub open spec fn count(s: Seq<char>) -> Number {
    let v = digits_value(unsigned_part(s));
    if !is_integer(s) {
        Number::Malformed
    } else if v > (if is_negative(s) {
        2147483648int
    } else {
        2147483647int
    }) {
        Number::TooLarge
    } else if is_negative(s) || v == 0 {
        Number::NotPositive
    } else {
        Number::Positive(v as u32)
    }
}

pub proof fn lemma_pow10_positive(n: nat)
    ensures
        pow10(n) >= 1,
    decreases n,
{
    if n > 0 {
        lemma_pow10_positive((n - 1) as nat);
    }
}

pub proof fn lemma_digits_value_bounds(s: Seq<char>)
    requires
        all_digits(s),
    ensures
        0 <= digits_value(s) < pow10(s.len()),
    decreases s.len(),
{
    if s.len() > 0 {
        assert(is_digit(s[s.len() - 1]));
        lemma_digits_value_bounds(s.drop_last());
    }
}

pub proof fn lemma_digits_value_prepend(s: Seq<char>)
    requires
        s.len() >= 1,
    ensures
        digits_value(s) == digit_value(s[0]) * pow10((s.len() - 1) as nat) + digits_value(
            s.drop_first(),
        ),
    decreases s.len(),
{
    if s.len() == 1 {
        assert(s.drop_last() =~= Seq::<char>::empty());
        assert(s.drop_first() =~= Seq::<char>::empty());
    } else {
        let init = s.drop_last();
        lemma_digits_value_prepend(init);
        assert(init.drop_first() =~= s.drop_first().drop_last());
        assert(s.drop_first().last() == s.last());
        assert(init[0] == s[0]);
        let d = digit_value(s[0]);
        let p = pow10((s.len() - 2) as nat);
        let r = digits_value(init.drop_first());
        assert((d * p + r) * 10 == d * (10 * p) + r * 10) by (nonlinear_arith);
    }
}

pub proof fn lemma_first_index(s: Seq<char>, c: char)
    ensures
        0 <= first_index(s, c) <= s.len(),
        first_index(s, c) < s.len() ==> s[first_index(s, c)] == c,
        forall|j: int| 0 <= j < first_index(s, c) ==> s[j] != c,
    decreases s.len(),
{
    if s.len() > 0 && s[0] != c {
        lemma_first_index(s.drop_first(), c);
        assert forall|j: int| 0 <= j < first_index(s, c) implies s[j] != c by {
            if j > 0 {
                assert(s[j] == s.drop_first()[j - 1]);
            }
        }
    }
}

pub proof fn lemma_pow10_add(a: nat, b: nat)
    ensures
        pow10(a + b) == pow10(a) * pow10(b),
    decreases b,
{
    if b > 0 {
        lemma_pow10_add(a, (b - 1) as nat);
        assert(pow10((a + b) as nat) == 10 * pow10((a + b - 1) as nat));
        assert(10 * (pow10(a) * pow10((b - 1) as nat)) == pow10(a) * (10 * pow10((b - 1) as nat)))
            by (nonlinear_arith);
    }
}

pub proof fn lemma_pow10_monotonic(a: nat, b: nat)
    requires
        a <= b,
    ensures
        pow10(a) <= pow10(b),
{
    lemma_pow10_add(a, (b - a) as nat);
    lemma_pow10_positive(a);
    lemma_pow10_positive((b - a) as nat);
    assert(pow10(a) <= pow10(a) * pow10((b - a) as nat)) by (nonlinear_arith)
        requires
            pow10(a) >= 1,
            pow10((b - a) as nat) >= 1,
    ;
}

/// Digits written one after the other: the first run is shifted left by the
/// length of the second.
pub proof fn lemma_digits_value_concat(x: Seq<char>, y: Seq<char>)
    ensures
        digits_value(x + y) == digits_value(x) * pow10(y.len()) + digits_value(y),
    decreases y.len(),
{
    if y.len() == 0 {
        assert(x + y =~= x);
    } else {
        lemma_digits_value_concat(x, y.drop_last());
        assert((x + y).drop_last() =~= x + y.drop_last());
        assert((x + y).last() == y.last());
        let p = pow10((y.len() - 1) as nat);
        let dx = digits_value(x);
        let dy = digits_value(y.drop_last());
        assert((dx * p + dy) * 10 == dx * (10 * p) + dy * 10) by (nonlinear_arith);
    }
}

pub proof fn lemma_exponent_index(s: Seq<char>)
    ensures
        0 <= exponent_index(s) <= s.len(),
        exponent_index(s) < s.len() ==> (s[exponent_index(s)] == 'e' || s[exponent_index(s)]
            == 'E'),
        forall|j: int| 0 <= j < exponent_index(s) ==> s[j] != 'e' && s[j] != 'E',
    decreases s.len(),
{
    if s.len() > 0 && s[0] != 'e' && s[0] != 'E' {
        lemma_exponent_index(s.drop_first());
        assert forall|j: int| 0 <= j < exponent_index(s) implies s[j] != 'e' && s[j] != 'E' by {
            if j > 0 {
                assert(s[j] == s.drop_first()[j - 1]);
            }
        }
    }
}

/// Two to the hundredth: no exponent or count worth reading comes near it.
pub const EXPONENT_CAP: u128 = 1267650600228229401496703205376;

/// The characters of `s`.
pub fn chars_of(s: &str) -> (r: Vec<char>)
    ensures
        r@ == s@,
{
    let n = s.unicode_len();
    let mut v: Vec<char> = Vec::new();
    let mut i: usize = 0;
    while i < n
        invariant
            n == s@.len(),
            i <= n,
            v@ == s@.take(i as int),
        decreases n - i,
    {
        v.push(s.get_char(i));
        i += 1;
        assert(v@ =~= s@.take(i as int));
    }
    assert(s@.take(i as int) =~= s@);
    v
}

/// Position of the first `c` in `cs[from..to]`, counted from the start of
/// `cs`; `to` when there is none.
pub fn find_char(cs: &Vec<char>, from: usize, to: usize, c: char) -> (r: usize)
    requires
        from <= to <= cs@.len(),
    ensures
        r == from + first_index(cs@.subrange(from as int, to as int), c),
        from <= r <= to,
{
    let mut k = from;
    assert(cs@.subrange(from as int, to as int).skip(0) =~= cs@.subrange(from as int, to as int));
    while k < to && cs[k] != c
        invariant
            from <= k <= to,
            to <= cs@.len(),
            first_index(cs@.subrange(from as int, to as int), c) == (k - from) + first_index(
                cs@.subrange(k as int, to as int),
                c,
            ),
        decreases to - k,
    {
        assert(cs@.subrange(k as int, to as int).drop_first() =~= cs@.subrange(k + 1, to as int));
        k += 1;
    }
    proof {
        lemma_first_index(cs@.subrange(from as int, to as int), c);
    }
    k
}

/// Position of the first `e` or `E` in `cs[from..to]`, counted from the
/// start of `cs`; `to` when there is none.
fn find_exponent(cs: &Vec<char>, from: usize, to: usize) -> (r: usize)
    requires
        from <= to <= cs@.len(),
    ensures
        r == from + exponent_index(cs@.subrange(from as int, to as int)),
        from <= r <= to,
{
    let mut k = from;
    while k < to && cs[k] != 'e' && cs[k] != 'E'
        invariant
            from <= k <= to,
            to <= cs@.len(),
            exponent_index(cs@.subrange(from as int, to as int)) == (k - from) + exponent_index(
                cs@.subrange(k as int, to as int),
            ),
        decreases to - k,
    {
        assert(cs@.subrange(k as int, to as int).drop_first() =~= cs@.subrange(k + 1, to as int));
        k += 1;
    }
    proof {
        lemma_exponent_index(cs@.subrange(from as int, to as int));
    }
    k
}

/// Reads `cs[a..b]` as decimal digits. Returns whether they all are digits,
/// whether their value exceeds `cap`, and, when it does not, the value.
fn read_digits(cs: &Vec<char>, a: usize, b: usize, cap: u128) -> (r: (bool, bool, u128))
    requires
        a <= b <= cs@.len(),
        cap <= EXPONENT_CAP,
    ensures
        r.0 == all_digits(cs@.subrange(a as int, b as int)),
        r.0 ==> r.1 == (digits_value(cs@.subrange(a as int, b as int)) > cap),
        r.0 && !r.1 ==> r.2 == digits_value(cs@.subrange(a as int, b as int)),
{
    let ghost s = cs@.subrange(a as int, b as int);
    let mut over = false;
    let mut value: u128 = 0;
    let mut k = a;
    while k < b
        invariant
            a <= k <= b,
            b <= cs@.len(),
            cap <= EXPONENT_CAP,
            s == cs@.subrange(a as int, b as int),
            all_digits(s.take(k - a)),
            over ==> digits_value(s.take(k - a)) > cap,
            !over ==> value == digits_value(s.take(k - a)) && value <= cap,
        decreases b - k,
    {
        let c = cs[k];
        if !('0' <= c && c <= '9') {
            assert(s[k - a] == c);
            return (false, false, 0);
        }
        let d = (c as u32 - '0' as u32) as u128;
        assert(s.take(k - a + 1).drop_last() =~= s.take(k - a));
        assert(s.take(k - a + 1).last() == c);
        if !over {
            let next = value * 10 + d;
            if next > cap {
                over = true;
            } else {
                value = next;
            }
        }
        k += 1;
        assert(all_digits(s.take(k - a))) by {
            assert forall|i: int| 0 <= i < s.take(k - a).len() implies is_digit(
                #[trigger] s.take(k - a)[i],
            ) by {
                if i < k - a - 1 {
                    assert(s.take(k - a)[i] == s.take(k - a - 1)[i]);
                }
            }
        }
    }
    assert(s.take(b - a) =~= s);
    (true, over, value)
}

/// `floor(0.d1d2...dk * RESOLUTION)` for the digits `cs[a..b]`.
fn fraction_steps(cs: &Vec<char>, a: usize, b: usize) -> (r: u64)
    requires
        a <= b <= cs@.len(),
        all_digits(cs@.subrange(a as int, b as int)),
    ensures
        r == digits_value(cs@.subrange(a as int, b as int)) * RESOLUTION / pow10((b - a) as nat),
        r < RESOLUTION,
{
    let mut carry: u64 = 0;
    let mut j = b;
    assert(cs@.subrange(b as int, b as int) =~= Seq::<char>::empty());
    while j > a
        invariant
            a <= j <= b,
            b <= cs@.len(),
            all_digits(cs@.subrange(a as int, b as int)),
            carry == digits_value(cs@.subrange(j as int, b as int)) * RESOLUTION / pow10(
                (b - j) as nat,
            ),
            carry < RESOLUTION,
        decreases j,
    {
        j -= 1;
        let c = cs[j];
        assert(cs@.subrange(a as int, b as int)[j - a] == c);
        let d = (c as u32 - '0' as u32) as u64;
        let ghost t = cs@.subrange(j as int, b as int);
        let ghost rest = cs@.subrange(j + 1, b as int);
        proof {
            assert(t.drop_first() =~= rest);
            assert(t[0] == c);
            lemma_digits_value_prepend(t);
            let m = (b - j - 1) as nat;
            let big_b = pow10(m);
            lemma_pow10_positive(m);
            let v = digits_value(rest);
            assert(all_digits(rest)) by {
                assert forall|i: int| 0 <= i < rest.len() implies is_digit(#[trigger] rest[i]) by {
                    assert(rest[i] == cs@.subrange(a as int, b as int)[j + 1 - a + i]);
                }
            }
            assert(all_digits(t)) by {
                assert forall|i: int| 0 <= i < t.len() implies is_digit(#[trigger] t[i]) by {
                    assert(t[i] == cs@.subrange(a as int, b as int)[j - a + i]);
                }
            }
            lemma_digits_value_bounds(t);
            lemma_digits_value_bounds(rest);
            assert(v * RESOLUTION + d * RESOLUTION * big_b >= 0) by (nonlinear_arith)
                requires
                    v >= 0,
                    d >= 0,
                    big_b >= 1,
            ;
            assert(pow10((b - j) as nat) == 10 * big_b);
            vstd::arithmetic::div_mod::lemma_hoist_over_denominator(
                v * RESOLUTION,
                d * RESOLUTION,
                big_b as nat,
            );
            vstd::arithmetic::div_mod::lemma_div_denominator(
                v * RESOLUTION + d * RESOLUTION * big_b,
                big_b,
                10,
            );
            assert(v * RESOLUTION + d * RESOLUTION * big_b == (d * big_b + v) * RESOLUTION)
                by (nonlinear_arith);
            assert(big_b * 10 == 10 * big_b);
            let tv = digits_value(t);
            assert(tv * RESOLUTION / (10 * big_b) < RESOLUTION) by {
                assert(tv * RESOLUTION < RESOLUTION * (10 * big_b)) by (nonlinear_arith)
                    requires
                        0 <= tv < 10 * big_b,
                ;
                vstd::arithmetic::div_mod::lemma_div_is_ordered(
                    tv * RESOLUTION,
                    RESOLUTION * (10 * big_b) - 1,
                    10 * big_b,
                );
                vstd::arithmetic::div_mod::lemma_fundamental_div_mod_converse(
                    RESOLUTION * (10 * big_b) - 1,
                    10 * big_b,
                    RESOLUTION - 1,
                    10 * big_b - 1,
                );
            }
        }
        carry = (d * 512 + carry) / 10;
    }
    carry
}

/// Copies the digits `cs[from..to]` onto the end of `ds`.
fn push_digits(ds: &mut Vec<char>, cs: &Vec<char>, from: usize, to: usize)
    requires
        from <= to <= cs@.len(),
    ensures
        final(ds)@ == old(ds)@ + cs@.subrange(from as int, to as int),
{
    let ghost start = ds@;
    let mut j = from;
    while j < to
        invariant
            from <= j <= to,
            to <= cs@.len(),
            ds@ == start + cs@.subrange(from as int, j as int),
        decreases to - j,
    {
        ds.push(cs[j]);
        j += 1;
        assert(ds@ =~= start + cs@.subrange(from as int, j as int));
    }
}

/// Reads the exponent text `cs[from..to]` as an integer. Returns whether it
/// is one, whether it is negative, whether its magnitude exceeds
/// `EXPONENT_CAP`, and, when it does not, the magnitude.
fn read_exponent(cs: &Vec<char>, from: usize, to: usize) -> (r: (bool, bool, bool, u128))
    requires
        from <= to <= cs@.len(),
    ensures
        r.0 == is_integer(cs@.subrange(from as int, to as int)),
        r.0 ==> r.1 == is_negative(cs@.subrange(from as int, to as int)),
        r.0 ==> r.2 == (digits_value(unsigned_part(cs@.subrange(from as int, to as int)))
            > EXPONENT_CAP),
        r.0 && !r.2 ==> r.3 == digits_value(unsigned_part(cs@.subrange(from as int, to as int))),
{
    let ghost e = cs@.subrange(from as int, to as int);
    let mut j = from;
    let mut negative = false;
    if j < to && (cs[j] == '+' || cs[j] == '-') {
        negative = cs[j] == '-';
        j += 1;
    }
    assert(sign_len(e) == j - from && is_negative(e) == negative) by {
        if from < to {
            assert(e[0] == cs@[from as int]);
        }
    }
    assert(unsigned_part(e) =~= cs@.subrange(j as int, to as int));
    let (ok, over, value) = read_digits(cs, j, to, EXPONENT_CAP);
    (ok && j < to, negative, over, value)
}

/// The digits `cs[a..b]` followed by the digits `cs[c..d]`.
fn join_digits(cs: &Vec<char>, a: usize, b: usize, c: usize, d: usize) -> (r: Vec<char>)
    requires
        a <= b <= cs@.len(),
        c <= d <= cs@.len(),
        all_digits(cs@.subrange(a as int, b as int)),
        all_digits(cs@.subrange(c as int, d as int)),
    ensures
        r@ == cs@.subrange(a as int, b as int) + cs@.subrange(c as int, d as int),
        all_digits(r@),
{
    let mut ds: Vec<char> = Vec::new();
    push_digits(&mut ds, cs, a, b);
    assert(ds@ =~= cs@.subrange(a as int, b as int));
    push_digits(&mut ds, cs, c, d);
    let ghost x = cs@.subrange(a as int, b as int);
    let ghost y = cs@.subrange(c as int, d as int);
    assert forall|t: int| 0 <= t < ds@.len() implies is_digit(#[trigger] ds@[t]) by {
        if t < x.len() {
            assert(ds@[t] == x[t]);
        } else {
            assert(ds@[t] == y[t - x.len()]);
        }
    }
    ds
}

/// `digits_value(ds) * RESOLUTION * 10^(e - k)` classified, where the
/// exponent `e` is given by its sign and magnitude, or only its sign when it
/// exceeds `EXPONENT_CAP`.
fn scale(
    ds: &Vec<char>,
    d_over: bool,
    d_value: u128,
    k: usize,
    e_negative: bool,
    e_over: bool,
    e_value: u128,
    e: Ghost<int>,
) -> (r: Number)
    requires
        all_digits(ds@),
        digits_value(ds@) >= 1,
        k <= ds@.len(),
        d_over ==> digits_value(ds@) > u32::MAX,
        !d_over ==> d_value == digits_value(ds@) && d_value <= u32::MAX,
        e_over ==> (e_negative ==> e@ < -EXPONENT_CAP) && (!e_negative ==> e@ > EXPONENT_CAP),
        !e_over ==> e_value <= EXPONENT_CAP && e@ == if e_negative {
            -(e_value as int)
        } else {
            e_value as int
        },
    ensures
        r == steps_class(scaled_steps(digits_value(ds@), e@ - k)),
{
    let ghost d = digits_value(ds@);
    let n = ds.len();
    proof {
        lemma_digits_value_bounds(ds@);
    }
    if e_over {
        assert(k as int <= u64::MAX);
        assert(n as int <= u64::MAX);
        if e_negative {
            proof {
                lemma_scaled_tiny(d, n as nat, (k - e@) as nat);
            }
            return Number::TooSmall;
        } else {
            proof {
                lemma_scaled_huge(d, (e@ - k) as nat);
            }
            return Number::TooLarge;
        }
    }
    let e_int: i128 = if e_negative {
        -(e_value as i128)
    } else {
        e_value as i128
    };
    let q: i128 = e_int - k as i128;
    if q >= 0 {
        scale_up(d_value, d_over, q as u128, Ghost(d))
    } else {
        scale_down(ds, (-q) as u128)
    }
}

/// Where the parts of the unsigned decimal text `cs[i..b]` lie: the
/// exponent marker at `me` (or `b`), the point at `p` (or `me`), and the
/// fraction digits from `frac_start` to `me`.
fn decimal_layout(cs: &Vec<char>, i: usize, b: usize) -> (r: (usize, usize, usize))
    requires
        i <= b <= cs@.len(),
    ensures
        ({
            let u = cs@.subrange(i as int, b as int);
            let (me, p, frac_start) = r;
            let m = u.take(exponent_index(u));
            &&& i <= p <= me <= b
            &&& frac_start <= me
            &&& (me < b) == (exponent_index(u) < u.len())
            &&& cs@.subrange(i as int, me as int) == m
            &&& me < b ==> cs@.subrange(me + 1, b as int) == u.skip(exponent_index(u) + 1)
            &&& cs@.subrange(i as int, p as int) == m.take(first_index(m, '.'))
            &&& cs@.subrange(frac_start as int, me as int) == if first_index(m, '.') < m.len() {
                m.skip(first_index(m, '.') + 1)
            } else {
                Seq::empty()
            }
        }),
{
    let ghost u = cs@.subrange(i as int, b as int);
    let me = find_exponent(cs, i, b);
    let ghost m = u.take(exponent_index(u));
    assert(cs@.subrange(i as int, me as int) =~= m);
    let p = find_char(cs, i, me, '.');
    let frac_start = if p < me {
        p + 1
    } else {
        me
    };
    assert(cs@.subrange(i as int, p as int) =~= m.take(first_index(m, '.')));
    if p < me {
        assert(cs@.subrange(frac_start as int, me as int) =~= m.skip(first_index(m, '.') + 1));
    } else {
        assert(cs@.subrange(frac_start as int, me as int) =~= Seq::<char>::empty());
    }
    if me < b {
        assert(cs@.subrange(me + 1, b as int) =~= u.skip(exponent_index(u) + 1));
    }
    (me, p, frac_start)
}

/// Reads `cs[a..b]` as a length or width, per `measure`.
pub fn read_measure(cs: &Vec<char>, a: usize, b: usize) -> (r: Number)
    requires
        a <= b <= cs@.len(),
    ensures
        r == measure(cs@.subrange(a as int, b as int)),
{
    let ghost s = cs@.subrange(a as int, b as int);
    let mut i = a;
    let mut negative = false;
    if i < b && (cs[i] == '+' || cs[i] == '-') {
        negative = cs[i] == '-';
        i += 1;
    }
    assert(sign_len(s) == i - a && is_negative(s) == negative) by {
        if a < b {
            assert(s[0] == cs@[a as int]);
        }
    }
    assert(unsigned_part(s) =~= cs@.subrange(i as int, b as int));
    let (me, p, frac_start) = decimal_layout(cs, i, b);
    let (whole_ok, _, _) = read_digits(cs, i, p, 0);
    let (frac_ok, _, _) = read_digits(cs, frac_start, me, 0);
    if !whole_ok || !frac_ok || (p == i && me == frac_start) {
        return Number::Malformed;
    }
    let (e_ok, e_negative, e_over, e_value) = if me < b {
        read_exponent(cs, me + 1, b)
    } else {
        (true, false, false, 0)
    };
    if !e_ok {
        return Number::Malformed;
    }
    let ds = join_digits(cs, i, p, frac_start, me);
    let n = ds.len();
    assert(ds@.subrange(0, n as int) =~= ds@);
    let (_, d_over, d_value) = read_digits(&ds, 0, n, 4294967295);
    if negative || (!d_over && d_value == 0) {
        return Number::NotPositive;
    }
    scale(&ds, d_over, d_value, me - frac_start, e_negative, e_over, e_value, Ghost(exponent_value(s)))
}

proof fn lemma_scaled_tiny(d: int, n: nat, m: nat)
    requires
        1 <= d < pow10(n),
        m >= n + 3,
    ensures
        d * RESOLUTION / pow10(m) == 0,
{
    lemma_pow10_add(n, 3);
    assert(pow10(3) == 1000) by {
        reveal_with_fuel(pow10, 4);
    }
    lemma_pow10_monotonic((n + 3) as nat, m);
    assert(d * 512 < pow10(n) * 1000) by (nonlinear_arith)
        requires
            d < pow10(n),
            d >= 1,
    ;
    vstd::arithmetic::div_mod::lemma_basic_div(d * RESOLUTION, pow10(m));
}

proof fn lemma_scaled_huge(d: int, q: nat)
    requires
        d >= 1,
        q >= 10,
    ensures
        d * RESOLUTION * pow10(q) > u32::MAX,
{
    lemma_pow10_monotonic(10, q);
    assert(pow10(10) == 10000000000) by {
        reveal_with_fuel(pow10, 11);
    }
    assert(d * 512 * pow10(q) >= pow10(q)) by (nonlinear_arith)
        requires
            d >= 1,
            pow10(q) >= 1,
    ;
}

/// `d * RESOLUTION * 10^q` classified, where `d_value` is `d` unless `d_over`
/// says that `d` exceeds `u32::MAX`.
fn scale_up(d_value: u128, d_over: bool, q: u128, d: Ghost<int>) -> (r: Number)
    requires
        d@ >= 1,
        d_over ==> d@ > u32::MAX,
        !d_over ==> d_value == d@ && d_value <= u32::MAX,
    ensures
        r == steps_class(d@ * RESOLUTION * pow10(q as nat)),
{
    let ghost d = d@;
    proof {
        lemma_pow10_positive(q as nat);
        assert(d * 512 * pow10(q as nat) >= d) by (nonlinear_arith)
            requires
                d >= 1,
                pow10(q as nat) >= 1,
        ;
    }
    if d_over {
        return Number::TooLarge;
    }
    let mut v: u64 = (d_value as u64) * 512;
    let mut t: u128 = 0;
    assert(pow10(0) == 1);
    while t < q && v <= 4294967295
        invariant
            0 <= t <= q,
            d == d_value,
            d >= 1,
            v == d * RESOLUTION * pow10(t as nat),
            v <= 2199023255552,
        decreases q - t,
    {
        assert(d * 512 * pow10((t + 1) as nat) == d * 512 * pow10(t as nat) * 10)
            by (nonlinear_arith)
            requires
                pow10((t + 1) as nat) == 10 * pow10(t as nat),
        ;
        v = v * 10;
        t += 1;
    }
    proof {
        lemma_pow10_monotonic(t as nat, q as nat);
        lemma_pow10_positive(t as nat);
        assert(d * 512 * pow10(q as nat) >= d * 512 * pow10(t as nat)) by (nonlinear_arith)
            requires
                d >= 1,
                pow10(q as nat) >= pow10(t as nat),
        ;
    }
    if v > 4294967295 {
        Number::TooLarge
    } else {
        Number::Positive(v as u32)
    }
}

/// `digits_value(ds) * RESOLUTION / 10^m` classified.
fn scale_down(ds: &Vec<char>, m: u128) -> (r: Number)
    requires
        all_digits(ds@),
        digits_value(ds@) >= 1,
    ensures
        r == steps_class(digits_value(ds@) * RESOLUTION / pow10(m as nat)),
{
    let ghost d = digits_value(ds@);
    let n = ds.len();
    assert(ds@.subrange(0, n as int) =~= ds@);
    if m < n as u128 {
        let split = n - m as usize;
        let ghost head = ds@.subrange(0, split as int);
        let ghost tail = ds@.subrange(split as int, n as int);
        assert(all_digits(head));
        assert(all_digits(tail));
        let (_, w_over, w_value) = read_digits(ds, 0, split, 8388607);
        let frac_steps = fraction_steps(ds, split, n);
        proof {
            assert(ds@ =~= head + tail);
            lemma_digits_value_concat(head, tail);
            lemma_digits_value_bounds(head);
            lemma_digits_value_bounds(tail);
            let pm = pow10(m as nat);
            lemma_pow10_positive(m as nat);
            let x = digits_value(head);
            let y = digits_value(tail);
            vstd::arithmetic::div_mod::lemma_hoist_over_denominator(
                y * RESOLUTION,
                x * RESOLUTION,
                pm as nat,
            );
            assert((x * pm + y) * 512 == y * 512 + x * 512 * pm) by (nonlinear_arith);
            assert(y * 512 >= 0) by (nonlinear_arith)
                requires
                    y >= 0,
            ;
            vstd::arithmetic::div_mod::lemma_div_pos_is_pos(y * RESOLUTION, pm);
        }
        if w_over {
            return Number::TooLarge;
        }
        let steps = w_value as u64 * 512 + frac_steps;
        if steps == 0 {
            Number::TooSmall
        } else {
            Number::Positive(steps as u32)
        }
    } else {
        let mut carry = fraction_steps(ds, 0, n);
        let mut extra: u128 = m - n as u128;
        proof {
            lemma_pow10_positive(n as nat);
        }
        while extra > 0 && carry > 0
            invariant
                extra <= m - n,
                carry == d * RESOLUTION / pow10((m - extra) as nat),
                carry < RESOLUTION,
                d >= 1,
            decreases extra,
        {
            proof {
                let c = (m - extra) as nat;
                lemma_pow10_positive(c);
                assert(d * 512 >= 0) by (nonlinear_arith)
                    requires
                        d >= 1,
                ;
                vstd::arithmetic::div_mod::lemma_div_denominator(d * RESOLUTION, pow10(c), 10);
                assert(pow10((c + 1) as nat) == 10 * pow10(c));
                assert(pow10(c) * 10 == 10 * pow10(c));
            }
            carry = carry / 10;
            extra -= 1;
        }
        proof {
            let c = (m - extra) as nat;
            lemma_pow10_positive(c);
            lemma_pow10_monotonic(c, m as nat);
            assert(d * 512 >= 0) by (nonlinear_arith)
                requires
                    d >= 1,
            ;
            vstd::arithmetic::div_mod::lemma_div_is_ordered_by_denominator(
                d * RESOLUTION,
                pow10(c),
                pow10(m as nat),
            );
            vstd::arithmetic::div_mod::lemma_div_pos_is_pos(d * RESOLUTION, pow10(m as nat));
        }
        if carry == 0 {
            Number::TooSmall
        } else {
            Number::Positive(carry as u32)
        }
    }
}

/// Reads `cs[a..b]` as a count, per `count`.
pub fn read_count(cs: &Vec<char>, a: usize, b: usize) -> (r: Number)
    requires
        a <= b <= cs@.len(),
    ensures
        r == count(cs@.subrange(a as int, b as int)),
{
    let ghost s = cs@.subrange(a as int, b as int);
    let mut i = a;
    let mut negative = false;
    if i < b && (cs[i] == '+' || cs[i] == '-') {
        negative = cs[i] == '-';
        i += 1;
    }
    assert(sign_len(s) == i - a && is_negative(s) == negative) by {
        if a < b {
            assert(s[0] == cs@[a as int]);
        }
    }
    assert(unsigned_part(s) =~= cs@.subrange(i as int, b as int));
    let (ok, over, value) = read_digits(cs, i, b, 2147483648);
    if !ok || i == b {
        return Number::Malformed;
    }
    if over || (!negative && value == 2147483648) {
        return Number::TooLarge;
    }
    if negative || value == 0 {
        Number::NotPositive
    } else {
        Number::Positive(value as u32)
    }
}

} // verus!
