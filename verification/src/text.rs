//! Decimal text for counts and fixed-point numbers.
//!
//! A fixed-point number has the text of the double nearest to it.
use vstd::arithmetic::div_mod::*;
use vstd::arithmetic::mul::*;
use vstd::arithmetic::power::*;
use vstd::prelude::*;
use vstd::string::*;

use crate::cost::MeasuredSpeedup;
use crate::fixed::{pow10, Magnitude, ONE};

verus! {

/// The decimal digit `d`.
pub open spec fn digit_text(d: int) -> Seq<char> {
    if d == 0 {
        "0"@
    } else if d == 1 {
        "1"@
    } else if d == 2 {
        "2"@
    } else if d == 3 {
        "3"@
    } else if d == 4 {
        "4"@
    } else if d == 5 {
        "5"@
    } else if d == 6 {
        "6"@
    } else if d == 7 {
        "7"@
    } else if d == 8 {
        "8"@
    } else {
        "9"@
    }
}

/// `n` in decimal.
pub open spec fn nat_text(n: nat) -> Seq<char>
    decreases n,
{
    if n < 10 {
        digit_text(n as int)
    } else {
        nat_text(n / 10) + digit_text((n % 10) as int)
    }
}

/// The last `width` decimal digits of `n`, with leading zeros.
pub open spec fn digits_text(n: nat, width: nat) -> Seq<char>
    decreases width,
{
    if width == 0 {
        Seq::empty()
    } else {
        digits_text(n / 10, (width - 1) as nat) + digit_text((n % 10) as int)
    }
}

/// `n / unit` rounded to the nearest integer, and to the even one of two.
pub open spec fn rounded(n: nat, unit: nat) -> nat {
    let q = n / unit;
    let r = n % unit;
    if 2 * r > unit || (2 * r == unit && q % 2 == 1) {
        q + 1
    } else {
        q
    }
}

/// The numbers that the significand of a double takes, `2^53`.
pub const SIGNIFICANDS: u64 = 9_007_199_254_740_992;

/// The spacing of the doubles around a large number of `v` units: the least
/// power of two from `a` on that leaves a significand's worth of steps.
pub open spec fn coarse(v: nat, a: nat) -> nat
    decreases v - a,
{
    if a == 0 || v < SIGNIFICANDS * ONE * a {
        a
    } else {
        proof {
            assert(v >= 2 * a) by (nonlinear_arith)
                requires
                    v >= SIGNIFICANDS * ONE * a,
                    a >= 0,
            ;
        }
        coarse(v, 2 * a)
    }
}

/// The number of doubles to one around a small number of `v` units: the greatest
/// power of two from `b` on that leaves at most a significand's worth of steps.
pub open spec fn fine(v: nat, b: nat) -> nat
    decreases SIGNIFICANDS * ONE - v * b,
{
    if v == 0 || b == 0 || 2 * (v * b) >= SIGNIFICANDS * ONE {
        b
    } else {
        proof {
            assert(v * (2 * b) == 2 * (v * b)) by (nonlinear_arith);
            assert(v * b > 0) by (nonlinear_arith)
                requires
                    v > 0,
                    b > 0,
            ;
        }
        fine(v, 2 * b)
    }
}

/// The significand of the double nearest to `v` units. The double is this many
/// times `coarse(v, 1) / fine(v, 1)`.
pub open spec fn significand(v: nat) -> nat {
    rounded(v * fine(v, 1), ONE as nat * coarse(v, 1))
}

/// A fixed-point number that is not negative, as text with `places` decimal
/// places: that of the double nearest to it, rounded to the nearest decimal, and
/// to the even one of two.
pub open spec fn magnitude_text(v: nat, places: nat) -> Seq<char> {
    let n = rounded(significand(v) * coarse(v, 1) * pow10(places), fine(v, 1));
    nat_text(n / pow10(places)) + "."@ + digits_text(n % pow10(places), places)
}

/// A fixed-point number as text with `places` decimal places.
pub open spec fn fixed_text(v: int, places: nat) -> Seq<char> {
    if v < 0 {
        "-"@ + magnitude_text((-v) as nat, places)
    } else {
        magnitude_text(v as nat, places)
    }
}

/// A fixed-point number that may be undefined.
pub open spec fn optional_text(v: Option<u128>, places: nat) -> Seq<char> {
    match v {
        Some(x) => fixed_text(x as int, places),
        None => "NaN"@,
    }
}

/// A measured speedup.
pub open spec fn speedup_text(m: MeasuredSpeedup, places: nat) -> Seq<char> {
    match m {
        MeasuredSpeedup::Undefined => "NaN"@,
        MeasuredSpeedup::Infinite => "inf"@,
        MeasuredSpeedup::Finite { negative, magnitude } => if negative {
            "-"@ + magnitude_text(magnitude.value() as nat, places)
        } else {
            magnitude_text(magnitude.value() as nat, places)
        },
    }
}

/// `n` spaces.
pub open spec fn spaces(n: nat) -> Seq<char>
    decreases n,
{
    if n == 0 {
        Seq::empty()
    } else {
        spaces((n - 1) as nat) + " "@
    }
}

/// `t` aligned to the right in `width` columns.
pub open spec fn right_aligned(t: Seq<char>, width: nat) -> Seq<char> {
    if t.len() < width {
        spaces((width - t.len()) as nat) + t
    } else {
        t
    }
}

/// Text put before nothing is the text.
proof fn lemma_nothing_before(t: Seq<char>)
    ensures
        Seq::<char>::empty() + t == t,
{
    assert(Seq::<char>::empty() + t =~= t);
}

fn digit_string(d: u128) -> (s: String)
    requires
        d < 10,
    ensures
        s@ == digit_text(d as int),
{
    if d == 0 {
        String::from_str("0")
    } else if d == 1 {
        String::from_str("1")
    } else if d == 2 {
        String::from_str("2")
    } else if d == 3 {
        String::from_str("3")
    } else if d == 4 {
        String::from_str("4")
    } else if d == 5 {
        String::from_str("5")
    } else if d == 6 {
        String::from_str("6")
    } else if d == 7 {
        String::from_str("7")
    } else if d == 8 {
        String::from_str("8")
    } else {
        String::from_str("9")
    }
}

/// Writes `n` in decimal.
pub fn nat_string(n: u128) -> (s: String)
    ensures
        s@ == nat_text(n as nat),
    decreases n,
{
    if n < 10 {
        return digit_string(n);
    }
    let mut s = nat_string(n / 10);
    s.append(digit_string(n % 10).as_str());
    s
}

fn digits_string(n: u128, width: u32) -> (s: String)
    ensures
        s@ == digits_text(n as nat, width as nat),
    decreases width,
{
    if width == 0 {
        return String::new();
    }
    let mut s = digits_string(n / 10, width - 1);
    s.append(digit_string(n % 10).as_str());
    s
}

proof fn lemma_pow10_small(n: nat)
    requires
        n <= 18,
    ensures
        1 <= pow10(n) <= 1_000_000_000_000_000_000,
{
    reveal_with_fuel(pow10, 19);
}

fn power_of_ten(n: u32) -> (r: u128)
    requires
        n <= 18,
    ensures
        r == pow10(n as nat),
        1 <= r <= 1_000_000_000_000_000_000,
{
    let mut r: u128 = 1;
    let mut i: u32 = 0;
    while i < n
        invariant
            i <= n <= 18,
            r == pow10(i as nat),
            r <= 1_000_000_000_000_000_000,
        decreases n - i,
    {
        proof {
            lemma_pow10_small((i + 1) as nat);
        }
        r = r * 10;
        i = i + 1;
    }
    proof {
        lemma_pow10_small(n as nat);
    }
    r
}

/// `n / unit` rounded to the nearest integer, and to the even one of two.
fn round_even(n: u128, unit: u128) -> (r: u128)
    requires
        0 < unit <= u128::MAX / 2,
        n < u128::MAX,
    ensures
        r == rounded(n as nat, unit as nat),
{
    let q: u128 = n / unit;
    let rem: u128 = n % unit;
    proof {
        lemma_div_pos_is_pos(n as int, unit as int);
        lemma_div_nonincreasing(n as int, unit as int);
    }
    if 2 * rem > unit || (2 * rem == unit && q % 2 == 1) {
        q + 1
    } else {
        q
    }
}

/// The last step of [`magnitude_text`]: a decimal point put into `n`.
fn point_string(n: u128, places: u32) -> (s: String)
    requires
        places <= 18,
    ensures
        s@ == nat_text((n as nat) / pow10(places as nat)) + "."@ + digits_text(
            (n as nat) % pow10(places as nat),
            places as nat,
        ),
{
    let base: u128 = power_of_ten(places);
    let mut s = nat_string(n / base);
    s.append(".");
    s.append(digits_string(n % base, places).as_str());
    s
}

/// Writes a number of `v` units below the size at which doubles are whole.
fn small_string(v: u128, places: u32) -> (s: String)
    requires
        v < SIGNIFICANDS * ONE,
        places <= 18,
    ensures
        s@ == magnitude_text(v as nat, places as nat),
{
    let limit: u128 = SIGNIFICANDS as u128 * ONE as u128;
    let mut b: u128 = 1;
    let mut x: u128 = v;
    while x != 0 && 2 * x < limit
        invariant
            limit == SIGNIFICANDS * ONE,
            x == v * b,
            x < limit,
            0 < b,
            v != 0 ==> b <= x,
            v == 0 ==> b == 1,
            fine(v as nat, 1) == fine(v as nat, b as nat),
        decreases limit - x,
    {
        proof {
            assert(v * (2 * b) == 2 * (v * b)) by (nonlinear_arith);
            assert(v != 0) by (nonlinear_arith)
                requires
                    v * b != 0,
            ;
        }
        b = 2 * b;
        x = 2 * x;
    }
    let m: u128 = round_even(x, ONE as u128);
    proof {
        if v == 0 {
            assert(0 * b == 0);
        } else {
            assert(x != 0) by (nonlinear_arith)
                requires
                    x == v * b,
                    v > 0,
                    b > 0,
            ;
        }
        assert(fine(v as nat, 1) == b);
        assert(coarse(v as nat, 1) == 1);
        assert(m == significand(v as nat));
        lemma_pow10_small(places as nat);
        lemma_div_is_ordered(x as int, limit as int, ONE as int);
        lemma_div_multiples_vanish(SIGNIFICANDS as int, ONE as int);
        lemma_mul_is_commutative(SIGNIFICANDS as int, ONE as int);
        assert(m <= SIGNIFICANDS + 1);
        let ten = pow10(places as nat) as int;
        assert(0 <= m * ten <= (SIGNIFICANDS + 1) * ONE) by (nonlinear_arith)
            requires
                0 <= m <= SIGNIFICANDS + 1,
                1 <= ten <= ONE,
        ;
        assert(m * 1 * ten == m * ten);
    }
    let n: u128 = round_even(m * power_of_ten(places), b);
    point_string(n, places)
}

/// Writes twice `h` in decimal.
fn twice_string(h: u128) -> (s: String)
    requires
        h >= 5,
    ensures
        s@ == nat_text((2 * h) as nat),
{
    let mut s = nat_string(h / 5);
    s.append(digit_string(2 * (h % 5)).as_str());
    proof {
        lemma_fundamental_div_mod(h as int, 5);
        assert((2 * h) / 10 == h / 5 && (2 * h) % 10 == 2 * (h % 5));
    }
    s
}

/// The text of a whole number, with a decimal point and zeros.
proof fn lemma_whole_text(n: nat, places: nat)
    requires
        places <= 18,
    ensures
        rounded(n * pow10(places), 1) == n * pow10(places),
        (n * pow10(places)) / pow10(places) == n,
        (n * pow10(places)) % pow10(places) == 0,
{
    lemma_pow10_small(places);
    lemma_div_basics((n * pow10(places)) as int);
    lemma_div_by_multiple(n as int, pow10(places) as int);
    lemma_mod_multiples_basic(n as int, pow10(places) as int);
}

/// Whether doubles of the spacing `2 * half` still leave too many steps is
/// decided by the whole part alone.
proof fn lemma_too_many_steps(whole: int, units: int, half: int)
    requires
        0 <= whole,
        0 <= units < ONE,
        0 < half,
    ensures
        whole / 2 / half == whole / (2 * half),
        whole / 2 / half >= SIGNIFICANDS <==> whole * ONE + units >= SIGNIFICANDS * ONE * (2
            * half),
        whole / 2 / half >= SIGNIFICANDS ==> (2 * half) * SIGNIFICANDS <= whole,
{
    let s = SIGNIFICANDS as int;
    let one = ONE as int;
    let a = 2 * half;
    let q = whole / a;
    lemma_div_denominator(whole, 2, half);
    lemma_fundamental_div_mod(whole, a);
    assert(q >= s <==> whole >= s * a) by (nonlinear_arith)
        requires
            whole == a * q + whole % a,
            0 <= whole % a < a,
    ;
    assert(s * one * a == (s * a) * one) by (nonlinear_arith);
    assert(whole >= s * a <==> whole * one + units >= (s * a) * one) by (nonlinear_arith)
        requires
            0 <= units < one,
    ;
    lemma_mul_is_commutative(a, s);
}

/// The significand for doubles of the spacing `2 * half`, from the whole part and
/// the units.
proof fn lemma_large_significand(whole: int, units: int, half: int, m: int)
    requires
        0 <= whole,
        0 <= units < ONE,
        0 < half,
        ({
            let q = whole / (2 * half);
            let rest = whole % (2 * half);
            m == if rest > half || (rest == half && (units > 0 || q % 2 == 1)) {
                q + 1
            } else {
                q
            }
        }),
    ensures
        m == rounded((whole * ONE + units) as nat, (ONE * (2 * half)) as nat),
{
    let one = ONE as int;
    let a = 2 * half;
    let q = whole / a;
    let rest = whole % a;
    let v = whole * one + units;
    let unit = one * a;
    let r = rest * one + units;
    lemma_fundamental_div_mod(whole, a);
    assert(v == q * unit + r && 0 <= r < unit && 0 < unit) by (nonlinear_arith)
        requires
            v == whole * one + units,
            whole == a * q + rest,
            unit == one * a,
            r == rest * one + units,
            0 <= rest <= a - 1,
            0 <= units < one,
            a > 0,
    {
        assert((a * q + rest) * one == q * (one * a) + rest * one);
        assert(rest * one <= (a - 1) * one);
    }
    lemma_fundamental_div_mod_converse(v, unit, q, r);
    assert(2 * r > unit <==> (rest > half || (rest == half && units > 0))) by (nonlinear_arith)
        requires
            r == rest * one + units,
            unit == one * (2 * half),
            0 <= units < one,
    {
        if rest > half {
            assert(rest * one >= (half + 1) * one);
        } else if rest < half {
            assert(rest * one <= (half - 1) * one);
        }
    }
    assert(2 * r == unit <==> (rest == half && units == 0)) by (nonlinear_arith)
        requires
            r == rest * one + units,
            unit == one * (2 * half),
            0 <= units < one,
    {
        if rest > half {
            assert(rest * one >= (half + 1) * one);
        } else if rest < half {
            assert(rest * one <= (half - 1) * one);
        }
    }
}

/// Writes a number of the size at which doubles are whole.
fn large_string(whole: u128, units: u64, places: u32) -> (s: String)
    requires
        whole >= SIGNIFICANDS,
        units < ONE,
        places <= 18,
    ensures
        s@ == magnitude_text((whole * ONE + units) as nat, places as nat),
{
    let steps: u128 = SIGNIFICANDS as u128;
    let ghost v = (whole * ONE + units) as nat;
    let mut half: u128 = 1;
    proof {
        assert(v >= SIGNIFICANDS * ONE) by (nonlinear_arith)
            requires
                v >= whole * ONE,
                whole >= SIGNIFICANDS,
        ;
        assert(fine(v, 1) == 1);
        assert(coarse(v, 1) == coarse(v, 2));
    }
    while whole / 2 / half >= steps
        invariant
            steps == SIGNIFICANDS,
            v == whole * ONE + units,
            units < ONE,
            0 < half,
            half * SIGNIFICANDS <= whole,
            coarse(v, 1) == coarse(v, (2 * half) as nat),
        decreases whole - half,
    {
        proof {
            lemma_too_many_steps(whole as int, units as int, half as int);
        }
        half = 2 * half;
    }
    let q: u128 = whole / 2 / half;
    let rest: u128 = whole % (2 * half);
    let m: u128 = if rest > half || (rest == half && (units > 0 || q % 2 == 1)) {
        q + 1
    } else {
        q
    };
    proof {
        lemma_too_many_steps(whole as int, units as int, half as int);
        lemma_large_significand(whole as int, units as int, half as int, m as int);
        let a = 2 * half;
        assert(coarse(v, 1) == a);
        assert(m == significand(v));
        lemma_fundamental_div_mod(whole as int, a);
        assert(q >= SIGNIFICANDS / 2) by (nonlinear_arith)
            requires
                half * SIGNIFICANDS <= whole,
                whole == a * q + rest,
                rest < a,
                a == 2 * half,
                half > 0,
        ;
        assert(5 <= m * half <= whole) by (nonlinear_arith)
            requires
                5 <= m <= SIGNIFICANDS,
                half * SIGNIFICANDS <= whole,
                half > 0,
        ;
        assert(m * a == 2 * (m * half)) by (nonlinear_arith)
            requires
                a == 2 * half,
        ;
        lemma_whole_text((m * a) as nat, places as nat);
    }
    let mut s = twice_string(m * half);
    s.append(".");
    s.append(digits_string(0, places).as_str());
    s
}

/// Writes a fixed-point number that is not negative, from its whole part and its
/// units.
fn parts_string(whole: u128, units: u64, places: u32) -> (s: String)
    requires
        units < ONE,
        places <= 18,
    ensures
        s@ == magnitude_text((whole * ONE + units) as nat, places as nat),
{
    if whole >= SIGNIFICANDS as u128 {
        return large_string(whole, units, places);
    }
    small_string(whole * ONE as u128 + units as u128, places)
}

/// Writes a fixed-point number that is not negative.
pub fn magnitude_string(v: u128, places: u32) -> (s: String)
    requires
        places <= 18,
    ensures
        s@ == magnitude_text(v as nat, places as nat),
        s@ == fixed_text(v as int, places as nat),
{
    proof {
        lemma_fundamental_div_mod(v as int, ONE as int);
    }
    parts_string(v / ONE as u128, (v % ONE as u128) as u64, places)
}

/// Writes a fixed-point number.
pub fn fixed_string(v: i128, places: u32) -> (s: String)
    requires
        places <= 18,
    ensures
        s@ == fixed_text(v as int, places as nat),
{
    if v < 0 {
        let mut s = String::from_str("-");
        s.append(magnitude_string((-(v + 1)) as u128 + 1, places).as_str());
        s
    } else {
        magnitude_string(v as u128, places)
    }
}

/// Writes a fixed-point number that may be undefined.
pub fn optional_string(v: Option<u128>, places: u32) -> (s: String)
    requires
        places <= 18,
    ensures
        s@ == optional_text(v, places as nat),
{
    match v {
        Some(x) => magnitude_string(x, places),
        None => String::from_str("NaN"),
    }
}

/// Writes a measured speedup.
pub fn speedup_string(m: &MeasuredSpeedup, places: u32) -> (s: String)
    requires
        places <= 18,
    ensures
        s@ == speedup_text(*m, places as nat),
{
    match m {
        MeasuredSpeedup::Undefined => String::from_str("NaN"),
        MeasuredSpeedup::Infinite => String::from_str("inf"),
        MeasuredSpeedup::Finite { negative, magnitude } => {
            let (whole, units) = magnitude.parts();
            if *negative {
                let mut s = String::from_str("-");
                s.append(parts_string(whole, units, places).as_str());
                s
            } else {
                parts_string(whole, units, places)
            }
        },
    }
}

/// Writes text aligned to the right in `width` columns.
pub fn aligned_string(t: &str, width: usize) -> (s: String)
    ensures
        s@ == right_aligned(t@, width as nat),
{
    let len: usize = t.unicode_len();
    let mut s = String::new();
    let mut column: usize = len;
    while column < width
        invariant
            len == t@.len(),
            len <= column,
            column <= width || column == len,
            s@ == spaces((column - len) as nat),
        decreases width - column,
    {
        s.append(" ");
        column = column + 1;
    }
    proof {
        lemma_nothing_before(t@);
    }
    s.append(t);
    s
}

/// A digit is the character of its code.
pub proof fn law_digits_are_characters(d: int)
    requires
        0 <= d < 10,
    ensures
        digit_text(d).len() == 1,
        digit_text(d)[0] as int == 48 + d,
{
    reveal_strlit("0");
    reveal_strlit("1");
    reveal_strlit("2");
    reveal_strlit("3");
    reveal_strlit("4");
    reveal_strlit("5");
    reveal_strlit("6");
    reveal_strlit("7");
    reveal_strlit("8");
    reveal_strlit("9");
}

/// The number that a text of decimal digits stands for.
pub open spec fn read_digits(t: Seq<char>) -> int
    decreases t.len(),
{
    if t.len() == 0 {
        0
    } else {
        10 * read_digits(t.drop_last()) + (t.last() as int - 48)
    }
}

/// Reading digits: the number grows tenfold with each, and the digit is added.
pub proof fn law_reading_digits(t: Seq<char>, c: char)
    ensures
        read_digits(Seq::empty()) == 0,
        read_digits(t.push(c)) == 10 * read_digits(t) + (c as int - 48),
{
    assert(t.push(c).drop_last() =~= t);
}

/// The text of a count reads back as the count: it is made of digits, and has no
/// leading zero but for zero itself.
pub proof fn law_counts_read_back(n: nat)
    ensures
        nat_text(n).len() > 0,
        forall|i: int| 0 <= i < nat_text(n).len() ==> 48 <= #[trigger] nat_text(n)[i] as int <= 57,
        read_digits(nat_text(n)) == n,
        n > 0 ==> nat_text(n)[0] as int != 48,
    decreases n,
{
    let d = (n % 10) as int;
    law_digits_are_characters(d);
    let digit = digit_text(d);
    if n < 10 {
        law_reading_digits(Seq::empty(), digit[0]);
        assert(Seq::<char>::empty().push(digit[0]) =~= digit);
    } else {
        law_counts_read_back(n / 10);
        let t = nat_text(n / 10);
        law_reading_digits(t, digit[0]);
        assert(t + digit =~= t.push(digit[0]));
    }
}

/// Digits of a given width read back as the number's last so many digits.
pub proof fn law_digits_read_back(n: nat, width: nat)
    ensures
        digits_text(n, width).len() == width,
        forall|i: int| 0 <= i < width ==> 48 <= #[trigger] digits_text(n, width)[i] as int <= 57,
        n < pow10(width) ==> read_digits(digits_text(n, width)) == n,
    decreases width,
{
    if width > 0 {
        let j = (width - 1) as nat;
        let d = (n % 10) as int;
        law_digits_are_characters(d);
        law_digits_read_back(n / 10, j);
        let digit = digit_text(d);
        let t = digits_text(n / 10, j);
        law_reading_digits(t, digit[0]);
        assert(t + digit =~= t.push(digit[0]));
    }
}

/// Rounding: the nearest integer to a quotient, and of two the even one.
pub proof fn law_rounding_is_to_nearest(n: nat, unit: nat)
    requires
        unit > 0,
    ensures
        ({
            let r = rounded(n, unit);
            &&& -(unit as int) <= 2 * (r * unit - n) <= unit
            &&& 2 * (r * unit - n) == unit || 2 * (r * unit - n) == -unit ==> r % 2 == 0
        }),
{
    let q = (n / unit) as int;
    lemma_fundamental_div_mod(n as int, unit as int);
    assert((q + 1) * unit == q * unit + unit) by (nonlinear_arith);
    lemma_mul_is_commutative(unit as int, q);
}

/// Where the doubles around a number lie: their spacing, `coarse / fine`, is a whole
/// part of the number between `2^52` and `2^53`.
proof fn lemma_spacing(v: nat)
    requires
        v > 0,
    ensures
        coarse(v, 1) > 0,
        fine(v, 1) > 0,
        SIGNIFICANDS * (ONE * coarse(v, 1)) <= 2 * (v * fine(v, 1)),
        v * fine(v, 1) < SIGNIFICANDS * (ONE * coarse(v, 1)),
{
    let limit = SIGNIFICANDS * ONE;
    if v < limit {
        lemma_fine(v, 1);
        assert(coarse(v, 1) == 1);
    } else {
        assert(fine(v, 1) == 1);
        lemma_coarse(v, 1);
    }
    let a = coarse(v, 1);
    assert(SIGNIFICANDS * ONE * a == SIGNIFICANDS * (ONE * a)) by (nonlinear_arith);
}

proof fn lemma_fine(v: nat, b: nat)
    requires
        v > 0,
        b > 0,
        v * b < SIGNIFICANDS * ONE,
    ensures
        fine(v, b) > 0,
        SIGNIFICANDS * ONE <= 2 * (v * fine(v, b)),
        v * fine(v, b) < SIGNIFICANDS * ONE,
    decreases SIGNIFICANDS * ONE - v * b,
{
    if 2 * (v * b) < SIGNIFICANDS * ONE {
        assert(v * (2 * b) == 2 * (v * b)) by (nonlinear_arith);
        assert(v * b > 0) by (nonlinear_arith)
            requires
                v > 0,
                b > 0,
        ;
        lemma_fine(v, 2 * b);
    }
}

proof fn lemma_coarse(v: nat, a: nat)
    requires
        a > 0,
        SIGNIFICANDS * ONE * a <= 2 * v,
    ensures
        coarse(v, a) > 0,
        SIGNIFICANDS * ONE * coarse(v, a) <= 2 * v,
        v < SIGNIFICANDS * ONE * coarse(v, a),
    decreases v - a,
{
    if v >= SIGNIFICANDS * ONE * a {
        assert(SIGNIFICANDS * ONE * (2 * a) == 2 * (SIGNIFICANDS * ONE * a)) by (nonlinear_arith);
        assert(v >= 2 * a) by (nonlinear_arith)
            requires
                v >= SIGNIFICANDS * ONE * a,
                a >= 0,
        ;
        lemma_coarse(v, 2 * a);
    }
}

/// The text of a number: the digits of an integer `n` with the point before the last
/// `places` of them, where `n` is the number times `10^places` to within one half and
/// one part of `2^53`.
pub proof fn law_text_is_near_the_number(v: nat, places: nat) -> (n: nat)
    requires
        places <= 18,
    ensures
        magnitude_text(v, places) == nat_text(n / pow10(places)) + "."@ + digits_text(
            n % pow10(places),
            places,
        ),
        ({
            let error = n * ONE - v * pow10(places);
            let bound = SIGNIFICANDS * ONE + 2 * (v * pow10(places));
            -bound <= 2 * SIGNIFICANDS * error <= bound
        }),
{
    let ten = pow10(places) as int;
    let one = ONE as int;
    let big = SIGNIFICANDS as int;
    let a = coarse(v, 1) as int;
    let b = fine(v, 1) as int;
    let m = significand(v) as int;
    let n = rounded((significand(v) * coarse(v, 1) * pow10(places)) as nat, fine(v, 1));
    if v == 0 {
        assert(b == 1 && a == 1);
        assert(0 * b == 0);
        law_rounding_is_to_nearest(0, ONE as nat);
        assert(m == 0);
        assert(0 * a * ten == 0) by (nonlinear_arith);
        assert(rounded(0, 1) == 0);
        assert(0 * pow10(places) == 0);
    } else {
        lemma_spacing(v);
        lemma_pow10_small(places);
        law_rounding_is_to_nearest((v * fine(v, 1)) as nat, (ONE * coarse(v, 1)) as nat);
        law_rounding_is_to_nearest((m * a * ten) as nat, b as nat);
        let unit = one * a;
        let x = v * b;
        let e = m * unit - x;
        assert(-unit <= 2 * e <= unit);
        let y = m * a * ten;
        let f = n * b - y;
        assert(-b <= 2 * f <= b);
        let error = n * one - v * ten;
        assert(b * error == one * f + ten * e) by (nonlinear_arith)
            requires
                error == n * one - v * ten,
                f == n * b - y,
                y == m * a * ten,
                e == m * unit - x,
                unit == one * a,
                x == v * b,
        {
            assert(b * (n * one) == one * (n * b));
            assert(one * (m * a * ten) == ten * (m * (one * a)));
            assert(b * (v * ten) == ten * (v * b));
        }
        assert(-(2 * (ten * x)) <= 2 * big * (ten * e) <= 2 * (ten * x)) by (nonlinear_arith)
            requires
                -unit <= 2 * e <= unit,
                big * unit <= 2 * x,
                ten > 0,
                big > 0,
        {
            assert(-(big * unit) <= big * (2 * e) <= big * unit);
            assert(-(2 * x) <= big * (2 * e) <= 2 * x);
            assert(ten * (-(2 * x)) <= ten * (big * (2 * e)) <= ten * (2 * x));
            assert(ten * (big * (2 * e)) == 2 * big * (ten * e));
        }
        assert(-(big * (one * b)) <= 2 * big * (one * f) <= big * (one * b)) by (nonlinear_arith)
            requires
                -b <= 2 * f <= b,
                one > 0,
                big > 0,
        {
            let c = big * one;
            assert(c > 0);
            assert(c * (-b) <= c * (2 * f) <= c * b);
            assert(c * (2 * f) == 2 * big * (one * f));
            assert(c * b == big * (one * b));
        }
        let bound = big * one + 2 * (v * ten);
        assert(2 * big * (b * error) == 2 * big * (one * f) + 2 * big * (ten * e))
            by (nonlinear_arith)
            requires
                b * error == one * f + ten * e,
        ;
        assert(b * bound == big * (one * b) + 2 * (ten * x)) by (nonlinear_arith)
            requires
                bound == big * one + 2 * (v * ten),
                x == v * b,
        ;
        let z = 2 * big * error;
        assert(2 * big * (b * error) == b * z) by (nonlinear_arith)
            requires
                z == 2 * big * error,
        ;
        assert(-bound <= z <= bound) by (nonlinear_arith)
            requires
                -(b * bound) <= b * z <= b * bound,
                b > 0,
        ;
    }
    n
}

/// A negative number has the text of its opposite, with a sign before it.
pub proof fn law_sign_comes_first(v: int, places: nat)
    ensures
        v > 0 ==> fixed_text(-v, places) == "-"@ + fixed_text(v, places),
        v >= 0 ==> fixed_text(v, places) == magnitude_text(v as nat, places),
        v >= 0 && v <= u128::MAX ==> optional_text(Some(v as u128), places) == fixed_text(
            v,
            places,
        ),
        optional_text(None, places) == "NaN"@,
{
}

/// A measured speedup has the text of its magnitude, with a sign where it is negative;
/// one that is undefined or infinite has a word.
pub proof fn law_speedups_have_text(m: Magnitude, places: nat)
    ensures
        speedup_text(MeasuredSpeedup::Finite { negative: false, magnitude: m }, places)
            == magnitude_text(m.value() as nat, places),
        speedup_text(MeasuredSpeedup::Finite { negative: true, magnitude: m }, places) == "-"@
            + magnitude_text(m.value() as nat, places),
        speedup_text(MeasuredSpeedup::Infinite, places) == "inf"@,
        speedup_text(MeasuredSpeedup::Undefined, places) == "NaN"@,
{
}

proof fn lemma_spaces(n: nat)
    ensures
        spaces(n).len() == n,
        forall|i: int| 0 <= i < n ==> #[trigger] spaces(n)[i] == ' ',
    decreases n,
{
    reveal_strlit(" ");
    if n > 0 {
        lemma_spaces((n - 1) as nat);
    }
}

/// Aligned text: the text itself at the right, and before it as many spaces as the
/// width leaves.
pub proof fn law_alignment(t: Seq<char>, width: nat)
    ensures
        ({
            let r = right_aligned(t, width);
            let room = r.len() - t.len();
            &&& r.len() == if t.len() < width {
                width
            } else {
                t.len()
            }
            &&& r.skip(room) == t
            &&& forall|i: int| 0 <= i < room ==> #[trigger] r[i] == ' '
        }),
{
    let r = right_aligned(t, width);
    if t.len() < width {
        lemma_spaces((width - t.len()) as nat);
    }
    assert(r.skip(r.len() - t.len()) =~= t);
}

/// Neither a comma nor a line's end.
pub open spec fn in_field(t: Seq<char>) -> bool {
    forall|i: int| 0 <= i < t.len() ==> #[trigger] t[i] != ',' && t[i] != '\n'
}

/// The text of a number fits a field.
pub proof fn lemma_number_in_field(v: int, places: nat)
    requires
        places <= 18,
    ensures
        in_field(fixed_text(v, places)),
{
    let m = if v < 0 {
        (-v) as nat
    } else {
        v as nat
    };
    lemma_magnitude_in_field(m, places);
    reveal_strlit("-");
}

proof fn lemma_magnitude_in_field(v: nat, places: nat)
    requires
        places <= 18,
    ensures
        in_field(magnitude_text(v, places)),
{
    let n = law_text_is_near_the_number(v, places);
    law_counts_read_back(n / pow10(places));
    law_digits_read_back(n % pow10(places), places);
    reveal_strlit(".");
}

/// The text of a number that may be undefined fits a field.
pub proof fn lemma_optional_in_field(v: Option<u128>, places: nat)
    requires
        places <= 18,
    ensures
        in_field(optional_text(v, places)),
{
    reveal_strlit("NaN");
    if let Some(x) = v {
        lemma_number_in_field(x as int, places);
    }
}

/// The text of a measured speedup fits a field.
pub proof fn lemma_speedup_in_field(m: MeasuredSpeedup, places: nat)
    requires
        places <= 18,
    ensures
        in_field(speedup_text(m, places)),
{
    reveal_strlit("NaN");
    reveal_strlit("inf");
    reveal_strlit("-");
    if let MeasuredSpeedup::Finite { magnitude, .. } = m {
        lemma_magnitude_in_field(magnitude.value() as nat, places);
    }
}

proof fn lemma_coarse_is_a_power(v: nat, a: nat, i: nat) -> (j: nat)
    requires
        a == pow(2, i),
    ensures
        coarse(v, a) == pow(2, j),
    decreases v - a,
{
    if a == 0 || v < SIGNIFICANDS * ONE * a {
        i
    } else {
        assert(v >= 2 * a) by (nonlinear_arith)
            requires
                v >= SIGNIFICANDS * ONE * a,
                a >= 0,
        ;
        assert(pow(2, i + 1) == 2 * pow(2, i)) by {
            reveal(pow);
        }
        lemma_coarse_is_a_power(v, 2 * a, i + 1)
    }
}

proof fn lemma_fine_is_a_power(v: nat, b: nat, i: nat) -> (j: nat)
    requires
        b == pow(2, i),
    ensures
        fine(v, b) == pow(2, j),
    decreases SIGNIFICANDS * ONE - v * b,
{
    if v == 0 || b == 0 || 2 * (v * b) >= SIGNIFICANDS * ONE {
        i
    } else {
        assert(v * (2 * b) == 2 * (v * b)) by (nonlinear_arith);
        assert(v * b > 0) by (nonlinear_arith)
            requires
                v > 0,
                b > 0,
        ;
        assert(pow(2, i + 1) == 2 * pow(2, i)) by {
            reveal(pow);
        }
        lemma_fine_is_a_power(v, 2 * b, i + 1)
    }
}

/// The text of a number is that of the double nearest to it. The double is `m` times
/// `2^i / 2^j`, with a significand of 53 bits, and no double is nearer; the text is
/// the digits of the integer `n` nearest to `10^places` times the double. Of two that
/// are as near, the even one is taken both times.
pub proof fn law_text_is_that_of_the_nearest_double(v: nat, places: nat) -> (parts: (
    nat,
    nat,
    nat,
    nat,
))
    requires
        places <= 18,
        v > 0,
    ensures
        ({
            let (m, i, j, n) = parts;
            let (a, b) = (pow(2, i), pow(2, j));
            let e = 2 * (m * (ONE * a) - v * b);
            let f = 2 * (n * b - m * a * pow10(places));
            &&& SIGNIFICANDS * (ONE * a) <= 2 * (v * b)
            &&& v * b < SIGNIFICANDS * (ONE * a)
            &&& a == 1 || b == 1
            &&& m <= SIGNIFICANDS <= 2 * m
            &&& -(ONE * a) <= e <= ONE * a
            &&& e == ONE * a || e == -(ONE * a) ==> m % 2 == 0
            &&& -b <= f <= b
            &&& f == b || f == -b ==> n % 2 == 0
            &&& magnitude_text(v, places) == nat_text(n / pow10(places)) + "."@ + digits_text(
                n % pow10(places),
                places,
            )
        }),
{
    reveal(pow);
    assert(pow(2, 0) == 1);
    let i = lemma_coarse_is_a_power(v, 1, 0);
    let j = lemma_fine_is_a_power(v, 1, 0);
    let (a, b) = (coarse(v, 1), fine(v, 1));
    let m = significand(v);
    let n = rounded((m * a * pow10(places)) as nat, b);
    lemma_spacing(v);
    law_rounding_is_to_nearest((v * b) as nat, (ONE * a) as nat);
    law_rounding_is_to_nearest((m * a * pow10(places)) as nat, b);
    if v < SIGNIFICANDS * ONE {
        assert(a == 1);
    } else {
        assert(b == 1);
    }
    let unit = ONE * a;
    let x = v * b;
    assert(m <= SIGNIFICANDS && SIGNIFICANDS <= 2 * m) by (nonlinear_arith)
        requires
            -unit <= 2 * (m * unit - x) <= unit,
            SIGNIFICANDS * unit <= 2 * x,
            x < SIGNIFICANDS * unit,
            unit > 0,
    {
        assert(2 * (m * unit) <= unit + 2 * x);
        assert(2 * (m * unit) < unit + 2 * (SIGNIFICANDS * unit));
        assert(2 * (m * unit) >= 2 * x - unit);
        assert(2 * (m * unit) >= SIGNIFICANDS * unit - unit);
        assert((2 * m) * unit == 2 * (m * unit));
        assert((2 * SIGNIFICANDS + 1) * unit == unit + 2 * (SIGNIFICANDS * unit));
        assert((SIGNIFICANDS - 1) * unit == SIGNIFICANDS * unit - unit);
        assert(2 * m < 2 * SIGNIFICANDS + 1);
        assert(2 * m >= SIGNIFICANDS - 1);
    }
    (m, i, j, n)
}

} // verus!
