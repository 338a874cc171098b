//! Exact decimal fixed-point numbers.
//!
//! Every quantity the library works with — data values, axis bounds,
//! tick positions, histogram bin bounds — is an integer count of
//! `10^-15` units. Arithmetic on such numbers is exact, so tick values
//! never pick up representation artifacts and never need a correcting
//! rounding pass.

use vstd::prelude::*;
use vstd::arithmetic::div_mod::lemma_fundamental_div_mod;

verus! {

/// `10^e`.
pub open spec fn pow10(e: nat) -> int
    decreases e,
{
    if e == 0 {
        1
    } else {
        10 * pow10((e - 1) as nat)
    }
}

pub proof fn lemma_pow10_pos(e: nat)
    ensures
        pow10(e) >= 1,
    decreases e,
{
    if e > 0 {
        lemma_pow10_pos((e - 1) as nat);
    }
}

/// `10^a * 10^b == 10^(a+b)`.
pub proof fn lemma_pow10_adds(a: nat, b: nat)
    ensures
        pow10(a) * pow10(b) == pow10(a + b),
    decreases a,
{
    if a == 0 {
        assert(pow10(0) * pow10(b) == pow10(b));
    } else {
        lemma_pow10_adds((a - 1) as nat, b);
        assert(pow10(a) * pow10(b) == 10 * (pow10((a - 1) as nat) * pow10(b)))
            by (nonlinear_arith)
            requires
                pow10(a) == 10 * pow10((a - 1) as nat),
        ;
    }
}

pub proof fn lemma_pow10_increases(a: nat, b: nat)
    requires
        a <= b,
    ensures
        pow10(a) <= pow10(b),
{
    lemma_pow10_adds(a, (b - a) as nat);
    lemma_pow10_pos(a);
    lemma_pow10_pos((b - a) as nat);
    assert(pow10(a) * pow10((b - a) as nat) >= pow10(a) * 1) by (nonlinear_arith)
        requires
            pow10(a) >= 1,
            pow10((b - a) as nat) >= 1,
    ;
}

/// Number of fixed-point units in one whole data unit: `10^15`.
pub const UNIT: i128 = 1_000_000_000_000_000;

/// Largest magnitude, in units, that the library accepts: `10^33`.
/// The bound leaves room in `i128` for the products the renderers form
/// (a span times a cell count, a step times a tick budget).
pub const MAX_UNITS: i128 = 1_000_000_000_000_000_000_000_000_000_000_000;

/// A decimal fixed-point number: `units * 10^-15` in data space.
#[derive(Clone, Copy, Debug, PartialEq, Eq, Structural)]
pub struct Fixed {
    pub units: i128,
}

impl Fixed {
    /// The number is within the magnitude the library supports.
    pub open spec fn in_range(self) -> bool {
        -MAX_UNITS <= self.units <= MAX_UNITS
    }

    /// The number standing for zero.
    pub fn zero() -> (r: Fixed)
        ensures
            r.units == 0,
            r.in_range(),
    {
        Fixed { units: 0 }
    }

    /// Builds the number from a raw count of `10^-15` units, rejecting
    /// counts beyond the supported magnitude.
    pub fn from_units(units: i128) -> (r: Option<Fixed>)
        ensures
            r is Some <==> -MAX_UNITS <= units <= MAX_UNITS,
            r is Some ==> r->0.units == units && r->0.in_range(),
    {
        if -MAX_UNITS <= units && units <= MAX_UNITS {
            Some(Fixed { units })
        } else {
            None
        }
    }

    /// Builds the whole number `v`.
    pub fn from_int(v: i64) -> (r: Fixed)
        requires
            -1_000_000_000_000_000_000 <= v <= 1_000_000_000_000_000_000,
        ensures
            r.units == v * UNIT,
            r.in_range(),
    {
        Fixed { units: (v as i128) * UNIT }
    }

    /// Builds the number `v / 1000`: thousandths are enough to write
    /// most concrete values exactly.
    pub fn from_milli(v: i64) -> (r: Fixed)
        requires
            -1_000_000_000_000_000_000 <= v <= 1_000_000_000_000_000_000,
        ensures
            r.units == v * 1_000_000_000_000,
            r.in_range(),
    {
        Fixed { units: (v as i128) * 1_000_000_000_000 }
    }
}

/// `num / den` rounded to the nearest integer, halves away from zero.
pub open spec fn round_half_from_zero(num: int, den: int) -> int {
    if num >= 0 {
        (2 * num + den) / (2 * den)
    } else {
        -((2 * (-num) + den) / (2 * den))
    }
}

/// `num / den` rounded to the nearest integer, halves away from zero.
pub(crate) fn round_ratio(num: i128, den: i128) -> (r: i128)
    requires
        -40_000_000_000_000_000_000_000_000_000_000_000_000
            <= num <= 40_000_000_000_000_000_000_000_000_000_000_000_000,
        1 <= den <= 4 * MAX_UNITS,
    ensures
        r == round_half_from_zero(num as int, den as int),
{
    let mag: u128 = if num >= 0 {
        num as u128
    } else {
        (-num) as u128
    };
    let qmag: u128 = (2 * mag + den as u128) / (2 * (den as u128));
    proof {
        vstd::arithmetic::div_mod::lemma_div_nonincreasing(2 * mag + den as int, 2 * (den as int));
        vstd::arithmetic::div_mod::lemma_div_pos_is_pos(2 * mag + den as int, 2 * (den as int));
    }
    if num >= 0 {
        qmag as i128
    } else {
        -(qmag as i128)
    }
}

/// Rounding keeps the order of the numerators.
pub proof fn lemma_round_monotone(n1: int, n2: int, den: int)
    requires
        n1 <= n2,
        den >= 1,
    ensures
        round_half_from_zero(n1, den) <= round_half_from_zero(n2, den),
{
    if n1 >= 0 {
        vstd::arithmetic::div_mod::lemma_div_is_ordered(2 * n1 + den, 2 * n2 + den, 2 * den);
    } else if n2 >= 0 {
        vstd::arithmetic::div_mod::lemma_div_pos_is_pos(2 * (-n1) + den, 2 * den);
        vstd::arithmetic::div_mod::lemma_div_pos_is_pos(2 * n2 + den, 2 * den);
    } else {
        vstd::arithmetic::div_mod::lemma_div_is_ordered(2 * (-n2) + den, 2 * (-n1) + den, 2 * den);
    }
}

/// The quotient `(a * UNIT) / b`, clamped to the supported magnitude:
/// the fixed-point value of `a / b` when `a` and `b` are unit counts.
pub open spec fn spec_div_units(a: int, b: int) -> int {
    if (a * UNIT) / b > MAX_UNITS {
        MAX_UNITS as int
    } else {
        (a * UNIT) / b
    }
}

/// Long division of unit counts, one decimal digit at a time, so no
/// intermediate value outgrows the machine words.
pub(crate) fn div_units(a: i128, b: i128) -> (r: i128)
    requires
        0 <= a <= 2 * MAX_UNITS,
        1 <= b <= 2 * MAX_UNITS,
    ensures
        r == spec_div_units(a as int, b as int),
        0 <= r <= MAX_UNITS,
{
    proof {
        reveal_with_fuel(pow10, 16);
    }
    let mut q: i128 = ((a as u128) / (b as u128)) as i128;
    let mut rem: i128 = ((a as u128) % (b as u128)) as i128;
    let mut k: usize = 0;
    proof {
        vstd::arithmetic::div_mod::lemma_div_nonincreasing(a as int, b as int);
        vstd::arithmetic::div_mod::lemma_div_pos_is_pos(a as int, b as int);
        vstd::arithmetic::div_mod::lemma_fundamental_div_mod(a as int, b as int);
        assert(a * pow10(0) == a);
    }
    let mut saturated: bool = q > MAX_UNITS;
    while k < 15
        invariant
            k <= 15,
            0 <= a <= 2 * MAX_UNITS,
            1 <= b <= 2 * MAX_UNITS,
            0 <= rem < b,
            !saturated ==> q == (a * pow10(k as nat)) / (b as int) && 0 <= q <= MAX_UNITS
                && rem == (a * pow10(k as nat)) % (b as int),
            saturated ==> (a * pow10(k as nat)) / (b as int) > MAX_UNITS,
            pow10(15) == UNIT,
        decreases 15 - k,
    {
        if !saturated {
            let d: i128 = ((10 * rem as u128) / (b as u128)) as i128;
            let rem2: i128 = ((10 * rem as u128) % (b as u128)) as i128;
            proof {
                vstd::arithmetic::div_mod::lemma_fundamental_div_mod(10 * rem as int, b as int);
                vstd::arithmetic::div_mod::lemma_div_nonincreasing(10 * rem as int, b as int);
                vstd::arithmetic::div_mod::lemma_div_pos_is_pos(10 * rem as int, b as int);
                vstd::arithmetic::div_mod::lemma_fundamental_div_mod(
                    a * pow10(k as nat),
                    b as int,
                );
                assert(a * pow10((k + 1) as nat) == (a * pow10(k as nat)) * 10)
                    by (nonlinear_arith)
                    requires
                        pow10((k + 1) as nat) == pow10(k as nat) * 10,
                ;
                assert((10 * q + d) * b + rem2 == (a * pow10(k as nat)) * 10) by (nonlinear_arith)
                    requires
                        a * pow10(k as nat) == (b as int) * q + rem,
                        10 * rem == (b as int) * d + rem2,
                ;
                vstd::arithmetic::div_mod::lemma_fundamental_div_mod_converse(
                    a * pow10((k + 1) as nat),
                    b as int,
                    10 * q + d,
                    rem2 as int,
                );
            }
            let q2: i128 = 10 * q + d;
            if q2 > MAX_UNITS {
                saturated = true;
            } else {
                q = q2;
            }
            rem = rem2;
            proof {
                if saturated {
                    assert((a * pow10((k + 1) as nat)) / (b as int) > MAX_UNITS);
                }
            }
        } else {
            proof {
                assert(pow10((k + 1) as nat) == 10 * pow10(k as nat));
                lemma_pow10_increases(k as nat, (k + 1) as nat);
                assert(a * pow10((k + 1) as nat) >= a * pow10(k as nat)) by (nonlinear_arith)
                    requires
                        a >= 0,
                        pow10((k + 1) as nat) >= pow10(k as nat),
                ;
                vstd::arithmetic::div_mod::lemma_div_is_ordered(
                    a * pow10(k as nat),
                    a * pow10((k + 1) as nat),
                    b as int,
                );
            }
        }
        k = k + 1;
    }
    if saturated {
        MAX_UNITS
    } else {
        q
    }
}

/// The character for the decimal digit `d`.
pub open spec fn spec_digit_char(d: int) -> char {
    if d == 0 {
        '0'
    } else if d == 1 {
        '1'
    } else if d == 2 {
        '2'
    } else if d == 3 {
        '3'
    } else if d == 4 {
        '4'
    } else if d == 5 {
        '5'
    } else if d == 6 {
        '6'
    } else if d == 7 {
        '7'
    } else if d == 8 {
        '8'
    } else {
        '9'
    }
}

/// The decimal digits of `n`, most significant first, no leading zeros.
pub open spec fn spec_nat_chars(n: nat) -> Seq<char>
    decreases n,
{
    if n < 10 {
        seq![spec_digit_char(n as int)]
    } else {
        spec_nat_chars(n / 10).push(spec_digit_char((n % 10) as int))
    }
}

/// The low `w` decimal digits of `n`, zero-padded on the left.
pub open spec fn spec_padded_chars(n: nat, w: nat) -> Seq<char>
    decreases w,
{
    if w == 0 {
        Seq::empty()
    } else {
        spec_padded_chars(n / 10, (w - 1) as nat).push(spec_digit_char((n % 10) as int))
    }
}

/// `s` with its trailing `'0'` characters removed.
pub open spec fn strip_trailing_zeros(s: Seq<char>) -> Seq<char>
    decreases s.len(),
{
    if s.len() > 0 && s.last() == '0' {
        strip_trailing_zeros(s.drop_last())
    } else {
        s
    }
}

/// The decimal text of `units * 10^-15`: an optional minus sign, the
/// integer part, and — when nonzero — the fractional digits with their
/// trailing zeros removed.
pub open spec fn spec_fixed_chars(units: int) -> Seq<char> {
    let a = if units < 0 {
        -units
    } else {
        units
    };
    let sign: Seq<char> = if units < 0 {
        seq!['-']
    } else {
        Seq::empty()
    };
    let ip = (a / (UNIT as int)) as nat;
    let fp = (a % (UNIT as int)) as nat;
    if fp == 0 {
        sign + spec_nat_chars(ip)
    } else {
        sign + spec_nat_chars(ip) + seq!['.'] + strip_trailing_zeros(spec_padded_chars(fp, 15))
    }
}

/// Relies on std's `String::push`: appends one character.
#[verifier::external_body]
pub(crate) fn push_char(s: &mut String, c: char)
    ensures
        final(s)@ == old(s)@.push(c),
{
    s.push(c);
}

/// The character for an executable decimal digit.
fn digit_char(d: u8) -> (r: char)
    requires
        d < 10,
    ensures
        r == spec_digit_char(d as int),
{
    if d == 0 {
        '0'
    } else if d == 1 {
        '1'
    } else if d == 2 {
        '2'
    } else if d == 3 {
        '3'
    } else if d == 4 {
        '4'
    } else if d == 5 {
        '5'
    } else if d == 6 {
        '6'
    } else if d == 7 {
        '7'
    } else if d == 8 {
        '8'
    } else {
        '9'
    }
}

/// Appends the decimal digits of `n`.
fn push_digits(n: u128, out: &mut String)
    ensures
        final(out)@ == old(out)@ + spec_nat_chars(n as nat),
    decreases n,
{
    if n >= 10 {
        push_digits(n / 10, out);
    }
    let ghost before = out@;
    push_char(out, digit_char((n % 10) as u8));
    proof {
        if n < 10 {
            assert(out@ =~= old(out)@ + spec_nat_chars(n as nat));
        } else {
            assert(before == old(out)@ + spec_nat_chars(n as nat / 10));
            assert(out@ =~= old(out)@ + spec_nat_chars(n as nat));
        }
    }
}

/// Appends exactly `w` decimal digits of `n`, zero-padded on the left.
fn push_padded(n: u128, w: usize, out: &mut String)
    ensures
        final(out)@ == old(out)@ + spec_padded_chars(n as nat, w as nat),
    decreases w,
{
    if w > 0 {
        push_padded(n / 10, w - 1, out);
        push_char(out, digit_char((n % 10) as u8));
        proof {
            assert(out@ =~= old(out)@ + spec_padded_chars(n as nat, w as nat));
        }
    } else {
        proof {
            assert(out@ =~= old(out)@ + spec_padded_chars(n as nat, 0));
        }
    }
}

impl Fixed {
    /// The decimal text of the number, as its label reads on an axis.
    pub fn to_text(&self) -> (r: String)
        requires
            self.in_range(),
        ensures
            r@ == spec_fixed_chars(self.units as int),
    {
        let mut out = String::new();
        if self.units < 0 {
            push_char(&mut out, '-');
        }
        let a: u128 = if self.units < 0 {
            (-self.units) as u128
        } else {
            self.units as u128
        };
        let ip: u128 = a / (UNIT as u128);
        let fp: u128 = a % (UNIT as u128);
        push_digits(ip, &mut out);
        if fp > 0 {
            push_char(&mut out, '.');
            // drop the trailing zeros of the 15 fractional digits
            let mut f: u128 = fp;
            let mut w: usize = 15;
            proof {
                reveal_with_fuel(pow10, 16);
                assert(pow10(15) == UNIT as int);
                assert((15 - w) as nat == 0nat);
                assert(pow10(0) == 1);
                assert(f * pow10((15 - w) as nat) == fp) by (nonlinear_arith)
                    requires
                        f == fp,
                        pow10((15 - w) as nat) == 1,
                ;
            }
            while f % 10 == 0
                invariant
                    1 <= f,
                    1 <= w <= 15,
                    f * pow10((15 - w) as nat) == fp,
                    fp < UNIT as nat,
                    strip_trailing_zeros(spec_padded_chars(fp as nat, 15))
                        == strip_trailing_zeros(spec_padded_chars(f as nat, w as nat)),
                decreases w,
            {
                proof {
                    lemma_fundamental_div_mod(f as int, 10);
                    assert(f >= 10);
                    lemma_pow10_pos((15 - w) as nat);
                    assert(pow10((16 - w) as nat) == 10 * pow10((15 - w) as nat));
                    assert((f / 10) * pow10((16 - w) as nat) == fp) by (nonlinear_arith)
                        requires
                            f * pow10((15 - w) as nat) == fp,
                            f == 10 * (f / 10),
                            pow10((16 - w) as nat) == 10 * pow10((15 - w) as nat),
                    ;
                    if w == 1 {
                        reveal_with_fuel(pow10, 16);
                        assert(pow10(15) == UNIT as int);
                        assert(pow10((16 - w) as nat) == pow10(15));
                        assert(f / 10 >= 1);
                        assert((f / 10) * pow10(15) == fp);
                        assert(pow10(15) <= (f / 10) * pow10(15)) by (nonlinear_arith)
                            requires
                                f / 10 >= 1,
                                pow10(15) >= 1,
                        ;
                        assert(fp >= UNIT);
                        assert(false);
                    }
                    // one padded digit drops: it is a zero
                    let tail = spec_padded_chars(f as nat / 10, (w - 1) as nat);
                    assert(spec_padded_chars(f as nat, w as nat) == tail.push('0'));
                    assert(tail.push('0').last() == '0');
                    assert(tail.push('0').drop_last() =~= tail);
                    assert(strip_trailing_zeros(spec_padded_chars(f as nat, w as nat))
                        == strip_trailing_zeros(tail));
                }
                f = f / 10;
                w = w - 1;
            }
            proof {
                lemma_fundamental_div_mod(f as int, 10);
                let last_digit = spec_digit_char((f as nat % 10) as int);
                assert(spec_padded_chars(f as nat, w as nat).last() == last_digit);
                assert(last_digit != '0');
                assert(strip_trailing_zeros(spec_padded_chars(f as nat, w as nat))
                    == spec_padded_chars(f as nat, w as nat));
            }
            push_padded(f, w, &mut out);
            proof {
                assert(out@ =~= spec_fixed_chars(self.units as int));
            }
        } else {
            proof {
                assert(out@ =~= spec_fixed_chars(self.units as int));
            }
        }
        out
    }
}


/// Digit characters are never separators or spaces.
proof fn lemma_digit_char_plain(d: int)
    ensures
        spec_digit_char(d) != '\n',
{
}

/// A number below `10^d` needs at most `d` digits.
pub proof fn lemma_nat_chars_len(n: nat, d: nat)
    requires
        d >= 1,
        n < pow10(d),
    ensures
        1 <= spec_nat_chars(n).len() <= d,
    decreases d,
{
    if n >= 10 {
        lemma_pow10_pos((d - 1) as nat);
        if d == 1 {
            assert(false);
        }
        assert(pow10(d) == 10 * pow10((d - 1) as nat));
        vstd::arithmetic::div_mod::lemma_fundamental_div_mod_converse(
            10 * pow10((d - 1) as nat) - 1,
            10,
            pow10((d - 1) as nat) - 1,
            9,
        );
        vstd::arithmetic::div_mod::lemma_div_is_ordered(n as int, pow10(d) - 1, 10);
        lemma_nat_chars_len(n / 10, (d - 1) as nat);
    }
}

/// No decimal text of a number contains a line separator.
pub proof fn lemma_nat_chars_no_newline(n: nat)
    ensures
        forall|i: int|
            0 <= i < spec_nat_chars(n).len() ==> #[trigger] spec_nat_chars(n)[i] != '\n',
    decreases n,
{
    if n >= 10 {
        lemma_nat_chars_no_newline(n / 10);
    }
    assert forall|i: int|
        0 <= i < spec_nat_chars(n).len() implies #[trigger] spec_nat_chars(n)[i] != '\n' by {
        if n < 10 {
            assert(spec_nat_chars(n)[i] == spec_digit_char(n as int));
        } else if i < spec_nat_chars(n / 10).len() {
            assert(spec_nat_chars(n)[i] == spec_nat_chars(n / 10)[i]);
        } else {
            assert(spec_nat_chars(n)[i] == spec_digit_char((n % 10) as int));
        }
    }
}

proof fn lemma_padded_chars_props(n: nat, w: nat)
    ensures
        spec_padded_chars(n, w).len() == w,
        forall|i: int|
            0 <= i < w ==> #[trigger] spec_padded_chars(n, w)[i] != '\n',
    decreases w,
{
    if w > 0 {
        lemma_padded_chars_props(n / 10, (w - 1) as nat);
        assert forall|i: int|
            0 <= i < w implies #[trigger] spec_padded_chars(n, w)[i] != '\n' by {
            if i < w - 1 {
                assert(spec_padded_chars(n, w)[i] == spec_padded_chars(n / 10, (w - 1) as nat)[i]);
            } else {
                assert(spec_padded_chars(n, w)[i] == spec_digit_char((n % 10) as int));
            }
        }
    }
}

/// Stripping trailing zeros leaves a prefix of the digits.
proof fn lemma_strip_prefix(s: Seq<char>)
    ensures
        strip_trailing_zeros(s).len() <= s.len(),
        forall|i: int|
            0 <= i < strip_trailing_zeros(s).len() ==> #[trigger] strip_trailing_zeros(s)[i]
                == s[i],
    decreases s.len(),
{
    if s.len() > 0 && s.last() == '0' {
        lemma_strip_prefix(s.drop_last());
    }
}

/// The decimal text of a supported number: short, never empty, and
/// free of line separators.
pub proof fn lemma_fixed_chars_props(units: int)
    requires
        -MAX_UNITS <= units <= MAX_UNITS,
    ensures
        1 <= spec_fixed_chars(units).len() <= 40,
        forall|i: int|
            0 <= i < spec_fixed_chars(units).len() ==> #[trigger] spec_fixed_chars(units)[i]
                != '\n',
{
    reveal_with_fuel(pow10, 35);
    let a = if units < 0 {
        -units
    } else {
        units
    };
    let ip = (a / (UNIT as int)) as nat;
    let fp = (a % (UNIT as int)) as nat;
    assert(pow10(34) == 10 * MAX_UNITS);
    assert(pow10(15) == UNIT);
    vstd::arithmetic::div_mod::lemma_multiply_divide_lt(a, UNIT as int, pow10(19));
    lemma_pow10_adds(15, 19);
    assert(pow10(15) * pow10(19) == pow10(34));
    lemma_nat_chars_len(ip, 19);
    lemma_nat_chars_no_newline(ip);
    vstd::arithmetic::div_mod::lemma_mod_division_less_than_divisor(a, UNIT as int);
    lemma_padded_chars_props(fp, 15);
    lemma_strip_prefix(spec_padded_chars(fp, 15));
}

} // verus!
