//! Decimal time values.
//!
//! The text format writes every time as a plain decimal numeral, so the
//! library models a time exactly as such a numeral: an optional sign, an
//! integer magnitude `units` and a power-of-ten `scale`, denoting the value
//! `units / 10^scale` (negated when `neg` is set).  The canonical form keeps
//! the fraction free of trailing zeros, so each value has exactly one
//! representation and renders back to the same text it was read from.

use vstd::prelude::*;

verus! {

/// Largest fraction length a value may carry; keeps magnitude comparisons
/// within `u128` range.
pub const MAX_SCALE: u32 = 18;

/// `10^e`.
pub open spec fn pow10(e: nat) -> nat
    decreases e,
{
    if e == 0 {
        1
    } else {
        10 * pow10((e - 1) as nat)
    }
}

/// A signed decimal number `units / 10^scale`, negated when `neg` is set.
#[derive(Clone, Copy, PartialEq, Eq, Structural, Debug)]
pub struct Decimal {
    pub neg: bool,
    pub units: u64,
    pub scale: u32,
}

impl Decimal {
    /// The numerator of the value over the denominator `10^scale`.
    pub open spec fn signed_units(self) -> int {
        if self.neg {
            -(self.units as int)
        } else {
            self.units as int
        }
    }

    /// Canonical form: bounded fraction length, no trailing fraction zeros,
    /// and no negative zero.
    pub open spec fn wf(self) -> bool {
        &&& self.scale <= MAX_SCALE
        &&& self.scale > 0 ==> self.units % 10 != 0
        &&& self.neg ==> self.units > 0
    }

    /// Value order: `a <= b` as rationals, by cross multiplication.
    pub open spec fn spec_le(self, other: Decimal) -> bool {
        self.signed_units() * pow10(other.scale as nat) <= other.signed_units() * pow10(
            self.scale as nat,
        )
    }

    /// Strict value order.
    pub open spec fn spec_lt(self, other: Decimal) -> bool {
        !other.spec_le(self)
    }

    /// Value equality (equal as rationals).
    pub open spec fn same_value(self, other: Decimal) -> bool {
        self.spec_le(other) && other.spec_le(self)
    }
}

pub proof fn lemma_pow10_positive(e: nat)
    ensures
        pow10(e) >= 1,
    decreases e,
{
    if e > 0 {
        lemma_pow10_positive((e - 1) as nat);
    }
}

pub proof fn lemma_pow10_monotonic(a: nat, b: nat)
    requires
        a <= b,
    ensures
        pow10(a) <= pow10(b),
    decreases b,
{
    if a < b {
        lemma_pow10_monotonic(a, (b - 1) as nat);
        lemma_pow10_positive((b - 1) as nat);
    }
}

pub proof fn lemma_pow10_adds(a: nat, b: nat)
    ensures
        pow10(a + b) == pow10(a) * pow10(b),
    decreases a,
{
    if a == 0 {
        assert(pow10(a + b) == pow10(a) * pow10(b)) by (nonlinear_arith)
            requires
                pow10(a) == 1,
                a + b == b,
        ;
    } else {
        lemma_pow10_adds((a - 1) as nat, b);
        assert((a - 1) as nat + b == (a + b - 1) as nat);
        assert(pow10(a + b) == 10 * pow10((a + b - 1) as nat));
        assert(pow10(a) == 10 * pow10((a - 1) as nat));
        assert(pow10(a + b) == pow10(a) * pow10(b)) by (nonlinear_arith)
            requires
                pow10((a - 1) as nat + b) == pow10((a - 1) as nat) * pow10(b),
                (a - 1) as nat + b == (a + b - 1) as nat,
                pow10(a + b) == 10 * pow10((a + b - 1) as nat),
                pow10(a) == 10 * pow10((a - 1) as nat),
        ;
    }
}

proof fn lemma_pow10_20_value()
    ensures
        pow10(18) == 1_000_000_000_000_000_000,
        pow10(19) == 10_000_000_000_000_000_000,
        pow10(20) == 100_000_000_000_000_000_000,
{
    reveal_with_fuel(pow10, 21);
}

/// `10^e` as a machine integer.
fn pow10_u128(e: u32) -> (r: u128)
    requires
        e <= 19,
    ensures
        r == pow10(e as nat),
        r >= 1,
{
    proof {
        lemma_pow10_20_value();
    }
    let mut r: u128 = 1;
    let mut i: u32 = 0;
    while i < e
        invariant
            i <= e <= 19,
            r == pow10(i as nat),
        decreases e - i,
    {
        proof {
            lemma_pow10_monotonic((i + 1) as nat, 19);
            lemma_pow10_20_value();
        }
        r = r * 10;
        i = i + 1;
    }
    proof {
        lemma_pow10_positive(e as nat);
    }
    r
}

/// Magnitude comparison `u1 / 10^s1 <= u2 / 10^s2`, by cross
/// multiplication after removing the common power of ten.
fn mag_le(u1: u64, s1: u32, u2: u64, s2: u32) -> (r: bool)
    ensures
        r == ((u1 as nat) * pow10(s2 as nat) <= (u2 as nat) * pow10(s1 as nat)),
{
    let m = if s1 <= s2 {
        s1
    } else {
        s2
    };
    let e1 = s2 - m;
    let e2 = s1 - m;
    let ghost pm = pow10(m as nat);
    let ghost a = (u1 as nat) * pow10(e1 as nat);
    let ghost b = (u2 as nat) * pow10(e2 as nat);
    proof {
        lemma_pow10_positive(m as nat);
        lemma_pow10_positive(e1 as nat);
        lemma_pow10_positive(e2 as nat);
        lemma_pow10_adds(e1 as nat, m as nat);
        lemma_pow10_adds(e2 as nat, m as nat);
        assert((u1 as nat) * pow10(s2 as nat) == a * pm && (u2 as nat) * pow10(s1 as nat) == b * pm)
            by (nonlinear_arith)
            requires
                pow10(s2 as nat) == pow10(e1 as nat) * pow10(m as nat),
                pow10(s1 as nat) == pow10(e2 as nat) * pow10(m as nat),
                a == (u1 as nat) * pow10(e1 as nat),
                b == (u2 as nat) * pow10(e2 as nat),
                pm == pow10(m as nat),
        ;
        assert((a * pm <= b * pm) == (a <= b)) by (nonlinear_arith)
            requires
                pm >= 1,
        ;
        assert(e1 == 0 ==> a == u1) by (nonlinear_arith)
            requires
                a == (u1 as nat) * pow10(e1 as nat),
                e1 == 0 ==> pow10(e1 as nat) == 1,
        ;
        assert(e2 == 0 ==> b == u2) by (nonlinear_arith)
            requires
                b == (u2 as nat) * pow10(e2 as nat),
                e2 == 0 ==> pow10(e2 as nat) == 1,
        ;
        assert(u1 == 0 ==> a == 0) by (nonlinear_arith)
            requires
                a == (u1 as nat) * pow10(e1 as nat),
        ;
        assert(u2 == 0 ==> b == 0) by (nonlinear_arith)
            requires
                b == (u2 as nat) * pow10(e2 as nat),
        ;
    }
    if e1 == 0 && e2 == 0 {
        u1 <= u2
    } else if e2 == 0 {
        // compare u1 * 10^e1 against u2
        if e1 <= 19 {
            let p = pow10_u128(e1);
            proof {
                lemma_pow10_monotonic(e1 as nat, 19);
                lemma_pow10_20_value();
                assert((u1 as nat) * pow10(e1 as nat) <= (u64::MAX as nat) * pow10(19)) by (
                nonlinear_arith)
                    requires
                        u1 <= u64::MAX && pow10(e1 as nat) <= pow10(19),
                ;
            }
            (u1 as u128) * p <= u2 as u128
        } else {
            proof {
                if u1 > 0 {
                    lemma_pow10_monotonic(20, e1 as nat);
                    lemma_pow10_20_value();
                    assert((u1 as nat) * pow10(e1 as nat) >= pow10(e1 as nat)) by (nonlinear_arith)
                        requires
                            u1 >= 1,
                    ;
                }
            }
            u1 == 0
        }
    } else {
        // compare u1 against u2 * 10^e2
        if e2 <= 19 {
            let p = pow10_u128(e2);
            proof {
                lemma_pow10_monotonic(e2 as nat, 19);
                lemma_pow10_20_value();
                assert((u2 as nat) * pow10(e2 as nat) <= (u64::MAX as nat) * pow10(19)) by (
                nonlinear_arith)
                    requires
                        u2 <= u64::MAX && pow10(e2 as nat) <= pow10(19),
                ;
            }
            u1 as u128 <= (u2 as u128) * p
        } else {
            proof {
                if u2 > 0 {
                    lemma_pow10_monotonic(20, e2 as nat);
                    lemma_pow10_20_value();
                    assert((u2 as nat) * pow10(e2 as nat) >= pow10(e2 as nat)) by (nonlinear_arith)
                        requires
                            u2 >= 1,
                    ;
                }
            }
            !(u2 == 0 && u1 > 0)
        }
    }
}

impl Decimal {
    /// Value comparison `self <= other`.
    pub fn le(&self, other: &Decimal) -> (r: bool)
        ensures
            r == self.spec_le(*other),
    {
        let ghost p1 = pow10(self.scale as nat);
        let ghost p2 = pow10(other.scale as nat);
        let ghost a = (self.units as nat) * p2;
        let ghost b = (other.units as nat) * p1;
        proof {
            lemma_pow10_positive(self.scale as nat);
            lemma_pow10_positive(other.scale as nat);
            assert((self.units == 0 ==> a == 0) && (self.units > 0 ==> a >= 1) && (other.units == 0
                ==> b == 0) && (other.units > 0 ==> b >= 1) && (-(self.units as int)) * p2 == -a && (
            -(other.units as int)) * p1 == -b) by (nonlinear_arith)
                requires
                    a == (self.units as nat) * p2,
                    b == (other.units as nat) * p1,
                    p2 >= 1,
                    p1 >= 1,
            ;
        }
        match (self.neg, other.neg) {
            (false, false) => mag_le(self.units, self.scale, other.units, other.scale),
            (true, true) => mag_le(other.units, other.scale, self.units, self.scale),
            (true, false) => true,
            (false, true) => self.units == 0 && other.units == 0,
        }
    }

    /// Strict value comparison `self < other`.
    pub fn lt(&self, other: &Decimal) -> (r: bool)
        ensures
            r == self.spec_lt(*other),
    {
        !other.le(self)
    }

    /// Value equality test.
    pub fn eq_value(&self, other: &Decimal) -> (r: bool)
        ensures
            r == self.same_value(*other),
    {
        self.le(other) && other.le(self)
    }
}

/// The value order is reflexive.
pub proof fn lemma_le_refl(a: Decimal)
    ensures
        a.spec_le(a),
{
}

/// The value order is total.
pub proof fn lemma_le_total(a: Decimal, b: Decimal)
    ensures
        a.spec_le(b) || b.spec_le(a),
{
}

/// The value order is transitive.
pub proof fn lemma_le_trans(a: Decimal, b: Decimal, c: Decimal)
    requires
        a.spec_le(b),
        b.spec_le(c),
    ensures
        a.spec_le(c),
{
    let pa = pow10(a.scale as nat) as int;
    let pb = pow10(b.scale as nat) as int;
    let pc = pow10(c.scale as nat) as int;
    lemma_pow10_positive(a.scale as nat);
    lemma_pow10_positive(b.scale as nat);
    lemma_pow10_positive(c.scale as nat);
    assert(a.signed_units() * pc <= c.signed_units() * pa) by (nonlinear_arith)
        requires
            a.signed_units() * pb <= b.signed_units() * pa,
            b.signed_units() * pc <= c.signed_units() * pb,
            pa >= 1,
            pb >= 1,
            pc >= 1,
    ;
}

/// True of the ten numeral characters.
pub open spec fn is_digit_char(c: char) -> bool {
    48 <= c as u32 <= 57
}

/// The numeral character for one digit.
pub open spec fn digit_char(d: nat) -> char {
    ((48 + d) as u32) as char
}

/// The digit a numeral character stands for.
pub open spec fn char_digit(c: char) -> nat {
    (c as u32 - 48) as nat
}

/// Horner evaluation of a digit string from position `i` onward, starting
/// from the already accumulated value `acc`.
pub open spec fn digits_val_from(s: Seq<char>, i: nat, acc: nat) -> nat
    decreases s.len() - i,
{
    if i >= s.len() {
        acc
    } else {
        digits_val_from(s, i + 1, acc * 10 + char_digit(s[i as int]))
    }
}

/// The number a digit string denotes.
pub open spec fn digits_val(s: Seq<char>) -> nat {
    digits_val_from(s, 0, 0)
}

/// The decimal digit string of `n`, most significant digit first.
pub open spec fn spec_digits(n: nat) -> Seq<char>
    decreases n,
{
    if n < 10 {
        seq![digit_char(n)]
    } else {
        spec_digits(n / 10).push(digit_char(n % 10))
    }
}

/// A run of `n` zero characters.
pub open spec fn zero_chars(n: nat) -> Seq<char>
    decreases n,
{
    if n == 0 {
        Seq::empty()
    } else {
        zero_chars((n - 1) as nat).push('0')
    }
}

pub proof fn lemma_spec_digits_len(n: nat)
    ensures
        spec_digits(n).len() >= 1,
        forall|i: int| 0 <= i < spec_digits(n).len() ==> is_digit_char(#[trigger] spec_digits(n)[i]),
    decreases n,
{
    if n >= 10 {
        lemma_spec_digits_len(n / 10);
    }
}

proof fn lemma_digits_val_from_push(s: Seq<char>, c: char, i: nat, acc: nat)
    requires
        i <= s.len(),
    ensures
        digits_val_from(s.push(c), i, acc) == digits_val_from(s, i, acc) * 10 + char_digit(c),
    decreases s.len() - i,
{
    if i >= s.len() {
        assert(s.push(c)[i as int] == c);
        assert(digits_val_from(s.push(c), i, acc) == digits_val_from(
            s.push(c),
            i + 1,
            acc * 10 + char_digit(c),
        ));
    } else {
        assert(s.push(c)[i as int] == s[i as int]);
        lemma_digits_val_from_push(s, c, i + 1, acc * 10 + char_digit(s[i as int]));
    }
}

/// Rendering a number to digits and evaluating the digits is the identity.
pub proof fn lemma_digits_val_of_spec_digits(n: nat)
    ensures
        digits_val(spec_digits(n)) == n,
    decreases n,
{
    if n < 10 {
        assert(digit_char(n) as u32 == 48 + n);
        assert(digits_val_from(seq![digit_char(n)], 0, 0) == digits_val_from(
            seq![digit_char(n)],
            1,
            char_digit(digit_char(n)),
        ));
    } else {
        lemma_digits_val_of_spec_digits(n / 10);
        lemma_digits_val_from_push(spec_digits(n / 10), digit_char(n % 10), 0, 0);
        assert(digit_char(n % 10) as u32 == 48 + n % 10);
    }
}

/// The Horner value never falls under its accumulator.
pub proof fn lemma_digits_val_from_lower(s: Seq<char>, i: nat, acc: nat)
    ensures
        digits_val_from(s, i, acc) >= acc,
    decreases s.len() - i,
{
    if i < s.len() {
        let acc2 = acc * 10 + char_digit(s[i as int]);
        assert(acc2 >= acc) by (nonlinear_arith)
            requires
                acc2 == acc * 10 + char_digit(s[i as int]),
        ;
        lemma_digits_val_from_lower(s, i + 1, acc2);
    }
}

/// Fraction-zero stripping: the canonical pair denoting `units / 10^scale`.
pub open spec fn norm(units: nat, scale: nat) -> (nat, nat)
    decreases scale,
{
    if scale > 0 && units % 10 == 0 {
        norm(units / 10, (scale - 1) as nat)
    } else {
        (units, scale)
    }
}

/// The canonical non-negative decimal with the value `units / 10^scale`.
pub open spec fn canon_pos(units: nat, scale: nat) -> Decimal {
    Decimal { neg: false, units: norm(units, scale).0 as u64, scale: norm(units, scale).1 as u32 }
}

pub proof fn lemma_norm_bounds(units: nat, scale: nat)
    ensures
        norm(units, scale).0 <= units,
        norm(units, scale).1 <= scale,
        norm(units, scale).1 > 0 ==> norm(units, scale).0 % 10 != 0,
        units > 0 ==> norm(units, scale).0 > 0,
    decreases scale,
{
    if scale > 0 && units % 10 == 0 {
        lemma_norm_bounds(units / 10, (scale - 1) as nat);
    }
}

/// Normalization preserves the denoted value.
pub proof fn lemma_norm_value(units: nat, scale: nat)
    ensures
        norm(units, scale).0 * pow10(scale) == units * pow10(norm(units, scale).1),
    decreases scale,
{
    if scale > 0 && units % 10 == 0 {
        lemma_norm_value(units / 10, (scale - 1) as nat);
        let (u2, s2) = norm(units / 10, (scale - 1) as nat);
        assert(pow10(scale) == 10 * pow10((scale - 1) as nat));
        assert(units == (units / 10) * 10);
        assert(u2 * pow10(scale) == units * pow10(s2)) by (nonlinear_arith)
            requires
                u2 * pow10((scale - 1) as nat) == (units / 10) * pow10(s2),
                pow10(scale) == 10 * pow10((scale - 1) as nat),
                units == (units / 10) * 10,
        ;
    }
}

/// Evaluator for the numeral grammar `digits ['.' digits]` (either digit run
/// possibly empty, at least one digit overall): walks the text from position
/// `i` with the digits seen so far accumulated in `units`, the count of
/// digits after the dot in `scale`.  `None` on any other character, on a
/// second dot, or (at the end) when no digit was seen.
pub open spec fn scan_numeral(
    s: Seq<char>,
    i: nat,
    units: nat,
    scale: nat,
    seen_dot: bool,
    seen_digit: bool,
) -> Option<(nat, nat)>
    decreases s.len() - i,
{
    if i >= s.len() {
        if seen_digit {
            Some((units, scale))
        } else {
            None
        }
    } else if is_digit_char(s[i as int]) {
        scan_numeral(
            s,
            i + 1,
            units * 10 + char_digit(s[i as int]),
            if seen_dot {
                scale + 1
            } else {
                scale
            },
            seen_dot,
            true,
        )
    } else if s[i as int] == '.' && !seen_dot {
        scan_numeral(s, i + 1, units, scale, true, seen_digit)
    } else {
        None
    }
}

/// What a token denotes as a number, when it is a numeral whose value the
/// library can hold: at most one dot, at least one digit, nothing else,
/// magnitude within `u64` and at most `MAX_SCALE` fraction digits.
pub open spec fn spec_from_text(t: Seq<char>) -> Option<Decimal> {
    match scan_numeral(t, 0, 0, 0, false, false) {
        Some((units, scale)) => {
            if units <= u64::MAX && scale <= MAX_SCALE {
                Some(canon_pos(units, scale))
            } else {
                None
            }
        },
        None => None,
    }
}

/// Accumulated units and fraction length never shrink as the scan proceeds.
proof fn lemma_scan_monotonic(
    s: Seq<char>,
    i: nat,
    units: nat,
    scale: nat,
    seen_dot: bool,
    seen_digit: bool,
)
    ensures
        scan_numeral(s, i, units, scale, seen_dot, seen_digit) matches Some(r) ==> r.0 >= units
            && r.1 >= scale,
    decreases s.len() - i,
{
    if i < s.len() {
        if is_digit_char(s[i as int]) {
            lemma_scan_monotonic(
                s,
                i + 1,
                units * 10 + char_digit(s[i as int]),
                if seen_dot {
                    scale + 1
                } else {
                    scale
                },
                seen_dot,
                true,
            );
        } else if s[i as int] == '.' && !seen_dot {
            lemma_scan_monotonic(s, i + 1, units, scale, true, seen_digit);
        }
    }
}

/// Whether the library can represent a decimal exactly; an executable digit
/// test.
fn is_digit(c: char) -> (r: bool)
    ensures
        r == is_digit_char(c),
{
    let u = c as u32;
    48 <= u && u <= 57
}

impl Decimal {
    /// The canonical decimal with the value `units / 10^scale`.
    pub fn from_parts_pos(units: u64, scale: u32) -> (r: Decimal)
        requires
            scale <= MAX_SCALE,
        ensures
            r == canon_pos(units as nat, scale as nat),
            r.wf(),
            !r.neg,
    {
        let mut u: u64 = units;
        let mut sc: u32 = scale;
        while sc > 0 && u % 10 == 0
            invariant
                sc <= MAX_SCALE,

                norm(units as nat, scale as nat) == norm(u as nat, sc as nat),
            decreases sc,
        {
            u = u / 10;
            sc = sc - 1;
        }
        proof {
            lemma_norm_bounds(units as nat, scale as nat);
        }
        Decimal { neg: false, units: u, scale: sc }
    }

    /// The canonical decimal with the value `units / 10^scale`, negated when
    /// `neg` is set (a zero magnitude never carries a sign).
    pub fn from_parts(neg: bool, units: u64, scale: u32) -> (r: Decimal)
        requires
            scale <= MAX_SCALE,
        ensures
            r.units == canon_pos(units as nat, scale as nat).units,
            r.scale == canon_pos(units as nat, scale as nat).scale,
            r.neg == (neg && units > 0),
            r.wf(),
    {
        let p = Self::from_parts_pos(units, scale);
        proof {
            lemma_norm_bounds(units as nat, scale as nat);
        }
        if neg && units > 0 {
            Decimal { neg: true, units: p.units, scale: p.scale }
        } else {
            p
        }
    }

    /// Reads a token as a non-negative decimal numeral.  Returns the canonical
    /// value exactly when the token matches the numeral grammar and its value
    /// fits the representation; `None` otherwise.
    pub fn from_text(s: &str) -> (r: Option<Decimal>)
    ensures
        r == spec_from_text(s@),
        r matches Some(d) ==> d.wf() && !d.neg,
{
    let len = s.unicode_len();
    let mut i: usize = 0;
    let mut units: u64 = 0;
    let mut scale: u32 = 0;
    let mut seen_dot: bool = false;
    let mut seen_digit: bool = false;
    while i < len
        invariant
            len == s@.len(),
            i <= len,
            scale <= MAX_SCALE,
            scan_numeral(s@, 0, 0, 0, false, false) == scan_numeral(
                s@,
                i as nat,
                units as nat,
                scale as nat,
                seen_dot,
                seen_digit,
            ),
        decreases len - i,
    {
        let c = s.get_char(i);
        if is_digit(c) {
            let d = (c as u32 - 48) as u64;
            if units > (u64::MAX - d) / 10 {
                proof {
                    lemma_scan_monotonic(
                        s@,
                        i as nat,
                        units as nat,
                        scale as nat,
                        seen_dot,
                        seen_digit,
                    );
                    assert((units as nat) * 10 + char_digit(s@[i as int]) > u64::MAX);
                    assert(scan_numeral(s@, i as nat, units as nat, scale as nat, seen_dot,
                        seen_digit) == scan_numeral(
                        s@,
                        i as nat + 1,
                        (units as nat) * 10 + char_digit(s@[i as int]),
                        if seen_dot {
                            (scale + 1) as nat
                        } else {
                            scale as nat
                        },
                        seen_dot,
                        true,
                    ));
                    lemma_scan_monotonic(
                        s@,
                        i as nat + 1,
                        (units as nat) * 10 + char_digit(s@[i as int]),
                        if seen_dot {
                            (scale + 1) as nat
                        } else {
                            scale as nat
                        },
                        seen_dot,
                        true,
                    );
                }
                return None;
            }
            units = units * 10 + d;
            if seen_dot {
                if scale >= MAX_SCALE {
                    proof {
                        lemma_scan_monotonic(
                            s@,
                            i as nat + 1,
                            units as nat,
                            (scale + 1) as nat,
                            seen_dot,
                            true,
                        );
                    }
                    return None;
                }
                scale = scale + 1;
            }
            seen_digit = true;
        } else if c == '.' && !seen_dot {
            seen_dot = true;
        } else {
            return None;
        }
        i = i + 1;
    }
    if !seen_digit {
        return None;
    }
        let r = Self::from_parts_pos(units, scale);
        proof {
            lemma_norm_bounds(units as nat, scale as nat);
        }
        Some(r)
    }
}

/// `r` denotes exactly the difference `b - a`, as rationals: cross
/// multiplied over the three denominators.
pub open spec fn denotes_difference(r: Decimal, a: Decimal, b: Decimal) -> bool {
    r.signed_units() * (pow10(a.scale as nat) * pow10(b.scale as nat)) == (b.signed_units()
        * pow10(a.scale as nat) - a.signed_units() * pow10(b.scale as nat)) * pow10(r.scale as nat)
}

/// `r` denotes exactly the midpoint `(a + b) / 2`, as rationals.
pub open spec fn denotes_midpoint(r: Decimal, a: Decimal, b: Decimal) -> bool {
    r.signed_units() * (pow10(a.scale as nat) * pow10(b.scale as nat)) * 2 == (b.signed_units()
        * pow10(a.scale as nat) + a.signed_units() * pow10(b.scale as nat)) * pow10(r.scale as nat)
}

/// The signed cross-scaled numerators of two decimals at their common
/// scale, and that scale.
fn common_scale_units(a: &Decimal, b: &Decimal) -> (r: (bool, u128, bool, u128, u32))
    requires
        a.scale <= MAX_SCALE,
        b.scale <= MAX_SCALE,
    ensures
        r.4 == if a.scale <= b.scale {
            b.scale
        } else {
            a.scale
        },
        r.0 == a.neg && r.2 == b.neg,
        r.1 == (a.units as nat) * pow10((r.4 - a.scale) as nat),
        r.3 == (b.units as nat) * pow10((r.4 - b.scale) as nat),
{
    let m = if a.scale <= b.scale {
        b.scale
    } else {
        a.scale
    };
    let pa = pow10_u128(m - a.scale);
    let pb = pow10_u128(m - b.scale);
    proof {
        lemma_pow10_monotonic((m - a.scale) as nat, 19);
        lemma_pow10_monotonic((m - b.scale) as nat, 19);
        lemma_pow10_20_value();
        assert((a.units as nat) * pow10((m - a.scale) as nat) <= (u64::MAX as nat) * pow10(19)) by (
        nonlinear_arith)
            requires
                a.units <= u64::MAX && pow10((m - a.scale) as nat) <= pow10(19),
        ;
        assert((b.units as nat) * pow10((m - b.scale) as nat) <= (u64::MAX as nat) * pow10(19)) by (
        nonlinear_arith)
            requires
                b.units <= u64::MAX && pow10((m - b.scale) as nat) <= pow10(19),
        ;
    }
    (a.neg, (a.units as u128) * pa, b.neg, (b.units as u128) * pb, m)
}

/// The signed difference `vb - va` of two signed magnitudes, as a sign and
/// a magnitude.
fn signed_sub(na: bool, va: u128, nb: bool, vb: u128) -> (r: (bool, u128))
    requires
        va < 0x8000_0000_0000_0000_0000_0000_0000_0000u128,
        vb < 0x8000_0000_0000_0000_0000_0000_0000_0000u128,
    ensures
        (if r.0 {
            -(r.1 as int)
        } else {
            r.1 as int
        }) == (if nb {
            -(vb as int)
        } else {
            vb as int
        }) - (if na {
            -(va as int)
        } else {
            va as int
        }),
{
    let sa: bool = na;
    let sb: bool = nb;
    if sa == sb {
        if vb >= va {
            (sb, vb - va)
        } else {
            (!sa, va - vb)
        }
    } else {
        // opposite signs: the magnitudes add, the sign follows `vb`
        (sb, va + vb)
    }
}

/// The signed sum `va + vb` of two signed magnitudes, as a sign and a
/// magnitude.
fn signed_add(na: bool, va: u128, nb: bool, vb: u128) -> (r: (bool, u128))
    requires
        va < 0x8000_0000_0000_0000_0000_0000_0000_0000u128,
        vb < 0x8000_0000_0000_0000_0000_0000_0000_0000u128,
    ensures
        (if r.0 {
            -(r.1 as int)
        } else {
            r.1 as int
        }) == (if na {
            -(va as int)
        } else {
            va as int
        }) + (if nb {
            -(vb as int)
        } else {
            vb as int
        }),
{
    if na == nb {
        (na, va + vb)
    } else {
        if va >= vb {
            (na, va - vb)
        } else {
            (nb, vb - va)
        }
    }
}

/// The value identity behind a raw result at the common scale: scaling
/// both operands to the common denominator keeps the cross-multiplied
/// difference or sum.
proof fn lemma_common_scale_identity(a: Decimal, b: Decimal, m: nat)
    requires
        a.scale <= m,
        b.scale <= m,
    ensures
        (b.signed_units() * pow10((m - b.scale) as nat)) * (pow10(a.scale as nat) * pow10(
            b.scale as nat,
        )) == (b.signed_units() * pow10(a.scale as nat)) * pow10(m),
        (a.signed_units() * pow10((m - a.scale) as nat)) * (pow10(a.scale as nat) * pow10(
            b.scale as nat,
        )) == (a.signed_units() * pow10(b.scale as nat)) * pow10(m),
{
    lemma_pow10_adds((m - b.scale) as nat, b.scale as nat);
    lemma_pow10_adds((m - a.scale) as nat, a.scale as nat);
    assert((b.signed_units() * pow10((m - b.scale) as nat)) * (pow10(a.scale as nat) * pow10(
        b.scale as nat,
    )) == (b.signed_units() * pow10(a.scale as nat)) * pow10(m)) by (nonlinear_arith)
        requires
            pow10(m) == pow10((m - b.scale) as nat) * pow10(b.scale as nat),
    ;
    assert((a.signed_units() * pow10((m - a.scale) as nat)) * (pow10(a.scale as nat) * pow10(
        b.scale as nat,
    )) == (a.signed_units() * pow10(b.scale as nat)) * pow10(m)) by (nonlinear_arith)
        requires
            pow10(m) == pow10((m - a.scale) as nat) * pow10(a.scale as nat),
    ;
}

/// Normalization carries a signed value identity from the raw pair to the
/// canonical one.
proof fn lemma_canon_signed(sign: bool, mag: u64, m: nat, v: int)
    requires
        m <= MAX_SCALE,
        (if sign {
            -(mag as int)
        } else {
            mag as int
        }) * 1 == v * 1,
    ensures
        ({
            let r = Decimal {
                neg: sign && canon_pos(mag as nat, m).units > 0,
                units: canon_pos(mag as nat, m).units,
                scale: canon_pos(mag as nat, m).scale,
            };
            r.signed_units() * pow10(m) == v * pow10(r.scale as nat)
        }),
{
    lemma_norm_value(mag as nat, m);
    lemma_norm_bounds(mag as nat, m);
    let (u2, s2) = norm(mag as nat, m);
    let r = Decimal {
        neg: sign && canon_pos(mag as nat, m).units > 0,
        units: canon_pos(mag as nat, m).units,
        scale: canon_pos(mag as nat, m).scale,
    };
    lemma_pow10_positive(m);
    lemma_pow10_positive(s2);
    if mag == 0 {
        assert(u2 == 0);
        assert(u2 * pow10(m) == (mag as nat) * pow10(s2)) by (nonlinear_arith)
            requires
                u2 * pow10(m) == (mag as nat) * pow10(s2),
        ;
        assert(r.signed_units() == 0);
        assert(0 * pow10(m) == 0 && 0 * pow10(s2) == 0) by (nonlinear_arith);
        assert(v == 0);
    } else if sign {
        assert(u2 > 0);
        assert(r.signed_units() == -(u2 as int));
        assert((-(u2 as int)) * pow10(m) == (-(mag as int)) * pow10(s2)) by (nonlinear_arith)
            requires
                u2 * pow10(m) == (mag as nat) * pow10(s2),
        ;
        assert(v == -(mag as int));
    } else {
        assert(r.signed_units() == u2 as int);
        assert(v == mag as int);
    }
}

/// An integer's magnitude.
pub open spec fn int_abs(x: int) -> int {
    if x >= 0 {
        x
    } else {
        -x
    }
}

/// The larger of two decimals' scales.
pub open spec fn common_hi_scale(a: Decimal, b: Decimal) -> u32 {
    if a.scale <= b.scale {
        b.scale
    } else {
        a.scale
    }
}

/// The signed numerator of `b - a` over the common denominator
/// `10^common_hi_scale(a, b)`.
pub open spec fn scaled_difference(a: Decimal, b: Decimal) -> int {
    b.signed_units() * pow10((common_hi_scale(a, b) - b.scale) as nat) - a.signed_units() * pow10(
        (common_hi_scale(a, b) - a.scale) as nat,
    )
}

/// The signed numerator of `a + b` over the common denominator
/// `10^common_hi_scale(a, b)`.
pub open spec fn scaled_sum(a: Decimal, b: Decimal) -> int {
    b.signed_units() * pow10((common_hi_scale(a, b) - b.scale) as nat) + a.signed_units() * pow10(
        (common_hi_scale(a, b) - a.scale) as nat,
    )
}

impl Decimal {
    /// The exact difference `b - a`, canonical, or `None` when its
    /// numerator at the common scale cannot be held in a machine word.
    pub fn difference(a: &Decimal, b: &Decimal) -> (r: Option<Decimal>)
        requires
            a.scale <= MAX_SCALE,
            b.scale <= MAX_SCALE,
        ensures
            r is Some <==> int_abs(scaled_difference(*a, *b)) <= u64::MAX,
            r matches Some(d) ==> d.wf() && denotes_difference(d, *a, *b),
    {
        let (na, va, nb, vb, m) = common_scale_units(a, b);
        proof {
            lemma_pow10_monotonic((m - a.scale) as nat, 18);
            lemma_pow10_monotonic((m - b.scale) as nat, 18);
            lemma_pow10_20_value();
            assert(va < 0x8000_0000_0000_0000_0000_0000_0000_0000u128 && vb
                < 0x8000_0000_0000_0000_0000_0000_0000_0000u128) by (nonlinear_arith)
                requires
                    va == (a.units as nat) * pow10((m - a.scale) as nat),
                    vb == (b.units as nat) * pow10((m - b.scale) as nat),
                    a.units <= u64::MAX,
                    b.units <= u64::MAX,
                    pow10((m - a.scale) as nat) <= 1_000_000_000_000_000_000,
                    pow10((m - b.scale) as nat) <= 1_000_000_000_000_000_000,
            ;
        }
        let (sign, mag) = signed_sub(na, va, nb, vb);
        let ghost v = scaled_difference(*a, *b);
        let ghost sa = a.signed_units();
        let ghost sb = b.signed_units();
        proof {
            assert(sa * pow10((m - a.scale) as nat) == (if na {
                -(va as int)
            } else {
                va as int
            })) by (nonlinear_arith)
                requires
                    va == (a.units as nat) * pow10((m - a.scale) as nat),
                    sa == (if a.neg {
                        -(a.units as int)
                    } else {
                        a.units as int
                    }),
                    na == a.neg,
            ;
            assert(sb * pow10((m - b.scale) as nat) == (if nb {
                -(vb as int)
            } else {
                vb as int
            })) by (nonlinear_arith)
                requires
                    vb == (b.units as nat) * pow10((m - b.scale) as nat),
                    sb == (if b.neg {
                        -(b.units as int)
                    } else {
                        b.units as int
                    }),
                    nb == b.neg,
            ;
        }
        proof {
            assert((if sign {
                -(mag as int)
            } else {
                mag as int
            }) == v);
            assert(int_abs(v) == mag);
        }
        if mag > u64::MAX as u128 {
            return None;
        }
        let d = Decimal::from_parts(sign, mag as u64, m);
        proof {
            assert((if sign {
                -((mag as u64) as int)
            } else {
                (mag as u64) as int
            }) * 1 == v * 1) by (nonlinear_arith)
                requires
                    (if sign {
                        -(mag as int)
                    } else {
                        mag as int
                    }) == v,
                    mag <= u64::MAX,
            ;
            lemma_canon_signed(sign, mag as u64, m as nat, v);
            lemma_norm_bounds(mag as nat, m as nat);
            assert(d == (Decimal {
                neg: sign && canon_pos(mag as nat, m as nat).units > 0,
                units: canon_pos(mag as nat, m as nat).units,
                scale: canon_pos(mag as nat, m as nat).scale,
            }));
            lemma_difference_transfer(*a, *b, d, v, m as nat);
        }
        Some(d)
    }

    /// The exact midpoint `(a + b) / 2`, canonical, or `None` when it
    /// cannot be held: the common scale leaves no room for the extra
    /// fraction digit, or the numerator overflows a machine word.
    pub fn midpoint(a: &Decimal, b: &Decimal) -> (r: Option<Decimal>)
        requires
            a.scale <= MAX_SCALE,
            b.scale <= MAX_SCALE,
        ensures
            r is Some <==> (common_hi_scale(*a, *b) < MAX_SCALE && int_abs(scaled_sum(*a, *b)) * 5
                <= u64::MAX),
            r matches Some(d) ==> d.wf() && denotes_midpoint(d, *a, *b),
    {
        let (na, va, nb, vb, m) = common_scale_units(a, b);
        proof {
            lemma_pow10_monotonic((m - a.scale) as nat, 18);
            lemma_pow10_monotonic((m - b.scale) as nat, 18);
            lemma_pow10_20_value();
            assert(va < 0x8000_0000_0000_0000_0000_0000_0000_0000u128 && vb
                < 0x8000_0000_0000_0000_0000_0000_0000_0000u128) by (nonlinear_arith)
                requires
                    va == (a.units as nat) * pow10((m - a.scale) as nat),
                    vb == (b.units as nat) * pow10((m - b.scale) as nat),
                    a.units <= u64::MAX,
                    b.units <= u64::MAX,
                    pow10((m - a.scale) as nat) <= 1_000_000_000_000_000_000,
                    pow10((m - b.scale) as nat) <= 1_000_000_000_000_000_000,
            ;
        }
        let (sign, mag) = signed_add(na, va, nb, vb);
        let ghost v = scaled_sum(*a, *b);
        let ghost sa = a.signed_units();
        let ghost sb = b.signed_units();
        proof {
            assert(sa * pow10((m - a.scale) as nat) == (if na {
                -(va as int)
            } else {
                va as int
            })) by (nonlinear_arith)
                requires
                    va == (a.units as nat) * pow10((m - a.scale) as nat),
                    sa == (if a.neg {
                        -(a.units as int)
                    } else {
                        a.units as int
                    }),
                    na == a.neg,
            ;
            assert(sb * pow10((m - b.scale) as nat) == (if nb {
                -(vb as int)
            } else {
                vb as int
            })) by (nonlinear_arith)
                requires
                    vb == (b.units as nat) * pow10((m - b.scale) as nat),
                    sb == (if b.neg {
                        -(b.units as int)
                    } else {
                        b.units as int
                    }),
                    nb == b.neg,
            ;
        }
        proof {
            assert((if sign {
                -(mag as int)
            } else {
                mag as int
            }) == v);
            assert(int_abs(v) == mag);
        }
        if m >= MAX_SCALE {
            return None;
        }
        if mag > u64::MAX as u128 / 5 {
            proof {
                assert(int_abs(v) * 5 > u64::MAX) by (nonlinear_arith)
                    requires
                        int_abs(v) == mag,
                        mag > u64::MAX as u128 / 5,
                ;
            }
            return None;
        }
        let mag5 = mag * 5;
        proof {
            assert(mag5 <= u64::MAX) by (nonlinear_arith)
                requires
                    mag5 == mag * 5,
                    mag <= u64::MAX as u128 / 5,
            ;
            assert(int_abs(v) * 5 <= u64::MAX);
        }
        let d = Decimal::from_parts(sign, mag5 as u64, m + 1);
        proof {
            assert((if sign {
                -((mag5 as u64) as int)
            } else {
                (mag5 as u64) as int
            }) * 1 == (v * 5) * 1) by (nonlinear_arith)
                requires
                    (if sign {
                        -(mag as int)
                    } else {
                        mag as int
                    }) == v,
                    mag5 == mag * 5,
                    mag5 <= u64::MAX,
            ;
            lemma_canon_signed(sign, mag5 as u64, (m + 1) as nat, v * 5);
            lemma_norm_bounds(mag5 as nat, (m + 1) as nat);
            assert(d == (Decimal {
                neg: sign && canon_pos(mag5 as nat, (m + 1) as nat).units > 0,
                units: canon_pos(mag5 as nat, (m + 1) as nat).units,
                scale: canon_pos(mag5 as nat, (m + 1) as nat).scale,
            }));
            lemma_midpoint_transfer(*a, *b, d, v, m as nat);
        }
        Some(d)
    }
}

/// Carries the canonical-value identity of a raw difference into the
/// cross-multiplied form of `denotes_difference`.
proof fn lemma_difference_transfer(a: Decimal, b: Decimal, d: Decimal, v: int, m: nat)
    requires
        a.scale <= m,
        b.scale <= m,
        v == scaled_difference(a, b),
        m == common_hi_scale(a, b),
        d.signed_units() * pow10(m) == v * pow10(d.scale as nat),
    ensures
        denotes_difference(d, a, b),
{
    let pa = pow10(a.scale as nat) as int;
    let pb = pow10(b.scale as nat) as int;
    let pm = pow10(m) as int;
    let pr = pow10(d.scale as nat) as int;
    lemma_pow10_positive(m);
    lemma_common_scale_identity(a, b, m);
    assert(v * (pa * pb) == (b.signed_units() * pa - a.signed_units() * pb) * pm) by (
    nonlinear_arith)
        requires
            v == b.signed_units() * pow10((m - b.scale) as nat) - a.signed_units() * pow10(
                (m - a.scale) as nat,
            ),
            (b.signed_units() * pow10((m - b.scale) as nat)) * (pa * pb) == (b.signed_units() * pa)
                * pm,
            (a.signed_units() * pow10((m - a.scale) as nat)) * (pa * pb) == (a.signed_units() * pb)
                * pm,
            pa == pow10(a.scale as nat),
            pb == pow10(b.scale as nat),
            pm == pow10(m),
    ;
    assert(d.signed_units() * (pa * pb) == (b.signed_units() * pa - a.signed_units() * pb) * pr)
        by (nonlinear_arith)
        requires
            d.signed_units() * pm == v * pr,
            v * (pa * pb) == (b.signed_units() * pa - a.signed_units() * pb) * pm,
            pm >= 1,
    ;
}

/// Carries the canonical-value identity of a raw midpoint into the
/// cross-multiplied form of `denotes_midpoint`.
proof fn lemma_midpoint_transfer(a: Decimal, b: Decimal, d: Decimal, v: int, m: nat)
    requires
        a.scale <= m,
        b.scale <= m,
        v == scaled_sum(a, b),
        m == common_hi_scale(a, b),
        d.signed_units() * pow10(m + 1) == (v * 5) * pow10(d.scale as nat),
    ensures
        denotes_midpoint(d, a, b),
{
    let pa = pow10(a.scale as nat) as int;
    let pb = pow10(b.scale as nat) as int;
    let pm = pow10(m) as int;
    let pr = pow10(d.scale as nat) as int;
    lemma_pow10_positive(m);
    lemma_common_scale_identity(a, b, m);
    assert(pow10(m + 1) == 10 * pow10(m));
    assert(v * (pa * pb) == (b.signed_units() * pa + a.signed_units() * pb) * pm) by (
    nonlinear_arith)
        requires
            v == b.signed_units() * pow10((m - b.scale) as nat) + a.signed_units() * pow10(
                (m - a.scale) as nat,
            ),
            (b.signed_units() * pow10((m - b.scale) as nat)) * (pa * pb) == (b.signed_units() * pa)
                * pm,
            (a.signed_units() * pow10((m - a.scale) as nat)) * (pa * pb) == (a.signed_units() * pb)
                * pm,
            pa == pow10(a.scale as nat),
            pb == pow10(b.scale as nat),
            pm == pow10(m),
    ;
    // divide the raw identity's factor ten by five, leaving the two of the
    // midpoint
    assert(d.signed_units() * 2 * pm == v * pr) by (nonlinear_arith)
        requires
            d.signed_units() * pow10(m + 1) == (v * 5) * pr,
            pow10(m + 1) == 10 * pm,
            pm == pow10(m),
    ;
    assert(d.signed_units() * (pa * pb) * 2 == (b.signed_units() * pa + a.signed_units() * pb)
        * pr) by (nonlinear_arith)
        requires
            d.signed_units() * 2 * pm == v * pr,
            v * (pa * pb) == (b.signed_units() * pa + a.signed_units() * pb) * pm,
            pm >= 1,
    ;
}

/// The textual magnitude `units / 10^scale`: the digits of `units` with a
/// dot inserted `scale` places from the right, zero-padded on the left of
/// the dot when the digits are too few.
pub open spec fn spec_mag_text(units: nat, scale: nat) -> Seq<char> {
    let d = spec_digits(units);
    if scale == 0 {
        d
    } else if d.len() > scale {
        d.subrange(0, d.len() - scale) + seq!['.'] + d.subrange(d.len() - scale, d.len() as int)
    } else {
        seq!['0', '.'] + zero_chars((scale - d.len()) as nat) + d
    }
}

impl Decimal {
    /// The text this value renders as.
    pub open spec fn spec_text(self) -> Seq<char> {
        if self.neg {
            seq!['-'] + spec_mag_text(self.units as nat, self.scale as nat)
        } else {
            spec_mag_text(self.units as nat, self.scale as nat)
        }
    }
}

/// The one-character text of a digit.
fn digit_str(d: u64) -> (s: &'static str)
    requires
        d < 10,
    ensures
        s@ == seq![digit_char(d as nat)],
{
    let s: &'static str = if d == 0 {
        "0"
    } else if d == 1 {
        "1"
    } else if d == 2 {
        "2"
    } else if d == 3 {
        "3"
    } else if d == 4 {
        "4"
    } else if d == 5 {
        "5"
    } else if d == 6 {
        "6"
    } else if d == 7 {
        "7"
    } else {
        if d == 8 {
            "8"
        } else {
            "9"
        }
    };
    proof {
        reveal_strlit("0");
        reveal_strlit("1");
        reveal_strlit("2");
        reveal_strlit("3");
        reveal_strlit("4");
        reveal_strlit("5");
        reveal_strlit("6");
        reveal_strlit("7");
        reveal_strlit("8");
        reveal_strlit("9");
        assert(s@ =~= seq![digit_char(d as nat)]);
    }
    s
}

/// The one-character text of a digit or the dot.
pub fn digit_or_dot_str(c: char) -> (s: &'static str)
    requires
        is_digit_char(c) || c == '.',
    ensures
        s@ == seq![c],
{
    if c == '.' {
        let s: &'static str = ".";
        proof {
            reveal_strlit(".");
            assert(s@ =~= seq![c]);
        }
        s
    } else {
        let d = (c as u32 - 48) as u64;
        let s = digit_str(d);
        proof {
            assert(digit_char(d as nat) == c);
            assert(s@ =~= seq![c]);
        }
        s
    }
}

/// The decimal digit string of `n`.
pub fn u64_to_string(n: u64) -> (s: String)
    ensures
        s@ == spec_digits(n as nat),
    decreases n,
{
    if n < 10 {
        digit_str(n).to_owned()
    } else {
        let mut s = u64_to_string(n / 10);
        s.append(digit_str(n % 10));
        s
    }
}

/// The decimal digit string of `n`, for wide counters.
pub fn u128_to_string(n: u128) -> (s: String)
    ensures
        s@ == spec_digits(n as nat),
    decreases n,
{
    if n < 10 {
        digit_str((n % 10) as u64).to_owned()
    } else {
        let mut s = u128_to_string(n / 10);
        s.append(digit_str((n % 10) as u64));
        s
    }
}

impl Decimal {
    /// Renders the value as the text it denotes; the canonical form renders
    /// with no trailing fraction zeros, as the format writes times.
    pub fn to_text(&self) -> (r: String)
        ensures
            r@ == self.spec_text(),
    {
        let digits = u64_to_string(self.units);
        proof {
            lemma_spec_digits_len(self.units as nat);
        }
        let n = digits.as_str().unicode_len();
        let mag: String = if self.scale == 0 {
            digits
        } else if n > self.scale as usize {
            let cut = n - self.scale as usize;
            let mut m = digits.as_str().substring_char(0, cut).to_owned();
            m.append(".");
            m.append(digits.as_str().substring_char(cut, n));
            proof {
                reveal_strlit(".");
                assert(m@ =~= spec_mag_text(self.units as nat, self.scale as nat));
            }
            m
        } else {
            let mut m: String = "0.".to_owned();
            proof {
                reveal_strlit("0.");
                assert("0."@ =~= seq!['0', '.']);
            }
            let pad = self.scale as usize - n;
            let mut k: usize = 0;
            while k < pad
                invariant
                    k <= pad,
                    m@ == seq!['0', '.'] + zero_chars(k as nat),
                decreases pad - k,
            {
                m.append("0");
                proof {
                    reveal_strlit("0");
                    assert(m@ =~= seq!['0', '.'] + zero_chars((k + 1) as nat));
                }
                k = k + 1;
            }
            m.append(digits.as_str());
            proof {
                assert(m@ =~= spec_mag_text(self.units as nat, self.scale as nat));
            }
            m
        };
        if self.neg {
            let mut r: String = "-".to_owned();
            r.append(mag.as_str());
            proof {
                reveal_strlit("-");
                assert(r@ =~= self.spec_text());
            }
            r
        } else {
            mag
        }
    }
}

proof fn lemma_val_from_shift(t: Seq<char>, i: nat, acc: nat)
    requires
        i <= t.len(),
    ensures
        digits_val_from(t, i, acc) == digits_val_from(t.subrange(i as int, t.len() as int), 0, acc),
    decreases t.len() - i,
{
    let sub = t.subrange(i as int, t.len() as int);
    if i < t.len() {
        let acc2 = acc * 10 + char_digit(t[i as int]);
        lemma_val_from_shift(t, i + 1, acc2);
        assert(sub[0] == t[i as int]);
        lemma_val_from_shift(sub, 1, acc2);
        assert(t.subrange(i as int + 1, t.len() as int) =~= sub.subrange(1, sub.len() as int));
    }
}

/// One unfolding of the Horner evaluation, stated over the tail.
proof fn lemma_val_from_step(t: Seq<char>, acc: nat)
    requires
        t.len() > 0,
    ensures
        digits_val_from(t, 0, acc) == digits_val_from(
            t.subrange(1, t.len() as int),
            0,
            acc * 10 + char_digit(t[0]),
        ),
{
    lemma_val_from_shift(t, 1, acc * 10 + char_digit(t[0]));
}

/// Scanning a run of digit characters accumulates their Horner value and,
/// after a dot, their count.
proof fn lemma_scan_digit_run(
    s: Seq<char>,
    i: nat,
    j: nat,
    units: nat,
    scale: nat,
    seen_dot: bool,
    seen_digit: bool,
)
    requires
        i <= j <= s.len(),
        forall|k: int| i <= k < j ==> is_digit_char(#[trigger] s[k]),
    ensures
        scan_numeral(s, i, units, scale, seen_dot, seen_digit) == scan_numeral(
            s,
            j,
            digits_val_from(s.subrange(i as int, j as int), 0, units),
            if seen_dot {
                (scale + j - i) as nat
            } else {
                scale
            },
            seen_dot,
            seen_digit || j > i,
        ),
    decreases j - i,
{
    if i < j {
        let d = char_digit(s[i as int]);
        lemma_scan_digit_run(s, i + 1, j, units * 10 + d, if seen_dot {
            scale + 1
        } else {
            scale
        }, seen_dot, true);
        let sub = s.subrange(i as int, j as int);
        assert(sub[0] == s[i as int]);
        lemma_val_from_step(sub, units);
        assert(sub.subrange(1, sub.len() as int) =~= s.subrange(i as int + 1, j as int));
    } else {
        assert(s.subrange(i as int, j as int) =~= Seq::<char>::empty());
    }
}

/// Splitting the Horner evaluation at any point composes.
proof fn lemma_val_from_prefix(t: Seq<char>, i: nat, m: nat, acc: nat)
    requires
        i <= m <= t.len(),
    ensures
        digits_val_from(t, i, acc) == digits_val_from(
            t,
            m,
            digits_val_from(t.subrange(i as int, m as int), 0, acc),
        ),
    decreases m - i,
{
    if i < m {
        let d = char_digit(t[i as int]);
        lemma_val_from_prefix(t, i + 1, m, acc * 10 + d);
        let sub = t.subrange(i as int, m as int);
        assert(sub[0] == t[i as int]);
        lemma_val_from_step(sub, acc);
        assert(sub.subrange(1, sub.len() as int) =~= t.subrange(i as int + 1, m as int));
    } else {
        assert(t.subrange(i as int, m as int) =~= Seq::<char>::empty());
    }
}

pub proof fn lemma_zero_chars(n: nat)
    ensures
        zero_chars(n).len() == n,
        forall|i: int| 0 <= i < n ==> zero_chars(n)[i] == '0',
        digits_val_from(zero_chars(n), 0, 0) == 0,
    decreases n,
{
    if n > 0 {
        lemma_zero_chars((n - 1) as nat);
        lemma_digits_val_from_push(zero_chars((n - 1) as nat), '0', 0, 0);
        assert(char_digit('0') == 0);
    }
}

/// Rendering a canonical non-negative value and reading the text back gives
/// the value itself.
pub proof fn lemma_text_round_trip(d: Decimal)
    requires
        d.wf(),
        !d.neg,
    ensures
        spec_from_text(d.spec_text()) == Some(d),
{
    let units = d.units as nat;
    let scale = d.scale as nat;
    let ds = spec_digits(units);
    let n = ds.len();
    let t = d.spec_text();
    lemma_spec_digits_len(units);
    lemma_digits_val_of_spec_digits(units);
    if scale == 0 {
        assert(t == ds);
        lemma_scan_digit_run(t, 0, n, 0, 0, false, false);
        assert(t.subrange(0, n as int) =~= ds);
        assert(scan_numeral(t, 0, 0, 0, false, false) == Some((units, 0nat)));
    } else if n > scale {
        let cut = (n - scale) as int;
        assert(t == ds.subrange(0, cut) + seq!['.'] + ds.subrange(cut, n as int));
        assert(t.len() == n + 1);
        assert(forall|k: int| 0 <= k < cut ==> t[k] == ds[k]);
        assert(t[cut] == '.');
        assert(forall|k: int| cut < k < t.len() ==> t[k] == ds[k - 1]);
        assert(!is_digit_char('.'));
        lemma_scan_digit_run(t, 0, cut as nat, 0, 0, false, false);
        let u1 = digits_val_from(t.subrange(0, cut), 0, 0);
        assert(scan_numeral(t, cut as nat, u1, 0, false, cut > 0) == scan_numeral(
            t,
            cut as nat + 1,
            u1,
            0,
            true,
            cut > 0,
        ));
        lemma_scan_digit_run(t, (cut + 1) as nat, t.len(), u1, 0, true, cut > 0);
        let u2 = digits_val_from(t.subrange(cut + 1, t.len() as int), 0, u1);
        assert(scan_numeral(t, t.len(), u2, scale, true, true) == Some((u2, scale)));
        // the two digit segments of the text together evaluate to `units`
        lemma_val_from_prefix(ds, 0, cut as nat, 0);
        lemma_val_from_shift(ds, cut as nat, digits_val_from(ds.subrange(0, cut), 0, 0));
        assert(t.subrange(0, cut) =~= ds.subrange(0, cut));
        assert(t.subrange(cut + 1, t.len() as int) =~= ds.subrange(cut, n as int));
        assert(u2 == digits_val_from(ds, 0, 0));
        assert(u2 == units);
        assert(scan_numeral(t, 0, 0, 0, false, false) == Some((units, scale)));
    } else {
        let pad = (scale - n) as nat;
        assert(t == seq!['0', '.'] + zero_chars(pad) + ds);
        lemma_zero_chars(pad);
        assert(t.len() == 2 + pad + n);
        assert(t[0] == '0');
        assert(t[1] == '.');
        assert(is_digit_char('0'));
        assert(char_digit('0') == 0);
        assert(scan_numeral(t, 0, 0, 0, false, false) == scan_numeral(t, 1, 0, 0, false, true));
        assert(scan_numeral(t, 1, 0, 0, false, true) == scan_numeral(t, 2, 0, 0, true, true));
        assert(forall|k: int| 2 <= k < 2 + pad ==> t[k] == zero_chars(pad)[k - 2]);
        assert(forall|k: int| 2 + pad <= k < t.len() ==> t[k] == ds[k - 2 - pad]);
        lemma_scan_digit_run(t, 2, 2 + pad, 0, 0, true, true);
        assert(t.subrange(2, (2 + pad) as int) =~= zero_chars(pad));
        lemma_scan_digit_run(t, 2 + pad, t.len(), 0, pad, true, true);
        assert(t.subrange((2 + pad) as int, t.len() as int) =~= ds);
        assert(scan_numeral(t, t.len(), units, pad + n, true, true) == Some((units, scale)));
        assert(scan_numeral(t, 0, 0, 0, false, false) == Some((units, scale)));
    }
    assert(units <= u64::MAX);
    assert(scale <= MAX_SCALE);
    // canonical values are fixpoints of normalization
    assert(norm(units, scale) == (units, scale));
    assert(canon_pos(units, scale) == d);
}

} // verus!
