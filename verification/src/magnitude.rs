//! The numeric value model: signed decimal fixed-point magnitudes with ten
//! fractional digits, and complex numbers made of two of them.

use vstd::prelude::*;
use vstd::string::*;
use vstd::arithmetic::div_mod::{lemma_div_multiples_vanish_fancy, lemma_fundamental_div_mod};
use crate::text::{
    digits, is_digit, lemma_digits_are_digits, lemma_padded_digits_are_digits, lemma_without_trailing, padded_digits, pow10,
    push_digits, push_padded_digits, trimmed_len, without_trailing,
};

verus! {

/// How many fractional decimal digits a magnitude holds.
pub const FRACTION_DIGITS: u32 = 10;

/// The number of steps between two consecutive integers: ten to the power
/// `FRACTION_DIGITS`.
pub const SCALE: u128 = 10_000_000_000;

/// A real number `scaled / SCALE`, negated when `negative` is set. Zero may
/// carry either sign.
#[derive(Debug, Clone, Copy, PartialEq, Eq, Structural)]
pub struct Magnitude {
    pub negative: bool,
    pub scaled: u128,
}

/// Which half of a complex number is meant.
#[derive(Debug, Clone, Copy, PartialEq, Eq, Structural)]
pub enum ComplexNumberType {
    Real,
    Imaginary,
}

/// A complex number with an informational unit tag, empty when the value has
/// no unit.
#[derive(Debug, Clone, PartialEq, Eq)]
pub struct Number {
    pub real: Magnitude,
    pub imaginary: Magnitude,
    pub unit: String,
}

/// The mathematical content of a [`Number`].
pub struct NumberView {
    pub real: Magnitude,
    pub imaginary: Magnitude,
    pub unit: Seq<char>,
}

impl View for Number {
    type V = NumberView;

    open spec fn view(&self) -> NumberView {
        NumberView { real: self.real, imaginary: self.imaginary, unit: self.unit@ }
    }
}

impl NumberView {
    /// The selected half.
    pub open spec fn component(self, which: ComplexNumberType) -> Magnitude {
        match which {
            ComplexNumberType::Real => self.real,
            ComplexNumberType::Imaginary => self.imaginary,
        }
    }

    /// The same number with the selected half replaced by `value`.
    pub open spec fn with_component(self, which: ComplexNumberType, value: Magnitude) -> NumberView {
        match which {
            ComplexNumberType::Real => NumberView { real: value, ..self },
            ComplexNumberType::Imaginary => NumberView { imaginary: value, ..self },
        }
    }
}

/// `"-"` for a set sign, nothing otherwise.
pub open spec fn sign_text(negative: bool) -> Seq<char> {
    if negative {
        seq!['-']
    } else {
        Seq::empty()
    }
}

/// The first `kept` of the ten fractional digits of `fraction / SCALE`,
/// without trailing zeros.
pub open spec fn fraction_text(fraction: nat, kept: nat) -> Seq<char> {
    without_trailing(padded_digits(fraction / pow10((FRACTION_DIGITS - kept) as nat), kept), '0')
}

/// Sign, integer digits and, where any fractional digit is left to show, a
/// point followed by the fractional digits.
pub open spec fn decimal_text(negative: bool, whole: nat, fraction: nat, kept: nat) -> Seq<char> {
    let shown = fraction_text(fraction, kept);
    sign_text(negative) + digits(whole) + if shown.len() > 0 {
        seq!['.'] + shown
    } else {
        Seq::empty()
    }
}

/// Whether `n` is the square of a natural number.
pub open spec fn is_perfect_square(n: nat) -> bool {
    exists|k: nat| #[trigger] (k * k) == n
}

impl Magnitude {
    /// The integer part of the absolute value.
    pub open spec fn whole(self) -> nat {
        self.scaled as nat / SCALE as nat
    }

    /// The fractional part of the absolute value, in units of `1 / SCALE`.
    pub open spec fn fraction(self) -> nat {
        self.scaled as nat % SCALE as nat
    }

    /// Whether the value is less than zero. A negative zero is not.
    pub open spec fn below_zero(self) -> bool {
        self.negative && self.scaled != 0
    }

    /// The value without its sign.
    pub open spec fn abs(self) -> Magnitude {
        Magnitude { negative: false, scaled: self.scaled }
    }

    /// The fractional part of the absolute value, as a magnitude.
    pub open spec fn fract(self) -> Magnitude {
        Magnitude { negative: false, scaled: self.fraction() as u128 }
    }

    /// The value cut off at the point.
    pub open spec fn trunc(self) -> Magnitude {
        Magnitude { negative: self.negative, scaled: (self.whole() * SCALE) as u128 }
    }

    /// The exact decimal rendering: all ten fractional digits, trailing zeros
    /// dropped, the point dropped with them when nothing follows it.
    pub open spec fn text(self) -> Seq<char> {
        decimal_text(self.negative, self.whole(), self.fraction(), FRACTION_DIGITS as nat)
    }

    /// How many fractional digits the rendering with ten significant digits
    /// shows: all ten below one, else what the integer digits leave of ten.
    pub open spec fn kept_digits(self) -> nat {
        if self.whole() == 0 {
            FRACTION_DIGITS as nat
        } else if digits(self.whole()).len() >= FRACTION_DIGITS {
            0
        } else {
            (FRACTION_DIGITS - digits(self.whole()).len()) as nat
        }
    }

    /// The rendering with ten significant digits: the integer part in full,
    /// then `kept_digits` fractional digits, further digits cut off.
    pub open spec fn significant_text(self) -> Seq<char> {
        decimal_text(self.negative, self.whole(), self.fraction(), self.kept_digits())
    }

    /// The square of the value, cut off after ten fractional digits, in units
    /// of `1 / SCALE`.
    pub open spec fn square_scaled(self) -> nat {
        (self.scaled as nat * self.scaled as nat) / SCALE as nat
    }

    /// The integer part of the absolute value.
    pub fn whole_part(&self) -> (whole: u128)
        ensures
            whole == self.whole(),
    {
        self.scaled / SCALE
    }

    /// The fractional part of the absolute value, in units of `1 / SCALE`.
    pub fn fraction_part(&self) -> (fraction: u128)
        ensures
            fraction == self.fraction(),
            fraction < SCALE,
    {
        self.scaled % SCALE
    }

    /// Whether the value is less than zero.
    pub fn is_below_zero(&self) -> (below: bool)
        ensures
            below == self.below_zero(),
    {
        self.negative && self.scaled != 0
    }

    /// Renders the value exactly.
    pub fn to_text(&self) -> (text: String)
        ensures
            text@ == self.text(),
    {
        render(self.negative, self.whole_part(), self.fraction_part(), FRACTION_DIGITS)
    }

    /// Renders the value with ten significant digits.
    pub fn to_significant_text(&self) -> (text: String)
        ensures
            text@ == self.significant_text(),
    {
        let whole = self.whole_part();
        let kept: u32 = if whole == 0 {
            FRACTION_DIGITS
        } else {
            let count = digit_count(whole);
            if count >= FRACTION_DIGITS {
                0
            } else {
                FRACTION_DIGITS - count
            }
        };
        render(self.negative, whole, self.fraction_part(), kept)
    }

    /// The square of the value, cut off after ten fractional digits, or `None`
    /// when that is more than a magnitude can hold.
    pub fn square(&self) -> (square: Option<Magnitude>)
        ensures
            match square {
                Some(m) => !m.negative && m.scaled == self.square_scaled(),
                None => self.square_scaled() > u128::MAX,
            },
    {
        let whole = self.scaled / SCALE;
        let fraction = self.scaled % SCALE;
        let ghost w = whole as int;
        let ghost f = fraction as int;
        let ghost p = SCALE as int;
        let ghost m = self.scaled as int;
        let ghost ww = w * w;
        let ghost wf = w * f;
        let ghost ff = f * f;
        proof {
            assert(m == p * w + f) by {
                lemma_fundamental_div_mod(m, p);
            }
            assert(ww >= 0 && wf >= 0 && ff >= 0 && ff < p * p) by (nonlinear_arith)
                requires
                    ww == w * w,
                    wf == w * f,
                    ff == f * f,
                    w >= 0,
                    0 <= f < p,
            ;
            assert(m * m == p * (p * ww + 2 * wf) + ff) by (nonlinear_arith)
                requires
                    m == p * w + f,
                    ww == w * w,
                    wf == w * f,
                    ff == f * f,
            ;
            let a = p * ww + 2 * wf;
            let q = ff / p;
            let r = ff % p;
            lemma_fundamental_div_mod(ff, p);
            assert(p * a + ff == p * (a + q) + r);
            lemma_div_multiples_vanish_fancy(a + q, r, p);
            assert(self.square_scaled() == a + q);
            assert(0 <= q < p);
        }
        let tail: u128 = (fraction * fraction) / SCALE;
        let whole_squared = match whole.checked_mul(whole) {
            Some(v) => v,
            None => {
                return None;
            },
        };
        let leading = match whole_squared.checked_mul(SCALE) {
            Some(v) => v,
            None => {
                return None;
            },
        };
        let cross = match whole.checked_mul(fraction) {
            Some(v) => v,
            None => {
                return None;
            },
        };
        let doubled = match cross.checked_add(cross) {
            Some(v) => v,
            None => {
                return None;
            },
        };
        let partial = match leading.checked_add(doubled) {
            Some(v) => v,
            None => {
                return None;
            },
        };
        match partial.checked_add(tail) {
            Some(scaled) => Some(Magnitude { negative: false, scaled }),
            None => None,
        }
    }
}

/// The number of decimal digits of `n`.
fn digit_count(n: u128) -> (count: u32)
    ensures
        count == digits(n as nat).len(),
        1 <= count <= 39,
    decreases n,
{
    if n < 10 {
        1
    } else {
        let rest = digit_count(n / 10);
        proof {
            lemma_digit_count_bound(n as nat);
        }
        rest + 1
    }
}

/// A number below ten to the power `k` has at most `k` digits.
proof fn lemma_digits_len(n: nat, k: nat)
    requires
        k >= 1,
        n < pow10(k),
    ensures
        digits(n).len() <= k,
    decreases k,
{
    if n >= 10 {
        assert(k >= 2) by {
            reveal_with_fuel(pow10, 2);
        }
        lemma_digits_len(n / 10, (k - 1) as nat);
    }
}

/// A 128-bit number has at most 39 digits.
proof fn lemma_digit_count_bound(n: nat)
    requires
        n <= u128::MAX,
    ensures
        digits(n).len() <= 39,
{
    assert(pow10(39) == 1_000_000_000_000_000_000_000_000_000_000_000_000_000) by {
        reveal_with_fuel(pow10, 40);
    }
    lemma_digits_len(n, 39);
}

/// Ten to the power `n`, for the powers up to `SCALE`.
pub(crate) fn power_of_ten(n: u32) -> (power: u128)
    requires
        n <= FRACTION_DIGITS,
    ensures
        power == pow10(n as nat),
        1 <= power <= SCALE,
{
    proof {
        reveal_with_fuel(pow10, 11);
    }
    match n {
        0 => 1,
        1 => 10,
        2 => 100,
        3 => 1_000,
        4 => 10_000,
        5 => 100_000,
        6 => 1_000_000,
        7 => 10_000_000,
        8 => 100_000_000,
        9 => 1_000_000_000,
        _ => 10_000_000_000,
    }
}

/// Appends the point and the first `kept` fractional digits, or nothing where
/// all of them are zero.
fn push_fraction(out: &mut String, fraction: u128, kept: u32)
    requires
        kept <= FRACTION_DIGITS,
    ensures
        final(out)@ == old(out)@ + if fraction_text(fraction as nat, kept as nat).len() > 0 {
            seq!['.'] + fraction_text(fraction as nat, kept as nat)
        } else {
            Seq::empty()
        },
{
    let ghost shifted = fraction as nat / pow10((FRACTION_DIGITS - kept) as nat);
    let mut all = String::new();
    push_padded_digits(&mut all, fraction / power_of_ten(FRACTION_DIGITS - kept), kept);
    assert(all@ =~= padded_digits(shifted, kept as nat));
    proof {
        lemma_padded_digits_are_digits(shifted, kept as nat);
    }
    assert(all@.subrange(0, kept as int) =~= all@);
    let shown = trimmed_len(all.as_str(), kept as usize, '0');
    proof {
        lemma_without_trailing(all@, '0');
    }
    if shown > 0 {
        proof {
            reveal_strlit(".");
        }
        let digits_shown = all.as_str().substring_char(0, shown);
        assert(digits_shown@ == fraction_text(fraction as nat, kept as nat));
        out.append(".");
        out.append(digits_shown);
        assert(final(out)@ =~= old(out)@ + (seq!['.'] + fraction_text(
            fraction as nat,
            kept as nat,
        )));
    } else {
        assert(final(out)@ =~= old(out)@ + Seq::<char>::empty());
    }
}

/// Writes sign, integer digits and the first `kept` fractional digits.
fn render(negative: bool, whole: u128, fraction: u128, kept: u32) -> (text: String)
    requires
        kept <= FRACTION_DIGITS,
    ensures
        text@ == decimal_text(negative, whole as nat, fraction as nat, kept as nat),
{
    let mut text = String::new();
    if negative {
        proof {
            reveal_strlit("-");
        }
        text.append("-");
    }
    assert(text@ =~= sign_text(negative));
    push_digits(&mut text, whole);
    push_fraction(&mut text, fraction, kept);
    text
}

/// Whether `n` is the square of a natural number.
pub fn perfect_square(n: u128) -> (perfect: bool)
    ensures
        perfect == is_perfect_square(n as nat),
{
    let mut low: u128 = 0;
    let mut high: u128 = 0x1_0000_0000_0000_0000;
    while high - low > 1
        invariant
            low < high <= 0x1_0000_0000_0000_0000,
            low * low <= n < high * high,
        decreases high - low,
    {
        let middle = low + (high - low) / 2;
        assert(middle * middle <= 0xffff_ffff_ffff_ffff * 0xffff_ffff_ffff_ffff) by (nonlinear_arith)
            requires
                0 <= middle <= 0xffff_ffff_ffff_ffff,
        ;
        if middle * middle <= n {
            low = middle;
        } else {
            high = middle;
        }
    }
    assert(low * low <= 0xffff_ffff_ffff_ffff * 0xffff_ffff_ffff_ffff) by (nonlinear_arith)
        requires
            0 <= low <= 0xffff_ffff_ffff_ffff,
    ;
    let perfect = low * low == n;
    proof {
        if perfect {
            assert((low as nat) * (low as nat) == n as nat);
        } else {
            assert forall|k: nat| #[trigger] (k * k) != n as nat by {
                if k <= low {
                    assert(k * k <= low * low) by (nonlinear_arith)
                        requires
                            0 <= k <= low,
                    ;
                } else {
                    assert(k * k >= high * high) by (nonlinear_arith)
                        requires
                            k >= high,
                            high >= 0,
                    ;
                }
            }
        }
    }
    perfect
}

/// The rendering of a value is its sign in front of the rendering of its
/// absolute value, which begins with a digit: stripping a leading minus from
/// the one gives the other.
pub proof fn lemma_text_without_sign(value: Magnitude)
    ensures
        value.significant_text() == sign_text(value.negative) + value.abs().significant_text(),
        value.text() == sign_text(value.negative) + value.abs().text(),
        value.abs().significant_text().len() > 0,
        value.abs().significant_text()[0] != '-',
        value.abs().text().len() > 0,
        value.abs().text()[0] != '-',
{
    lemma_digits_are_digits(value.whole());
    let first = digits(value.whole())[0];
    assert(is_digit(first));
    assert(value.abs().significant_text()[0] == first);
    assert(value.abs().text()[0] == first);
    assert(value.significant_text() =~= sign_text(value.negative) + value.abs().significant_text());
    assert(value.text() =~= sign_text(value.negative) + value.abs().text());
}

} // verus!
