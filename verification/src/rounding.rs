//! Estimation: turning an evaluated number back into a short exact-looking
//! form by looking at its decimal digits.

use vstd::prelude::*;
use vstd::string::*;
use vstd::arithmetic::div_mod::{lemma_fundamental_div_mod, lemma_fundamental_div_mod_converse};
use crate::magnitude::{
    decimal_text, fraction_text, is_perfect_square, perfect_square, power_of_ten, sign_text,
    ComplexNumberType, Magnitude, Number, FRACTION_DIGITS, SCALE,
};
use crate::text::{
    contains_char, digits, is_digit, lemma_digits_are_digits, lemma_padded_digits_are_digits,
    lemma_without_trailing, padded_digits, pow10, push_digits, same_text, trimmed_len,
    without_trailing,
};

verus! {

/// `s` without the zeros at its end and the point they leave bare, where `s`
/// holds a point; `s` itself where it holds none.
pub open spec fn trimmed(s: Seq<char>) -> Seq<char> {
    if s.contains('.') {
        let cut = without_trailing(s, '0');
        if cut.len() > 0 && cut.last() == '.' {
            cut.drop_last()
        } else {
            cut
        }
    } else {
        s
    }
}

/// Strips trailing zeros after a decimal point, and the point itself where
/// nothing is left behind it. A string without a point comes back unchanged.
pub fn trim_zeroes(input: &str) -> (output: String)
    ensures
        output@ == trimmed(input@),
{
    if contains_char(input, '.') {
        let length = input.unicode_len();
        assert(input@.subrange(0, length as int) =~= input@);
        let mut kept = trimmed_len(input, length, '0');
        proof {
            lemma_without_trailing(input@, '0');
        }
        if kept > 0 && input.get_char(kept - 1) == '.' {
            kept -= 1;
        }
        let output = input.substring_char(0, kept).to_owned();
        assert(output@ =~= trimmed(input@));
        output
    } else {
        input.to_owned()
    }
}

/// Whether `part / SCALE` lies below ten to the power `-exponent`, that is,
/// whether its base-ten logarithm lies below `-exponent`; for a part of zero
/// this holds for every exponent.
pub open spec fn below_power(part: nat, exponent: nat) -> bool {
    part * pow10(exponent) < SCALE
}

/// The negated power of ten below which a fractional part counts as noise
/// above an integer: finer for values below one.
pub open spec fn floor_exponent(whole: nat) -> nat {
    if whole == 0 {
        8
    } else {
        4
    }
}

/// The negated power of ten below which the distance to the next integer
/// counts as noise.
pub open spec fn ceil_exponent(whole: nat) -> nat {
    if whole == 0 {
        5
    } else {
        6
    }
}

/// The integer that `value` is within noise of, with the sign of `value`, if
/// there is one: the integer part where the fractional part is negligible,
/// else the next integer away from zero where the value is that close to it
/// and a magnitude can hold it.
pub open spec fn rounded(value: Magnitude) -> Option<Magnitude> {
    let whole = value.whole();
    let fraction = value.fraction();
    if below_power(fraction, floor_exponent(whole)) {
        Some(Magnitude { negative: value.below_zero(), scaled: (whole * SCALE) as u128 })
    } else if below_power((SCALE - fraction) as nat, ceil_exponent(whole)) && (whole + 1) * SCALE
        <= u128::MAX {
        Some(Magnitude { negative: value.below_zero(), scaled: ((whole + 1) * SCALE) as u128 })
    } else {
        None
    }
}

/// Computes `below_power` for a part of at most `SCALE`.
fn is_below_power(part: u128, exponent: u32) -> (below: bool)
    requires
        part <= SCALE,
        exponent <= FRACTION_DIGITS,
    ensures
        below == below_power(part as nat, exponent as nat),
{
    let power = power_of_ten(exponent);
    assert(part * power <= SCALE * SCALE) by (nonlinear_arith)
        requires
            0 <= part <= SCALE,
            0 <= power <= SCALE,
    ;
    part * power < SCALE
}

/// Rounds one magnitude to the integer it is within noise of.
pub fn round_magnitude(value: Magnitude) -> (result: Option<Magnitude>)
    ensures
        result == rounded(value),
        result matches Some(r) ==> r.fraction() == 0,
{
    let whole = value.whole_part();
    let fraction = value.fraction_part();
    let negative = value.is_below_zero();
    let (floor_limit, ceil_limit): (u32, u32) = if whole == 0 {
        (8, 5)
    } else {
        (4, 6)
    };
    proof {
        lemma_fundamental_div_mod(value.scaled as int, SCALE as int);
    }
    if is_below_power(fraction, floor_limit) {
        let scaled = whole * SCALE;
        proof {
            lemma_fundamental_div_mod_converse(scaled as int, SCALE as int, whole as int, 0);
        }
        Some(Magnitude { negative, scaled })
    } else if is_below_power(SCALE - fraction, ceil_limit) {
        match (whole + 1).checked_mul(SCALE) {
            Some(scaled) => {
                proof {
                    lemma_fundamental_div_mod_converse(
                        scaled as int,
                        SCALE as int,
                        whole as int + 1,
                        0,
                    );
                }
                Some(Magnitude { negative, scaled })
            },
            None => None,
        }
    } else {
        None
    }
}

/// Absorbs representation noise near an integer in the selected half of
/// `input`: returns the number with that half replaced by the integer, the
/// other half and the unit untouched, or `None` where the half is not within
/// noise of an integer.
pub fn round(input: &Number, complex_number_type: ComplexNumberType) -> (result: Option<Number>)
    ensures
        match rounded(input@.component(complex_number_type)) {
            Some(value) => result matches Some(number) && number@ == input@.with_component(
                complex_number_type,
                value,
            ),
            None => result is None,
        },
        result matches Some(number) ==> number@.component(complex_number_type).fraction() == 0,
{
    let value = match complex_number_type {
        ComplexNumberType::Real => input.real,
        ComplexNumberType::Imaginary => input.imaginary,
    };
    match round_magnitude(value) {
        Some(new_value) => {
            let new_num = match complex_number_type {
                ComplexNumberType::Real => Number {
                    real: new_value,
                    imaginary: input.imaginary,
                    unit: input.unit.clone(),
                },
                ComplexNumberType::Imaginary => Number {
                    real: input.real,
                    imaginary: new_value,
                    unit: input.unit.clone(),
                },
            };
            Some(new_num)
        },
        None => None,
    }
}


/// Whether a sign-free rendering reads `0.5`, or `0.500` followed by more
/// where it is longer than six characters.
pub open spec fn is_half(shown: Seq<char>) -> bool {
    &&& shown.len() >= 3
    &&& shown.subrange(0, 3) == "0.5"@
    &&& shown.len() == 3 || (shown.len() > 6 && shown.subrange(3, 5) == "00"@)
}

/// The fraction that a rendered fractional part repeats: a third where its
/// first five decimals are threes, two thirds where they are sixes.
pub open spec fn third_of(fraction: Seq<char>) -> Option<Seq<char>> {
    if fraction.len() >= 7 && fraction.subrange(2, 7) == "33333"@ {
        Some("1/3"@)
    } else if fraction.len() >= 7 && fraction.subrange(2, 7) == "66666"@ {
        Some("2/3"@)
    } else {
        None
    }
}

/// A value with a repeating third, written as the signed fraction alone below
/// one, else as integer part, explicit sign and fraction.
pub open spec fn third_text(value: Magnitude, third: Seq<char>) -> Seq<char> {
    if value.whole() == 0 {
        sign_text(value.below_zero()) + third
    } else {
        trimmed(value.trunc().text()) + " "@ + if value.below_zero() {
            "-"@
        } else {
            "+"@
        } + " "@ + third
    }
}

/// The integer under the root sign, where the value is the square root of an
/// integer that is no square itself: the square of the value, rounded where
/// it is within noise of an integer, must be such an integer. A square too
/// large for a magnitude gives none.
pub open spec fn radicand(value: Magnitude) -> Option<nat> {
    if value.square_scaled() > u128::MAX {
        None
    } else {
        let square = Magnitude { negative: false, scaled: value.square_scaled() as u128 };
        let settled = match rounded(square) {
            Some(r) => r,
            None => square,
        };
        if settled.fraction() == 0 && !is_perfect_square(settled.whole()) {
            Some(settled.whole())
        } else {
            None
        }
    }
}

/// The last resort: the value rounded to the integer it is within noise of,
/// rendered, with a negative zero written as zero.
pub open spec fn fallback_text(value: Magnitude) -> Option<Seq<char>> {
    match rounded(value) {
        Some(r) => Some(
            trimmed(
                if r.text() == "-0"@ {
                    "0"@
                } else {
                    r.text()
                },
            ),
        ),
        None => None,
    }
}

/// The canonical display form of `value`, decided by the first rule that
/// applies: none for an integer; one half; a repeating third; a well-known
/// constant; a square root; the nearby integer.
pub open spec fn estimate_text(value: Magnitude) -> Option<Seq<char>> {
    let shown = value.abs().significant_text();
    let sign = sign_text(value.below_zero());
    if value.fraction() == 0 {
        None
    } else if is_half(shown) {
        Some(sign + "1/2"@)
    } else if third_of(value.fract().text()) is Some {
        Some(third_text(value, third_of(value.fract().text())->0))
    } else if shown.len() >= 8 && constant_name(shown.subrange(0, 8)) is Some {
        Some(sign + constant_name(shown.subrange(0, 8))->0)
    } else if radicand(value) is Some {
        Some("√"@ + digits(radicand(value)->0))
    } else {
        fallback_text(value)
    }
}

/// No character of `s` is the question mark that would stand for an
/// unresolved part.
pub open spec fn clean(s: Seq<char>) -> bool {
    forall|i: int| 0 <= i < s.len() ==> s[i] != '?'
}

/// The symbolic name of a well-known constant, found by the first eight
/// characters of its rendering.
pub open spec fn constant_name(prefix: Seq<char>) -> Option<Seq<char>> {
    if prefix == "3.141592"@ {
        Some("π"@)
    } else if prefix == "2.718281"@ {
        Some("e"@)
    } else if prefix == "6.283185"@ {
        Some("2π"@)
    } else if prefix == "1.618033"@ {
        Some("ϕ"@)
    } else if prefix == "1.414213"@ {
        Some("√2"@)
    } else if prefix == "0.523598"@ {
        Some("π/6"@)
    } else if prefix == "0.785398"@ {
        Some("π/4"@)
    } else if prefix == "1.047197"@ {
        Some("π/3"@)
    } else if prefix == "1.570796"@ {
        Some("π/2"@)
    } else if prefix == "2.094395"@ {
        Some("2π/3"@)
    } else if prefix == "2.356194"@ {
        Some("3π/4"@)
    } else if prefix == "2.617993"@ {
        Some("5π/6"@)
    } else if prefix == "3.665191"@ {
        Some("7π/6"@)
    } else if prefix == "3.926990"@ {
        Some("5π/4"@)
    } else if prefix == "4.188790"@ {
        Some("4π/3"@)
    } else if prefix == "4.712388"@ {
        Some("3π/2"@)
    } else if prefix == "5.235987"@ {
        Some("5π/3"@)
    } else if prefix == "5.497787"@ {
        Some("7π/4"@)
    } else if prefix == "5.759586"@ {
        Some("11π/6"@)
    } else if prefix == "0.866025"@ {
        Some("√3/2"@)
    } else {
        None
    }
}

/// Looks a rendering prefix up in the table of well-known constants.
fn lookup_constant(prefix: &str) -> (name: Option<&'static str>)
    ensures
        match name {
            Some(n) => constant_name(prefix@) == Some(n@),
            None => constant_name(prefix@) is None,
        },
{
    if same_text(prefix, "3.141592") {
        Some("π")
    } else if same_text(prefix, "2.718281") {
        Some("e")
    } else if same_text(prefix, "6.283185") {
        Some("2π")
    } else if same_text(prefix, "1.618033") {
        Some("ϕ")
    } else if same_text(prefix, "1.414213") {
        Some("√2")
    } else if same_text(prefix, "0.523598") {
        Some("π/6")
    } else if same_text(prefix, "0.785398") {
        Some("π/4")
    } else if same_text(prefix, "1.047197") {
        Some("π/3")
    } else if same_text(prefix, "1.570796") {
        Some("π/2")
    } else if same_text(prefix, "2.094395") {
        Some("2π/3")
    } else if same_text(prefix, "2.356194") {
        Some("3π/4")
    } else if same_text(prefix, "2.617993") {
        Some("5π/6")
    } else if same_text(prefix, "3.665191") {
        Some("7π/6")
    } else if same_text(prefix, "3.926990") {
        Some("5π/4")
    } else if same_text(prefix, "4.188790") {
        Some("4π/3")
    } else if same_text(prefix, "4.712388") {
        Some("3π/2")
    } else if same_text(prefix, "5.235987") {
        Some("5π/3")
    } else if same_text(prefix, "5.497787") {
        Some("7π/4")
    } else if same_text(prefix, "5.759586") {
        Some("11π/6")
    } else if same_text(prefix, "0.866025") {
        Some("√3/2")
    } else {
        None
    }
}

/// No name in the table of constants is empty or holds a question mark.
proof fn lemma_constant_names_are_clean(prefix: Seq<char>)
    ensures
        constant_name(prefix) matches Some(name) ==> name.len() > 0 && clean(name),
{
    reveal_strlit("π");
    reveal_strlit("e");
    reveal_strlit("2π");
    reveal_strlit("ϕ");
    reveal_strlit("√2");
    reveal_strlit("π/6");
    reveal_strlit("π/4");
    reveal_strlit("π/3");
    reveal_strlit("π/2");
    reveal_strlit("2π/3");
    reveal_strlit("3π/4");
    reveal_strlit("5π/6");
    reveal_strlit("7π/6");
    reveal_strlit("5π/4");
    reveal_strlit("4π/3");
    reveal_strlit("3π/2");
    reveal_strlit("5π/3");
    reveal_strlit("7π/4");
    reveal_strlit("11π/6");
    reveal_strlit("√3/2");
}


/// Whether the characters of `text` from `from` up to `to` all are `c`.
fn is_run_of(text: &str, from: usize, to: usize, c: char) -> (run: bool)
    requires
        from <= to <= text@.len(),
    ensures
        run == (forall|i: int| from <= i < to ==> text@[i] == c),
{
    let mut i: usize = from;
    while i < to
        invariant
            from <= i <= to <= text@.len(),
            forall|j: int| from <= j < i ==> text@[j] == c,
        decreases to - i,
    {
        if text.get_char(i) != c {
            return false;
        }
        i += 1;
    }
    true
}

/// Computes `is_half`.
fn has_half_pattern(shown: &str) -> (half: bool)
    ensures
        half == is_half(shown@),
{
    proof {
        reveal_strlit("0.5");
        reveal_strlit("00");
    }
    let length = shown.unicode_len();
    if length < 3 {
        return false;
    }
    if shown.get_char(0) != '0' || shown.get_char(1) != '.' || shown.get_char(2) != '5' {
        assert(shown@.subrange(0, 3)[0] == shown@[0]);
        assert(shown@.subrange(0, 3)[1] == shown@[1]);
        assert(shown@.subrange(0, 3)[2] == shown@[2]);
        return false;
    }
    assert(shown@.subrange(0, 3) =~= "0.5"@);
    if length == 3 {
        return true;
    }
    if length > 6 {
        let zeros = is_run_of(shown, 3, 5, '0');
        proof {
            let window = shown@.subrange(3, 5);
            if zeros {
                assert(window =~= "00"@);
            } else {
                let i = choose|i: int| 3 <= i < 5 && shown@[i] != '0';
                assert(window[i - 3] == shown@[i]);
            }
        }
        zeros
    } else {
        false
    }
}

/// Computes `third_of`.
fn find_third(fraction: &str) -> (third: Option<&'static str>)
    ensures
        match third {
            Some(t) => third_of(fraction@) == Some(t@),
            None => third_of(fraction@) is None,
        },
{
    proof {
        reveal_strlit("33333");
        reveal_strlit("66666");
    }
    if fraction.unicode_len() < 7 {
        return None;
    }
    let ghost window = fraction@.subrange(2, 7);
    let threes = is_run_of(fraction, 2, 7, '3');
    proof {
        if threes {
            assert(window =~= "33333"@);
        } else {
            let i = choose|i: int| 2 <= i < 7 && fraction@[i] != '3';
            assert(window[i - 2] == fraction@[i]);
        }
    }
    if threes {
        return Some("1/3");
    }
    let sixes = is_run_of(fraction, 2, 7, '6');
    proof {
        if sixes {
            assert(window =~= "66666"@);
        } else {
            let i = choose|i: int| 2 <= i < 7 && fraction@[i] != '6';
            assert(window[i - 2] == fraction@[i]);
        }
    }
    if sixes {
        Some("2/3")
    } else {
        None
    }
}

/// Computes `radicand`.
fn find_radicand(value: Magnitude) -> (root: Option<u128>)
    ensures
        match root {
            Some(n) => radicand(value) == Some(n as nat),
            None => radicand(value) is None,
        },
{
    match value.square() {
        None => None,
        Some(square) => {
            let settled = match round_magnitude(square) {
                Some(r) => r,
                None => square,
            };
            let whole = settled.whole_part();
            if settled.fraction_part() == 0 && !perfect_square(whole) {
                Some(whole)
            } else {
                None
            }
        },
    }
}

/// Computes `third_text`.
fn write_third(value: Magnitude, third: &str) -> (text: String)
    ensures
        text@ == third_text(value, third@),
{
    proof {
        reveal_strlit(" ");
        reveal_strlit("-");
        reveal_strlit("+");
    }
    let whole = value.whole_part();
    if whole == 0 {
        let mut text = String::new();
        if value.is_below_zero() {
            text.append("-");
        }
        assert(text@ =~= sign_text(value.below_zero()));
        text.append(third);
        text
    } else {
        let integer = Magnitude { negative: value.negative, scaled: whole * SCALE };
        let mut text = trim_zeroes(integer.to_text().as_str());
        text.append(" ");
        text.append(if value.is_below_zero() {
            "-"
        } else {
            "+"
        });
        text.append(" ");
        text.append(third);
        text
    }
}

/// The view of an optional string.
pub open spec fn text_of(text: Option<String>) -> Option<Seq<char>> {
    match text {
        Some(t) => Some(t@),
        None => None,
    }
}

/// A run of one character trims to nothing.
proof fn lemma_run_trims_to_nothing(s: Seq<char>, c: char)
    requires
        forall|i: int| 0 <= i < s.len() ==> s[i] == c,
    ensures
        without_trailing(s, c).len() == 0,
    decreases s.len(),
{
    if s.len() > 0 {
        lemma_run_trims_to_nothing(s.drop_last(), c);
    }
}

/// The padded digits of zero are zeros.
proof fn lemma_padded_zero(width: nat)
    ensures
        forall|i: int| 0 <= i < padded_digits(0, width).len() ==> padded_digits(0, width)[i] == '0',
    decreases width,
{
    if width > 0 {
        lemma_padded_zero((width - 1) as nat);
        assert(0nat / 10 == 0);
        let shorter = padded_digits(0, (width - 1) as nat);
        assert forall|i: int| 0 <= i < padded_digits(0, width).len() implies padded_digits(
            0,
            width,
        )[i] == '0' by {
            if i < shorter.len() {
                assert(shorter[i] == '0');
            }
        }
    }
}

/// Every power of ten is at least one.
proof fn lemma_pow10_positive(n: nat)
    ensures
        pow10(n) >= 1,
    decreases n,
{
    if n > 0 {
        lemma_pow10_positive((n - 1) as nat);
    }
}

/// A rendering is never empty, holds no question mark, and holds no point
/// where the fractional part is zero.
pub proof fn lemma_decimal_text_is_clean(negative: bool, whole: nat, fraction: nat, kept: nat)
    ensures
        decimal_text(negative, whole, fraction, kept).len() > 0,
        clean(decimal_text(negative, whole, fraction, kept)),
        fraction == 0 ==> !decimal_text(negative, whole, fraction, kept).contains('.'),
{
    let shifted = fraction / pow10((FRACTION_DIGITS - kept) as nat);
    let padded = padded_digits(shifted, kept);
    let shown = fraction_text(fraction, kept);
    let text = decimal_text(negative, whole, fraction, kept);
    lemma_digits_are_digits(whole);
    lemma_padded_digits_are_digits(shifted, kept);
    lemma_without_trailing(padded, '0');
    assert forall|i: int| 0 <= i < shown.len() implies is_digit(shown[i]) by {
        assert(shown[i] == padded[i]);
    }
    assert(text.len() >= digits(whole).len());
    if fraction == 0 {
        lemma_pow10_positive((FRACTION_DIGITS - kept) as nat);
        let divisor = pow10((FRACTION_DIGITS - kept) as nat);
        assert(0nat / divisor == 0) by (nonlinear_arith)
            requires
                divisor >= 1,
        ;
        lemma_padded_zero(kept);
        lemma_run_trims_to_nothing(padded, '0');
        assert(text =~= sign_text(negative) + digits(whole));
        assert forall|i: int| 0 <= i < text.len() implies text[i] != '.' by {
            if i >= sign_text(negative).len() {
                assert(is_digit(digits(whole)[i - sign_text(negative).len()]));
            }
        }
    }
    assert forall|i: int| 0 <= i < text.len() implies text[i] != '?' by {
        let s = sign_text(negative).len();
        let d = digits(whole).len();
        if i < s {
        } else if i < s + d {
            assert(is_digit(digits(whole)[i - s]));
        } else if i == s + d {
        } else {
            assert(is_digit(shown[i - s - d - 1]));
        }
    }
}

/// Trimming keeps a prefix, so it adds no question mark.
proof fn lemma_trimmed_is_clean(s: Seq<char>)
    requires
        clean(s),
    ensures
        clean(trimmed(s)),
        !s.contains('.') ==> trimmed(s) == s,
{
    lemma_without_trailing(s, '0');
    let cut = without_trailing(s, '0');
    assert forall|i: int| 0 <= i < cut.len() implies cut[i] != '?' by {
        assert(cut[i] == s[i]);
    }
}

/// Every estimate is a text of at least one character that holds no question
/// mark, the placeholder of an unresolved part.
pub proof fn lemma_estimate_text_is_clean(value: Magnitude)
    ensures
        estimate_text(value) matches Some(text) ==> text.len() > 0 && clean(text),
{
    reveal_strlit("1/2");
    reveal_strlit("1/3");
    reveal_strlit("2/3");
    reveal_strlit(" ");
    reveal_strlit("-");
    reveal_strlit("+");
    reveal_strlit("0");
    reveal_strlit("-0");
    reveal_strlit("√");
    let shown = value.abs().significant_text();
    let sign = sign_text(value.below_zero());
    if value.fraction() == 0 {
    } else if is_half(shown) {
    } else if third_of(value.fract().text()) is Some {
        let third = third_of(value.fract().text())->0;
        let integer = value.trunc().text();
        lemma_decimal_text_is_clean(
            value.negative,
            value.trunc().whole(),
            value.trunc().fraction(),
            FRACTION_DIGITS as nat,
        );
        lemma_trimmed_is_clean(integer);
    } else if shown.len() >= 8 && constant_name(shown.subrange(0, 8)) is Some {
        lemma_constant_names_are_clean(shown.subrange(0, 8));
    } else if radicand(value) is Some {
        lemma_digits_are_digits(radicand(value)->0);
        let text = "√"@ + digits(radicand(value)->0);
        assert forall|i: int| 0 <= i < text.len() implies text[i] != '?' by {
            if i >= 1 {
                assert(is_digit(digits(radicand(value)->0)[i - 1]));
            }
        }
    } else {
        match rounded(value) {
            Some(r) => {
                lemma_rounded_is_whole(value);
                lemma_decimal_text_is_clean(
                    r.negative,
                    r.whole(),
                    r.fraction(),
                    FRACTION_DIGITS as nat,
                );
                lemma_trimmed_is_clean(r.text());
                assert(!"0"@.contains('.'));
                lemma_trimmed_is_clean("0"@);
            },
            None => {},
        }
    }
}

/// What `rounded` gives has no fractional part.
pub proof fn lemma_rounded_is_whole(value: Magnitude)
    ensures
        rounded(value) matches Some(r) ==> r.fraction() == 0,
{
    let whole = value.whole();
    lemma_fundamental_div_mod(value.scaled as int, SCALE as int);
    if rounded(value) is Some {
        let r = rounded(value)->0;
        if below_power(value.fraction(), floor_exponent(whole)) {
            lemma_fundamental_div_mod_converse(r.scaled as int, SCALE as int, whole as int, 0);
        } else {
            lemma_fundamental_div_mod_converse(r.scaled as int, SCALE as int, whole as int + 1, 0);
        }
    }
}

/// Converts one half of an evaluated number into a short exact-looking form,
/// or `None` where the half is an integer already or no rule applies.
pub fn estimate(input: &Number, complex_number_type: ComplexNumberType) -> (result: Option<String>)
    ensures
        text_of(result) == estimate_text(input@.component(complex_number_type)),
        input@.component(complex_number_type).fraction() == 0 ==> result is None,
        result matches Some(text) ==> text@.len() > 0 && !text@.contains('?'),
{
    let value = match complex_number_type {
        ComplexNumberType::Real => input.real,
        ComplexNumberType::Imaginary => input.imaginary,
    };
    proof {
        lemma_estimate_text_is_clean(value);
    }
    let fraction = value.fraction_part();
    if fraction == 0 {
        return None;
    }
    let shown = Magnitude { negative: false, scaled: value.scaled }.to_significant_text();
    let below_zero = value.is_below_zero();
    let mut text = String::new();
    if below_zero {
        proof {
            reveal_strlit("-");
        }
        text.append("-");
    }
    assert(text@ =~= sign_text(value.below_zero()));
    if has_half_pattern(shown.as_str()) {
        text.append("1/2");
        return Some(text);
    }
    let fraction_shown = Magnitude { negative: false, scaled: fraction }.to_text();
    match find_third(fraction_shown.as_str()) {
        Some(third) => {
            return Some(write_third(value, third));
        },
        None => {},
    }
    if shown.as_str().unicode_len() >= 8 {
        match lookup_constant(shown.as_str().substring_char(0, 8)) {
            Some(name) => {
                text.append(name);
                return Some(text);
            },
            None => {},
        }
    }
    match find_radicand(value) {
        Some(n) => {
            let mut root = String::new();
            root.append("√");
            push_digits(&mut root, n);
            return Some(root);
        },
        None => {},
    }
    match round_magnitude(value) {
        Some(rounded_value) => {
            let rounded_str = rounded_value.to_text();
            if same_text(rounded_str.as_str(), "-0") {
                Some(trim_zeroes("0"))
            } else {
                Some(trim_zeroes(rounded_str.as_str()))
            }
        },
        None => None,
    }
}

} // verus!
