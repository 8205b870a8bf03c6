use kalk::magnitude::{ComplexNumberType, Magnitude, Number};
use kalk::rounding::{estimate, round, trim_zeroes};

const SCALE: u128 = 10_000_000_000;

fn magnitude(negative: bool, whole: u128, fraction: u128) -> Magnitude {
    Magnitude { negative, scaled: whole * SCALE + fraction }
}

fn real_number(negative: bool, whole: u128, fraction: u128) -> Number {
    Number {
        real: magnitude(negative, whole, fraction),
        imaginary: magnitude(false, 0, 0),
        unit: String::new(),
    }
}

fn estimate_real(negative: bool, whole: u128, fraction: u128) -> Option<String> {
    estimate(&real_number(negative, whole, fraction), ComplexNumberType::Real)
}

#[test]
fn estimate_of_integer_is_none() {
    assert_eq!(estimate_real(false, 0, 0), None);
    assert_eq!(estimate_real(false, 5, 0), None);
    assert_eq!(estimate_real(true, 12345, 0), None);
}

#[test]
fn estimate_one_half() {
    assert_eq!(estimate_real(false, 0, 5_000_000_000), Some(String::from("1/2")));
    assert_eq!(estimate_real(true, 0, 5_000_000_000), Some(String::from("-1/2")));
}

#[test]
fn estimate_half_with_noise() {
    assert_eq!(estimate_real(false, 0, 5_000_000_001), Some(String::from("1/2")));
    assert_eq!(estimate_real(false, 0, 5_001_000_000), None);
}

#[test]
fn estimate_half_length_gap() {
    // Renderings of four to six characters that begin with 0.5 are no half.
    assert_eq!(estimate_real(false, 0, 5_001_000_000), None);
    assert_eq!(estimate_real(false, 0, 5_100_000_000), None);
}

#[test]
fn estimate_thirds() {
    assert_eq!(estimate_real(false, 0, 3_333_333_000), Some(String::from("1/3")));
    assert_eq!(estimate_real(true, 0, 6_666_666_000), Some(String::from("-2/3")));
    assert_eq!(estimate_real(false, 1, 3_333_333_000), Some(String::from("1 + 1/3")));
    assert_eq!(estimate_real(false, 2, 6_666_666_000), Some(String::from("2 + 2/3")));
    assert_eq!(estimate_real(true, 1, 3_333_333_000), Some(String::from("-1 - 1/3")));
}

#[test]
fn estimate_named_constants() {
    assert_eq!(estimate_real(false, 3, 1_415_926_535), Some(String::from("π")));
    assert_eq!(estimate_real(true, 3, 1_415_926_535), Some(String::from("-π")));
    assert_eq!(estimate_real(false, 2, 943_951_023), Some(String::from("2π/3")));
    assert_eq!(estimate_real(false, 2, 7_182_818_284), Some(String::from("e")));
}

#[test]
fn estimate_radicals() {
    assert_eq!(estimate_real(false, 1, 7_320_508_075), Some(String::from("√3")));
    assert_eq!(estimate_real(false, 2, 2_360_679_775), Some(String::from("√5")));
    assert_eq!(estimate_real(true, 1, 7_320_508_076), Some(String::from("√3")));
    assert_eq!(estimate_real(false, 1, 4_142_135_623), Some(String::from("√2")));
}

#[test]
fn estimate_falls_back_to_rounding() {
    assert_eq!(estimate_real(false, 0, 9_999_999_990), Some(String::from("1")));
    assert_eq!(estimate_real(true, 0, 9_999_999_990), Some(String::from("-1")));
    assert_eq!(estimate_real(false, 41, 9_999_999_990), Some(String::from("42")));
    assert_eq!(estimate_real(true, 0, 10), Some(String::from("0")));
    assert_eq!(estimate_real(false, 0, 3_000_000_000), None);
}

#[test]
fn estimate_imaginary_half() {
    let number = Number {
        real: magnitude(false, 1, 0),
        imaginary: magnitude(true, 0, 5_000_000_000),
        unit: String::new(),
    };
    assert_eq!(estimate(&number, ComplexNumberType::Imaginary), Some(String::from("-1/2")));
    assert_eq!(estimate(&number, ComplexNumberType::Real), None);
}

#[test]
fn estimates_hold_no_placeholder() {
    let fractions: [u128; 8] = [
        5_000_000_000,
        3_333_333_333,
        6_666_666_666,
        1_415_926_535,
        9_999_999_999,
        1,
        7_320_508_075,
        2_500_000_000,
    ];
    for whole in 0..4u128 {
        for fraction in fractions {
            for negative in [false, true] {
                if let Some(text) = estimate_real(negative, whole, fraction) {
                    assert!(!text.is_empty());
                    assert!(!text.contains('?'));
                }
            }
        }
    }
}

#[test]
fn round_near_one_from_below() {
    let rounded = round(&real_number(false, 0, 9_999_999_990), ComplexNumberType::Real).unwrap();
    assert_eq!(rounded.real, magnitude(false, 1, 0));
    assert_eq!(rounded.imaginary, magnitude(false, 0, 0));
}

#[test]
fn round_near_one_from_above() {
    let rounded = round(&real_number(false, 1, 100), ComplexNumberType::Real).unwrap();
    assert_eq!(rounded.real, magnitude(false, 1, 0));
}

#[test]
fn round_declines_plain_fraction() {
    assert!(round(&real_number(false, 0, 3_000_000_000), ComplexNumberType::Real).is_none());
}

#[test]
fn round_thresholds() {
    // Below one: noise under 1e-8 is dropped, a gap under 1e-5 is closed.
    assert!(round(&real_number(false, 0, 99), ComplexNumberType::Real).is_some());
    assert!(round(&real_number(false, 0, 100), ComplexNumberType::Real).is_none());
    assert!(round(&real_number(false, 0, SCALE - 99_999), ComplexNumberType::Real).is_some());
    assert!(round(&real_number(false, 0, SCALE - 100_000), ComplexNumberType::Real).is_none());
    // From one on: noise under 1e-4 is dropped, a gap under 1e-6 is closed.
    assert!(round(&real_number(false, 7, 999_999), ComplexNumberType::Real).is_some());
    assert!(round(&real_number(false, 7, 1_000_000), ComplexNumberType::Real).is_none());
    assert!(round(&real_number(false, 7, SCALE - 9_999), ComplexNumberType::Real).is_some());
    assert!(round(&real_number(false, 7, SCALE - 10_000), ComplexNumberType::Real).is_none());
}

#[test]
fn round_keeps_sign_other_half_and_unit() {
    let number = Number {
        real: magnitude(true, 2, 5_000_000_000),
        imaginary: magnitude(true, 3, 9_999_999_999),
        unit: String::from("rad"),
    };
    let rounded = round(&number, ComplexNumberType::Imaginary).unwrap();
    assert_eq!(rounded.real, magnitude(true, 2, 5_000_000_000));
    assert_eq!(rounded.imaginary, magnitude(true, 4, 0));
    assert_eq!(rounded.unit, "rad");
    assert!(round(&number, ComplexNumberType::Real).is_none());
}

#[test]
fn round_negative_noise_gives_negative_zero() {
    let rounded = round(&real_number(true, 0, 10), ComplexNumberType::Real).unwrap();
    assert_eq!(rounded.real, Magnitude { negative: true, scaled: 0 });
    let zero = round(&real_number(true, 0, 0), ComplexNumberType::Real).unwrap();
    assert_eq!(zero.real, Magnitude { negative: false, scaled: 0 });
}

#[test]
fn round_declines_at_the_largest_magnitude() {
    let number = Number {
        real: Magnitude { negative: false, scaled: u128::MAX },
        imaginary: magnitude(false, 0, 0),
        unit: String::new(),
    };
    assert!(round(&number, ComplexNumberType::Real).is_none());
}

#[test]
fn trim_zeroes_examples() {
    assert_eq!(trim_zeroes("1.200"), "1.2");
    assert_eq!(trim_zeroes("1.000"), "1");
    assert_eq!(trim_zeroes("5"), "5");
}

#[test]
fn trim_zeroes_edges() {
    assert_eq!(trim_zeroes("100"), "100");
    assert_eq!(trim_zeroes("10.0100"), "10.01");
    assert_eq!(trim_zeroes(""), "");
    assert_eq!(trim_zeroes("0.0"), "0");
    assert_eq!(trim_zeroes("."), "");
    assert_eq!(trim_zeroes("1..0"), "1.");
}
