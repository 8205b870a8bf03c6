use kalk::magnitude::{perfect_square, Magnitude};

const SCALE: u128 = 10_000_000_000;

#[test]
fn exact_rendering() {
    assert_eq!(Magnitude { negative: false, scaled: 0 }.to_text(), "0");
    assert_eq!(Magnitude { negative: true, scaled: 0 }.to_text(), "-0");
    assert_eq!(Magnitude { negative: false, scaled: 12 * SCALE }.to_text(), "12");
    assert_eq!(Magnitude { negative: true, scaled: 12 * SCALE + 5_000_000_000 }.to_text(), "-12.5");
    assert_eq!(Magnitude { negative: false, scaled: 1 }.to_text(), "0.0000000001");
    assert_eq!(Magnitude { negative: false, scaled: 10_200_300_000 }.to_text(), "1.02003");
    assert_eq!(
        Magnitude { negative: false, scaled: u128::MAX }.to_text(),
        "34028236692093846346337460743.1768211455"
    );
}

#[test]
fn significant_rendering() {
    assert_eq!(Magnitude { negative: false, scaled: 5_000_000_001 }.to_significant_text(), "0.5000000001");
    assert_eq!(Magnitude { negative: false, scaled: 31_415_926_535 }.to_significant_text(), "3.141592653");
    assert_eq!(
        Magnitude { negative: true, scaled: 1234 * SCALE + 5_678_912_345 }.to_significant_text(),
        "-1234.567891"
    );
    assert_eq!(
        Magnitude { negative: false, scaled: 1_234_567_890 * SCALE + 9_876_543_210 }.to_significant_text(),
        "1234567890"
    );
    assert_eq!(
        Magnitude { negative: false, scaled: 123_456_789 * SCALE + 9_876_543_210 }.to_significant_text(),
        "123456789.9"
    );
    assert_eq!(Magnitude { negative: false, scaled: 15_000_000_004 }.to_significant_text(), "1.5");
}

#[test]
fn parts() {
    let value = Magnitude { negative: true, scaled: 7 * SCALE + 25 };
    assert_eq!(value.whole_part(), 7);
    assert_eq!(value.fraction_part(), 25);
    assert!(value.is_below_zero());
    assert!(!Magnitude { negative: true, scaled: 0 }.is_below_zero());
    assert!(!Magnitude { negative: false, scaled: 3 }.is_below_zero());
}

#[test]
fn squares() {
    let three_halves = Magnitude { negative: true, scaled: 15_000_000_000 };
    assert_eq!(three_halves.square(), Some(Magnitude { negative: false, scaled: 22_500_000_000 }));
    let tiny = Magnitude { negative: false, scaled: 99_999 };
    assert_eq!(tiny.square(), Some(Magnitude { negative: false, scaled: 0 }));
    let root_two = Magnitude { negative: false, scaled: 14_142_135_623 };
    assert_eq!(root_two.square(), Some(Magnitude { negative: false, scaled: 19_999_999_997 }));
    let large = Magnitude { negative: false, scaled: 123_456_789_012_345 * SCALE + 6_789_012_345 };
    assert_eq!(
        large.square(),
        Some(Magnitude { negative: false, scaled: 152415787532388367504953347995733866912 })
    );
}

#[test]
fn square_too_large() {
    assert_eq!(Magnitude { negative: false, scaled: u128::MAX }.square(), None);
    // The largest scaled value whose square still fits, and the next one.
    let largest = Magnitude { negative: false, scaled: 1_844_674_407_370_955_161_599_999 };
    assert!(largest.square().is_some());
    let next = Magnitude { negative: false, scaled: 1_844_674_407_370_955_161_600_000 };
    assert_eq!(next.square(), None);
}

#[test]
fn perfect_squares() {
    assert!(perfect_square(0));
    assert!(perfect_square(1));
    assert!(perfect_square(4));
    assert!(perfect_square(144));
    assert!(!perfect_square(2));
    assert!(!perfect_square(3));
    assert!(!perfect_square(143));
    assert!(perfect_square(281_474_976_710_655 * 281_474_976_710_655));
    assert!(!perfect_square(281_474_976_710_655 * 281_474_976_710_655 + 1));
}

#[test]
fn perfect_squares_of_any_size() {
    assert!(!perfect_square(u128::MAX));
    let largest_root: u128 = 0xffff_ffff_ffff_ffff;
    assert!(perfect_square(largest_root * largest_root));
    assert!(!perfect_square(largest_root * largest_root - 1));
}
