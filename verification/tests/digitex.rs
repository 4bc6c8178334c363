use algokit::digitex::dynamic::Digit as DynamicDigit;
use algokit::digitex::fixed::Digit as StaticDigit;
use algokit::digitex::into;

#[test]
fn dynamic_from_raw_test() {
    assert_eq!(DynamicDigit::new(18, 2).convert(), vec![1, 0, 0, 1, 0]);
    assert_eq!(DynamicDigit::new(18, 8).convert(), vec![2, 2]);
    assert_eq!(DynamicDigit::new(13, 10).convert(), vec![1, 3]);
    assert_eq!(DynamicDigit::new(13, 16).convert(), vec![13]);
}

#[test]
fn dynamic_stringify_test() {
    let octal = DynamicDigit::new(134, 8);
    assert_eq!(octal.to_string(), "206");
}

#[test]
fn static_from_raw_test() {
    assert_eq!(StaticDigit::<2>::new(18).convert(), vec![1, 0, 0, 1, 0]);
    assert_eq!(StaticDigit::<8>::new(18).convert(), vec![2, 2]);
    assert_eq!(StaticDigit::<10>::new(13).convert(), vec![1, 3]);
    assert_eq!(StaticDigit::<16>::new(13).convert(), vec![13]);
}

#[test]
fn static_stringify_test() {
    let octal = StaticDigit::<8>::new(134);
    assert_eq!(octal.to_string(), "206");
}

#[test]
fn zero_has_no_digits() {
    assert_eq!(into(0, 10), Vec::<u32>::new());
    assert_eq!(DynamicDigit::new(0, 2).to_string(), "");
    assert_eq!(DynamicDigit::new(0, 2).raw(), 0);
}

#[test]
fn hexadecimal_uses_letters() {
    assert_eq!(DynamicDigit::new(255, 16).to_string(), "FF");
    assert_eq!(DynamicDigit::new(35, 36).to_string(), "Z");
    assert_eq!(into(u64::MAX, 2).len(), 64);
}
