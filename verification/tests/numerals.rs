use plic::text::decimal_string;

#[test]
fn zero_is_one_digit() {
    assert_eq!(decimal_string(0), "0");
}

#[test]
fn numerals_have_no_leading_zero() {
    assert_eq!(decimal_string(7), "7");
    assert_eq!(decimal_string(10), "10");
    assert_eq!(decimal_string(1239), "1239");
    assert_eq!(decimal_string(100200), "100200");
}

#[test]
fn largest_number_is_written_out() {
    assert_eq!(decimal_string(usize::MAX), usize::MAX.to_string());
}
