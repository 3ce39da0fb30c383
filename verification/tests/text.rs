use rs_deesser::text::{decimal, decimal_three_columns, decimal_two_digits};

#[test]
fn numbers_are_written_in_decimal() {
    for n in [0u64, 7, 10, 99, 100, 1234567890, u64::MAX] {
        assert_eq!(decimal(n), format!("{n}"));
    }
}

#[test]
fn narrow_fields_are_filled_up() {
    for n in [0u64, 9, 10, 99, 100, 1000] {
        assert_eq!(decimal_two_digits(n), format!("{n:02}"));
        assert_eq!(decimal_three_columns(n), format!("{n:3}"));
    }
}
