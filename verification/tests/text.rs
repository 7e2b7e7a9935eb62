use rlox::text::{
    decimal_len, push_decimal, push_decimal_field, push_left_justified, push_repeated, substring,
};

fn decimal(n: usize) -> String {
    let mut out = String::new();
    push_decimal(&mut out, n);
    out
}

fn field(n: usize, width: usize, fill: &str) -> String {
    let mut out = String::new();
    push_decimal_field(&mut out, n, width, fill);
    out
}

#[test]
fn decimal_form_of_numbers() {
    assert_eq!(decimal(0), "0");
    assert_eq!(decimal(7), "7");
    assert_eq!(decimal(10), "10");
    assert_eq!(decimal(1234567890), "1234567890");
    assert_eq!(decimal(usize::MAX), format!("{}", usize::MAX));
}

#[test]
fn decimal_is_appended_to_what_is_there() {
    let mut out = String::from("n=");
    push_decimal(&mut out, 42);
    assert_eq!(out, "n=42");
}

#[test]
fn decimal_len_counts_digits() {
    assert_eq!(decimal_len(0), 1);
    assert_eq!(decimal_len(9), 1);
    assert_eq!(decimal_len(10), 2);
    assert_eq!(decimal_len(99999), 5);
    assert_eq!(decimal_len(usize::MAX), format!("{}", usize::MAX).len());
}

#[test]
fn fields_are_filled_on_the_left() {
    assert_eq!(field(0, 4, "0"), "0000");
    assert_eq!(field(12, 4, "0"), "0012");
    assert_eq!(field(7, 4, " "), "   7");
    assert_eq!(field(1234, 4, " "), "1234");
}

#[test]
fn fields_do_not_cut_long_numbers() {
    assert_eq!(field(123456, 4, "0"), "123456");
    assert_eq!(field(5, 0, " "), "5");
    assert_eq!(field(5, 1, " "), "5");
}

#[test]
fn fields_agree_with_format() {
    for n in [0usize, 3, 42, 999, 1000, 65535, 100000] {
        assert_eq!(field(n, 4, "0"), format!("{:04}", n));
        assert_eq!(field(n, 4, " "), format!("{:4}", n));
    }
}

#[test]
fn text_is_left_justified_with_spaces() {
    let mut out = String::new();
    push_left_justified(&mut out, "LoadConstant", 16);
    assert_eq!(out, "LoadConstant    ");
    let mut long = String::new();
    push_left_justified(&mut long, "a text of more than sixteen", 16);
    assert_eq!(long, "a text of more than sixteen");
    let mut wide = String::new();
    push_left_justified(&mut wide, "é", 3);
    assert_eq!(wide, "é  ");
}

#[test]
fn repeated_fill() {
    let mut out = String::from("x");
    push_repeated(&mut out, "-", 3);
    assert_eq!(out, "x---");
    push_repeated(&mut out, "-", 0);
    assert_eq!(out, "x---");
}

#[test]
fn substring_cuts_at_byte_offsets() {
    assert_eq!(substring("hello world", 6, 11), "world");
    assert_eq!(substring("hello", 0, 0), "");
    assert_eq!(substring("hello", 5, 5), "");
    assert_eq!(substring("a é b", 2, 4), "é");
}
