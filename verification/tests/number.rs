use texttv::number::{format_decimal, parse_digits};

fn chars(s: &str) -> Vec<char> {
    s.chars().collect()
}

#[test]
fn numbers_are_written_without_padding() {
    assert_eq!(format_decimal(0), chars("0"));
    assert_eq!(format_decimal(9), chars("9"));
    assert_eq!(format_decimal(10), chars("10"));
    assert_eq!(format_decimal(105), chars("105"));
    assert_eq!(format_decimal(4294967295), chars("4294967295"));
}

#[test]
fn digits_are_read_as_a_number() {
    assert_eq!(parse_digits(&chars("0")), Some(0));
    assert_eq!(parse_digits(&chars("105")), Some(105));
    assert_eq!(parse_digits(&chars("000105")), Some(105));
    assert_eq!(parse_digits(&chars("4294967295")), Some(4294967295));
}

#[test]
fn what_is_no_number_that_fits_is_refused() {
    assert_eq!(parse_digits(&chars("")), None);
    assert_eq!(parse_digits(&chars("4294967296")), None);
    assert_eq!(parse_digits(&chars("42949672950")), None);
    assert_eq!(parse_digits(&chars("12a")), None);
    assert_eq!(parse_digits(&chars("+12")), None);
    assert_eq!(parse_digits(&chars("99999999999x")), None);
}

#[test]
fn written_numbers_read_back() {
    for n in [0u32, 1, 9, 10, 99, 100, 12345, 4294967294, 4294967295] {
        assert_eq!(parse_digits(&format_decimal(n)), Some(n));
    }
}
