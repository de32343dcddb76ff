use aoc2024::text::{
    copy_range, from_num_str, is_digit, next_field, scan, split_lines, trim, Class, NumberError,
};

#[test]
fn numbers_are_read_in_decimal() {
    assert_eq!(from_num_str(b"0"), Ok(0));
    assert_eq!(from_num_str(b"007"), Ok(7));
    assert_eq!(from_num_str(b"+42"), Ok(42));
    assert_eq!(from_num_str(b"161011"), Ok(161011));
    assert_eq!(
        from_num_str(usize::MAX.to_string().as_bytes()),
        Ok(usize::MAX)
    );
}

#[test]
fn what_is_no_number_is_refused() {
    assert_eq!(from_num_str(b""), Err(NumberError::Empty));
    assert_eq!(from_num_str(b"+"), Err(NumberError::InvalidDigit));
    assert_eq!(from_num_str(b"-1"), Err(NumberError::InvalidDigit));
    assert_eq!(from_num_str(b"12a"), Err(NumberError::InvalidDigit));
    assert_eq!(from_num_str(b" 1"), Err(NumberError::InvalidDigit));
    assert_eq!(from_num_str(b"++1"), Err(NumberError::InvalidDigit));
    let mut big = usize::MAX.to_string();
    big.push('0');
    assert_eq!(from_num_str(big.as_bytes()), Err(NumberError::TooLarge));
    let mut next = (usize::MAX as u128 + 1).to_string();
    assert_eq!(from_num_str(next.as_bytes()), Err(NumberError::TooLarge));
    next.push('x');
    assert_eq!(from_num_str(next.as_bytes()), Err(NumberError::InvalidDigit));
}

#[test]
fn digits_are_the_ten_digits() {
    for b in 0..=255u8 {
        assert_eq!(is_digit(b), b.is_ascii_digit());
        assert_eq!(Class::Digit.has(b), b.is_ascii_digit());
        assert_eq!(Class::Gap.has(b), b.is_ascii_whitespace());
        assert_eq!(Class::Blank.has(b), (b as char).is_whitespace() && b < 128);
        assert_eq!(Class::Space.has(b), b == b' ');
        assert_eq!(Class::LineFeed.has(b), b == b'\n');
    }
}

#[test]
fn lines_are_split_as_std_splits_them() {
    for text in [
        "",
        "a",
        "a\n",
        "a\nb",
        "a\r\nb\r\n",
        "a\n\nb",
        "\n",
        "\r\n",
        "a\r",
        "a\rb\n",
        "\n\n\n",
        "one\r\n\r\ntwo\r",
    ] {
        let ours: Vec<Vec<u8>> = split_lines(text.as_bytes());
        let theirs: Vec<Vec<u8>> = text.lines().map(|l| l.as_bytes().to_vec()).collect();
        assert_eq!(ours, theirs, "{text:?}");
    }
}

#[test]
fn trim_takes_the_blanks_from_both_ends() {
    assert_eq!(trim(b"  a b \t\r\n"), b"a b");
    assert_eq!(trim(b""), b"");
    assert_eq!(trim(b" \x0b\x0c "), b"");
    assert_eq!(trim(b"x"), b"x");
}

#[test]
fn runs_and_fields() {
    assert_eq!(scan(b"123ab", 0, Class::Digit, true), 3);
    assert_eq!(scan(b"123ab", 3, Class::Digit, true), 3);
    assert_eq!(scan(b"123ab", 3, Class::Digit, false), 5);
    assert_eq!(scan(b"123ab", 5, Class::Digit, false), 5);
    assert_eq!(next_field(b"  ab  cd ", 0), Some((2, 4)));
    assert_eq!(next_field(b"  ab  cd ", 4), Some((6, 8)));
    assert_eq!(next_field(b"  ab  cd ", 8), None);
    assert_eq!(copy_range(b"hello", 1, 3), b"el".to_vec());
}

#[test]
fn numbers_agree_with_std() {
    let max = usize::MAX.to_string();
    let over = (usize::MAX as u128 + 1).to_string();
    for text in [
        "", "0", "00", "1", "+1", "+", "-", "-1", "+-1", "1+", " 1", "1 ", "12345", "a", "1a",
        "٣", "1_000", "18446744073709551615", "18446744073709551616", "99999999999999999999",
        "+0000000000000000000000000000001", max.as_str(), over.as_str(),
    ] {
        let ours = from_num_str(text.as_bytes()).ok();
        let theirs = text.parse::<usize>().ok();
        assert_eq!(ours, theirs, "{text:?}");
    }
}

#[test]
fn fields_agree_with_std() {
    for text in [
        "", " ", "a", " a", "a ", "a b", "  a\tb\r\nc  ", "\x0ca\x0cb", "a\x0bb", "1   2",
        "7 6 4 2 1",
    ] {
        let bytes = text.as_bytes();
        let mut ours: Vec<&[u8]> = vec![];
        let mut at = 0;
        while let Some((from, to)) = next_field(bytes, at) {
            ours.push(&bytes[from..to]);
            at = to;
        }
        let theirs: Vec<&[u8]> = text.split_ascii_whitespace().map(|f| f.as_bytes()).collect();
        assert_eq!(ours, theirs, "{text:?}");
    }
}

#[test]
fn trim_agrees_with_std_on_ascii() {
    for text in ["", " ", "a", " a ", "\t\n\x0b\x0c\r a b \r\n", "a\x0b", "\x0b\x0b"] {
        assert_eq!(trim(text.as_bytes()), text.trim().as_bytes(), "{text:?}");
    }
}
