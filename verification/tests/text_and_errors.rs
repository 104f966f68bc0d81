use high_level_caiman::error::{type_error, Error, ErrorKind, ErrorLocation, Info, LocalError};
use high_level_caiman::text::{parse_usize, usize_to_text, u64_to_text, IntErrorKind, int_error_message};

#[test]
fn decimal_rendering() {
    assert_eq!(usize_to_text(0), "0");
    assert_eq!(usize_to_text(1234), "1234");
    assert_eq!(u64_to_text(18446744073709551615), "18446744073709551615");
}

#[test]
fn parse_usize_like_std() {
    assert_eq!(parse_usize("42"), Ok(42));
    assert_eq!(parse_usize("+7"), Ok(7));
    assert_eq!(parse_usize("007"), Ok(7));
    assert_eq!(parse_usize(""), Err(IntErrorKind::Empty));
    assert_eq!(parse_usize("+"), Err(IntErrorKind::InvalidDigit));
    assert_eq!(parse_usize("-1"), Err(IntErrorKind::InvalidDigit));
    assert_eq!(parse_usize("12a"), Err(IntErrorKind::InvalidDigit));
    let too_big = format!("{}0", usize::MAX);
    assert_eq!(parse_usize(&too_big), Err(IntErrorKind::PosOverflow));
    for s in ["42", "+7", "", "+", "12a", too_big.as_str()] {
        assert_eq!(parse_usize(s).ok(), s.parse::<usize>().ok());
    }
}

#[test]
fn parse_error_messages_match_std() {
    let e = "".parse::<usize>().unwrap_err().to_string();
    assert_eq!(int_error_message(IntErrorKind::Empty), e);
    let e = "x".parse::<usize>().unwrap_err().to_string();
    assert_eq!(int_error_message(IntErrorKind::InvalidDigit), e);
    let e = format!("{}0", usize::MAX).parse::<usize>().unwrap_err().to_string();
    assert_eq!(int_error_message(IntErrorKind::PosOverflow), e);
}

#[test]
fn parse_reads_back_rendered_numbers() {
    for n in [0usize, 9, 10, 99, 100, 123456789, usize::MAX] {
        assert_eq!(parse_usize(&usize_to_text(n)), Ok(n));
    }
}

#[test]
fn info_text_and_range() {
    let a = Info { start_ln_and_col: (1, 2), end_ln_and_col: (3, 4) };
    let b = Info { start_ln_and_col: (5, 6), end_ln_and_col: (7, 8) };
    assert_eq!(a.to_text(), "1:2 - 3:4");
    let r = Info::new_range(&a, &b);
    assert_eq!(r.start_ln_and_col, (1, 2));
    assert_eq!(r.end_ln_and_col, (7, 8));
    assert_eq!(Info::default().to_text(), "0:0 - 0:0");
}

#[test]
fn error_messages() {
    let info = Info { start_ln_and_col: (3, 9), end_ln_and_col: (4, 1) };
    let e = type_error(info, "bad type");
    assert_eq!(e.kind, ErrorKind::TypeError(String::from("bad type")));
    assert_eq!(e.location, ErrorLocation::Double(info));
    let full = Error { error: e, filename: String::from("f.cm") };
    assert_eq!(full.message(), "At f.cm:3:9, \n  Type Error: bad type");
    let io = Error {
        error: LocalError { kind: ErrorKind::IO(String::from("gone")), location: ErrorLocation::Single(0, 0) },
        filename: String::from("g"),
    };
    assert_eq!(io.message(), "At g:0:0, \n  IO Error: gone");
    let syn = Error {
        error: LocalError { kind: ErrorKind::SyntaxParsing(String::from("x")), location: ErrorLocation::Single(2, 5) },
        filename: String::from("h"),
    };
    assert_eq!(syn.message(), "At h:2:5, \n  Parsing Error: x");
}
