use cutr::digits::usize_to_decimal;
use cutr::position::{materialize, parse_pos, Span};
use cutr::take::{parse_num, TakeValue};

fn sp(start: usize, end: usize) -> Span {
    Span { start, end }
}

#[test]
fn test_parse_pos() {
    // The empty string is an error
    assert!(parse_pos("".to_string()).is_err());

    // Zero is an error
    let res = parse_pos("0".to_string());
    assert!(res.is_err());
    assert_eq!(res.unwrap_err().message(), r#"illegal list value: "0""#);

    let res = parse_pos("0-1".to_string());
    assert!(res.is_err());
    assert_eq!(res.unwrap_err().message(), r#"illegal list value: "0""#);

    // A leading "+" is an error
    let res = parse_pos("+1".to_string());
    assert!(res.is_err());
    assert_eq!(res.unwrap_err().message(), r#"illegal list value: "+1""#,);

    let res = parse_pos("+1-2".to_string());
    assert!(res.is_err());
    assert_eq!(res.unwrap_err().message(), r#"illegal list value: "+1""#,);

    let res = parse_pos("1-+2".to_string());
    assert!(res.is_err());
    assert_eq!(res.unwrap_err().message(), r#"illegal list value: "+2""#,);

    // Any non-number is an error
    let res = parse_pos("a".to_string());
    assert!(res.is_err());
    assert_eq!(res.unwrap_err().message(), r#"illegal list value: "a""#);

    let res = parse_pos("1,a".to_string());
    assert!(res.is_err());
    assert_eq!(res.unwrap_err().message(), r#"illegal list value: "a""#);

    let res = parse_pos("1-a".to_string());
    assert!(res.is_err());
    assert_eq!(res.unwrap_err().message(), r#"illegal list value: "a""#,);

    let res = parse_pos("a-1".to_string());
    assert!(res.is_err());
    assert_eq!(res.unwrap_err().message(), r#"illegal list value: "a""#,);

    // Wonky ranges
    let res = parse_pos("-".to_string());
    assert!(res.is_err());

    let res = parse_pos(",".to_string());
    assert!(res.is_err());

    let res = parse_pos("1,".to_string());
    assert!(res.is_err());

    let res = parse_pos("1-".to_string());
    assert!(res.is_err());

    let res = parse_pos("1-1-1".to_string());
    assert!(res.is_err());

    let res = parse_pos("1-1-a".to_string());
    assert!(res.is_err());

    // First number must be less than second
    let res = parse_pos("1-1".to_string());
    assert!(res.is_err());
    assert_eq!(
        res.unwrap_err().message(),
        "First number in range (1) must be lower than second number (1)"
    );

    let res = parse_pos("2-1".to_string());
    assert!(res.is_err());
    assert_eq!(
        res.unwrap_err().message(),
        "First number in range (2) must be lower than second number (1)"
    );

    // All the following are acceptable
    let res = parse_pos("1".to_string());
    assert!(res.is_ok());
    assert_eq!(res.unwrap(), vec![sp(0, 1)]);

    let res = parse_pos("01".to_string());
    assert!(res.is_ok());
    assert_eq!(res.unwrap(), vec![sp(0, 1)]);

    let res = parse_pos("1,3".to_string());
    assert!(res.is_ok());
    assert_eq!(res.unwrap(), vec![sp(0, 1), sp(2, 3)]);

    let res = parse_pos("001,0003".to_string());
    assert!(res.is_ok());
    assert_eq!(res.unwrap(), vec![sp(0, 1), sp(2, 3)]);

    let res = parse_pos("1-3".to_string());
    assert!(res.is_ok());
    assert_eq!(res.unwrap(), vec![sp(0, 3)]);

    let res = parse_pos("0001-03".to_string());
    assert!(res.is_ok());
    assert_eq!(res.unwrap(), vec![sp(0, 3)]);

    let res = parse_pos("1,7,3-5".to_string());
    assert!(res.is_ok());
    assert_eq!(res.unwrap(), vec![sp(0, 1), sp(6, 7), sp(2, 5)]);

    let res = parse_pos("15,19-20".to_string());
    assert!(res.is_ok());
    assert_eq!(res.unwrap(), vec![sp(14, 15), sp(18, 20)]);
}

#[test]
fn test_parse_num() {
    let ret = parse_num("1");
    assert_eq!(ret.unwrap(), TakeValue::TakeNum(1));
    let ret = parse_num("0");
    assert_eq!(ret.unwrap(), TakeValue::TakeNum(0));
    let ret = parse_num("-0");
    assert_eq!(ret.unwrap(), TakeValue::MinusZero);
    let ret = parse_num("-1");
    assert_eq!(ret.unwrap(), TakeValue::TakeNum(-1));
}

#[test]
fn test_parse_num_rejects() {
    assert_eq!(parse_num("").unwrap_err(), "");
    assert_eq!(parse_num("-").unwrap_err(), "-");
    assert_eq!(parse_num("+1").unwrap_err(), "+1");
    assert_eq!(parse_num("3.5").unwrap_err(), "3.5");
    assert_eq!(parse_num("foo").unwrap_err(), "foo");
    // One past each end of the signed range
    assert_eq!(
        parse_num("9223372036854775808").unwrap_err(),
        "9223372036854775808"
    );
    assert_eq!(
        parse_num("-9223372036854775809").unwrap_err(),
        "-9223372036854775809"
    );
}

#[test]
fn test_parse_num_extremes() {
    assert_eq!(
        parse_num("9223372036854775807").unwrap(),
        TakeValue::TakeNum(i64::MAX)
    );
    assert_eq!(
        parse_num("-9223372036854775808").unwrap(),
        TakeValue::TakeNum(i64::MIN)
    );
}

#[test]
fn test_zero_in_range_rear() {
    let res = parse_pos("1-0".to_string());
    assert!(res.is_err());
    assert_eq!(res.unwrap_err().message(), r#"illegal list value: "0""#);
}

#[test]
fn test_value_too_large() {
    let res = parse_pos("99999999999999999999999".to_string());
    assert!(res.is_err());
    assert_eq!(
        res.unwrap_err().message(),
        "number too large to fit in target type"
    );
}

#[test]
fn test_usize_to_decimal() {
    assert_eq!(usize_to_decimal(0), "0");
    assert_eq!(usize_to_decimal(7), "7");
    assert_eq!(usize_to_decimal(12345), "12345");
    assert_eq!(usize_to_decimal(1000), "1000");
}

#[test]
fn test_materialize_roundtrip() {
    let pl = parse_pos("15,19-20".to_string()).unwrap();
    let s = materialize(&pl);
    assert_eq!(s, "15,19-20");
    let pl2 = parse_pos(s).unwrap();
    assert_eq!(pl2, pl);

    let pl = parse_pos("0001-03,2".to_string()).unwrap();
    let s = materialize(&pl);
    assert_eq!(s, "1-3,2");
    let pl2 = parse_pos(s).unwrap();
    assert_eq!(pl2, pl);

    let pl = vec![sp(0, 1)];
    assert_eq!(materialize(&pl), "1");
}
