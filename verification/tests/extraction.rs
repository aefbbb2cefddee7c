use cutr::extract::{
    extract_bytes, extract_chars, extract_fields, parse_delimiter, select_mode, Extract,
};
use cutr::position::Span;

fn sp(start: usize, end: usize) -> Span {
    Span { start, end }
}

#[test]
fn test_extract_chars() {
    assert_eq!(extract_chars("", &vec![sp(0, 1)]), "".to_string());
    assert_eq!(extract_chars("ábc", &vec![sp(0, 1)]), "á".to_string());
    assert_eq!(
        extract_chars("ábc", &vec![sp(0, 1), sp(2, 3)]),
        "ác".to_string()
    );
    assert_eq!(extract_chars("ábc", &vec![sp(0, 3)]), "ábc".to_string());
    assert_eq!(
        extract_chars("ábc", &vec![sp(2, 3), sp(1, 2)]),
        "cb".to_string()
    );
    assert_eq!(
        extract_chars("ábc", &vec![sp(0, 1), sp(1, 2), sp(4, 5)]),
        "áb".to_string()
    );
}

#[test]
fn test_extract_bytes() {
    assert_eq!(extract_bytes("ábc", &vec![sp(0, 1)]), "�".to_string());
    assert_eq!(extract_bytes("ábc", &vec![sp(0, 2)]), "á".to_string());
    assert_eq!(extract_bytes("ábc", &vec![sp(0, 3)]), "áb".to_string());
    assert_eq!(extract_bytes("ábc", &vec![sp(0, 4)]), "ábc".to_string());
    assert_eq!(
        extract_bytes("ábc", &vec![sp(3, 4), sp(2, 3)]),
        "cb".to_string()
    );
    assert_eq!(
        extract_bytes("ábc", &vec![sp(0, 2), sp(5, 6)]),
        "á".to_string()
    );
}

#[test]
fn test_extract_fields() {
    let rec = vec![
        "Captain".to_string(),
        "Sham".to_string(),
        "12345".to_string(),
    ];
    assert_eq!(extract_fields(&rec, &vec![sp(0, 1)]), vec!["Captain"]);
    assert_eq!(extract_fields(&rec, &vec![sp(1, 2)]), vec!["Sham"]);
    assert_eq!(
        extract_fields(&rec, &vec![sp(0, 1), sp(2, 3)]),
        vec!["Captain", "12345"]
    );
    assert_eq!(
        extract_fields(&rec, &vec![sp(0, 1), sp(3, 4)]),
        vec!["Captain"]
    );
    assert_eq!(
        extract_fields(&rec, &vec![sp(1, 2), sp(0, 1)]),
        vec!["Sham", "Captain"]
    );
}

#[test]
fn test_extract_repeats_and_order() {
    assert_eq!(extract_chars("abc", &vec![sp(0, 1), sp(0, 1)]), "aa");
    assert_eq!(extract_chars("abc", &vec![sp(2, 3), sp(0, 2)]), "cab");
    let rec = vec!["a".to_string(), "b".to_string()];
    assert_eq!(
        extract_fields(&rec, &vec![sp(0, 1), sp(0, 2)]),
        vec!["a", "a", "b"]
    );
}

#[test]
fn test_select_mode_single() {
    match select_mode(Some("1,3".to_string()), None, None) {
        Ok(Extract::Fields(v)) => assert_eq!(v, vec![sp(0, 1), sp(2, 3)]),
        other => panic!("expected fields: {:?}", other),
    }
    match select_mode(None, Some("1-3".to_string()), None) {
        Ok(Extract::Bytes(v)) => assert_eq!(v, vec![sp(0, 3)]),
        other => panic!("expected bytes: {:?}", other),
    }
    match select_mode(None, None, Some("2".to_string())) {
        Ok(Extract::Chars(v)) => assert_eq!(v, vec![sp(1, 2)]),
        other => panic!("expected chars: {:?}", other),
    }
}

#[test]
fn test_select_mode_none_or_many() {
    let res = select_mode(None, None, None);
    assert_eq!(
        res.unwrap_err().message(),
        "No extract option provided"
    );
    let res = select_mode(Some("1".to_string()), None, Some("2".to_string()));
    assert_eq!(
        res.unwrap_err().message(),
        "More than one extract option provided"
    );
}

#[test]
fn test_select_mode_bad_list() {
    let res = select_mode(None, None, Some("x".to_string()));
    assert_eq!(res.unwrap_err().message(), r#"illegal list value: "x""#);
}

#[test]
fn test_parse_delimiter() {
    assert_eq!(parse_delimiter("\t").unwrap(), b'\t');
    assert_eq!(parse_delimiter(",").unwrap(), b',');
    let res = parse_delimiter("ab");
    assert_eq!(
        res.unwrap_err().message(),
        r#"--delim "ab" must be a single byte"#
    );
    // One character, but two bytes once encoded
    let res = parse_delimiter("á");
    assert_eq!(
        res.unwrap_err().message(),
        r#"--delim "á" must be a single byte"#
    );
}
