use cutr::count::{count, FileInfo};
use cutr::take::{get_end_line, TakeValue};

#[test]
fn test_count_empty() {
    let text = "";
    let info = count(text);
    let expected = FileInfo {
        num_lines: 0,
        num_words: 0,
        num_bytes: 0,
        num_chars: 0,
    };
    assert_eq!(info, expected);
}

#[test]
fn test_count_one() {
    let text = "hello \tworld\r\n";
    let info = count(text);
    let expected = FileInfo {
        num_lines: 1,
        num_words: 2,
        num_bytes: 14,
        num_chars: 14,
    };
    assert_eq!(info, expected);
}

#[test]
fn test_count_strange_f() {
    let text = "ﬀ\r\n";
    let info = count(text);
    let expected = FileInfo {
        num_lines: 1,
        num_words: 1,
        num_bytes: 5,
        num_chars: 3,
    };
    assert_eq!(info, expected);
}

#[test]
fn test_count() {
    let text = "I don't want the world. I just want your half.\r\n";
    let info = count(text);
    let expected = FileInfo {
        num_lines: 1,
        num_words: 10,
        num_bytes: 48,
        num_chars: 48,
    };
    assert_eq!(info, expected);
}

#[test]
fn test_count_unterminated_and_unicode_space() {
    // Two lines, the second without a trailing newline; an em space
    // separates two words just as an ASCII space would.
    let text = "one\ntwo\u{2003}three";
    let info = count(text);
    let expected = FileInfo {
        num_lines: 2,
        num_words: 3,
        num_bytes: 15,
        num_chars: 13,
    };
    assert_eq!(info, expected);
}

#[test]
fn test_get_end_line() {
    assert_eq!(get_end_line(&TakeValue::MinusZero, 10), Some(10));
    assert_eq!(get_end_line(&TakeValue::TakeNum(3), 10), Some(3));
    assert_eq!(get_end_line(&TakeValue::TakeNum(20), 10), Some(10));
    assert_eq!(get_end_line(&TakeValue::TakeNum(0), 10), Some(0));
    assert_eq!(get_end_line(&TakeValue::TakeNum(-3), 10), Some(7));
    assert_eq!(get_end_line(&TakeValue::TakeNum(-20), 10), Some(0));
}
