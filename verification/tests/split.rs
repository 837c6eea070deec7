use m3u::read::split::QuotationMarkRole::{CLOSING, ENDING, INNER};
use m3u::read::split::{is_closing_mark, next_closing_mark_index, split_key_val, QuotationMarkRole};

#[test]
fn test_split_key_val() {
    assert_eq!(split_key_val(" key=\"value\""), Some(("key", "value")));
    assert_eq!(split_key_val("key=\""), None);
    assert_eq!(split_key_val(""), None);
    assert_eq!(split_key_val("="), None);
    assert_eq!(split_key_val("=\"toto\""), Some(("", "toto")));
    assert_eq!(
        split_key_val(r#"key="value "1"""#),
        Some(("key", "value \"1\""))
    );
}

#[test]
fn test_next_closing_mark() {
    let s = r#"a="3" b="9 "13"" c="21"24"27",31, "36""#;
    //         01234567891113151719212325272931333537
    assert_eq!(next_closing_mark_index(s, 0), Some(4));
    assert_eq!(next_closing_mark_index(s, 5), Some(15));
    assert_eq!(next_closing_mark_index(s, 16), Some(28));
    assert_eq!(next_closing_mark_index(s, 29), None);
}

#[test]
fn test_is_closing_mark() {
    fn check(s: &str, i: usize, expected: QuotationMarkRole) {
        let actual = is_closing_mark(s, i);
        if actual != expected {
            panic!("i={}, expected={:?}, s={}", i, expected, &s[i..]);
        }
    }
    let s1 = r#"keya="val1" keyb="val 2" keyc="val "3"" keyd="""#;
    check(s1, 5, INNER);
    check(s1, 10, CLOSING);
    check(s1, 17, INNER);
    check(s1, 23, CLOSING);
    check(s1, 30, INNER);
    check(s1, 35, INNER);
    check(s1, 37, INNER);
    check(s1, 38, CLOSING);
    check(s1, 45, INNER);
    check(s1, 46, CLOSING);
    let s2 = r#"tvg-name="PPV- WRESTLING 03 | GCW: "Bring Em Out" (09.06-4:30PM ET)""#;
    check(s2, 10, INNER);
    check(s2, 35, INNER);
    check(s2, 48, INNER);
    check(s2, 57, INNER);
    let s3 = r#" keya="val1"  keyb="val "2"""#;
    check(s3, 6, INNER);
    check(s3, 11, CLOSING);
    check(s3, 19, INNER);
    check(s3, 24, INNER);
    check(s3, 26, INNER);
    check(s3, 27, CLOSING);
    let s4 = r#"a="3" b="9 "13"" c="21"24"27",31, "36""#;
    //          01234567891113151719212325272931333537
    check(s4, 2, INNER);
    check(s4, 4, CLOSING);
    check(s4, 8, INNER);
    check(s4, 11, INNER);
    check(s4, 14, INNER);
    check(s4, 15, CLOSING);
    check(s4, 19, INNER);
    check(s4, 22, INNER);
    check(s4, 25, INNER);
    check(s4, 28, ENDING);
}

// A key that carries a digit does not look like the start of an
// attribute, so the quote before it stays literal content.
#[test]
fn digit_in_key_is_not_an_attribute_start() {
    let s = r#"a="x" a1="y",n"#;
    assert_eq!(is_closing_mark(s, 4), QuotationMarkRole::INNER);
}

// Every closing quote of a well-formed, fully-quoted attribute list
// classifies as CLOSING or ENDING, never INNER.
#[test]
fn wf_list_closing_quotes_never_inner() {
    let s = r#" tvg-id="a" tvg-name="b,c" group-title="d",Name"#;
    //          0123456789111315171921232527293133353739414345
    assert_eq!(is_closing_mark(s, 10), QuotationMarkRole::CLOSING);
    assert_eq!(is_closing_mark(s, 25), QuotationMarkRole::CLOSING);
    assert_eq!(is_closing_mark(s, 41), QuotationMarkRole::ENDING);
    assert_eq!(next_closing_mark_index(s, 0), Some(10));
    assert_eq!(next_closing_mark_index(s, 11), Some(25));
    assert_eq!(next_closing_mark_index(s, 26), Some(41));
    assert_eq!(next_closing_mark_index(s, 42), None);
}
