use m3u::numtext::is_num_text;

#[test]
fn accepts_what_the_standard_parser_accepts() {
    for s in [
        "0", "10", "-1", "+3", "123", "1.5", "1.", ".5", "-1.25", "1e3", "1E3", "1.5e-3",
        "2e+10", "inf", "-inf", "Infinity", "nan", "NaN", "-NAN",
    ] {
        assert!(is_num_text(s), "should accept {:?}", s);
        assert!(s.parse::<f64>().is_ok(), "std should accept {:?}", s);
    }
}

#[test]
fn rejects_what_the_standard_parser_rejects() {
    for s in [
        "", " ", "abc", "1 ", " 1", "1,5", ".", "e3", "1e", "1e+", "--1", "1.2.3", "0x1",
        "in", "infx", "nanx", "+",
    ] {
        assert!(!is_num_text(s), "should reject {:?}", s);
        assert!(s.parse::<f64>().is_err(), "std should reject {:?}", s);
    }
}
