use m3u::iptv::{parse_extinf, IptvExtInf, IptvProps};

fn props(pairs: &[(&str, &str)]) -> IptvProps {
    let mut m = IptvProps::new();
    for (k, v) in pairs {
        m.insert(k.to_string(), v.to_string());
    }
    m
}

#[test]
fn example() {
    let s = r#"#EXTINF:-1 tvg-id="" tvg-name="TF1",TF1"#;
    assert_eq!(
        parse_extinf(s),
        Some(IptvExtInf {
            duration_secs: "-1".to_string(),
            name: "TF1".into(),
            iptv_props: props(&[("tvg-id", ""), ("tvg-name", "TF1")])
        })
    );
}

#[test]
fn negative_duration_with_empty_value() {
    assert_eq!(
        parse_extinf(r#"#EXTINF:-1 a="",Toto"#),
        Some(IptvExtInf {
            duration_secs: "-1".to_string(),
            name: "Toto".to_string(),
            iptv_props: props(&[("a", "")])
        })
    );
}

#[test]
fn empty_extinf_cannot_be_parsed() {
    assert_eq!(parse_extinf(""), None);
}

#[test]
fn extinf_may_contain_1_prop() {
    assert_eq!(
        parse_extinf("#EXTINF:10 a=\"\",Toto"),
        Some(IptvExtInf {
            name: "Toto".to_string(),
            duration_secs: "10".to_string(),
            iptv_props: props(&[("a", "")])
        })
    );
}

#[test]
fn property_value_may_contain_quotes() {
    assert_eq!(
        parse_extinf(r#"#EXTINF:10 a="var "a"",Toto"#),
        Some(IptvExtInf {
            name: "Toto".to_string(),
            duration_secs: "10".to_string(),
            iptv_props: props(&[("a", "var \"a\"")])
        })
    );
}

#[test]
fn property_value_may_contain_commas() {
    assert_eq!(
        parse_extinf(r#"#EXTINF:10 a="b,c",Toto"#),
        Some(IptvExtInf {
            name: "Toto".to_string(),
            duration_secs: "10".to_string(),
            iptv_props: props(&[("a", "b,c")])
        })
    );
}

#[test]
fn simple_extinf_is_allowed() {
    assert_eq!(
        parse_extinf("#EXTINF:10,Toto"),
        Some(IptvExtInf {
            name: "Toto".to_string(),
            duration_secs: "10".to_string(),
            iptv_props: IptvProps::new()
        })
    );
}

#[test]
fn value_may_contain_commas_and_accents() {
    let s = r#"#EXTINF:-1 tvg-id="" tvg-name="ES - Si Fueras Tú, La Película" tvg-logo="https://image.tmdb.org/t/p/w500/6TBLHCbQtxfiqPzlj3PPrVrRkEe.jpg" group-title="VOD | SPANISH",ES - Si Fueras Tú, La Película"#;
    assert_eq!(
        parse_extinf(s),
        Some(IptvExtInf {
            duration_secs: "-1".to_string(),
            name: "ES - Si Fueras Tú, La Película".to_string(),
            iptv_props: props(&[
                ("tvg-id", ""),
                ("tvg-name", "ES - Si Fueras Tú, La Película"),
                ("tvg-logo", "https://image.tmdb.org/t/p/w500/6TBLHCbQtxfiqPzlj3PPrVrRkEe.jpg"),
                ("group-title", "VOD | SPANISH")
            ])
        })
    );
}

// A duplicate key keeps its place in the mapping and the last write
// wins.
#[test]
fn duplicate_key_last_write_wins() {
    let parsed = parse_extinf(r#"#EXTINF:1 a="x" b="y" a="z",N"#).unwrap();
    assert_eq!(parsed.iptv_props.get("a").unwrap().as_str(), "z");
    assert_eq!(parsed.iptv_props.get("b").unwrap().as_str(), "y");
    assert_eq!(parsed.iptv_props.iter().len(), 2);
}

// The attribute mapping iterates in lexicographic key order, not in
// insertion order.
#[test]
fn props_iterate_in_lexicographic_order() {
    let parsed = parse_extinf(r#"#EXTINF:1 zz="1" aa="2" mm="3",N"#).unwrap();
    let keys: Vec<&str> = parsed
        .iptv_props
        .iter()
        .iter()
        .map(|(k, _)| k.as_str())
        .collect();
    assert_eq!(keys, vec!["aa", "mm", "zz"]);
    assert_eq!(
        parsed.iptv_props.to_string(),
        r#" aa="2" mm="3" zz="1""#
    );
}

// A duration that is not decimal text fails the whole parse.
#[test]
fn bad_duration_fails_the_parse() {
    assert_eq!(parse_extinf("#EXTINF:abc,Toto"), None);
    assert_eq!(parse_extinf("#EXTINF:1.5e3,Toto".trim()), {
        let expected = IptvExtInf {
            duration_secs: "1.5e3".to_string(),
            name: "Toto".to_string(),
            iptv_props: IptvProps::new(),
        };
        Some(expected)
    });
    assert_eq!(parse_extinf("#EXTINF:12..3,Toto"), None);
}

// A piece between closing marks that does not split as key="value"
// fails the whole parse; no partial mapping comes out.
#[test]
fn malformed_attribute_fails_the_parse() {
    assert_eq!(parse_extinf(r#"#EXTINF:1 a"b",N"#), None);
}

// Interpreting the same raw attribute text twice, including through
// the memoized cache, yields identical results.
#[test]
fn parse_twice_is_identical() {
    let raw = r#"#EXTINF:-1 a="b",Toto"#;
    let direct_once = parse_extinf(raw);
    let direct_twice = parse_extinf(raw);
    assert_eq!(direct_once, direct_twice);

    let mut entry = m3u::iptv::IptvEntry {
        entry: m3u::path_entry("x.mp3"),
        parsed_extinf: None,
        raw_extinf: raw.to_string(),
    };
    let first = entry.parsed_extinf();
    let second = entry.parsed_extinf();
    assert_eq!(first, second);
    assert_eq!(first.unwrap(), direct_once.unwrap());
}

// A record built from structured parts carries raw text that
// interprets back to exactly those parts, even with the cache
// cleared.
#[test]
fn serialized_raw_parses_back() {
    let built = m3u::url_entry("http://server/stream.mp4")
        .unwrap()
        .extend("-1", "Channel 1")
        .with_iptv(props(&[("tvg-id", "id 1"), ("tvg-name", "Channel 1")]));
    let expected = built.parsed_extinf.clone().unwrap().unwrap();
    let mut cleared = m3u::iptv::IptvEntry {
        entry: built.entry,
        parsed_extinf: None,
        raw_extinf: built.raw_extinf,
    };
    assert_eq!(cleared.parsed_extinf().unwrap(), expected);
}

// A failed interpretation carries the unmodified raw text and is
// cached like a success.
#[test]
fn failed_parse_keeps_raw_text() {
    let mut entry = m3u::iptv::IptvEntry {
        entry: m3u::path_entry("x.mp3"),
        parsed_extinf: None,
        raw_extinf: "#EXTINF:nope".to_string(),
    };
    let first = entry.parsed_extinf();
    assert!(first.is_err());
    let second = entry.parsed_extinf();
    assert_eq!(first, second);
}
