use m3u::read::iptv::next_iptv_entry;
use m3u::read::{split_lines, EntryExtReaderConstructionError, ReadEntryExtError, Reader};

fn lines_of(text: &str) -> Vec<String> {
    split_lines(text)
}

#[test]
fn mixed() {
    let text = "Alternative\\Band - Song.mp3\n\
                Classical\\Other Band - New Song.mp3\n\
                Stuff.mp3\n\
                D:\\More Music\\Foo.mp3\n\
                ..\\Other Music\\Bar.mp3\n\
                http://emp.cx:8000/Listen.pls\n\
                http://www.example.com/~user/Mine.mp3\n";
    let mut reader = Reader::new(lines_of(text));
    let entries = reader.entries();
    let mut it = entries.into_iter();

    assert_eq!(it.next().unwrap(), m3u::path_entry(r"Alternative\Band - Song.mp3"));
    assert_eq!(
        it.next().unwrap(),
        m3u::path_entry(r"Classical\Other Band - New Song.mp3")
    );
    assert_eq!(it.next().unwrap(), m3u::path_entry(r"Stuff.mp3"));
    assert_eq!(it.next().unwrap(), m3u::path_entry(r"D:\More Music\Foo.mp3"));
    assert_eq!(it.next().unwrap(), m3u::path_entry(r"..\Other Music\Bar.mp3"));
    assert_eq!(
        it.next().unwrap(),
        m3u::url_entry(r"http://emp.cx:8000/Listen.pls").unwrap()
    );
    assert_eq!(
        it.next().unwrap(),
        m3u::url_entry(r"http://www.example.com/~user/Mine.mp3").unwrap()
    );
    assert!(it.next().is_none());
}

#[test]
fn ext() {
    let expected = vec![
        m3u::path_entry(r"C:\Documents and Settings\I\My Music\Sample.mp3")
            .extend("123", "Sample artist - Sample title"),
        m3u::path_entry(r"C:\Documents and Settings\I\My Music\Greatest Hits\Example.ogg")
            .extend("321", "Example Artist - Example title"),
        m3u::path_entry(r"Sample.mp3").extend("123", "Sample artist - Sample title"),
        m3u::path_entry(r"Greatest Hits\Example.ogg").extend("321", "Example Artist - Example title"),
    ];

    let text = "#EXTM3U\n\
                \n\
                #EXTINF:123, Sample artist - Sample title\n\
                C:\\Documents and Settings\\I\\My Music\\Sample.mp3\n\
                \n\
                #EXTINF:321,Example Artist - Example title\n\
                C:\\Documents and Settings\\I\\My Music\\Greatest Hits\\Example.ogg\n\
                \n\
                #EXTINF:123,Sample artist - Sample title\n\
                Sample.mp3\n\
                \n\
                #EXTINF:321,Example Artist - Example title\n\
                Greatest Hits\\Example.ogg\n";
    let mut reader = Reader::new_ext(lines_of(text)).unwrap();
    let entries: Vec<_> = reader.entry_exts().into_iter().map(|e| e.unwrap()).collect();

    assert_eq!(&entries, &expected);
}

// A header followed directly by an entry line with no tag line: the
// read reports a tag-missing error whose fallback entry is the
// classified network location.
#[test]
fn tagless_line_reports_fallback_entry() {
    let text = "#EXTM3U\nhttp://host/a.mp4\n";
    let mut reader = Reader::new_ext(lines_of(text)).unwrap();
    match reader.read_next_entry_ext() {
        Err(ReadEntryExtError::ExtInfNotFound(e)) => {
            assert_eq!(e, m3u::url_entry("http://host/a.mp4").unwrap());
            assert!(e.is_url());
        }
        other => panic!("expected a tag-missing error, got {:?}", other),
    }
}

// The first non-blank line must open with the header token.
#[test]
fn missing_header_is_a_construction_error() {
    assert_eq!(
        Reader::new_ext(lines_of("\n  \nStuff.mp3\n")).unwrap_err(),
        EntryExtReaderConstructionError::HeaderNotFound
    );
    assert_eq!(
        Reader::new_ext(lines_of("")).unwrap_err(),
        EntryExtReaderConstructionError::HeaderNotFound
    );
    assert!(Reader::new_ext(lines_of("  \n\t\n#EXTM3U\n")).is_ok());
}

// A drive-letter path is not mistaken for a network location: the
// parse may succeed with a scheme but no host is present.
#[test]
fn drive_letter_path_stays_a_path() {
    let mut reader = Reader::new(lines_of("C:\\Music\\a.mp3\n"));
    let entry = reader.read_next_entry().unwrap();
    assert_eq!(entry, m3u::path_entry(r"C:\Music\a.mp3"));
    assert!(entry.is_path());
}

// The stored location text is the canonical serialization, not the
// input text.
#[test]
fn url_text_is_normalized() {
    let entry = m3u::url_entry("HTTP://Example.COM/path").unwrap();
    match &entry {
        m3u::Entry::Url(u) => assert_eq!(u.as_str(), "http://example.com/path"),
        m3u::Entry::Path(_) => panic!("expected a network location"),
    }
    assert!(m3u::url_entry("not a url").is_err());
}

#[test]
fn test_iptv_entry_reader() {
    let text = "#EXTM3U\n    #EXTINF:-1 group-title=\"VOD | SPANISH\" tvg-id=\"\" tvg-logo=\"https://image.tmdb.org/t/p/w500/6TBLHCbQtxfiqPzlj3PPrVrRkEe.jpg\" tvg-name=\"ES - Si Fueras Tú, La Película\",ES - Si Fueras Tú, La Película\nhttp://borg.hopto.org:8090/html/greetings.mp4";
    let ier = Reader::new_iptv(lines_of(text));
    let expected = m3u::url_entry("http://borg.hopto.org:8090/html/greetings.mp4")
        .unwrap()
        .extend("-1", "ES - Si Fueras Tú, La Película")
        .with_iptv(props(&[
            ("tvg-id", ""),
            ("tvg-name", "ES - Si Fueras Tú, La Película"),
            ("tvg-logo", "https://image.tmdb.org/t/p/w500/6TBLHCbQtxfiqPzlj3PPrVrRkEe.jpg"),
            ("group-title", "VOD | SPANISH"),
        ]));
    let actual = ier.unwrap().read_next_iptv_entry().unwrap().unwrap();
    assert_eq!(actual.raw_extinf, expected.raw_extinf);
    assert_eq!(actual, expected);
}

#[test]
fn raw_extinf_is_available_in_entry() {
    let extinf = r#"#EXTINF:-1 tvg-id="" tvg-name="ES - Si Fueras Tú, La Película" tvg-logo="https://image.tmdb.org/t/p/w500/6TBLHCbQtxfiqPzlj3PPrVrRkEe.jpg" group-title="VOD | SPANISH",ES - Si Fueras Tú, La Película"#;
    let text = format!(
        "#EXTM3U\n    {}\nhttp://borg.hopto.org:8090/html/greetings.mp4",
        extinf
    );
    let ier = Reader::new_iptv(lines_of(&text));
    assert_eq!(
        ier.unwrap()
            .read_next_iptv_entry()
            .unwrap()
            .unwrap()
            .raw_extinf
            .as_str(),
        extinf
    );
}

#[test]
fn test() {
    let m3u = "#EXTINF:-1,Titre 1\n    http://toto";
    let lines = lines_of(m3u);
    let mut pos: usize = 0;
    let mut actual = next_iptv_entry(&lines, &mut pos).unwrap().unwrap();
    actual.parsed_extinf();
    let expected = m3u::iptv::IptvEntry {
        entry: m3u::url_entry("http://toto").unwrap(),
        raw_extinf: "#EXTINF:-1,Titre 1".to_string(),
        parsed_extinf: Some(Ok(m3u::iptv::IptvExtInf::new(
            "-1",
            "Titre 1".into(),
            m3u::iptv::IptvProps::new(),
        ))),
    };
    assert_eq!(actual, expected);
}

fn props(pairs: &[(&str, &str)]) -> m3u::iptv::IptvProps {
    let mut m = m3u::iptv::IptvProps::new();
    for (k, v) in pairs {
        m.insert(k.to_string(), v.to_string());
    }
    m
}

#[test]
fn read() {
    let text = "#EXTM3U\n#EXTINF:-1 tvg-id=\"\" tvg-name=\"##### BEIN SPORT #####\" tvg-logo=\"http://212.8.253.112/logo/BEIN/BEINSPORTS.png\" group-title=\"AR | BEIN SPORT\",#### BEIN SPORT #####\nhttp://borg.hopto.org:8090/html/greetings.mp4\n";
    let mut expected = vec![m3u::url_entry(r"http://borg.hopto.org:8090/html/greetings.mp4")
        .unwrap()
        .extend("-1", "#### BEIN SPORT #####")
        .with_iptv(props(&[
            ("tvg-id", ""),
            ("tvg-name", "##### BEIN SPORT #####"),
            ("tvg-logo", "http://212.8.253.112/logo/BEIN/BEINSPORTS.png"),
            ("group-title", "AR | BEIN SPORT"),
        ]))];

    let mut reader = Reader::new_iptv(lines_of(text)).unwrap();
    let entry_exts = reader.iptv_entries();
    let mut entries: Vec<_> = entry_exts
        .into_iter()
        .inspect(|e| println!("entry:{:?}", e))
        .map(|e| e.unwrap())
        .collect();
    for entry in entries.iter_mut().take(1) {
        let parsed = entry.parsed_extinf().unwrap();
        let expected_parsed = expected[0].parsed_extinf().unwrap();
        for pair in parsed.iptv_props.iter() {
            assert_eq!(
                expected_parsed.iptv_props.get(pair.0.as_str()).unwrap(),
                &pair.1
            );
        }
    }
    assert_eq!(&entries, &expected);
}

// Comments inside the record loop are skipped without consuming the
// entry line that follows them.
#[test]
fn comments_are_skipped() {
    let text = "#EXTM3U\n# a comment\n#EXTINF:5,N\n# another\nfile.mp3\n";
    let mut reader = Reader::new_ext(lines_of(text)).unwrap();
    let got = reader.read_next_entry_ext().unwrap().unwrap();
    assert_eq!(got, m3u::path_entry("file.mp3").extend("5", "N"));
    assert!(reader.read_next_entry_ext().unwrap().is_none());
}

// A tag line at the end of input, with no entry line after it, ends
// the reading with no record.
#[test]
fn tag_without_entry_is_end_of_input() {
    let text = "#EXTM3U\n#EXTINF:5,N\n";
    let mut reader = Reader::new_ext(lines_of(text)).unwrap();
    assert!(reader.read_next_entry_ext().unwrap().is_none());
}

// A tag line whose duration does not parse: the next line still
// becomes the fallback entry of the recoverable error.
#[test]
fn malformed_tag_line_reports_fallback_entry() {
    let text = "#EXTM3U\n#EXTINF:oops,N\nfile.mp3\n";
    let mut reader = Reader::new_ext(lines_of(text)).unwrap();
    match reader.read_next_entry_ext() {
        Err(ReadEntryExtError::ExtInfNotFound(e)) => {
            assert_eq!(e, m3u::path_entry("file.mp3"));
        }
        other => panic!("expected a tag-missing error, got {:?}", other),
    }
}

#[test]
fn split_lines_shapes() {
    assert_eq!(split_lines(""), Vec::<String>::new());
    assert_eq!(split_lines("a"), vec!["a".to_string()]);
    assert_eq!(split_lines("a\n"), vec!["a".to_string()]);
    assert_eq!(split_lines("a\n\nb"), vec!["a".to_string(), "".to_string(), "b".to_string()]);
}

#[test]
fn into_inner_returns_the_lines() {
    let reader = Reader::new(lines_of("a\nb\n"));
    assert_eq!(reader.into_inner(), vec!["a".to_string(), "b".to_string()]);
}
