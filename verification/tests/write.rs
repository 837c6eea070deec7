use m3u::read::{split_lines, Reader};
use m3u::write::Writer;

#[test]
fn entry() {
    // Create a multimedia playlist.
    let playlist = vec![
        m3u::path_entry(r"Alternative\Band - Song.mp3"),
        m3u::path_entry(r"Classical\Other Band - New Song.mp3"),
        m3u::path_entry(r"Stuff.mp3"),
        m3u::path_entry(r"D:\More Music\Foo.mp3"),
        m3u::path_entry(r"..\Other Music\Bar.mp3"),
        m3u::url_entry(r"http://emp.cx:8000/Listen.pls").unwrap(),
        m3u::url_entry(r"http://www.example.com/~user/Mine.mp3").unwrap(),
    ];

    // Write the playlist.
    let mut writer = Writer::new();
    for entry in &playlist {
        writer.write_entry(entry);
    }
    let text = writer.flush();

    // Read the playlist back.
    let mut reader = Reader::new(split_lines(&text));
    let read_playlist = reader.entries();
    assert_eq!(&playlist, &read_playlist);
}

#[test]
fn entry_ext() {
    // Create a playlist with the duration text and name for each entry.
    let playlist = vec![
        m3u::path_entry(r"C:\Documents and Settings\I\My Music\Sample.mp3")
            .extend("123", "Sample artist - Sample title"),
        m3u::path_entry(r"C:\Documents and Settings\I\My Music\Greatest Hits\Example.ogg")
            .extend("321", "Example Artist - Example title"),
        m3u::path_entry(r"Sample.mp3").extend("123", "Sample artist - Sample title"),
        m3u::path_entry(r"Greatest Hits\Example.ogg").extend("321", "Example Artist - Example title"),
    ];

    // Write the playlist.
    let mut writer = Writer::new_ext();
    for entry in &playlist {
        writer.write_entry_ext(entry);
    }
    let text = writer.flush();

    // Read the playlist back.
    let mut reader = Reader::new_ext(split_lines(&text)).unwrap();
    let read_playlist: Vec<_> = reader.entry_exts().into_iter().map(|e| e.unwrap()).collect();
    assert_eq!(&playlist, &read_playlist);
}

fn props(pairs: &[(&str, &str)]) -> m3u::iptv::IptvProps {
    let mut m = m3u::iptv::IptvProps::new();
    for (k, v) in pairs {
        m.insert(k.to_string(), v.to_string());
    }
    m
}

#[test]
fn write() {
    let mut writer = Writer::new_iptv();

    let entry = m3u::url_entry("http://server/stream.mp4")
        .unwrap()
        .extend("-1", "Channel 1")
        .with_iptv(props(&[
            ("tvg-id", "id channel 1"),
            ("tvg-logo", "http://server/logo.png"),
        ]));

    writer.write_entry_iptv(&entry);
    let result = writer.flush();
    assert_eq!(
        result,
        "#EXTM3U\n#EXTINF:-1 tvg-id=\"id channel 1\" tvg-logo=\"http://server/logo.png\",Channel 1\nhttp://server/stream.mp4\n"
    );
}

// Writing records and reading the text back yields an equal record
// sequence.
#[test]
fn iptv_round_trip() {
    let records = vec![
        m3u::url_entry("http://server/a.mp4")
            .unwrap()
            .extend("-1", "One")
            .with_iptv(props(&[("tvg-id", "1")])),
        m3u::path_entry("b.mp3")
            .extend("12", "Two, with commas")
            .with_iptv(props(&[("group-title", "x,y"), ("tvg-name", "Two")])),
    ];
    let mut writer = Writer::new_iptv();
    for r in &records {
        writer.write_entry_iptv(r);
    }
    let text = writer.flush();

    let mut reader = Reader::new_iptv(split_lines(&text)).unwrap();
    let read_back: Vec<_> = reader
        .iptv_entries()
        .into_iter()
        .map(|e| e.unwrap())
        .collect();
    assert_eq!(&read_back, &records);
}

// The serializer always fully quotes attribute values; the exact
// attribute text of a mapping.
#[test]
fn props_text_is_fully_quoted() {
    let m = props(&[("tvg-group", "fr")]);
    assert_eq!(m.to_string(), r#" tvg-group="fr""#);
    assert_eq!(props(&[]).to_string(), "");
}

// The header is emitted once at stream start, each entry as one line.
#[test]
fn header_then_two_lines_per_record() {
    let mut writer = Writer::new_ext();
    let entry = m3u::url_entry("http://server/stream.mp4")
        .unwrap()
        .extend("-1", "Channel 1");
    writer.write_entry_ext(&entry);
    let result = writer.flush();
    assert_eq!(result, "#EXTM3U\n#EXTINF:-1,Channel 1\nhttp://server/stream.mp4\n");
}
