use nrip::codec::{load_entries, save_entries};
use nrip::index::{Entry, Kind};

fn entry(orig: &str, trash: &str, at: i64, kind: Kind) -> Entry {
    Entry {
        original_path: orig.as_bytes().to_vec(),
        trashed_path: trash.as_bytes().to_vec(),
        deleted_at: at,
        kind,
    }
}

fn assert_same_entries(a: &[Entry], b: &[Entry]) {
    assert_eq!(a.len(), b.len());
    for (x, y) in a.iter().zip(b.iter()) {
        assert_eq!(x.original_path, y.original_path);
        assert_eq!(x.trashed_path, y.trashed_path);
        assert_eq!(x.deleted_at, y.deleted_at);
        assert_eq!(x.kind, y.kind);
    }
}

#[test]
fn empty_catalog_renders_and_reads_back() {
    let entries: Vec<Entry> = Vec::new();
    let bytes = save_entries(&entries);
    assert_eq!(bytes, b"{\"items\":[]}".to_vec());
    let back = load_entries(&bytes).unwrap();
    assert!(back.is_empty());
}

#[test]
fn one_entry_renders_exact_bytes() {
    let entries = vec![entry("/home/u/report.txt", "/data/nrip/graveyard/x__y__report.txt", 1700000000, Kind::File)];
    let bytes = save_entries(&entries);
    let expected = "{\"items\":[{\"original_path\":\"/home/u/report.txt\",\"trashed_path\":\"/data/nrip/graveyard/x__y__report.txt\",\"deleted_at\":1700000000,\"kind\":\"File\"}]}";
    assert_eq!(bytes, expected.as_bytes().to_vec());
}

#[test]
fn catalog_round_trips_many_entries() {
    let entries = vec![
        entry("/a/plain.txt", "/g/t1", 0, Kind::File),
        entry("/a/dir", "/g/t2", -5, Kind::Dir),
        entry("/a/link", "/g/t3", i64::MAX, Kind::Symlink),
        entry("/a/odd", "/g/t4", i64::MIN, Kind::Other),
        entry("/sp ace/and\"quote\\back", "/g/t5", 42, Kind::File),
        entry("/tab\tnew\nline", "/g/t6", 43, Kind::File),
        entry("/unicode/\u{00e9}t\u{00e9}_\u{1f980}", "/g/t7", 44, Kind::Dir),
    ];
    let bytes = save_entries(&entries);
    let back = load_entries(&bytes).unwrap();
    assert_same_entries(&entries, &back);
}

#[test]
fn control_bytes_in_paths_round_trip() {
    let mut orig = b"/weird/".to_vec();
    for b in 0u8..0x20 {
        orig.push(b | 0x01);
    }
    let entries = vec![Entry {
        original_path: orig,
        trashed_path: b"/g/t".to_vec(),
        deleted_at: 7,
        kind: Kind::File,
    }];
    let bytes = save_entries(&entries);
    let back = load_entries(&bytes).unwrap();
    assert_same_entries(&entries, &back);
}

#[test]
fn reader_tolerates_whitespace_between_tokens() {
    let doc = b"  {\n  \"items\" : [\r\n    { \"original_path\" : \"/a\" ,\n      \"trashed_path\" : \"/g/t\" ,\n      \"deleted_at\" : 12 ,\n      \"kind\" : \"Dir\" }\n  ]\n}\n".to_vec();
    let back = load_entries(&doc).unwrap();
    assert_eq!(back.len(), 1);
    assert_eq!(back[0].original_path, b"/a".to_vec());
    assert_eq!(back[0].deleted_at, 12);
    assert_eq!(back[0].kind, Kind::Dir);
}

#[test]
fn missing_kind_reads_as_other() {
    let doc = b"{\"items\":[{\"original_path\":\"/a\",\"trashed_path\":\"/g/t\",\"deleted_at\":3}]}".to_vec();
    let back = load_entries(&doc).unwrap();
    assert_eq!(back.len(), 1);
    assert_eq!(back[0].kind, Kind::Other);
}

#[test]
fn string_escapes_are_decoded() {
    let doc = b"{\"items\":[{\"original_path\":\"\\u0041\\t\\n\\\"\\\\\\/\",\"trashed_path\":\"/g/t\",\"deleted_at\":0,\"kind\":\"File\"}]}".to_vec();
    let back = load_entries(&doc).unwrap();
    assert_eq!(back[0].original_path, b"A\t\n\"\\/".to_vec());
}

#[test]
fn negative_timestamp_round_trips() {
    let entries = vec![entry("/a", "/g/t", -1234567, Kind::File)];
    let bytes = save_entries(&entries);
    assert!(String::from_utf8(bytes.clone()).unwrap().contains("-1234567"));
    let back = load_entries(&bytes).unwrap();
    assert_eq!(back[0].deleted_at, -1234567);
}

#[test]
fn malformed_documents_are_refused() {
    for doc in [
        &b""[..],
        b"{",
        b"{\"items\":}",
        b"{\"items\":[",
        b"{\"items\":[{}]}",
        b"{\"items\":[]} trailing",
        b"{\"item\":[]}",
        b"{\"items\":[{\"original_path\":\"/a\",\"trashed_path\":\"/g\",\"deleted_at\":01}]}",
        b"{\"items\":[{\"original_path\":\"/a\",\"trashed_path\":\"/g\",\"deleted_at\":9223372036854775808}]}",
        b"{\"items\":[{\"original_path\":\"/a\",\"trashed_path\":\"/g\",\"deleted_at\":1,\"kind\":\"Weird\"}]}",
        b"{\"items\":[{\"original_path\":\"/a\",\"trashed_path\":\"/g\",\"deleted_at\":1}",
    ] {
        assert!(load_entries(&doc.to_vec()).is_err(), "should refuse: {:?}", doc);
    }
}

#[test]
fn extreme_timestamps_round_trip() {
    let entries = vec![
        entry("/a", "/g/1", i64::MIN, Kind::File),
        entry("/b", "/g/2", i64::MAX, Kind::File),
        entry("/c", "/g/3", 0, Kind::File),
    ];
    let bytes = save_entries(&entries);
    let back = load_entries(&bytes).unwrap();
    assert_same_entries(&entries, &back);
}

#[test]
fn escapes_beyond_the_basic_range_are_refused() {
    // code points at 0x80 and above arrive as raw bytes, never as escapes
    let doc = b"{\"items\":[{\"original_path\":\"\\u00e9\",\"trashed_path\":\"/g\",\"deleted_at\":1}]}".to_vec();
    assert!(load_entries(&doc).is_err());
    let surrogate = b"{\"items\":[{\"original_path\":\"\\ud800\",\"trashed_path\":\"/g\",\"deleted_at\":1}]}".to_vec();
    assert!(load_entries(&surrogate).is_err());
}
