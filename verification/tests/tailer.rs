use rust_monitor::tailer::{stamp, FileLength, FileRead, LogTailer};

fn read(path: &str, len: u64, text: Option<&str>) -> FileRead {
    FileRead { path: path.to_string(), len, text: text.map(|s| s.to_string()) }
}

fn file(path: &str, len: Option<u64>) -> FileLength {
    FileLength { path: path.to_string(), len }
}

#[test]
fn files_are_followed_from_their_end() {
    let tailer = LogTailer::new(&[file("/a", Some(10)), file("/b", None), file("/c", Some(0))]);
    assert_eq!(tailer.paths(), vec!["/a", "/c"]);
    assert_eq!(tailer.resume("/a", 10), 10);
    assert_eq!(tailer.resume("/a", 15), 10);
    assert_eq!(tailer.resume("/a", 9), 0);
    assert_eq!(tailer.resume("/b", 9), 0);
    let tailer = LogTailer::new(&[file("/a", Some(1)), file("/a", Some(2))]);
    assert_eq!(tailer.paths(), vec!["/a"]);
    assert_eq!(tailer.resume("/a", 5), 2);
}

#[test]
fn new_lines_are_trimmed_and_named() {
    let mut tailer = LogTailer::new(&[file("/a", Some(10)), file("/b", Some(5))]);
    let entries = tailer.read_new_lines(&[
        read("/a", 30, Some(" one \n\n\t\r\ntwo")),
        read("/b", 5, Some("")),
    ]);
    assert_eq!(
        entries,
        vec![
            ("/a".to_string(), "one".to_string()),
            ("/a".to_string(), "two".to_string())
        ]
    );
    assert_eq!(tailer.resume("/a", 30), 30);
    assert_eq!(tailer.resume("/a", 29), 0);
    assert_eq!(tailer.resume("/b", 6), 5);
}

#[test]
fn unread_file_stays_where_it_was() {
    let mut tailer = LogTailer::new(&[file("/a", Some(10))]);
    assert!(tailer.read_new_lines(&[read("/a", 40, None)]).is_empty());
    assert_eq!(tailer.resume("/a", 40), 10);
    // A shorter file is read from its start and then followed from its new end.
    assert_eq!(tailer.resume("/a", 4), 0);
    assert_eq!(tailer.read_new_lines(&[read("/a", 4, Some("new\n"))]).len(), 1);
    assert_eq!(tailer.resume("/a", 9), 4);
}

#[test]
fn entries_get_the_time_at_which_they_came() {
    let entries = [
        ("/a".to_string(), "1".to_string()),
        ("/b".to_string(), "2".to_string()),
    ];
    let out: Vec<(String, String, i64)> =
        stamp(&entries, 42).into_iter().map(|e| (e.source, e.line, e.ts)).collect();
    assert_eq!(
        out,
        vec![
            ("/a".to_string(), "1".to_string(), 42),
            ("/b".to_string(), "2".to_string(), 42)
        ]
    );
    assert!(stamp(&[], 42).is_empty());
}

#[test]
fn files_do_not_disturb_each_other() {
    let mut tailer = LogTailer::new(&[
        file("/a", Some(3)),
        file("/b", Some(5)),
        file("/a", Some(4)),
        file("/b", None),
        file("/c", None),
    ]);
    assert_eq!(tailer.paths(), vec!["/a", "/b"]);
    assert_eq!((tailer.resume("/a", 9), tailer.resume("/b", 9)), (4, 5));
    let entries = tailer.read_new_lines(&[
        read("/a", 10, Some("1\n2\n")),
        read("/b", 20, None),
        read("/a", 12, Some("3\n")),
        read("/a", 99, None),
    ]);
    let lines: Vec<(&str, &str)> =
        entries.iter().map(|(path, line)| (path.as_str(), line.as_str())).collect();
    assert_eq!(lines, vec![("/a", "1"), ("/a", "2"), ("/a", "3")]);
    assert_eq!((tailer.resume("/a", 12), tailer.resume("/a", 11)), (12, 0));
    assert_eq!(tailer.resume("/b", 20), 5);
}
