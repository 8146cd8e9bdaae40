use p2p_sys::transfer_log::{day_of, search_transfer_log, FileTransferLog, Timestamp};

fn entry(peer: &str, file: &str, secs: i64) -> FileTransferLog {
    FileTransferLog {
        peer_id: peer.to_string(),
        file_name: file.to_string(),
        timestamp: Timestamp { secs, nanos: 0 },
        password: "pw".to_string(),
    }
}

fn names(v: &[FileTransferLog]) -> Vec<String> {
    v.iter().map(|l| format!("{}:{}", l.peer_id, l.file_name)).collect()
}

#[test]
fn days_are_counted_in_utc_from_the_epoch() {
    assert_eq!(day_of(0), 0);
    assert_eq!(day_of(86_399), 0);
    assert_eq!(day_of(86_400), 1);
    assert_eq!(day_of(-1), -1);
    assert_eq!(day_of(-86_400), -1);
    assert_eq!(day_of(-86_401), -2);
}

#[test]
fn search_without_conditions_returns_everything() {
    let logs = vec![entry("p", "a", 1), entry("q", "b", 2)];
    assert_eq!(names(&search_transfer_log(&logs, None, None, None)), vec!["p:a", "q:b"]);
}

#[test]
fn search_filters_by_peer_name_and_day() {
    let logs = vec![
        entry("p", "report(1-of-2)", 10),
        entry("q", "report(2-of-2)", 20),
        entry("p", "photo(1-of-1)", 90_000),
    ];
    assert_eq!(names(&search_transfer_log(&logs, Some("p"), None, None)), vec![
        "p:report(1-of-2)",
        "p:photo(1-of-1)",
    ]);
    assert_eq!(names(&search_transfer_log(&logs, None, Some("port"), None)), vec![
        "p:report(1-of-2)",
        "q:report(2-of-2)",
    ]);
    let day0 = Timestamp { secs: 500, nanos: 0 };
    assert_eq!(names(&search_transfer_log(&logs, Some("p"), None, Some(day0))), vec![
        "p:report(1-of-2)",
    ]);
    assert!(search_transfer_log(&logs, Some("z"), None, None).is_empty());
}
