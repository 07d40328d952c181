use syslog_viewer::line::LogLine;
use syslog_viewer::reader::Event;
use syslog_viewer::rotated::{Config, Event as LogEvent, RotatedLog};
use syslog_viewer::tags::DataBoard;
use syslog_viewer::watcher::{classify_link_poll, MetadataEvent};

fn ts_line(sec: u32, tag: &str, msg: &str) -> String {
    format!("2024-05-01T10:00:{:02}.000000+00:00 host {}[1]: {}", sec, tag, msg)
}

fn push_tail(log: &mut RotatedLog, board: &mut DataBoard, file: usize, s: &str) {
    let ev = log.update_file(file, board, Event::NewTail(s.as_bytes().to_vec()));
    assert!(matches!(ev, LogEvent::Tick));
}

fn collect_forward(log: &RotatedLog) -> Vec<LogLine> {
    let mut out = Vec::new();
    let mut iter = log.iter_forward_from_head();
    while let Some((_, l)) = iter.next(log) {
        out.push(l.clone());
    }
    out
}

#[test]
fn test_rotation_boundary() {
    // Files test.log.2 (oldest), test.log.1, test.log (live), loaded on
    // demand oldest-last, must read back as their exact concatenation.
    let mut board = DataBoard::new(b"/var/log".to_vec());
    let mut log = RotatedLog::new(b"/var/log/test.log".to_vec(), Config::default());
    let listing: Vec<Vec<u8>> = vec![
        b"/var/log/other.log".to_vec(),
        b"/var/log/test.log.1".to_vec(),
        b"/var/log/test.log".to_vec(),
        b"/var/log/test.log.2".to_vec(),
    ];

    // The live file is found and loaded first.
    let latest = log.decide_latest_to_load(&listing).expect("live file");
    assert_eq!(latest, b"/var/log/test.log".to_vec());
    log.attach_latest_file(latest);
    for (sec, msg) in [(40, "live-a"), (41, "live-b")] {
        push_tail(&mut log, &mut board, 0, &ts_line(sec, "t", msg));
    }
    // Once loaded, nothing newer remains to load.
    assert!(log.decide_latest_to_load(&listing).is_none());

    // Asking for history loads test.log.1, then test.log.2, then nothing.
    log.set_want_older_log();
    assert!(log.take_want_older());
    assert!(!log.take_want_older());
    let older = log.find_older_log_path(&listing).expect("first rotation");
    assert_eq!(older, b"/var/log/test.log.1".to_vec());
    log.attach_older_file(older);
    for (sec, msg) in [(20, "mid-a"), (21, "mid-b")] {
        push_tail(&mut log, &mut board, 0, &ts_line(sec, "t", msg));
    }

    let older = log.find_older_log_path(&listing).expect("second rotation");
    assert_eq!(older, b"/var/log/test.log.2".to_vec());
    log.attach_older_file(older);
    for (sec, msg) in [(10, "old-a"), (11, "old-b")] {
        push_tail(&mut log, &mut board, 0, &ts_line(sec, "t", msg));
    }

    assert!(log.find_older_log_path(&listing).is_none());

    // The whole log reads as test.log.2 ++ test.log.1 ++ test.log.
    let all = collect_forward(&log);
    let expected: Vec<LogLine> = [
        ts_line(10, "t", "old-a"),
        ts_line(11, "t", "old-b"),
        ts_line(20, "t", "mid-a"),
        ts_line(21, "t", "mid-b"),
        ts_line(40, "t", "live-a"),
        ts_line(41, "t", "live-b"),
    ]
    .iter()
    .map(|s| LogLine::new(s.as_bytes().to_vec()))
    .collect();
    assert_eq!(all, expected);
}

#[test]
fn test_update_file_events() {
    let mut board = DataBoard::new(Vec::new());
    let mut log = RotatedLog::new(b"/var/log/test.log".to_vec(), Config::default());
    log.attach_latest_file(b"/var/log/test.log".to_vec());
    push_tail(&mut log, &mut board, 0, &ts_line(2, "later", "x"));
    let ev = log.update_file(
        0,
        &mut board,
        Event::NewHead(ts_line(1, "earlier", "y").as_bytes().to_vec()),
    );
    assert!(matches!(ev, LogEvent::Tick));
    // Both tags were recorded as the lines arrived.
    assert!(board.get_tags().contains(b"later"));
    assert!(board.get_tags().contains(b"earlier"));

    let all = collect_forward(&log);
    assert_eq!(all.len(), 2);
    assert_eq!(all[0], LogLine::new(ts_line(1, "earlier", "y").as_bytes().to_vec()));

    let ev = log.update_file(0, &mut board, Event::Renamed(b"/var/log/test.log.1".to_vec()));
    assert!(matches!(ev, LogEvent::Tick));
    let ev = log.update_file(0, &mut board, Event::Removed);
    assert!(matches!(ev, LogEvent::Removed));
    log.remove_file(0);
    assert!(collect_forward(&log).is_empty());
}

#[test]
fn test_step_index_across_files() {
    let mut board = DataBoard::new(Vec::new());
    let mut log = RotatedLog::new(b"/x/a.log".to_vec(), Config::default());
    log.attach_latest_file(b"/x/a.log".to_vec());
    push_tail(&mut log, &mut board, 0, &ts_line(30, "t", "c"));
    push_tail(&mut log, &mut board, 0, &ts_line(31, "t", "d"));
    log.attach_older_file(b"/x/a.log.1".to_vec());
    push_tail(&mut log, &mut board, 0, &ts_line(10, "t", "a"));
    push_tail(&mut log, &mut board, 0, &ts_line(11, "t", "b"));

    let first = log.first_index();
    let third = log.step_index(first, 2).expect("crosses into the live file");
    assert_eq!(
        log.get(third),
        Some(&LogLine::new(ts_line(30, "t", "c").as_bytes().to_vec()))
    );
    assert_eq!(log.step_index(third, -2), Ok(first));
    assert_eq!(log.step_index(first, 4), Err(0));
    assert_eq!(log.step_index(first, 6), Err(2));
    assert_eq!(log.step_index(first, -2), Err(-1));
}

#[test]
fn test_classify_link_poll() {
    let known = b"/var/log/test.log";
    assert!(matches!(
        classify_link_poll(known, Some(b"/var/log/test.log".to_vec())),
        MetadataEvent::Any
    ));
    match classify_link_poll(known, Some(b"/var/log/test.log.1".to_vec())) {
        MetadataEvent::Renamed(p) => assert_eq!(p, b"/var/log/test.log.1".to_vec()),
        _ => panic!("expected a rename"),
    }
    assert!(matches!(
        classify_link_poll(known, Some(b"/var/log/(deleted)".to_vec())),
        MetadataEvent::Removed
    ));
    assert!(matches!(classify_link_poll(known, None), MetadataEvent::Removed));
}

#[test]
fn test_classify_link_poll_deleted_suffix() {
    // A deleted file's descriptor link resolves to "path (deleted)": the
    // marker at the end of the file name means removal.
    let known = b"/var/log/test.log";
    assert!(matches!(
        classify_link_poll(known, Some(b"/var/log/test.log (deleted)".to_vec())),
        MetadataEvent::Removed
    ));
    // A name that merely contains the marker elsewhere is a rename.
    match classify_link_poll(known, Some(b"/var/log/(deleted) backup.log".to_vec())) {
        MetadataEvent::Renamed(_) => {},
        _ => panic!("expected a rename"),
    }
}
