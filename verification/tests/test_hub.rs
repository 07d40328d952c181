use syslog_viewer::hub::LogHub;
use syslog_viewer::line::LogLine;
use syslog_viewer::reader::Event;
use syslog_viewer::rotated::Config;

fn ts_line(sec: u32, tag: &str, msg: &str) -> String {
    format!("2024-05-01T10:00:{:02}.000000+00:00 host {}[1]: {}", sec, tag, msg)
}

fn open_two() -> LogHub {
    LogHub::open(
        b"/var/log".to_vec(),
        vec![
            (b"test".to_vec(), Config::default()),
            (b"user".to_vec(), Config::default()),
        ],
    )
}

fn as_line(s: &str) -> LogLine {
    LogLine::new(s.as_bytes().to_vec())
}

#[test]
fn test_hub_merge_ordering() {
    let mut hub = open_two();

    // Populate the two logs independently with interleaved timestamps.
    let test_lines = [ts_line(10, "t", "a"), ts_line(30, "t", "c"), ts_line(50, "t", "e")];
    let user_lines = [ts_line(20, "u", "b"), ts_line(40, "u", "d"), ts_line(41, "u", "dd")];
    hub.log_mut(0).attach_latest_file(b"/var/log/test.log".to_vec());
    hub.log_mut(1).attach_latest_file(b"/var/log/user.log".to_vec());
    for s in &test_lines {
        hub.update_log(0, 0, Event::NewTail(s.as_bytes().to_vec()));
    }
    for s in &user_lines {
        hub.update_log(1, 0, Event::NewTail(s.as_bytes().to_vec()));
    }

    // The merged stream equals the union of all lines, chronologically
    // sorted; backward iteration is its exact reverse.
    let mut expected: Vec<LogLine> = test_lines
        .iter()
        .chain(user_lines.iter())
        .map(|s| as_line(s))
        .collect();
    expected.sort_by(LogLine::is_older);
    let forward = hub.collect_forward();
    assert_eq!(forward, expected);

    let mut reversed = expected.clone();
    reversed.reverse();
    let backward = hub.collect_backward();
    assert_eq!(backward, reversed);
}

#[test]
fn test_hub_merge_respects_filter() {
    let mut hub = open_two();
    hub.log_mut(0).attach_latest_file(b"/var/log/test.log".to_vec());
    hub.log_mut(1).attach_latest_file(b"/var/log/user.log".to_vec());
    hub.update_log(0, 0, Event::NewTail(ts_line(1, "keep", "x").as_bytes().to_vec()));
    hub.update_log(0, 0, Event::NewTail(ts_line(3, "drop", "y").as_bytes().to_vec()));
    hub.update_log(1, 0, Event::NewTail(ts_line(2, "keep", "z").as_bytes().to_vec()));

    let tags = hub.data_board_mut().get_tags_mut();
    tags.update_version();
    tags.unset(b"drop");

    let forward = hub.collect_forward();
    assert_eq!(
        forward,
        vec![as_line(&ts_line(1, "keep", "x")), as_line(&ts_line(2, "keep", "z"))]
    );
}

#[test]
fn test_hub_indexes_and_older_requests() {
    let mut hub = open_two();
    hub.log_mut(0).attach_latest_file(b"/var/log/test.log".to_vec());
    hub.log_mut(1).attach_latest_file(b"/var/log/user.log".to_vec());
    hub.update_log(0, 0, Event::NewTail(ts_line(1, "t", "x").as_bytes().to_vec()));
    hub.update_log(1, 0, Event::NewTail(ts_line(2, "u", "y").as_bytes().to_vec()));

    let first = hub.first_index();
    assert_eq!(first.len(), 2);
    let cloned = first.clone();
    assert_eq!(cloned.len(), 2);
    let _last = hub.last_index();

    // Every source whose position sits at its first line is asked for
    // older history.
    hub.try_load_older_logs(&first);
    assert!(hub.log_mut(0).take_want_older());
    assert!(hub.log_mut(1).take_want_older());
    assert!(!hub.log_mut(0).take_want_older());
}

#[test]
fn test_hub_resume_and_get() {
    let mut hub = open_two();
    hub.log_mut(0).attach_latest_file(b"/var/log/test.log".to_vec());
    hub.log_mut(1).attach_latest_file(b"/var/log/user.log".to_vec());
    for s in [ts_line(1, "t", "a"), ts_line(3, "t", "c")] {
        hub.update_log(0, 0, Event::NewTail(s.as_bytes().to_vec()));
    }
    for s in [ts_line(2, "u", "b"), ts_line(4, "u", "d")] {
        hub.update_log(1, 0, Event::NewTail(s.as_bytes().to_vec()));
    }
    assert!(hub.ready());

    // Resuming from the very first position replays the whole stream, and
    // `get` yields its first line.
    let first = hub.first_index();
    let whole = hub.collect_forward();
    let resumed = hub.collect_forward_from(&first);
    assert_eq!(resumed, whole);
    assert_eq!(hub.get(&first), Some(whole[0].clone()));

    // Resuming backward from the last position replays the reverse.
    let last = hub.last_index();
    let mut reversed = whole.clone();
    reversed.reverse();
    assert_eq!(hub.collect_backward_from(&last), reversed);
}
