use syslog_viewer::filter::{filtered_collect_backward, filtered_collect_forward};
use syslog_viewer::line::LogLine;
use syslog_viewer::reader::Event;
use syslog_viewer::rotated::{Config, RotatedLog};
use syslog_viewer::tags::DataBoard;

fn ts_line(sec: u32, tag: &str, msg: &str) -> String {
    format!("2024-05-01T10:00:{:02}.000000+00:00 host {}[1]: {}", sec, tag, msg)
}

fn build_log(board: &mut DataBoard) -> (RotatedLog, Vec<String>) {
    let mut log = RotatedLog::new(b"/x/t.log".to_vec(), Config::default());
    let raw: Vec<String> = vec![
        ts_line(10, "alpha", "one"),
        ts_line(11, "beta", "two"),
        "garbage that does not parse".to_string(),
        ts_line(13, "alpha", "three"),
        ts_line(14, "gamma", "four"),
        ts_line(15, "beta", "five"),
    ];
    // Two rotation files, split in the middle.
    log.attach_latest_file(b"/x/t.log".to_vec());
    for s in &raw[3..] {
        log.update_file(0, board, Event::NewTail(s.as_bytes().to_vec()));
    }
    log.attach_older_file(b"/x/t.log.1".to_vec());
    for s in &raw[..3] {
        log.update_file(0, board, Event::NewTail(s.as_bytes().to_vec()));
    }
    (log, raw)
}

fn naive_filter(raw: &[String], enabled: &[&str]) -> Vec<LogLine> {
    raw.iter()
        .map(|s| LogLine::new(s.as_bytes().to_vec()))
        .filter(|l| match l {
            LogLine::Good(g) => enabled.iter().any(|t| t.as_bytes() == g.tag.as_slice()),
            LogLine::Bad(_) => true,
        })
        .collect()
}

#[test]
fn test_filter_cold_and_warm_cache() {
    // Every subset of the three tags, forward and backward, run three
    // times in a row: the cache built by earlier passes must never change
    // the output.
    let all_tags = ["alpha", "beta", "gamma"];
    let subsets: Vec<Vec<&str>> = (0..8u32)
        .map(|mask| {
            all_tags
                .iter()
                .enumerate()
                .filter(|(i, _)| mask & (1 << i) != 0)
                .map(|(_, t)| *t)
                .collect()
        })
        .collect();

    let mut board = DataBoard::new(Vec::new());
    let (mut log, raw) = build_log(&mut board);

    for subset in &subsets {
        let tags = board.get_tags_mut();
        tags.update_version();
        for t in ["alpha", "beta", "gamma"] {
            if subset.contains(&t) {
                tags.set(t.as_bytes());
            } else {
                tags.unset(t.as_bytes());
            }
        }
        let expected = naive_filter(&raw, subset);
        let mut reversed = expected.clone();
        reversed.reverse();
        for _ in 0..3 {
            let forward = filtered_collect_forward(&mut log, board.get_tags());
            assert_eq!(forward, expected);
            let backward = filtered_collect_backward(&mut log, board.get_tags());
            assert_eq!(backward, reversed);
        }
    }
}

#[test]
fn test_bad_lines_always_reachable() {
    // With every tag disabled the unparsable lines still surface, in both
    // directions.
    let mut board = DataBoard::new(Vec::new());
    let mut log = RotatedLog::new(b"/x/t.log".to_vec(), Config::default());
    log.attach_latest_file(b"/x/t.log".to_vec());
    let raw = [
        ts_line(1, "a", "x"),
        "broken one".to_string(),
        ts_line(3, "b", "y"),
        "broken two".to_string(),
    ];
    for s in &raw {
        log.update_file(0, &mut board, Event::NewTail(s.as_bytes().to_vec()));
    }
    let tags = board.get_tags_mut();
    tags.update_version();
    tags.unset(b"a");
    tags.unset(b"b");

    let forward = filtered_collect_forward(&mut log, board.get_tags());
    assert_eq!(
        forward,
        vec![
            LogLine::new(b"broken one".to_vec()),
            LogLine::new(b"broken two".to_vec()),
        ]
    );
    let backward = filtered_collect_backward(&mut log, board.get_tags());
    assert_eq!(
        backward,
        vec![
            LogLine::new(b"broken two".to_vec()),
            LogLine::new(b"broken one".to_vec()),
        ]
    );
}
