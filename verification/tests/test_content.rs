use syslog_viewer::content::{Index, LogFileContent};
use syslog_viewer::line::LogLine;

fn line(s: &str) -> LogLine {
    LogLine::new(s.as_bytes().to_vec())
}

#[test]
fn test_log_file_content() {
    let mut content = LogFileContent::default();
    content.push_back(line("aaa"));
    content.push_back(line("bbb"));
    content.push_front(line("222"));
    content.push_front(line("111"));

    let mut iter = content.iter_forward_from(Index::new(0, 1));
    assert_eq!(iter.next(&content), Some((Index::new(0, 1), &line("222"))));
    assert_eq!(iter.next(&content), Some((Index::new(1, 0), &line("aaa"))));
    assert_eq!(iter.next(&content), Some((Index::new(1, 1), &line("bbb"))));
    assert_eq!(iter.next(&content), None);

    let mut iter = content.iter_backward_from(Index::new(1, 0));
    assert_eq!(iter.next(&content), Some((Index::new(1, 0), &line("aaa"))));
    assert_eq!(iter.next(&content), Some((Index::new(0, 1), &line("222"))));
    assert_eq!(iter.next(&content), Some((Index::new(0, 0), &line("111"))));
    assert_eq!(iter.next(&content), None);

    let mut iter = content.iter_forward_from_head();
    assert_eq!(iter.next(&content), Some((Index::new(0, 0), &line("111"))));
    assert_eq!(iter.next(&content), Some((Index::new(0, 1), &line("222"))));
    assert_eq!(iter.next(&content), Some((Index::new(1, 0), &line("aaa"))));
    assert_eq!(iter.next(&content), Some((Index::new(1, 1), &line("bbb"))));
    assert_eq!(iter.next(&content), None);

    let mut iter = content.iter_backward_from_tail();
    assert_eq!(iter.next(&content), Some((Index::new(1, 1), &line("bbb"))));
    assert_eq!(iter.next(&content), Some((Index::new(1, 0), &line("aaa"))));
    assert_eq!(iter.next(&content), Some((Index::new(0, 1), &line("222"))));
    assert_eq!(iter.next(&content), Some((Index::new(0, 0), &line("111"))));
    assert_eq!(iter.next(&content), None);

    let mut iter = content.iter_forward_from_head();
    assert_eq!(
        iter.next_nth(&content, 2).ok(),
        Some((Index::new(1, 0), &line("aaa")))
    );
    assert_eq!(iter.next(&content), Some((Index::new(1, 1), &line("bbb"))));

    let mut iter = content.iter_backward_from_tail();
    assert_eq!(
        iter.next_nth(&content, 2).ok(),
        Some((Index::new(0, 1), &line("222")))
    );
    assert_eq!(iter.next(&content), Some((Index::new(0, 0), &line("111"))));

    let mut iter = content.iter_forward_from_head();
    assert_eq!(iter.next_nth(&content, 6), Err(2));

    let mut iter = content.iter_backward_from_tail();
    assert_eq!(iter.next_nth(&content, 6), Err(2));
}

#[test]
fn test_step_index_round_trip() {
    // Small chunks force plenty of chunk boundaries.
    let mut content = LogFileContent::new(2);
    for s in ["a", "b", "c"] {
        content.push_back(line(s));
    }
    for s in ["x", "y", "z"] {
        content.push_front(line(s));
    }
    // Walk to every position, then step forward and back again.
    let first = content.first_index();
    for start in 0..6isize {
        let idx = content.step_index(first, start).expect("valid start");
        for n in -5isize..=5isize {
            match content.step_index(idx, n) {
                Ok(j) => {
                    assert_eq!(content.step_index(j, -n), Ok(idx));
                },
                Err(m) => {
                    // The unconsumed remainder says exactly how far the
                    // walk overshot either end.
                    let target = start + n;
                    if target >= 6 {
                        assert_eq!(m, target - 6);
                    } else {
                        assert!(target < 0);
                        assert_eq!(m, target + 1);
                    }
                },
            }
        }
    }
}

#[test]
fn test_first_and_last_index() {
    let mut content = LogFileContent::new(2);
    assert!(content.is_empty());
    content.push_back(line("a"));
    content.push_back(line("b"));
    content.push_back(line("c"));
    assert!(!content.is_empty());
    assert_eq!(content.first_index(), Index::new(0, 0));
    assert_eq!(content.last_index(), Index::new(1, 0));
    assert_eq!(content.get(content.last_index()), Some(&line("c")));
    assert_eq!(content.get(Index::new(2, 0)), None);
}

#[test]
fn test_round_trip_order() {
    // Lines pushed at the front in reverse, and at the back in order,
    // read back as one chronological sequence.
    let mut content = LogFileContent::new(3);
    for s in ["4", "5", "6", "7"] {
        content.push_back(line(s));
    }
    for s in ["3", "2", "1"] {
        content.push_front(line(s));
    }
    let mut iter = content.iter_forward_from_head();
    for expect in ["1", "2", "3", "4", "5", "6", "7"] {
        let (_, got) = iter.next(&content).expect("line present");
        assert_eq!(got, &line(expect));
    }
    assert_eq!(iter.next(&content), None);

    let collected = content.collect_forward();
    let expected: Vec<_> = ["1", "2", "3", "4", "5", "6", "7"].iter().map(|s| line(s)).collect();
    assert_eq!(collected, expected);
}
