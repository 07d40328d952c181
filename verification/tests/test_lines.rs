use chrono::Datelike;
use syslog_viewer::line::{Label, LogDirection, LogLine, LogLink};

fn parse(s: &str) -> LogLine {
    LogLine::new(s.as_bytes().to_vec())
}

#[test]
fn test_parse_modern() {
    let timestamp = "2026-01-17T10:22:55.642782+08:00";
    let tag = "gnome-shell";
    let pid = 3208;
    let content = "Can't update stage views actor <unnamed>[<MetaSurfaceActorX11>:0x572a8221c360] is on because it needs an allocation.";
    let log = parse(&format!(
        "{timestamp} yarten-Dell-G16-7630 {tag}[{pid}]: {content}"
    ));

    let log = match log {
        LogLine::Good(log) => log,
        LogLine::Bad(_) => {
            panic!("bad log line")
        },
    };

    assert_eq!(
        log.timestamp,
        chrono::DateTime::parse_from_rfc3339(timestamp)
            .unwrap()
            .timestamp_micros()
    );
    assert_eq!(log.tag, tag.as_bytes().to_vec());
    assert_eq!(log.pid, pid);
    assert_eq!(log.message, content.as_bytes().to_vec());
}

#[test]
fn test_parse_traditional() {
    let timestamp = "Jan 15 22:41:02";
    let tag = "gnome-shell";
    let pid = 3203;
    let content = "Can't update stage views actor <unnamed>[<MetaSurfaceActorX11>:0x6178166954e0] is on because it needs an allocation.";
    let log = parse(&format!(
        "{timestamp} yarten-Dell-G16-7630 {tag}[{pid}]: {content}"
    ));

    let log = match log {
        LogLine::Good(log) => log,
        LogLine::Bad(_) => {
            panic!("bad log line")
        },
    };

    assert_eq!(log.tag, tag.as_bytes().to_vec());
    assert_eq!(log.pid, pid);
    assert_eq!(log.message, content.as_bytes().to_vec());
}

#[test]
fn test_parse_modern_known_instant() {
    // A fixed UTC instant, pinned to its exact microsecond count.
    let log = parse("2000-01-01T00:00:00.000000+00:00 host tag[1]: m");
    match log {
        LogLine::Good(l) => assert_eq!(l.timestamp, 946684800000000),
        LogLine::Bad(_) => panic!("should parse"),
    }
}

#[test]
fn test_parse_without_pid() {
    let log = parse("2026-01-17T10:22:55.642782+08:00 host rsyslogd: started");
    match log {
        LogLine::Good(l) => {
            assert_eq!(l.tag, b"rsyslogd".to_vec());
            assert_eq!(l.pid, 0);
            assert_eq!(l.message, b"started".to_vec());
            assert_eq!(l.label, Label::Unknown);
            assert!(!l.marked);
        },
        LogLine::Bad(_) => panic!("should parse"),
    }
}

#[test]
fn test_parse_failures_are_kept_verbatim() {
    for raw in [
        "",
        "short",
        "not a timestamp at all, but a long enough line to look at",
        "2026-01-17X10:22:55.642782+08:00 host tag[1]: wrong marker",
        "2026-01-17T10:22:55.642782+08:00 host no-colon-here",
        "2026-01-17T10:22:55.642782+08:00 host tag[notanumber]: msg",
        "2026-01-17T10:22:55.642782+08:00 host tag[]: msg",
    ] {
        match parse(raw) {
            LogLine::Good(_) => panic!("should not parse"),
            LogLine::Bad(b) => {
                assert_eq!(b.content, raw.as_bytes().to_vec());
                assert!(!b.marked);
            },
        }
    }
}

#[test]
fn test_parse_traditional_year_inference() {
    // The traditional form carries no year: the parser must pick this year
    // or, for a date in the future, the previous one. Either way the line
    // parses and the instant lies in the past.
    let log = parse("Dec 31 23:59:59 host tag[7]: end of a year");
    match log {
        LogLine::Good(l) => {
            let now = chrono::Local::now();
            assert!(l.timestamp <= now.timestamp_micros());
            let year = chrono::DateTime::from_timestamp_micros(l.timestamp)
                .unwrap()
                .with_timezone(&chrono::Local)
                .year();
            assert!(year == now.year() || year == now.year() - 1);
        },
        LogLine::Bad(_) => panic!("should parse"),
    }
}

#[test]
fn test_is_older_and_is_newer() {
    let a = parse("2000-01-01T00:00:00.000000+00:00 h t[1]: a");
    let b = parse("2000-01-01T00:00:01.000000+00:00 h t[1]: b");
    let bad = parse("nonsense");
    assert_eq!(LogLine::is_older(&a, &b), std::cmp::Ordering::Less);
    assert_eq!(LogLine::is_older(&b, &a), std::cmp::Ordering::Greater);
    assert_eq!(LogLine::is_older(&a, &a), std::cmp::Ordering::Equal);
    // A broken line sorts as the extreme in both directions, so it can
    // never be starved behind an unresolvable comparison.
    assert_eq!(LogLine::is_older(&bad, &a), std::cmp::Ordering::Less);
    assert_eq!(LogLine::is_older(&a, &bad), std::cmp::Ordering::Greater);
    assert_eq!(LogLine::is_older(&bad, &bad), std::cmp::Ordering::Less);
    assert_eq!(LogLine::is_newer(&b, &a), std::cmp::Ordering::Less);
    assert_eq!(LogLine::is_newer(&a, &b), std::cmp::Ordering::Greater);
    assert_eq!(LogLine::is_newer(&bad, &a), std::cmp::Ordering::Less);
}

#[test]
fn test_mark_and_links() {
    let mut l = parse("2000-01-01T00:00:00.000000+00:00 h t[1]: a");
    assert!(!l.is_marked());
    l.toggle_mark();
    assert!(l.is_marked());
    l.toggle_mark();
    assert!(!l.is_marked());

    assert_eq!(l.get_link(LogDirection::Forward), LogLink { ver: 0, skip: 0 });
    l.set_link(LogDirection::Forward, LogLink { ver: 3, skip: 7 });
    assert_eq!(l.get_link(LogDirection::Forward), LogLink { ver: 3, skip: 7 });
    assert_eq!(l.get_link(LogDirection::Backward), LogLink { ver: 0, skip: 0 });

    // A broken line never carries a link.
    let mut bad = parse("nonsense");
    bad.set_link(LogDirection::Forward, LogLink { ver: 3, skip: 7 });
    assert_eq!(bad.get_link(LogDirection::Forward), LogLink { ver: 0, skip: 0 });
}
