use syslog_viewer::reader::{init_read, read_head_lines, read_tail_lines, split_buffer, NewLine, State};
use syslog_viewer::search::find_all_matches;

fn state_at(position: u64) -> State {
    State::new(b"/x/t.log".to_vec(), b"/proc/self/fd/3".to_vec(), 4096, position)
}

#[test]
fn test_split_buffer() {
    let parts = split_buffer(b"alpha\nbeta\ngamma");
    assert_eq!(parts.head, Some(b"alpha".to_vec()));
    assert_eq!(parts.middle, vec![b"beta".to_vec()]);
    assert_eq!(parts.tail, Some(b"gamma".to_vec()));
    assert!(!parts.tail_is_end);

    let parts = split_buffer(b"alpha\nbeta\n");
    assert_eq!(parts.head, Some(b"alpha".to_vec()));
    assert_eq!(parts.middle, vec![b"beta".to_vec()]);
    assert_eq!(parts.tail, Some(b"".to_vec()));
    assert!(parts.tail_is_end);

    let parts = split_buffer(b"no newline here");
    assert_eq!(parts.head, Some(b"no newline here".to_vec()));
    assert!(parts.middle.is_empty());
    assert_eq!(parts.tail, None);
    assert!(!parts.tail_is_end);
}

#[test]
fn test_read_tail_lines_carries_partial() {
    // A line cut across two reads comes out exactly once, whole.
    let mut state = state_at(0);
    let events = read_tail_lines(&mut state, b"first li");
    assert!(events.is_empty());
    state.advance_tail(8);
    let events = read_tail_lines(&mut state, b"ne\nsecond line\nthird");
    state.advance_tail(20);
    assert_eq!(events, vec![b"first line".to_vec(), b"second line".to_vec()]);
    // The unfinished third line is carried, not emitted.
    let events = read_tail_lines(&mut state, b" line\n");
    assert_eq!(events, vec![b"third line".to_vec()]);
    assert_eq!(state.position(), 28);
}

#[test]
fn test_read_tail_interrupted_read_changes_nothing() {
    // Two identical states; one read is "interrupted" (never digested) and
    // then retried: the line in flight is neither dropped nor doubled.
    let mut st_direct = state_at(0);
    let mut st_retried = state_at(0);

    let direct = read_tail_lines(&mut st_direct, b"hello\nwor");

    // The retried reader was cancelled mid-await: the read's bytes never
    // reached it, so nothing changed, and the retry sees the same bytes.
    let retried = read_tail_lines(&mut st_retried, b"hello\nwor");
    assert_eq!(direct, retried);
    assert_eq!(st_direct.position(), st_retried.position());

    let d2 = read_tail_lines(&mut st_direct, b"ld\n");
    let r2 = read_tail_lines(&mut st_retried, b"ld\n");
    assert_eq!(d2, vec![b"world".to_vec()]);
    assert_eq!(r2, vec![b"world".to_vec()]);
}

#[test]
fn test_read_head_lines_backward() {
    // Reading a file backward in two windows: lines surface newest-unseen
    // first, and the first line completes only at offset zero.
    let mut state = state_at(30);
    let consumed = state.retreat_head(15);
    assert_eq!(consumed, 15);
    assert_eq!(state.position(), 15);
    // The file's bytes at [15, 30): "ta\ndelta\nepsil".
    let events = read_head_lines(&mut state, b"ta\ndelta\nepsil");
    assert_eq!(events, vec![b"epsil".to_vec(), b"delta".to_vec()]);
    let consumed = state.retreat_head(15);
    assert_eq!(consumed, 15);
    assert_eq!(state.position(), 0);
    // The bytes at [0, 15): "alpha\nbeta\nga" ++ "m" ++ "m" (14 bytes shown).
    let events = read_head_lines(&mut state, b"alpha\nbeta\ngam");
    assert_eq!(
        events,
        vec![b"gamta".to_vec(), b"beta".to_vec(), b"alpha".to_vec()]
    );
}

#[test]
fn test_find_all_matches() {
    assert_eq!(find_all_matches("abcabc", "abc"), vec![(0, 3), (3, 6)]);
    // Overlapping occurrences are all reported.
    assert_eq!(find_all_matches("aaaa", "aa"), vec![(0, 2), (1, 3), (2, 4)]);
    assert_eq!(find_all_matches("hello", "xyz"), Vec::<(usize, usize)>::new());
    assert_eq!(find_all_matches("hello", ""), Vec::<(usize, usize)>::new());
    assert_eq!(find_all_matches("", "a"), Vec::<(usize, usize)>::new());
}

#[test]
fn test_init_read_splits_the_priming_window() {
    // A window that starts mid-line: the leading half-line is carried for
    // the backward sweep, the middles surface at once, the trailing
    // half-line waits for new growth.
    let mut head = state_at(100);
    let mut tail = state_at(100);
    let events = init_read(&mut head, &mut tail, b"lf\nmid one\nmid two\ntrail");
    assert_eq!(events.len(), 2);
    assert!(matches!(&events[0], NewLine::Tail(l) if l == b"mid one"));
    assert!(matches!(&events[1], NewLine::Tail(l) if l == b"mid two"));
    // The carried halves complete through later reads: an earlier window
    // ending in "hal" completes the carried "lf" into one whole line.
    let head_events = read_head_lines(&mut head, b"x\nhal");
    assert_eq!(head_events, vec![b"hallf".to_vec()]);
    let tail_events = read_tail_lines(&mut tail, b"ing\n");
    assert_eq!(tail_events, vec![b"trailing".to_vec()]);

    // A window that reaches the very start of the file completes its first
    // line immediately, as a head line.
    let mut head = state_at(0);
    let mut tail = state_at(0);
    let events = init_read(&mut head, &mut tail, b"first\nrest");
    assert_eq!(events.len(), 1);
    assert!(matches!(&events[0], NewLine::Head(l) if l == b"first"));
}
