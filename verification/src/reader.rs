//! Turning raw byte reads into whole-line events. The file handles and the
//! asynchronous plumbing live outside the library; what is here is the pure
//! line-assembly state machine: splitting a read buffer on newlines,
//! carrying the partial line at either end of the window across reads, and
//! the read-position arithmetic. Each read is digested by one call on plain
//! values, so an interrupted read that is never handed in leaves the state
//! exactly as it was: nothing is half-consumed.

use vstd::prelude::*;

verus! {

/// What a reader reports about its file: a complete line surfacing at the
/// head (reading backward) or at the tail (reading forward), a rename, or
/// the removal of the file.
#[derive(Debug)]
pub enum Event {
    NewHead(Vec<u8>),
    NewTail(Vec<u8>),
    Renamed(Vec<u8>),
    Removed,
}

/// A freshly assembled line, at the head or the tail of a file.
#[derive(Debug)]
pub enum NewLine {
    Head(Vec<u8>),
    Tail(Vec<u8>),
}

/// The segments of a byte window split on newlines. The first and last
/// segment may be halves of lines that continue beyond the window.
pub open spec fn split_segments(s: Seq<u8>) -> Seq<Seq<u8>>
    decreases s.len() via split_segments_dec
{
    match crate::line::find_byte(s, 10) {
        None => seq![s],
        Some(p) => seq![s.take(p)] + split_segments(s.skip(p + 1)),
    }
}

#[via_fn]
proof fn split_segments_dec(s: Seq<u8>) {
    crate::line::lemma_find_byte_in_range(s, 10);
}

/// Splitting never yields an empty list, and peels one byte at a time.
proof fn lemma_split_cons(s: Seq<u8>)
    requires
        s.len() > 0,
    ensures
        split_segments(s).len() >= 1,
        s[0] == 10 ==> split_segments(s) == seq![Seq::<u8>::empty()] + split_segments(s.skip(1)),
        s[0] != 10 ==> split_segments(s).len() == split_segments(s.skip(1)).len()
            && split_segments(s)[0] == seq![s[0]] + split_segments(s.skip(1))[0] && forall|k: int|
            1 <= k < split_segments(s).len() ==> split_segments(s)[k] == #[trigger] split_segments(
                s.skip(1),
            )[k],
{
    lemma_split_nonempty(s);
    lemma_split_nonempty(s.skip(1));
    crate::line::lemma_find_byte_in_range(s, 10);
    crate::line::lemma_find_byte_in_range(s.skip(1), 10);
    if s[0] == 10 {
        assert(crate::line::find_byte(s, 10) == Some(0int));
        assert(s.take(0) =~= Seq::<u8>::empty());
        assert(split_segments(s) =~= seq![Seq::<u8>::empty()] + split_segments(s.skip(1)));
    } else {
        match crate::line::find_byte(s.skip(1), 10) {
            None => {
                assert(crate::line::find_byte(s, 10) is None);
                assert(split_segments(s) =~= seq![s]);
                assert(split_segments(s.skip(1)) =~= seq![s.skip(1)]);
                assert(s =~= seq![s[0]] + s.skip(1));
            },
            Some(p) => {
                assert(crate::line::find_byte(s, 10) == Some(p + 1));
                assert(s.take(p + 1) =~= seq![s[0]] + s.skip(1).take(p));
                assert(s.skip(p + 2) =~= s.skip(1).skip(p + 1));
                assert(split_segments(s) == seq![s.take(p + 1)] + split_segments(s.skip(p + 2)));
                assert(split_segments(s.skip(1)) == seq![s.skip(1).take(p)] + split_segments(
                    s.skip(1).skip(p + 1),
                ));
                assert(forall|k: int|
                    1 <= k < split_segments(s).len() ==> split_segments(s)[k]
                        == #[trigger] split_segments(s.skip(1))[k]);
            },
        }
    }
}

/// Splitting always yields at least one segment.
proof fn lemma_split_nonempty(s: Seq<u8>)
    ensures
        split_segments(s).len() >= 1,
    decreases s.len(),
{
    match crate::line::find_byte(s, 10) {
        None => {},
        Some(p) => {},
    }
}

/// A window that ends on a newline splits into at least two segments, the
/// last of them empty; one that does not keeps its last segment nonempty
/// or whole.
proof fn lemma_split_last(s: Seq<u8>)
    requires
        s.len() > 0,
    ensures
        s.last() == 10 ==> split_segments(s).len() >= 2 && split_segments(s).last() == Seq::<
            u8,
        >::empty(),
        split_segments(s).len() == 1 ==> s.last() != 10,
    decreases s.len(),
{
    lemma_split_cons(s);
    lemma_split_nonempty(s.skip(1));
    if s.len() == 1 {
        if s[0] == 10 {
            assert(s.skip(1).len() == 0);
            assert(crate::line::find_byte(s.skip(1), 10) is None);
            assert(split_segments(s.skip(1)) == seq![s.skip(1)]);
            assert(s.skip(1) =~= Seq::<u8>::empty());
        }
    } else {
        lemma_split_last(s.skip(1));
        assert(s.skip(1).last() == s.last());
        if s[0] == 10 {
            assert(split_segments(s).last() == split_segments(s.skip(1)).last());
        } else {
            if s.last() == 10 {
                assert(split_segments(s.skip(1)).len() >= 2);
                assert(split_segments(s).last() == split_segments(s.skip(1)).last());
            }
        }
    }
}

/// A read buffer split on newlines into the leading partial segment, the
/// complete middle segments, and the trailing partial segment.
#[derive(Debug)]
pub struct BufferParts {
    /// The first segment: the continuation of whatever came before the
    /// window.
    pub head: Option<Vec<u8>>,
    /// The segments that are whole lines on their own.
    pub middle: Vec<Vec<u8>>,
    /// The last segment, when the window holds more than one; it may
    /// continue past the window.
    pub tail: Option<Vec<u8>>,
    /// Did the window end exactly on a newline?
    pub tail_is_end: bool,
}

/// The direction a read moves through the file.
pub enum ReadDirection {
    /// Toward the start of the file.
    Head,
    /// Toward its growing end.
    Tail,
}

/// Splits a read window on newlines; see `BufferParts`. The segments are
/// exactly `split_segments` of the bytes: the first becomes `head`, the
/// last becomes `tail` when there are at least two, and the rest are
/// `middle`.
pub fn split_buffer(data: &[u8]) -> (r: BufferParts)
    requires
        data@.len() > 0,
    ensures
        ({
            let segs = split_segments(data@);
            &&& r.head matches Some(h) && h@ == segs[0]
            &&& r.middle@.len() == (if segs.len() >= 2 {
                segs.len() - 2
            } else {
                0int
            })
            &&& forall|k: int| 0 <= k < r.middle@.len() ==> (#[trigger] r.middle@[k])@ == segs[k + 1]
            &&& if segs.len() >= 2 {
                r.tail matches Some(t) && t@ == segs[segs.len() - 1]
            } else {
                r.tail is None
            }
            &&& r.tail_is_end == (data@.last() == 10)
        }),
{
    let mut segments: Vec<Vec<u8>> = Vec::new();
    let mut current: Vec<u8> = Vec::new();
    let n = data.len();
    let mut i: usize = 0;
    proof {
        assert(data@.skip(0) =~= data@);
    }
    while i < n
        invariant
            0 <= i <= n,
            n == data@.len(),
            split_segments(data@).len() == segments@.len() + split_segments(
                data@.skip(i as int),
            ).len(),
            forall|k: int|
                0 <= k < segments@.len() ==> (#[trigger] segments@[k])@ == split_segments(data@)[k],
            split_segments(data@.skip(i as int)).len() >= 1,
            split_segments(data@)[segments@.len() as int] == current@ + split_segments(
                data@.skip(i as int),
            )[0],
            forall|k: int|
                1 <= k < split_segments(data@.skip(i as int)).len() ==> split_segments(
                    data@,
                )[segments@.len() + k] == #[trigger] split_segments(data@.skip(i as int))[k],
        decreases n - i,
    {
        let b = data[i];
        proof {
            lemma_split_cons(data@.skip(i as int));
            lemma_split_nonempty(data@.skip(i + 1));
            assert(data@.skip(i as int)[0] == data@[i as int]);
            assert(data@.skip(i as int).skip(1) =~= data@.skip(i + 1));
            assert(split_segments(data@.skip(i as int).skip(1)) == split_segments(
                data@.skip(i + 1),
            ));
        }
        if b == 10 {
            let ghost segs_before = segments@;
            let ghost cur_before = current@;
            let mut done: Vec<u8> = Vec::new();
            core::mem::swap(&mut done, &mut current);
            segments.push(done);
            proof {
                let rest = split_segments(data@.skip(i as int));
                let rest_new = split_segments(data@.skip(i + 1));
                assert(rest =~= seq![Seq::<u8>::empty()] + rest_new);
                assert(rest[0] =~= Seq::<u8>::empty());
                assert(cur_before + rest[0] =~= cur_before);
                assert(segments@[segs_before.len() as int]@ == cur_before);
                assert(current@ + rest_new[0] =~= rest_new[0]);
                assert(rest[1] == rest_new[0]);
                assert(forall|k: int| 1 <= k < rest.len() ==> rest[k] == #[trigger] rest_new[k
                    - 1]);
                assert forall|k: int| 1 <= k < rest_new.len() implies split_segments(
                    data@,
                )[segments@.len() + k] == #[trigger] rest_new[k] by {
                    assert(rest[k + 1] == rest_new[k]);
                    assert(split_segments(data@)[segs_before.len() + (k + 1)] == rest[k + 1]);
                }
            }
        } else {
            let ghost cur_before = current@;
            current.push(b);
            proof {
                let rest = split_segments(data@.skip(i as int));
                let rest_new = split_segments(data@.skip(i + 1));
                assert(rest.len() == rest_new.len());
                assert(rest[0] == seq![b] + rest_new[0]);
                assert(current@ + rest_new[0] =~= cur_before + (seq![b] + rest_new[0]));
                assert(forall|k: int| 1 <= k < rest.len() ==> rest[k] == #[trigger] rest_new[k]);
                assert forall|k: int| 1 <= k < rest_new.len() implies split_segments(
                    data@,
                )[segments@.len() + k] == #[trigger] rest_new[k] by {
                    assert(rest[k] == rest_new[k]);
                    assert(split_segments(data@)[segments@.len() + k] == rest[k]);
                }
            }
        }
        i += 1;
    }
    proof {
        assert(data@.skip(n as int) =~= Seq::<u8>::empty());
        assert(crate::line::find_byte(Seq::<u8>::empty(), 10) is None);
        assert(split_segments(Seq::<u8>::empty()) =~= seq![Seq::<u8>::empty()]);
        assert(current@ + Seq::<u8>::empty() =~= current@);
    }
    segments.push(current);
    let ghost segs = split_segments(data@);
    proof {
        assert(segments@.len() == segs.len());
        assert(forall|k: int| 0 <= k < segs.len() ==> (#[trigger] segments@[k])@ == segs[k]);
    }
    // Hand the segments out as head, middle and tail.
    let tail_is_end = data[n - 1] == 10;
    let mut middle = segments;
    let mut rest = middle.split_off(1);
    let head = middle.pop();
    let count = rest.len();
    let tail = if count > 0 {
        rest.pop()
    } else {
        None
    };
    proof {
        assert(head matches Some(h) && h@ == segs[0]);
        if segs.len() >= 2 {
            assert(tail matches Some(t) && t@ == segs[segs.len() - 1]);
        }
        assert(forall|k: int| 0 <= k < rest@.len() ==> (#[trigger] rest@[k])@ == segs[k + 1]);
    }
    BufferParts { head, middle: rest, tail, tail_is_end }
}

/// The line-assembly state of one read direction: where the next read
/// starts, and the partial line carried between reads. The buffer is
/// bounded; overlong partial lines are truncated at the bound, as a line
/// longer than the read window cannot be assembled exactly anyway.
pub struct State {
    last_position: u64,
    partial_buffer: Vec<u8>,
    capacity: usize,
    raw_path: Vec<u8>,
    fd_path: Vec<u8>,
}

impl State {
    /// The file offset the next read works from.
    pub closed spec fn spec_position(self) -> u64 {
        self.last_position
    }

    /// The partial line carried between reads.
    pub closed spec fn spec_partial(self) -> Seq<u8> {
        self.partial_buffer@
    }

    /// The most the partial buffer holds.
    pub closed spec fn spec_capacity(self) -> int {
        self.capacity as int
    }

    /// The file's original path.
    pub closed spec fn spec_raw_path(self) -> Seq<u8> {
        self.raw_path@
    }

    /// The stable, descriptor-backed path the file is watched through.
    pub closed spec fn spec_fd_path(self) -> Seq<u8> {
        self.fd_path@
    }

    /// The buffer never outgrows its bound.
    pub open spec fn wf(self) -> bool {
        self.spec_partial().len() <= self.spec_capacity()
    }

    /// A fresh state at the given offset with an empty partial line.
    pub fn new(raw_path: Vec<u8>, fd_path: Vec<u8>, capacity: usize, position: u64) -> (r: State)
        ensures
            r.wf(),
            r.spec_position() == position,
            r.spec_partial() == Seq::<u8>::empty(),
            r.spec_capacity() == capacity,
            r.spec_raw_path() == raw_path@,
            r.spec_fd_path() == fd_path@,
    {
        State {
            last_position: position,
            partial_buffer: Vec::new(),
            capacity,
            raw_path,
            fd_path,
        }
    }

    /// Has the backward sweep reached the start of the file?
    pub fn has_reached_head(&self) -> (r: bool)
        ensures
            r == (self.spec_position() == 0),
    {
        self.last_position == 0
    }

    /// The file offset the next read works from.
    pub fn position(&self) -> (r: u64)
        ensures
            r == self.spec_position(),
    {
        self.last_position
    }

    /// Accounts for a forward read of `bytes_read` bytes.
    pub fn advance_tail(&mut self, bytes_read: u64)
        requires
            old(self).spec_position() + bytes_read <= u64::MAX,
        ensures
            final(self).spec_position() == old(self).spec_position() + bytes_read,
            final(self).spec_partial() == old(self).spec_partial(),
            final(self).spec_capacity() == old(self).spec_capacity(),
            final(self).spec_raw_path() == old(self).spec_raw_path(),
            final(self).spec_fd_path() == old(self).spec_fd_path(),
    {
        self.last_position = self.last_position + bytes_read;
    }

    /// Steps the position back by up to one window for the next backward
    /// read and says how many bytes that read covers.
    pub fn retreat_head(&mut self, window: u64) -> (r: u64)
        ensures
            final(self).spec_position() == (if old(self).spec_position() >= window {
                old(self).spec_position() - window
            } else {
                0
            }),
            r == old(self).spec_position() - final(self).spec_position(),
            final(self).spec_partial() == old(self).spec_partial(),
            final(self).spec_capacity() == old(self).spec_capacity(),
            final(self).spec_raw_path() == old(self).spec_raw_path(),
            final(self).spec_fd_path() == old(self).spec_fd_path(),
    {
        let before = self.last_position;
        self.last_position = if before >= window {
            before - window
        } else {
            0
        };
        before - self.last_position
    }

    /// Prepends bytes to the partial line, newest content first; whatever
    /// exceeds the bound is cut at the back.
    pub fn save_head_partial(&mut self, buffer: &[u8])
        requires
            old(self).wf(),
        ensures
            final(self).wf(),
            ({
                let cap = old(self).spec_capacity();
                let size = (if buffer@.len() <= cap {
                    buffer@.len() as int
                } else {
                    cap
                });
                let keep = (if old(self).spec_partial().len() <= cap - size {
                    old(self).spec_partial().len() as int
                } else {
                    cap - size
                });
                final(self).spec_partial() == buffer@.take(size) + old(self).spec_partial().take(
                    keep,
                )
            }),
            final(self).spec_position() == old(self).spec_position(),
            final(self).spec_capacity() == old(self).spec_capacity(),
            final(self).spec_raw_path() == old(self).spec_raw_path(),
            final(self).spec_fd_path() == old(self).spec_fd_path(),
    {
        let cap = self.capacity;
        let size = if buffer.len() <= cap {
            buffer.len()
        } else {
            cap
        };
        let keep = if self.partial_buffer.len() <= cap - size {
            self.partial_buffer.len()
        } else {
            cap - size
        };
        let mut fresh: Vec<u8> = Vec::new();
        let mut i: usize = 0;
        while i < size
            invariant
                0 <= i <= size,
                size <= buffer@.len(),
                fresh@ == buffer@.subrange(0, i as int),
            decreases size - i,
        {
            fresh.push(buffer[i]);
            proof {
                assert(fresh@ =~= buffer@.subrange(0, i + 1));
            }
            i += 1;
        }
        let mut j: usize = 0;
        while j < keep
            invariant
                0 <= j <= keep,
                keep <= self.partial_buffer@.len(),
                self.partial_buffer@ == old(self).spec_partial(),
                size <= buffer@.len(),
                fresh@ == buffer@.subrange(0, size as int) + self.partial_buffer@.subrange(
                    0,
                    j as int,
                ),
            decreases keep - j,
        {
            fresh.push(self.partial_buffer[j]);
            proof {
                assert(fresh@ =~= buffer@.subrange(0, size as int)
                    + self.partial_buffer@.subrange(0, j + 1));
            }
            j += 1;
        }
        self.partial_buffer = fresh;
    }

    /// Appends bytes to the partial line; whatever exceeds the bound is cut.
    pub fn save_tail_partial(&mut self, buffer: &[u8])
        requires
            old(self).wf(),
        ensures
            final(self).wf(),
            ({
                let room = old(self).spec_capacity() - old(self).spec_partial().len();
                let size = (if buffer@.len() <= room {
                    buffer@.len() as int
                } else {
                    room
                });
                final(self).spec_partial() == old(self).spec_partial() + buffer@.take(size)
            }),
            final(self).spec_position() == old(self).spec_position(),
            final(self).spec_capacity() == old(self).spec_capacity(),
            final(self).spec_raw_path() == old(self).spec_raw_path(),
            final(self).spec_fd_path() == old(self).spec_fd_path(),
    {
        let room = self.capacity - self.partial_buffer.len();
        let size = if buffer.len() <= room {
            buffer.len()
        } else {
            room
        };
        let mut i: usize = 0;
        while i < size
            invariant
                0 <= i <= size,
                size <= buffer@.len(),
                old(self).spec_partial().len() + size <= old(self).spec_capacity(),
                self.partial_buffer@ == old(self).spec_partial() + buffer@.subrange(0, i as int),
                self.capacity == old(self).spec_capacity(),
                self.last_position == old(self).spec_position(),
                self.raw_path@ == old(self).spec_raw_path(),
                self.fd_path@ == old(self).spec_fd_path(),
            decreases size - i,
        {
            self.partial_buffer.push(buffer[i]);
            proof {
                assert(self.partial_buffer@ =~= old(self).spec_partial() + buffer@.subrange(
                    0,
                    i + 1,
                ));
            }
            i += 1;
        }
        proof {
            assert(old(self).spec_partial() + buffer@.subrange(0, 0) =~= old(
                self,
            ).spec_partial());
        }
    }

    /// Hands out the assembled partial line and clears it.
    pub fn take_partial(&mut self) -> (r: Vec<u8>)
        ensures
            r@ == old(self).spec_partial(),
            final(self).spec_partial() == Seq::<u8>::empty(),
            final(self).spec_position() == old(self).spec_position(),
            final(self).spec_capacity() == old(self).spec_capacity(),
            final(self).spec_raw_path() == old(self).spec_raw_path(),
            final(self).spec_fd_path() == old(self).spec_fd_path(),
    {
        let mut taken: Vec<u8> = Vec::new();
        core::mem::swap(&mut taken, &mut self.partial_buffer);
        proof {
            assert(self.partial_buffer@ =~= Seq::<u8>::empty());
        }
        taken
    }
}

/// The smaller of two quantities, as used by the truncating buffer.
pub open spec fn min_int(a: int, b: int) -> int {
    if a <= b {
        a
    } else {
        b
    }
}

/// Digests one forward read: the leading segment completes the carried
/// partial line, the middle segments are whole lines, and the trailing
/// segment is carried (all up to the buffer bound). Returns the complete
/// tail lines in file order. A read not handed in changes nothing: the
/// state only ever moves by whole digested reads.
pub fn read_tail_lines(state: &mut State, data: &[u8]) -> (events: Vec<Vec<u8>>)
    requires
        old(state).wf(),
        data@.len() > 0,
    ensures
        final(state).wf(),
        final(state).spec_position() == old(state).spec_position(),
        final(state).spec_capacity() == old(state).spec_capacity(),
        final(state).spec_raw_path() == old(state).spec_raw_path(),
        final(state).spec_fd_path() == old(state).spec_fd_path(),
        ({
            let segs = split_segments(data@);
            let cap = old(state).spec_capacity();
            let p0 = old(state).spec_partial();
            if segs.len() >= 2 {
                &&& events@.len() == segs.len() - 1
                &&& events@[0]@ == p0 + segs[0].take(min_int(segs[0].len() as int, cap - p0.len()))
                &&& forall|k: int| 1 <= k < segs.len() - 1 ==> (#[trigger] events@[k])@ == segs[k]
                &&& final(state).spec_partial() == segs.last().take(
                    min_int(segs.last().len() as int, cap),
                )
            } else {
                &&& events@.len() == 0
                &&& final(state).spec_partial() == p0 + segs[0].take(
                    min_int(segs[0].len() as int, cap - p0.len()),
                )
            }
        }),
{
    let ghost segs = split_segments(data@);
    proof {
        lemma_split_last(data@);
    }
    let mut events: Vec<Vec<u8>> = Vec::new();
    let parts = split_buffer(data);
    match parts.tail {
        Some(tail_part) => {
            match parts.head {
                Some(head_part) => {
                    state.save_tail_partial(head_part.as_slice());
                    events.push(state.take_partial());
                },
                None => {},
            }
            let n = parts.middle.len();
            let mut k: usize = 0;
            while k < n
                invariant
                    0 <= k <= n,
                    n == parts.middle@.len(),
                    n == segs.len() - 2,
                    segs == split_segments(data@),
                    events@.len() == k + 1,
                    forall|j: int|
                        0 <= j < n ==> (#[trigger] parts.middle@[j])@ == segs[j + 1],
                    forall|j: int| 1 <= j < k + 1 ==> (#[trigger] events@[j])@ == segs[j],
                    events@[0]@ == old(state).spec_partial() + segs[0].take(
                        min_int(
                            segs[0].len() as int,
                            old(state).spec_capacity() - old(state).spec_partial().len(),
                        ),
                    ),
                    state.wf(),
                decreases n - k,
            {
                events.push(crate::bytes::copy_bytes(parts.middle[k].as_slice()));
                k += 1;
            }
            let ghost partial_mid = state.spec_partial();
            proof {
                assert(partial_mid =~= Seq::<u8>::empty());
            }
            state.save_tail_partial(tail_part.as_slice());
            if parts.tail_is_end {
                let finished = state.take_partial();
                if finished.len() > 0 {
                    proof {
                        assert(segs.last() =~= Seq::<u8>::empty());
                        assert(false);
                    }
                    events.push(finished);
                }
            }
            proof {
                assert(Seq::<u8>::empty() + segs.last().take(
                    min_int(segs.last().len() as int, old(state).spec_capacity()),
                ) =~= segs.last().take(min_int(segs.last().len() as int, old(
                    state,
                ).spec_capacity())));
            }
            events
        },
        None => {
            match parts.head {
                Some(head_part) => {
                    state.save_tail_partial(head_part.as_slice());
                    if parts.tail_is_end {
                        proof {
                            assert(false);
                        }
                    }
                },
                None => {
                    proof {
                        assert(false);
                    }
                },
            }
            events
        },
    }
}

/// Digests one backward read: the trailing segment completes the carried
/// partial line and surfaces first, the middle segments surface back to
/// front, and the leading segment is carried toward the next, earlier read
/// — unless the read reached the start of the file, which completes it
/// too. Returns the head lines in the order they surface.
pub fn read_head_lines(state: &mut State, data: &[u8]) -> (events: Vec<Vec<u8>>)
    requires
        old(state).wf(),
        data@.len() > 0,
    ensures
        final(state).wf(),
        final(state).spec_position() == old(state).spec_position(),
        final(state).spec_capacity() == old(state).spec_capacity(),
        final(state).spec_raw_path() == old(state).spec_raw_path(),
        final(state).spec_fd_path() == old(state).spec_fd_path(),
        ({
            let segs = split_segments(data@);
            let cap = old(state).spec_capacity();
            let p0 = old(state).spec_partial();
            let joined = ({
                let size = min_int(segs.last().len() as int, cap);
                let keep = min_int(p0.len() as int, cap - size);
                segs.last().take(size) + p0.take(keep)
            });
            let carried = ({
                let size = min_int(segs[0].len() as int, cap);
                segs[0].take(size)
            });
            if segs.len() >= 2 {
                &&& events@.len() == (segs.len() - 1) + (if old(state).spec_position() == 0 {
                    1int
                } else {
                    0int
                })
                &&& events@[0]@ == joined
                &&& forall|k: int|
                    1 <= k < segs.len() - 1 ==> (#[trigger] events@[k])@ == segs[segs.len() - 1
                        - k]
                &&& if old(state).spec_position() == 0 {
                    events@.last()@ == carried && final(state).spec_partial() == Seq::<u8>::empty()
                } else {
                    final(state).spec_partial() == carried
                }
            } else {
                let merged = ({
                    let size = min_int(segs[0].len() as int, cap);
                    let keep = min_int(p0.len() as int, cap - size);
                    segs[0].take(size) + p0.take(keep)
                });
                if old(state).spec_position() == 0 {
                    &&& events@.len() == 1
                    &&& events@[0]@ == merged
                    &&& final(state).spec_partial() == Seq::<u8>::empty()
                } else {
                    &&& events@.len() == 0
                    &&& final(state).spec_partial() == merged
                }
            }
        }),
{
    let ghost segs = split_segments(data@);
    let mut events: Vec<Vec<u8>> = Vec::new();
    let parts = split_buffer(data);
    match parts.tail {
        Some(tail_part) => {
            state.save_head_partial(tail_part.as_slice());
            events.push(state.take_partial());
            let n = parts.middle.len();
            let mut k: usize = 0;
            while k < n
                invariant
                    0 <= k <= n,
                    n == parts.middle@.len(),
                    n == segs.len() - 2,
                    segs == split_segments(data@),
                    events@.len() == k + 1,
                    forall|j: int|
                        0 <= j < n ==> (#[trigger] parts.middle@[j])@ == segs[j + 1],
                    forall|j: int|
                        1 <= j < k + 1 ==> (#[trigger] events@[j])@ == segs[segs.len() - 1 - j],
                    events@[0]@ == ({
                        let cap = old(state).spec_capacity();
                        let p0 = old(state).spec_partial();
                        let size = min_int(segs.last().len() as int, cap);
                        let keep = min_int(p0.len() as int, cap - size);
                        segs.last().take(size) + p0.take(keep)
                    }),
                    state.wf(),
                decreases n - k,
            {
                events.push(crate::bytes::copy_bytes(parts.middle[n - 1 - k].as_slice()));
                proof {
                    assert((n - 1 - k) + 1 == segs.len() - 1 - (k + 1));
                }
                k += 1;
            }
            match parts.head {
                Some(head_part) => {
                    let ghost partial_mid = state.spec_partial();
                    proof {
                        assert(partial_mid =~= Seq::<u8>::empty());
                        assert(partial_mid.take(0) =~= Seq::<u8>::empty());
                    }
                    state.save_head_partial(head_part.as_slice());
                    proof {
                        assert(state.spec_partial() =~= segs[0].take(
                            min_int(segs[0].len() as int, old(state).spec_capacity()),
                        ));
                    }
                    if state.has_reached_head() {
                        events.push(state.take_partial());
                    }
                },
                None => {
                    proof {
                        assert(false);
                    }
                },
            }
            events
        },
        None => {
            match parts.head {
                Some(head_part) => {
                    state.save_head_partial(head_part.as_slice());
                    if state.has_reached_head() {
                        events.push(state.take_partial());
                    }
                },
                None => {
                    proof {
                        assert(false);
                    }
                },
            }
            events
        },
    }
}

/// Is this event a tail line with exactly these bytes?
pub open spec fn is_tail_line(e: NewLine, s: Seq<u8>) -> bool {
    match e {
        NewLine::Tail(t) => t@ == s,
        _ => false,
    }
}

/// Is this event a head line with exactly these bytes?
pub open spec fn is_head_line(e: NewLine, s: Seq<u8>) -> bool {
    match e {
        NewLine::Head(h) => h@ == s,
        _ => false,
    }
}

/// Digests the very first read of a live file's priming window, near its
/// end. The window's leading segment belongs to the backward sweep — it is
/// the tail half of a line whose start lies before the window — so it goes
/// to `head_state` (and only completes right away when the window begins at
/// the very start of the file). The middle segments are whole lines; the
/// trailing segment goes to `tail_state` to be continued by future growth.
pub fn init_read(head_state: &mut State, tail_state: &mut State, data: &[u8]) -> (events: Vec<
    NewLine,
>)
    requires
        old(head_state).wf(),
        old(tail_state).wf(),
        old(head_state).spec_partial().len() == 0,
        old(tail_state).spec_partial().len() == 0,
        data@.len() > 0,
    ensures
        final(head_state).wf(),
        final(tail_state).wf(),
        final(head_state).spec_position() == old(head_state).spec_position(),
        final(tail_state).spec_position() == old(tail_state).spec_position(),
        final(head_state).spec_capacity() == old(head_state).spec_capacity(),
        final(tail_state).spec_capacity() == old(tail_state).spec_capacity(),
        final(head_state).spec_raw_path() == old(head_state).spec_raw_path(),
        final(head_state).spec_fd_path() == old(head_state).spec_fd_path(),
        final(tail_state).spec_raw_path() == old(tail_state).spec_raw_path(),
        final(tail_state).spec_fd_path() == old(tail_state).spec_fd_path(),
        ({
            let segs = split_segments(data@);
            let hcap = old(head_state).spec_capacity();
            let tcap = old(tail_state).spec_capacity();
            let lead = segs[0].take(min_int(segs[0].len() as int, hcap));
            let head_done = old(head_state).spec_position() == 0;
            if segs.len() >= 2 {
                &&& events@.len() == (segs.len() - 2) + (if head_done {
                    1int
                } else {
                    0int
                })
                &&& if head_done {
                    is_head_line(events@[0], lead) && final(head_state).spec_partial() == Seq::<
                        u8,
                    >::empty()
                } else {
                    final(head_state).spec_partial() == lead
                }
                &&& forall|k: int|
                    0 <= k < segs.len() - 2 ==> is_tail_line(
                        events@[k + (if head_done {
                            1int
                        } else {
                            0int
                        })],
                        #[trigger] segs[k + 1],
                    )
                &&& final(tail_state).spec_partial() == segs.last().take(
                    min_int(segs.last().len() as int, tcap),
                )
            } else {
                &&& if head_done {
                    &&& events@.len() == 1
                    &&& is_head_line(events@[0], lead)
                    &&& final(head_state).spec_partial() == Seq::<u8>::empty()
                } else {
                    &&& events@.len() == 0
                    &&& final(head_state).spec_partial() == lead
                }
                &&& final(tail_state).spec_partial() == Seq::<u8>::empty()
            }
        }),
{
    let ghost segs = split_segments(data@);
    let mut events: Vec<NewLine> = Vec::new();
    let parts = split_buffer(data);
    let head_done = match parts.head {
        Some(head_part) => {
            proof {
                assert(old(head_state).spec_partial().take(0) =~= Seq::<u8>::empty());
            }
            head_state.save_head_partial(head_part.as_slice());
            proof {
                assert(head_state.spec_partial() =~= segs[0].take(
                    min_int(segs[0].len() as int, old(head_state).spec_capacity()),
                ));
            }
            if head_state.has_reached_head() {
                events.push(NewLine::Head(head_state.take_partial()));
                true
            } else {
                false
            }
        },
        None => {
            proof {
                assert(false);
            }
            unreached()
        },
    };
    match parts.tail {
        Some(tail_part) => {
            let n = parts.middle.len();
            let ghost base = if head_done {
                1int
            } else {
                0int
            };
            let mut k: usize = 0;
            while k < n
                invariant
                    0 <= k <= n,
                    n == parts.middle@.len(),
                    n == segs.len() - 2,
                    segs == split_segments(data@),
                    base == (if head_done {
                        1int
                    } else {
                        0int
                    }),
                    events@.len() == k + base,
                    forall|j: int|
                        0 <= j < n ==> (#[trigger] parts.middle@[j])@ == segs[j + 1],
                    forall|j: int|
                        0 <= j < k ==> is_tail_line(events@[j + base], #[trigger] segs[j + 1]),
                    head_done ==> is_head_line(
                        events@[0],
                        segs[0].take(min_int(segs[0].len() as int, old(head_state).spec_capacity())),
                    ),
                    tail_state.wf(),
                    tail_state.spec_partial().len() == 0,
                decreases n - k,
            {
                events.push(NewLine::Tail(crate::bytes::copy_bytes(parts.middle[k].as_slice())));
                proof {
                    assert(is_tail_line(events@[k + base], segs[k + 1]));
                }
                k += 1;
            }
            tail_state.save_tail_partial(tail_part.as_slice());
            proof {
                assert(Seq::<u8>::empty() + segs.last().take(
                    min_int(segs.last().len() as int, old(tail_state).spec_capacity()),
                ) =~= segs.last().take(
                    min_int(segs.last().len() as int, old(tail_state).spec_capacity()),
                ));
            }
        },
        None => {
            proof {
                assert(tail_state.spec_partial() =~= Seq::<u8>::empty());
            }
        },
    }
    proof {
        let hcap = old(head_state).spec_capacity();
        let lead = segs[0].take(min_int(segs[0].len() as int, hcap));
        if segs.len() >= 2 {
            assert(events@.len() == (segs.len() - 2) + (if head_done {
                1int
            } else {
                0int
            }));
            if head_done {
                assert(is_head_line(events@[0], lead));
                assert(head_state.spec_partial() == Seq::<u8>::empty());
            } else {
                assert(head_state.spec_partial() == lead);
            }
            assert(tail_state.spec_partial() == segs.last().take(
                min_int(segs.last().len() as int, old(tail_state).spec_capacity()),
            ));
        } else {
            if head_done {
                assert(events@.len() == 1);
                assert(is_head_line(events@[0], lead));
            } else {
                assert(events@.len() == 0);
            }
            assert(tail_state.spec_partial() == Seq::<u8>::empty());
        }
    }
    events
}

} // verus!
