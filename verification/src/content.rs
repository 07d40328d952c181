//! The append-optimized store for one file's lines: a sequence of bounded
//! chunks, grown at either end, addressed by `(chunk, line)` indices that can
//! be stepped bidirectionally without large copies.

use crate::line::LogLine;
use vstd::prelude::*;

verus! {

/// A position inside one file's content: which chunk, and which logical line
/// within it.
#[derive(PartialEq, Eq, Structural, Debug, Copy, Clone)]
pub struct Index {
    chunk_index: usize,
    line_index: usize,
}

impl Index {
    /// The chunk addressed.
    pub closed spec fn chunk(self) -> int {
        self.chunk_index as int
    }

    /// The logical line within that chunk.
    pub closed spec fn line(self) -> int {
        self.line_index as int
    }

    /// An index made of its two coordinates.
    pub fn new(chunk_index: usize, line_index: usize) -> (r: Self)
        ensures
            r.chunk() == chunk_index,
            r.line() == line_index,
    {
        Self { chunk_index, line_index }
    }

    /// The position of the very first line.
    pub fn zero() -> (r: Self)
        ensures
            r.chunk() == 0,
            r.line() == 0,
            r == Index::spec_zero(),
    {
        Self::new(0, 0)
    }

    /// The all-zero position, as a value.
    pub closed spec fn spec_zero() -> Index {
        Index { chunk_index: 0, line_index: 0 }
    }

    /// Is this the all-zero position?
    pub fn is_zero(&self) -> (r: bool)
        ensures
            r == (self.chunk() == 0 && self.line() == 0),
            r == (*self == Index::spec_zero()),
    {
        self.chunk_index == 0 && self.line_index == 0
    }
}

/// A bounded buffer of lines. Insertion always happens at the physical end;
/// a reversed chunk is read back to front, so its logical order is the
/// reverse of its storage order.
struct Chunk {
    lines: Vec<LogLine>,
    reversed: bool,
    capacity: usize,
}

/// A mutable borrow of one chunk of a chunk vector, with the final vector
/// pinned to the final chunk.
fn vec_chunk_mut(v: &mut Vec<Chunk>, i: usize) -> (element: &mut Chunk)
    requires
        i < old(v).len(),
    ensures
        *element == old(v)@[i as int],
        final(v)@ == old(v)@.update(i as int, *final(element)),
{
    &mut v[i]
}

/// A mutable borrow of one element of a line vector, with the final vector
/// pinned to the final element.
fn vec_line_mut(v: &mut Vec<LogLine>, i: usize) -> (element: &mut LogLine)
    requires
        i < old(v).len(),
    ensures
        *element == old(v)@[i as int],
        final(v)@ == old(v)@.update(i as int, *final(element)),
{
    &mut v[i]
}

impl Chunk {
    /// The lines in logical (chronological) order.
    spec fn view(self) -> Seq<LogLine> {
        if self.reversed {
            self.lines@.reverse()
        } else {
            self.lines@
        }
    }

    spec fn wf(self) -> bool {
        self.lines@.len() <= self.capacity
    }

    fn new(capacity: usize, reversed: bool) -> (r: Self)
        ensures
            r.wf(),
            r.view() == Seq::<LogLine>::empty(),
            r.reversed == reversed,
            r.capacity == capacity,
            r.lines@.len() == 0,
    {
        let r = Chunk { lines: Vec::new(), reversed, capacity };
        proof {
            assert(r.view() =~= Seq::<LogLine>::empty());
        }
        r
    }

    /// Appends at the physical end: the logical front of a reversed chunk,
    /// the logical back of a forward one.
    fn push(&mut self, line: LogLine)
        ensures
            final(self).view() == if old(self).reversed {
                seq![line] + old(self).view()
            } else {
                old(self).view().push(line)
            },
            final(self).reversed == old(self).reversed,
            final(self).capacity == old(self).capacity,
            final(self).lines@.len() == old(self).lines@.len() + 1,
    {
        self.lines.push(line);
        proof {
            if self.reversed {
                assert(self.view() =~= seq![line] + old(self).view());
            }
        }
    }

    fn len(&self) -> (r: usize)
        ensures
            r == self.view().len(),
    {
        self.lines.len()
    }

    fn is_full(&self) -> (r: bool)
        requires
            self.wf(),
        ensures
            r == (self.lines@.len() == self.capacity),
    {
        self.lines.len() == self.capacity
    }

    fn is_reversed(&self) -> (r: bool)
        ensures
            r == self.reversed,
    {
        self.reversed
    }

    /// The line at logical position `i`.
    fn get(&self, i: usize) -> (r: Option<&LogLine>)
        ensures
            match r {
                Some(l) => i < self.view().len() && *l == self.view()[i as int],
                None => i >= self.view().len(),
            },
    {
        if i >= self.lines.len() {
            return None;
        }
        let slot = self.get_real_index(i);
        Some(&self.lines[slot])
    }

    /// Rewrites the cached link of the line at logical position `i`.
    fn set_link_at(&mut self, i: usize, direction: crate::line::LogDirection, new_link: crate::line::LogLink)
        requires
            i < old(self).lines@.len(),
        ensures
            final(self).reversed == old(self).reversed,
            final(self).capacity == old(self).capacity,
            final(self).lines@.len() == old(self).lines@.len(),
            final(self).view().len() == old(self).view().len(),
            forall|j: int|
                0 <= j < old(self).view().len() && j != i ==> final(self).view()[j] == old(
                    self,
                ).view()[j],
            final(self).view()[i as int].data() == old(self).view()[i as int].data(),
            final(self).view()[i as int].spec_link(direction) == (if old(self).view()[
                i as int
            ].data().is_good() {
                new_link
            } else {
                old(self).view()[i as int].spec_link(direction)
            }),
            final(self).view()[i as int].spec_link(crate::line::opposite(direction)) == old(
                self,
            ).view()[i as int].spec_link(crate::line::opposite(direction)),
    {
        let slot = self.get_real_index(i);
        let l = vec_line_mut(&mut self.lines, slot);
        l.set_link(direction, new_link);
        proof {
            assert(self.lines@.len() == old(self).lines@.len());
            assert(self.lines@ == old(self).lines@.update(slot as int, self.lines@[slot as int]));
            assert(self.reversed == old(self).reversed);
            assert(self.view() =~= old(self).view().update(i as int, self.lines@[slot as int]));
        }
    }

    /// Flips the mark of the line at logical position `i`.
    fn toggle_mark_at(&mut self, i: usize)
        requires
            i < old(self).lines@.len(),
        ensures
            final(self).reversed == old(self).reversed,
            final(self).capacity == old(self).capacity,
            final(self).lines@.len() == old(self).lines@.len(),
            final(self).view().len() == old(self).view().len(),
            forall|j: int|
                0 <= j < old(self).view().len() && j != i ==> final(self).view()[j] == old(
                    self,
                ).view()[j],
            final(self).view()[i as int].data() == old(self).view()[i as int].data().with_marked(
                !old(self).view()[i as int].data().marked(),
            ),
            forall|d: crate::line::LogDirection|
                final(self).view()[i as int].spec_link(d) == old(self).view()[
                    i as int
                ].spec_link(d),
    {
        let slot = self.get_real_index(i);
        let l = vec_line_mut(&mut self.lines, slot);
        l.toggle_mark();
        proof {
            assert(self.view() =~= old(self).view().update(i as int, self.lines@[slot as int]));
        }
    }

    /// Maps a logical position to its storage slot.
    fn get_real_index(&self, i: usize) -> (r: usize)
        requires
            i < self.lines@.len(),
        ensures
            r < self.lines@.len(),
            r == (if self.reversed {
                self.lines@.len() - 1 - i
            } else {
                i as int
            }),
            self.lines@[r as int] == self.view()[i as int],
    {
        if self.reversed {
            self.lines.len() - 1 - i
        } else {
            i
        }
    }
}

/// The two-level store for one file's lines.
pub struct LogFileContent {
    chunks: Vec<Chunk>,
    chunk_capacity: usize,
}

/// The logical sequences held by a sequence of chunks, concatenated.
pub open spec fn concat_all(chunks: Seq<Seq<LogLine>>) -> Seq<LogLine>
    decreases chunks.len(),
{
    if chunks.len() == 0 {
        Seq::empty()
    } else {
        chunks[0] + concat_all(chunks.skip(1))
    }
}

/// The number of lines held by the first `k` chunks.
pub open spec fn offset_of(chunks: Seq<Seq<LogLine>>, k: int) -> int
    decreases k,
{
    if k <= 0 {
        0
    } else {
        offset_of(chunks, k - 1) + chunks[k - 1].len()
    }
}

impl LogFileContent {
    /// The logical sequence of each chunk, oldest chunk first.
    pub closed spec fn chunks_view(self) -> Seq<Seq<LogLine>> {
        self.chunks@.map_values(|c: Chunk| c.view())
    }

    /// All lines of the file in logical order.
    pub open spec fn view(self) -> Seq<LogLine> {
        concat_all(self.chunks_view())
    }

    /// Every chunk is nonempty, within its bound, and bounded by the
    /// store's own chunk capacity.
    pub closed spec fn wf(self) -> bool {
        &&& self.chunk_capacity >= 1
        &&& forall|k: int|
            0 <= k < self.chunks@.len() ==> (#[trigger] self.chunks@[k]).wf()
        &&& forall|k: int| 0 <= k < self.chunks@.len() ==> (#[trigger] self.chunks@[k]).view().len() > 0
        &&& forall|k: int|
            0 <= k < self.chunks@.len() ==> (#[trigger] self.chunks@[k]).capacity
                == self.chunk_capacity
    }

    /// Does the index address a line?
    pub open spec fn valid_index(self, idx: Index) -> bool {
        &&& 0 <= idx.chunk() < self.chunks_view().len()
        &&& 0 <= idx.line() < self.chunks_view()[idx.chunk()].len()
    }

    /// The flat position an index addresses.
    pub open spec fn flat_index(self, idx: Index) -> int {
        offset_of(self.chunks_view(), idx.chunk()) + idx.line()
    }

    /// Creates an empty store; chunks hold up to `chunk_capacity` lines (a
    /// zero bound behaves as one, as a full chunk is simply retired sooner).
    pub fn new(chunk_capacity: usize) -> (r: Self)
        ensures
            r.wf(),
            r@ == Seq::<LogLine>::empty(),
            r.chunk_count() == 0,
            r.spec_chunk_capacity() == (if chunk_capacity == 0 {
                1int
            } else {
                chunk_capacity as int
            }),
    {
        let cap = if chunk_capacity == 0 {
            1
        } else {
            chunk_capacity
        };
        let r = LogFileContent { chunks: Vec::new(), chunk_capacity: cap };
        proof {
            assert(r.chunks_view() =~= Seq::<Seq<LogLine>>::empty());
        }
        r
    }

    /// Is the store empty? True exactly when no chunk exists, and chunks
    /// are never empty.
    pub fn is_empty(&self) -> (r: bool)
        requires
            self.wf(),
        ensures
            r == (self@.len() == 0),
    {
        proof {
            if self.chunks@.len() > 0 {
                lemma_offset_le_concat_len(self.chunks_view(), 1);
                assert(self@.len() >= self.chunks_view()[0].len());
            } else {
                assert(self.chunks_view() =~= Seq::<Seq<LogLine>>::empty());
            }
        }
        self.chunks.len() == 0
    }
}

impl LogFileContent {
    /// The bound each chunk is allocated with.
    pub closed spec fn spec_chunk_capacity(self) -> int {
        self.chunk_capacity as int
    }

    /// How many chunks the store holds.
    pub open spec fn chunk_count(self) -> int {
        self.chunks_view().len() as int
    }

    /// How many lines chunk `k` holds.
    pub open spec fn chunk_len(self, k: int) -> int {
        self.chunks_view()[k].len() as int
    }

    /// Is chunk `k` a reversed one — filled from its logical front?
    pub closed spec fn chunk_reversed(self, k: int) -> bool {
        self.chunks@[k].reversed
    }

    /// Must a front insertion open a fresh chunk? Exactly when no chunk
    /// exists, the front chunk is a forward one, or it is full.
    pub open spec fn needs_front_chunk(self) -> bool {
        self.chunk_count() == 0 || !self.chunk_reversed(0) || self.chunk_len(0)
            == self.spec_chunk_capacity()
    }

    /// Must a back insertion open a fresh chunk? Exactly when no chunk
    /// exists, the back chunk is a reversed one, or it is full.
    pub open spec fn needs_back_chunk(self) -> bool {
        self.chunk_count() == 0 || self.chunk_reversed(self.chunk_count() - 1) || self.chunk_len(
            self.chunk_count() - 1,
        ) == self.spec_chunk_capacity()
    }

    /// The index of the last line, as a value: the last position of the
    /// last chunk, or the all-zero index of an empty store.
    pub closed spec fn spec_last_index(self) -> Index {
        if self.chunks@.len() == 0 {
            Index { chunk_index: 0, line_index: 0 }
        } else {
            Index {
                chunk_index: (self.chunks@.len() - 1) as usize,
                line_index: (self.chunks@[self.chunks@.len() - 1].view().len() - 1) as usize,
            }
        }
    }
}

/// Do two stores slice their lines into chunks of the same lengths? Indices
/// keep their meaning exactly when they do.
pub open spec fn same_shape(a: LogFileContent, b: LogFileContent) -> bool {
    &&& a.chunks_view().len() == b.chunks_view().len()
    &&& forall|k: int|
        0 <= k < a.chunks_view().len() ==> (#[trigger] a.chunks_view()[k]).len()
            == b.chunks_view()[k].len()
}

impl LogFileContent {
    /// Must a fresh chunk be put at the front before a front insertion?
    fn should_extend_front(&self) -> (r: bool)
        requires
            self.wf(),
        ensures
            r == (self.chunks@.len() == 0 || !self.chunks@[0].reversed || self.chunks@[0].lines@.len()
                == self.chunks@[0].capacity),
    {
        if self.chunks.len() == 0 {
            true
        } else {
            !self.chunks[0].is_reversed() || self.chunks[0].is_full()
        }
    }

    /// Must a fresh chunk be put at the back before a back insertion?
    fn should_extend_back(&self) -> (r: bool)
        requires
            self.wf(),
        ensures
            r == (self.chunks@.len() == 0 || self.chunks@[self.chunks@.len() - 1].reversed
                || self.chunks@[self.chunks@.len() - 1].lines@.len()
                == self.chunks@[self.chunks@.len() - 1].capacity),
    {
        if self.chunks.len() == 0 {
            true
        } else {
            let last = self.chunks.len() - 1;
            self.chunks[last].is_reversed() || self.chunks[last].is_full()
        }
    }

    /// Inserts a line before everything already stored.
    pub fn push_front(&mut self, line: LogLine)
        requires
            old(self).wf(),
        ensures
            final(self).wf(),
            final(self)@ == seq![line] + old(self)@,
            final(self).spec_chunk_capacity() == old(self).spec_chunk_capacity(),
            if old(self).needs_front_chunk() {
                &&& final(self).chunk_count() == old(self).chunk_count() + 1
                &&& final(self).chunk_len(0) == 1
                &&& final(self).chunk_reversed(0)
                &&& forall|k: int|
                    0 <= k < old(self).chunk_count() ==> final(self).chunk_len(k + 1)
                        == old(self).chunk_len(k) && final(self).chunk_reversed(k + 1) == old(
                        self,
                    ).chunk_reversed(k)
            } else {
                &&& final(self).chunk_count() == old(self).chunk_count()
                &&& final(self).chunk_len(0) == old(self).chunk_len(0) + 1
                &&& final(self).chunk_reversed(0)
                &&& forall|k: int|
                    1 <= k < old(self).chunk_count() ==> final(self).chunk_len(k) == old(
                        self,
                    ).chunk_len(k) && final(self).chunk_reversed(k) == old(self).chunk_reversed(k)
            },
    {
        if self.should_extend_front() {
            let fresh = Chunk::new(self.chunk_capacity, true);
            let ghost fresh_g = fresh;
            self.chunks.insert(0, fresh);
            proof {
                assert(self.chunks@ =~= seq![fresh_g] + old(self).chunks@);
                assert(self.chunks_view() =~= seq![Seq::<LogLine>::empty()]
                    + old(self).chunks_view());
            }
        }
        let ghost mid_views = self.chunks_view();
        let ghost mid_chunks = self.chunks@;
        let c = &mut self.chunks[0];
        let ghost head_view = c.view();
        c.push(line);
        proof {
            assert(self.chunks_view() =~= mid_views.update(0, seq![line] + head_view));
            assert(self.chunks_view()[0] == seq![line] + mid_views[0]);
            assert(self.chunks_view().skip(1) =~= mid_views.skip(1));
            assert(self@ == self.chunks_view()[0] + concat_all(self.chunks_view().skip(1)));
            assert(concat_all(mid_views) == mid_views[0] + concat_all(mid_views.skip(1)));
            if old(self).chunks@.len() == 0 || !old(self).chunks@[0].reversed || old(
                self,
            ).chunks@[0].lines@.len() == old(self).chunks@[0].capacity {
                assert(mid_views.skip(1) =~= old(self).chunks_view());
                assert(mid_views[0].len() == 0);
                assert(self@ =~= seq![line] + old(self)@);
            } else {
                assert(mid_views == old(self).chunks_view());
                assert(self@ =~= seq![line] + old(self)@);
            }
        }
        proof {
            assert(self.chunks@ =~= mid_chunks.update(0, self.chunks@[0]));
            if old(self).needs_front_chunk() {
                assert(self.chunks@[0].reversed);
                assert(self.chunks_view()[0].len() == 1);
                assert forall|k: int| 0 <= k < old(self).chunk_count() implies self.chunk_len(
                    k + 1,
                ) == old(self).chunk_len(k) && self.chunk_reversed(k + 1) == old(
                    self,
                ).chunk_reversed(k) by {
                    assert(self.chunks@[k + 1] == mid_chunks[k + 1]);
                    assert(mid_chunks[k + 1] == old(self).chunks@[k]);
                }
            } else {
                assert(self.chunks@[0].reversed);
                assert forall|k: int| 1 <= k < old(self).chunk_count() implies self.chunk_len(k)
                    == old(self).chunk_len(k) && self.chunk_reversed(k) == old(
                    self,
                ).chunk_reversed(k) by {
                    assert(self.chunks@[k] == old(self).chunks@[k]);
                }
            }
        }
    }

    /// Inserts a line after everything already stored.
    pub fn push_back(&mut self, line: LogLine)
        requires
            old(self).wf(),
        ensures
            final(self).wf(),
            final(self)@ == old(self)@.push(line),
            final(self).spec_chunk_capacity() == old(self).spec_chunk_capacity(),
            if old(self).needs_back_chunk() {
                &&& final(self).chunk_count() == old(self).chunk_count() + 1
                &&& final(self).chunk_len(final(self).chunk_count() - 1) == 1
                &&& !final(self).chunk_reversed(final(self).chunk_count() - 1)
                &&& forall|k: int|
                    0 <= k < old(self).chunk_count() ==> final(self).chunk_len(k) == old(
                        self,
                    ).chunk_len(k) && final(self).chunk_reversed(k) == old(self).chunk_reversed(k)
            } else {
                &&& final(self).chunk_count() == old(self).chunk_count()
                &&& final(self).chunk_len(final(self).chunk_count() - 1) == old(self).chunk_len(
                    old(self).chunk_count() - 1,
                ) + 1
                &&& !final(self).chunk_reversed(final(self).chunk_count() - 1)
                &&& forall|k: int|
                    0 <= k < old(self).chunk_count() - 1 ==> final(self).chunk_len(k) == old(
                        self,
                    ).chunk_len(k) && final(self).chunk_reversed(k) == old(self).chunk_reversed(k)
            },
    {
        if self.should_extend_back() {
            let fresh = Chunk::new(self.chunk_capacity, false);
            let ghost fresh_g = fresh;
            self.chunks.push(fresh);
            proof {
                assert(self.chunks@ =~= old(self).chunks@.push(fresh_g));
                assert(self.chunks_view() =~= old(self).chunks_view().push(
                    Seq::<LogLine>::empty(),
                ));
            }
        }
        let ghost mid_views = self.chunks_view();
        let ghost mid_chunks = self.chunks@;
        let last = self.chunks.len() - 1;
        let c = &mut self.chunks[last];
        let ghost tail_view = c.view();
        c.push(line);
        proof {
            let k = mid_views.len() - 1;
            assert(self.chunks_view() =~= mid_views.update(k, tail_view.push(line)));
            lemma_concat_update_chunk(mid_views, k, tail_view.push(line));
            lemma_concat_update_chunk(mid_views, k, mid_views[k]);
            assert(mid_views.update(k, mid_views[k]) =~= mid_views);
            lemma_offset_bounds(mid_views, k);
            lemma_offset_le_concat_len(mid_views, mid_views.len() as int);
            assert(self@ =~= concat_all(mid_views).push(line));
            if old(self).chunks@.len() == 0 || old(self).chunks@[old(self).chunks@.len()
                - 1].reversed || old(self).chunks@[old(self).chunks@.len() - 1].lines@.len() == old(
                self,
            ).chunks@[old(self).chunks@.len() - 1].capacity {
                assert(mid_views =~= old(self).chunks_view().push(Seq::<LogLine>::empty()));
                lemma_concat_append_chunk(old(self).chunks_view(), Seq::<LogLine>::empty());
                assert(concat_all(mid_views) =~= old(self)@);
                assert(self@ =~= old(self)@.push(line));
            } else {
                assert(mid_views == old(self).chunks_view());
                assert(self@ =~= old(self)@.push(line));
            }
        }
        proof {
            let last_k = self.chunks@.len() - 1;
            assert(self.chunks@ =~= mid_chunks.update(last_k, self.chunks@[last_k]));
            if old(self).needs_back_chunk() {
                assert(!self.chunks@[last_k].reversed);
                assert(self.chunks_view()[last_k].len() == 1);
                assert forall|k: int| 0 <= k < old(self).chunk_count() implies self.chunk_len(k)
                    == old(self).chunk_len(k) && self.chunk_reversed(k) == old(
                    self,
                ).chunk_reversed(k) by {
                    assert(self.chunks@[k] == mid_chunks[k]);
                    assert(mid_chunks[k] == old(self).chunks@[k]);
                }
            } else {
                assert(!self.chunks@[last_k].reversed);
                assert forall|k: int| 0 <= k < old(self).chunk_count() - 1 implies self.chunk_len(
                    k,
                ) == old(self).chunk_len(k) && self.chunk_reversed(k) == old(
                    self,
                ).chunk_reversed(k) by {
                    assert(self.chunks@[k] == old(self).chunks@[k]);
                }
            }
        }
    }

    /// The index of the first line; meaningful only when the store is not
    /// empty.
    pub fn first_index(&self) -> (r: Index)
        requires
            self.wf(),
        ensures
            r.chunk() == 0 && r.line() == 0,
            self@.len() > 0 ==> self.valid_index(r) && self.flat_index(r) == 0,
    {
        proof {
            if self@.len() > 0 {
                if self.chunks@.len() == 0 {
                    assert(self.chunks_view() =~= Seq::<Seq<LogLine>>::empty());
                }
            }
        }
        Index::zero()
    }

    /// The index of the last line; meaningful only when the store is not
    /// empty.
    pub fn last_index(&self) -> (r: Index)
        requires
            self.wf(),
        ensures
            r == self.spec_last_index(),
            self@.len() > 0 ==> self.valid_index(r) && self.flat_index(r) == self@.len() - 1,
            self@.len() == 0 ==> r.chunk() == 0 && r.line() == 0,
    {
        if self.chunks.len() == 0 {
            proof {
                assert(self.chunks_view() =~= Seq::<Seq<LogLine>>::empty());
            }
            return Index::zero();
        }
        let ci = self.chunks.len() - 1;
        let li = self.chunks[ci].len() - 1;
        proof {
            lemma_offset_bounds(self.chunks_view(), ci as int);
            lemma_offset_le_concat_len(self.chunks_view(), self.chunks_view().len() as int);
            lemma_offset_nonneg(self.chunks_view(), ci as int);
        }
        Index::new(ci, li)
    }

    /// The line an index addresses, if it addresses one.
    pub fn get(&self, index: Index) -> (r: Option<&LogLine>)
        requires
            self.wf(),
        ensures
            match r {
                Some(l) => self.valid_index(index) && *l == self@[self.flat_index(index)],
                None => !self.valid_index(index),
            },
    {
        if index.chunk_index >= self.chunks.len() {
            return None;
        }
        let r = self.chunks[index.chunk_index].get(index.line_index);
        proof {
            if r is Some {
                lemma_concat_index(
                    self.chunks_view(),
                    index.chunk_index as int,
                    index.line_index as int,
                );
            }
        }
        r
    }

    /// Moves an index `n` logical steps, crossing chunk boundaries as
    /// needed. Lands on a line: the new index. Runs off either end, or
    /// starts nowhere: the signed distance still unconsumed, measured from
    /// the position just past that end.
    pub fn step_index(&self, index: Index, n: isize) -> (r: Result<Index, isize>)
        requires
            self.wf(),
        ensures
            ({
                let target = self.flat_index(index) + n;
                match r {
                    Ok(j) => self.valid_index(index) && self.valid_index(j) && self.flat_index(j)
                        == target,
                    Err(m) => if !self.valid_index(index) {
                        m == n
                    } else if target >= self@.len() {
                        m == target - self@.len()
                    } else {
                        target < 0 && m == target + 1
                    },
                }
            }),
    {
        if index.chunk_index >= self.chunks.len() {
            return Err(n);
        }
        if index.line_index >= self.chunks[index.chunk_index].len() {
            return Err(n);
        }
        let mut ci: usize = index.chunk_index;
        let mut li: usize = index.line_index;
        let mut rem: isize = n;
        let ghost target = self.flat_index(index) + n;
        loop
            invariant
                self.wf(),
                0 <= ci < self.chunks@.len(),
                0 <= li < self.chunks_view()[ci as int].len(),
                n >= 0 ==> 0 <= rem <= n,
                n < 0 ==> n <= rem <= 0,
                offset_of(self.chunks_view(), ci as int) + li + rem == target,
                target == self.flat_index(index) + n,
                self.valid_index(index),
            decreases (if n >= 0 {
                self.chunks@.len() - ci
            } else {
                ci + 1
            }),
        {
            if rem == 0 {
                return Ok(Index::new(ci, li));
            }
            let clen = self.chunks[ci].len();
            let next: i128 = li as i128 + rem as i128;
            if next < 0 {
                let stepped: isize = (next + 1) as isize;
                proof {
                    lemma_offset_nonneg(self.chunks_view(), ci as int);
                }
                if ci == 0 {
                    return Err(stepped);
                }
                ci = ci - 1;
                li = self.chunks[ci].len() - 1;
                rem = stepped;
                proof {
                    lemma_offset_bounds(self.chunks_view(), ci as int);
                }
            } else if next >= clen as i128 {
                let stepped: isize = (next - clen as i128) as isize;
                proof {
                    lemma_offset_bounds(self.chunks_view(), ci as int);
                }
                if ci == self.chunks.len() - 1 {
                    proof {
                        lemma_offset_le_concat_len(
                            self.chunks_view(),
                            self.chunks_view().len() as int,
                        );
                    }
                    return Err(stepped);
                }
                ci = ci + 1;
                li = 0;
                rem = stepped;
            } else {
                proof {
                    lemma_concat_index(self.chunks_view(), ci as int, next as int);
                }
                return Ok(Index::new(ci, next as usize));
            }
        }
    }

    /// Rewrites the cached link of the line at `index` for one direction.
    pub fn set_link_at(
        &mut self,
        index: Index,
        direction: crate::line::LogDirection,
        new_link: crate::line::LogLink,
    )
        requires
            old(self).wf(),
            old(self).valid_index(index),
        ensures
            final(self).wf(),
            same_shape(*old(self), *final(self)),
            final(self)@.len() == old(self)@.len(),
            forall|i: int|
                0 <= i < old(self)@.len() && i != old(self).flat_index(index) ==> final(self)@[i]
                    == old(self)@[i],
            ({
                let f = old(self).flat_index(index);
                &&& final(self)@[f].data() == old(self)@[f].data()
                &&& final(self)@[f].spec_link(direction) == (if old(self)@[f].data().is_good() {
                    new_link
                } else {
                    old(self)@[f].spec_link(direction)
                })
                &&& final(self)@[f].spec_link(crate::line::opposite(direction)) == old(
                    self,
                )@[f].spec_link(crate::line::opposite(direction))
            }),
    {
        let ci = index.chunk_index;
        let li = index.line_index;
        let c = vec_chunk_mut(&mut self.chunks, ci);
        c.set_link_at(li, direction, new_link);
        proof {
            assert(forall|k: int|
                0 <= k < old(self).chunks@.len() && k != ci ==> self.chunks_view()[k] == old(
                    self,
                ).chunks_view()[k]);
            assert(self.chunks_view()[ci as int] =~= old(self).chunks_view()[ci as int].update(
                li as int,
                self.chunks_view()[ci as int][li as int],
            ));
            lemma_content_point_update(*old(self), *self, ci as int, li as int);
        }
    }

    /// Flips the user-visible mark of the line at `index`.
    pub fn toggle_mark_at(&mut self, index: Index)
        requires
            old(self).wf(),
            old(self).valid_index(index),
        ensures
            final(self).wf(),
            same_shape(*old(self), *final(self)),
            final(self)@.len() == old(self)@.len(),
            forall|i: int|
                0 <= i < old(self)@.len() && i != old(self).flat_index(index) ==> final(self)@[i]
                    == old(self)@[i],
            ({
                let f = old(self).flat_index(index);
                &&& final(self)@[f].data() == old(self)@[f].data().with_marked(
                    !old(self)@[f].data().marked(),
                )
                &&& forall|d: crate::line::LogDirection|
                    final(self)@[f].spec_link(d) == old(self)@[f].spec_link(d)
            }),
    {
        let ci = index.chunk_index;
        let li = index.line_index;
        let c = vec_chunk_mut(&mut self.chunks, ci);
        c.toggle_mark_at(li);
        proof {
            assert(forall|k: int|
                0 <= k < old(self).chunks@.len() && k != ci ==> self.chunks_view()[k] == old(
                    self,
                ).chunks_view()[k]);
            assert(self.chunks_view()[ci as int] =~= old(self).chunks_view()[ci as int].update(
                li as int,
                self.chunks_view()[ci as int][li as int],
            ));
            lemma_content_point_update(*old(self), *self, ci as int, li as int);
        }
    }
}

/// When two stores differ in a single line of a single chunk, their flat
/// views differ in exactly that line, at the flat position the chunk offset
/// gives it.
proof fn lemma_content_point_update(a: LogFileContent, b: LogFileContent, ci: int, li: int)
    requires
        a.wf(),
        0 <= ci < a.chunks_view().len(),
        0 <= li < a.chunks_view()[ci].len(),
        b.chunks_view().len() == a.chunks_view().len(),
        forall|k: int|
            0 <= k < a.chunks_view().len() && k != ci ==> b.chunks_view()[k] == a.chunks_view()[k],
        b.chunks_view()[ci] == a.chunks_view()[ci].update(li, b.chunks_view()[ci][li]),
    ensures
        same_shape(a, b),
        b@ == a@.update(offset_of(a.chunks_view(), ci) + li, b.chunks_view()[ci][li]),
        0 <= offset_of(a.chunks_view(), ci) + li < a@.len(),
        a@[offset_of(a.chunks_view(), ci) + li] == a.chunks_view()[ci][li],
{
    let av = a.chunks_view();
    let bv = b.chunks_view();
    let x = bv[ci][li];
    assert(bv =~= av.update(ci, av[ci].update(li, x)));
    lemma_concat_update_chunk(av, ci, av[ci].update(li, x));
    lemma_concat_update_chunk(av, ci, av[ci]);
    assert(av.update(ci, av[ci]) =~= av);
    lemma_offset_bounds(av, ci);
    lemma_offset_le_concat_len(av, av.len() as int);
    lemma_offset_nonneg(av, ci);
    lemma_concat_index(av, ci, li);
    assert forall|j: int| 0 <= j < av[ci].len() implies concat_all(av)[offset_of(av, ci) + j]
        == av[ci][j] by {
        lemma_concat_index(av, ci, j);
    }
    assert(b@ =~= a@.update(offset_of(av, ci) + li, x));
}

/// Walks a `LogFileContent` from old to new. The cursor holds no borrow: it
/// re-resolves its position through the store on each step.
pub struct ForwardIter {
    index: Option<Index>,
}

/// Walks a `LogFileContent` from new to old.
pub struct BackwardIter {
    index: Option<Index>,
}

impl ForwardIter {
    /// The position the next call will yield, if any.
    pub closed spec fn cur(self) -> Option<Index> {
        self.index
    }

    /// Yields the line at the cursor and advances one step.
    pub fn next<'a>(&mut self, data: &'a LogFileContent) -> (r: Option<(Index, &'a LogLine)>)
        requires
            data.wf(),
        ensures
            match r {
                Some((i, l)) => {
                    &&& old(self).cur() == Some(i)
                    &&& data.valid_index(i)
                    &&& *l == data@[data.flat_index(i)]
                    &&& match final(self).cur() {
                        Some(j) => data.valid_index(j) && data.flat_index(j) == data.flat_index(i)
                            + 1,
                        None => data.flat_index(i) + 1 >= data@.len(),
                    }
                },
                None => {
                    &&& final(self).cur() == old(self).cur()
                    &&& match old(self).cur() {
                        Some(i) => !data.valid_index(i),
                        None => true,
                    }
                },
            },
    {
        match self.next_nth(data, 0) {
            Ok((i, l)) => {
                proof {
                    lemma_flat_injective(*data, i, old(self).cur().unwrap());
                }
                Some((i, l))
            },
            Err(_) => {
                proof {
                    match old(self).cur() {
                        Some(s) => {
                            if data.valid_index(s) {
                                lemma_flat_in_range(*data, s);
                            }
                        },
                        None => {},
                    }
                }
                None
            },
        }
    }

    /// Yields the line `n` steps ahead of the cursor and advances past it;
    /// past the end, the number of steps that did not fit.
    pub fn next_nth<'a>(&mut self, data: &'a LogFileContent, n: usize) -> (r: Result<
        (Index, &'a LogLine),
        usize,
    >)
        requires
            data.wf(),
            n <= isize::MAX as usize,
        ensures
            match r {
                Ok((i, l)) => {
                    &&& match old(self).cur() {
                        Some(s) => data.valid_index(s) && data.valid_index(i) && data.flat_index(i)
                            == data.flat_index(s) + n,
                        None => false,
                    }
                    &&& *l == data@[data.flat_index(i)]
                    &&& match final(self).cur() {
                        Some(j) => data.valid_index(j) && data.flat_index(j) == data.flat_index(i)
                            + 1,
                        None => data.flat_index(i) + 1 >= data@.len(),
                    }
                },
                Err(m) => {
                    &&& final(self).cur() == old(self).cur()
                    &&& match old(self).cur() {
                        Some(s) => if !data.valid_index(s) {
                            m == n
                        } else {
                            data.flat_index(s) + n >= data@.len() && m == data.flat_index(s) + n
                                - data@.len()
                        },
                        None => m == n,
                    }
                },
            },
    {
        match self.index {
            None => Err(n),
            Some(index) => {
                match data.step_index(index, n as isize) {
                    Ok(found) => {
                        proof {
                            lemma_flat_in_range(*data, found);
                        }
                        let line = match data.get(found) {
                            Some(l) => l,
                            None => {
                                proof {
                                    assert(false);
                                }
                                unreached()
                            },
                        };
                        self.index = match data.step_index(found, 1) {
                            Ok(j) => Some(j),
                            Err(_) => None,
                        };
                        Ok((found, line))
                    },
                    Err(m) => {
                        proof {
                            if data.valid_index(index) {
                                lemma_offset_nonneg(data.chunks_view(), index.chunk());
                            }
                        }
                        Err(m as usize)
                    },
                }
            },
        }
    }
}

impl BackwardIter {
    /// The position the next call will yield, if any.
    pub closed spec fn cur(self) -> Option<Index> {
        self.index
    }

    /// Yields the line at the cursor and steps one back.
    pub fn next<'a>(&mut self, data: &'a LogFileContent) -> (r: Option<(Index, &'a LogLine)>)
        requires
            data.wf(),
        ensures
            match r {
                Some((i, l)) => {
                    &&& old(self).cur() == Some(i)
                    &&& data.valid_index(i)
                    &&& *l == data@[data.flat_index(i)]
                    &&& match final(self).cur() {
                        Some(j) => data.valid_index(j) && data.flat_index(j) == data.flat_index(i)
                            - 1,
                        None => data.flat_index(i) == 0,
                    }
                },
                None => {
                    &&& final(self).cur() == old(self).cur()
                    &&& match old(self).cur() {
                        Some(i) => !data.valid_index(i),
                        None => true,
                    }
                },
            },
    {
        match self.next_nth(data, 0) {
            Ok((i, l)) => {
                proof {
                    lemma_flat_injective(*data, i, old(self).cur().unwrap());
                }
                Some((i, l))
            },
            Err(_) => {
                proof {
                    match old(self).cur() {
                        Some(s) => {
                            if data.valid_index(s) {
                                lemma_flat_in_range(*data, s);
                            }
                        },
                        None => {},
                    }
                }
                None
            },
        }
    }

    /// Yields the line `n` steps behind the cursor and steps past it; past
    /// the front, the number of steps that did not fit.
    pub fn next_nth<'a>(&mut self, data: &'a LogFileContent, n: usize) -> (r: Result<
        (Index, &'a LogLine),
        usize,
    >)
        requires
            data.wf(),
            n <= isize::MAX as usize,
        ensures
            match r {
                Ok((i, l)) => {
                    &&& match old(self).cur() {
                        Some(s) => data.valid_index(s) && data.valid_index(i) && data.flat_index(i)
                            == data.flat_index(s) - n,
                        None => false,
                    }
                    &&& *l == data@[data.flat_index(i)]
                    &&& match final(self).cur() {
                        Some(j) => data.valid_index(j) && data.flat_index(j) == data.flat_index(i)
                            - 1,
                        None => data.flat_index(i) == 0,
                    }
                },
                Err(m) => {
                    &&& final(self).cur() == old(self).cur()
                    &&& match old(self).cur() {
                        Some(s) => if !data.valid_index(s) {
                            m == n
                        } else {
                            data.flat_index(s) - n < 0 && m == n - data.flat_index(s) - 1
                        },
                        None => m == n,
                    }
                },
            },
    {
        match self.index {
            None => Err(n),
            Some(index) => {
                let step: isize = -(n as isize);
                match data.step_index(index, step) {
                    Ok(found) => {
                        proof {
                            lemma_flat_in_range(*data, found);
                        }
                        let line = match data.get(found) {
                            Some(l) => l,
                            None => {
                                proof {
                                    assert(false);
                                }
                                unreached()
                            },
                        };
                        self.index = match data.step_index(found, -1) {
                            Ok(j) => Some(j),
                            Err(_) => None,
                        };
                        proof {
                            if data.flat_index(found) > 0 {
                                lemma_offset_nonneg(data.chunks_view(), found.chunk());
                            }
                        }
                        Ok((found, line))
                    },
                    Err(m) => {
                        proof {
                            if data.valid_index(index) {
                                lemma_flat_in_range(*data, index);
                            }
                        }
                        let magnitude: isize = -m;
                        Err(magnitude as usize)
                    },
                }
            },
        }
    }
}

impl LogFileContent {
    /// A forward walk starting at `index`.
    pub fn iter_forward_from(&self, index: Index) -> (r: ForwardIter)
        requires
            self.wf(),
        ensures
            r.cur() == Some(index),
    {
        ForwardIter { index: Some(index) }
    }

    /// A forward walk over everything.
    pub fn iter_forward_from_head(&self) -> (r: ForwardIter)
        requires
            self.wf(),
        ensures
            ({
                let i = r.cur().unwrap();
                &&& r.cur() is Some
                &&& i.chunk() == 0 && i.line() == 0
                &&& self@.len() > 0 ==> self.valid_index(i) && self.flat_index(i) == 0
            }),
    {
        let first = self.first_index();
        ForwardIter { index: Some(first) }
    }

    /// A backward walk starting at `index`.
    pub fn iter_backward_from(&self, index: Index) -> (r: BackwardIter)
        requires
            self.wf(),
        ensures
            r.cur() == Some(index),
    {
        BackwardIter { index: Some(index) }
    }

    /// A backward walk over everything.
    pub fn iter_backward_from_tail(&self) -> (r: BackwardIter)
        requires
            self.wf(),
        ensures
            ({
                let i = r.cur().unwrap();
                &&& r.cur() is Some
                &&& self@.len() > 0 ==> self.valid_index(i) && self.flat_index(i) == self@.len()
                    - 1
            }),
    {
        let last = self.last_index();
        BackwardIter { index: Some(last) }
    }
}

/// Offsets depend only on the lengths of the chunks.
pub proof fn lemma_offset_congruent(x: Seq<Seq<LogLine>>, y: Seq<Seq<LogLine>>, k: int)
    requires
        x.len() == y.len(),
        forall|j: int| 0 <= j < x.len() ==> (#[trigger] x[j]).len() == y[j].len(),
        k <= x.len(),
    ensures
        offset_of(x, k) == offset_of(y, k),
    decreases k,
{
    if k > 0 {
        lemma_offset_congruent(x, y, k - 1);
    }
}

/// Two stores of the same shape agree on index validity and flat positions,
/// and hold the same number of lines.
pub proof fn lemma_same_shape_flat(a: LogFileContent, b: LogFileContent)
    requires
        same_shape(a, b),
    ensures
        a@.len() == b@.len(),
        forall|i: Index| a.valid_index(i) == b.valid_index(i),
        forall|i: Index| a.valid_index(i) ==> #[trigger] a.flat_index(i) == b.flat_index(i),
{
    lemma_offset_le_concat_len(a.chunks_view(), a.chunks_view().len() as int);
    lemma_offset_le_concat_len(b.chunks_view(), b.chunks_view().len() as int);
    lemma_offset_congruent(a.chunks_view(), b.chunks_view(), a.chunks_view().len() as int);
    assert forall|i: Index| a.valid_index(i) implies #[trigger] a.flat_index(i) == b.flat_index(
        i,
    ) by {
        lemma_offset_congruent(a.chunks_view(), b.chunks_view(), i.chunk());
    }
}

/// In a nonempty store the all-zero index addresses the first line.
pub proof fn lemma_zero_index_valid(c: LogFileContent, i: Index)
    requires
        c.wf(),
        c@.len() > 0,
        i.chunk() == 0,
        i.line() == 0,
    ensures
        c.valid_index(i),
        c.flat_index(i) == 0,
{
    if c.chunks_view().len() == 0 {
        assert(c.chunks_view() =~= Seq::<Seq<LogLine>>::empty());
    }
}

impl LogFileContent {
    /// Copies out every line, walking forward from the head: the result is
    /// the stored sequence, in order, exactly. Together with the push
    /// contracts this pins the round trip: lines inserted at the front and
    /// the back read back in their logical order.
    pub fn collect_forward(&self) -> (r: Vec<LogLine>)
        requires
            self.wf(),
        ensures
            r@.len() == self@.len(),
            forall|i: int| 0 <= i < self@.len() ==> (#[trigger] r@[i]).data() == self@[i].data(),
    {
        let mut out: Vec<LogLine> = Vec::new();
        let mut iter = self.iter_forward_from_head();
        if self.is_empty() {
            return out;
        }
        loop
            invariant
                self.wf(),
                self@.len() > 0,
                out@.len() <= self@.len(),
                forall|i: int|
                    0 <= i < out@.len() ==> (#[trigger] out@[i]).data() == self@[i].data(),
                match iter.cur() {
                    Some(p) => self.valid_index(p) && self.flat_index(p) == out@.len(),
                    None => out@.len() == self@.len(),
                },
            decreases self@.len() - out@.len(),
        {
            let ghost before = out@.len() as int;
            match iter.next(self) {
                Some((i, l)) => {
                    proof {
                        lemma_flat_in_range(*self, i);
                    }
                    out.push(clone_line(l));
                },
                None => {
                    return out;
                },
            }
            proof {
                match iter.cur() {
                    Some(p) => {},
                    None => {
                        assert(out@.len() == self@.len());
                    },
                }
            }
        }
    }
}

/// A fresh copy of one line.
fn clone_line(l: &LogLine) -> (r: LogLine)
    ensures
        r.data() == l.data(),
{
    l.clone()
}

/// A valid index addresses a real flat position.
pub proof fn lemma_flat_in_range(c: LogFileContent, i: Index)
    requires
        c.wf(),
        c.valid_index(i),
    ensures
        0 <= c.flat_index(i) < c@.len(),
{
    lemma_offset_nonneg(c.chunks_view(), i.chunk());
    lemma_offset_bounds(c.chunks_view(), i.chunk());
    lemma_offset_le_concat_len(c.chunks_view(), c.chunks_view().len() as int);
}

/// Two distinct valid indices address distinct flat positions: the flat
/// position determines the index.
pub proof fn lemma_flat_injective(c: LogFileContent, i1: Index, i2: Index)
    requires
        c.wf(),
        c.valid_index(i1),
        c.valid_index(i2),
        c.flat_index(i1) == c.flat_index(i2),
    ensures
        i1 == i2,
{
    if i1.chunk() != i2.chunk() {
        let (lo, hi) = if i1.chunk() < i2.chunk() {
            (i1, i2)
        } else {
            (i2, i1)
        };
        lemma_offset_bounds(c.chunks_view(), lo.chunk());
        lemma_offset_monotone(c.chunks_view(), lo.chunk() + 1, hi.chunk());
        assert(c.flat_index(lo) < offset_of(c.chunks_view(), lo.chunk() + 1));
        assert(c.flat_index(hi) >= offset_of(c.chunks_view(), hi.chunk()));
        assert(false);
    }
}

/// Index symmetry: when stepping an index by `n` lands on a valid index `j`,
/// stepping `j` by `-n` must land back on the original index and nowhere
/// else. Together with `step_index`'s contract this pins
/// `step_index(step_index(i, n), -n)` to `Ok(i)`.
pub proof fn lemma_step_index_symmetry(c: LogFileContent, i: Index, j: Index, n: int)
    requires
        c.wf(),
        c.valid_index(i),
        c.valid_index(j),
        c.flat_index(j) == c.flat_index(i) + n,
    ensures
        c.flat_index(i) == c.flat_index(j) + (-n),
        forall|k: Index|
            c.valid_index(k) && c.flat_index(k) == c.flat_index(j) + (-n) ==> k == i,
{
    assert forall|k: Index|
        c.valid_index(k) && c.flat_index(k) == c.flat_index(j) + (-n) implies k == i by {
        lemma_flat_injective(c, k, i);
    }
}

/// Replacing the sequence of one chunk splices the replacement into the
/// concatenation in place of that chunk's lines.
pub proof fn lemma_concat_update_chunk(chunks: Seq<Seq<LogLine>>, k: int, w: Seq<LogLine>)
    requires
        0 <= k < chunks.len(),
    ensures
        0 <= offset_of(chunks, k),
        offset_of(chunks, k) + chunks[k].len() <= concat_all(chunks).len(),
        concat_all(chunks.update(k, w)) == concat_all(chunks).subrange(0, offset_of(chunks, k)) + w
            + concat_all(chunks).skip(offset_of(chunks, k) + chunks[k].len()),
    decreases k,
{
    lemma_offset_nonneg(chunks, k);
    lemma_offset_bounds(chunks, k);
    lemma_offset_le_concat_len(chunks, k + 1);
    if k == 0 {
        assert(chunks.update(0, w).skip(1) =~= chunks.skip(1));
        assert(concat_all(chunks.update(0, w)) == chunks.update(0, w)[0] + concat_all(
            chunks.update(0, w).skip(1),
        ));
        assert(concat_all(chunks) == chunks[0] + concat_all(chunks.skip(1)));
        assert(concat_all(chunks).subrange(0, 0) =~= Seq::<LogLine>::empty());
        assert(concat_all(chunks).skip(chunks[0].len() as int) =~= concat_all(chunks.skip(1)));
        assert(concat_all(chunks.update(0, w)) =~= concat_all(chunks).subrange(0, 0) + w
            + concat_all(chunks).skip(chunks[0].len() as int));
    } else {
        assert(chunks.update(k, w).skip(1) =~= chunks.skip(1).update(k - 1, w));
        lemma_concat_update_chunk(chunks.skip(1), k - 1, w);
        lemma_offset_shift(chunks, k);
        assert(chunks.skip(1)[k - 1] == chunks[k]);
        assert(concat_all(chunks.update(k, w)) == chunks[0] + concat_all(
            chunks.skip(1).update(k - 1, w),
        ));
        assert(concat_all(chunks) == chunks[0] + concat_all(chunks.skip(1)));
        lemma_offset_nonneg(chunks.skip(1), k - 1);
        assert(concat_all(chunks).subrange(0, offset_of(chunks, k)) =~= chunks[0] + concat_all(
            chunks.skip(1),
        ).subrange(0, offset_of(chunks.skip(1), k - 1)));
        assert(concat_all(chunks).skip(offset_of(chunks, k) + chunks[k].len()) =~= concat_all(
            chunks.skip(1),
        ).skip(offset_of(chunks.skip(1), k - 1) + chunks.skip(1)[k - 1].len()));
        assert(concat_all(chunks.update(k, w)) =~= concat_all(chunks).subrange(
            0,
            offset_of(chunks, k),
        ) + w + concat_all(chunks).skip(offset_of(chunks, k) + chunks[k].len()));
    }
}

/// Appending a chunk appends its lines to the concatenation.
pub proof fn lemma_concat_append_chunk(chunks: Seq<Seq<LogLine>>, w: Seq<LogLine>)
    ensures
        concat_all(chunks.push(w)) == concat_all(chunks) + w,
    decreases chunks.len(),
{
    if chunks.len() == 0 {
        assert(chunks.push(w)[0] == w);
        assert(chunks.push(w).skip(1) =~= Seq::<Seq<LogLine>>::empty());
        assert(concat_all(chunks.push(w).skip(1)) =~= Seq::<LogLine>::empty());
        assert(concat_all(chunks.push(w)) =~= concat_all(chunks) + w);
    } else {
        assert(chunks.push(w)[0] == chunks[0]);
        assert(chunks.push(w).skip(1) =~= chunks.skip(1).push(w));
        lemma_concat_append_chunk(chunks.skip(1), w);
        assert(concat_all(chunks.push(w)) =~= concat_all(chunks) + w);
    }
}

impl Default for LogFileContent {
    /// An empty store with the customary chunk bound of 512 lines.
    fn default() -> (r: Self)
        ensures
            r.wf(),
            r@ == Seq::<LogLine>::empty(),
            r.chunk_count() == 0,
            r.spec_chunk_capacity() == 512,
    {
        Self::new(512)
    }
}

/// `offset_of` never exceeds the concatenation's length.
pub proof fn lemma_offset_le_concat_len(chunks: Seq<Seq<LogLine>>, k: int)
    requires
        0 <= k <= chunks.len(),
    ensures
        offset_of(chunks, k) <= concat_all(chunks).len(),
        offset_of(chunks, chunks.len() as int) == concat_all(chunks).len(),
    decreases chunks.len(),
{
    if chunks.len() == 0 {
    } else {
        lemma_offset_le_concat_len(chunks.skip(1), if k - 1 >= 0 {
            k - 1
        } else {
            0
        });
        lemma_offset_shift(chunks, chunks.len() as int);
        if k >= 1 {
            lemma_offset_shift(chunks, k);
        }
        lemma_offset_nonneg(chunks.skip(1), if k - 1 >= 0 {
            k - 1
        } else {
            0
        });
    }
}

/// `offset_of` is nonnegative.
pub proof fn lemma_offset_nonneg(chunks: Seq<Seq<LogLine>>, k: int)
    ensures
        offset_of(chunks, k) >= 0,
    decreases k,
{
    if k > 0 {
        lemma_offset_nonneg(chunks, k - 1);
    }
}

/// Offsets in a chunk sequence and in its tail line up: dropping the first
/// chunk shifts every offset by that chunk's length.
pub proof fn lemma_offset_shift(chunks: Seq<Seq<LogLine>>, k: int)
    requires
        1 <= k <= chunks.len(),
    ensures
        offset_of(chunks, k) == chunks[0].len() + offset_of(chunks.skip(1), k - 1),
    decreases k,
{
    if k == 1 {
        assert(offset_of(chunks, 1) == offset_of(chunks, 0) + chunks[0].len());
        assert(offset_of(chunks.skip(1), 0) == 0);
    } else {
        lemma_offset_shift(chunks, k - 1);
        assert(chunks.skip(1)[k - 2] == chunks[k - 1]);
        assert(offset_of(chunks, k) == offset_of(chunks, k - 1) + chunks[k - 1].len());
        assert(offset_of(chunks.skip(1), k - 1) == offset_of(chunks.skip(1), k - 2)
            + chunks.skip(1)[k - 2].len());
    }
}

/// A line addressed through chunk and offset is the same line seen in the
/// concatenation.
pub proof fn lemma_concat_index(chunks: Seq<Seq<LogLine>>, k: int, j: int)
    requires
        0 <= k < chunks.len(),
        0 <= j < chunks[k].len(),
    ensures
        0 <= offset_of(chunks, k) + j < concat_all(chunks).len(),
        concat_all(chunks)[offset_of(chunks, k) + j] == chunks[k][j],
    decreases k,
{
    lemma_offset_nonneg(chunks, k);
    lemma_offset_le_concat_len(chunks, chunks.len() as int);
    lemma_offset_bounds(chunks, k);
    if k == 0 {
        assert(concat_all(chunks) == chunks[0] + concat_all(chunks.skip(1)));
        assert((chunks[0] + concat_all(chunks.skip(1)))[j] == chunks[0][j]);
    } else {
        lemma_concat_index(chunks.skip(1), k - 1, j);
        lemma_offset_shift(chunks, k);
        assert(chunks.skip(1)[k - 1] == chunks[k]);
        assert(concat_all(chunks) == chunks[0] + concat_all(chunks.skip(1)));
        assert((chunks[0] + concat_all(chunks.skip(1)))[chunks[0].len() + (offset_of(
            chunks.skip(1),
            k - 1,
        ) + j)] == concat_all(chunks.skip(1))[offset_of(chunks.skip(1), k - 1) + j]);
    }
}

/// A valid `(chunk, line)` position lands strictly inside the store.
pub proof fn lemma_offset_bounds(chunks: Seq<Seq<LogLine>>, k: int)
    requires
        0 <= k < chunks.len(),
    ensures
        offset_of(chunks, k) + chunks[k].len() == offset_of(chunks, k + 1),
        offset_of(chunks, k + 1) <= concat_all(chunks).len(),
    decreases chunks.len(),
{
    lemma_offset_le_concat_len(chunks, k + 1);
}

/// Offsets grow with the chunk position.
pub proof fn lemma_offset_monotone(chunks: Seq<Seq<LogLine>>, k1: int, k2: int)
    requires
        0 <= k1 <= k2,
    ensures
        offset_of(chunks, k1) <= offset_of(chunks, k2),
    decreases k2 - k1,
{
    if k1 < k2 {
        lemma_offset_monotone(chunks, k1, k2 - 1);
    }
}

} // verus!
