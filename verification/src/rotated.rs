//! One logical, rotating log: the ordered set of physical files that make it
//! up (oldest first, the live file last), the cross-file index arithmetic
//! that mirrors the chunk arithmetic one level up, and the selection of
//! which rotation file to load next.

use crate::content::{
    concat_all, lemma_concat_append_chunk, lemma_concat_index, lemma_concat_update_chunk,
    lemma_offset_bounds, lemma_offset_le_concat_len, lemma_offset_monotone, lemma_offset_nonneg,
    offset_of, Index as LogFileIndex, LogFileContent,
};
use crate::line::{LogDirection, LogLine, LogLink};
use crate::reader;
use crate::tags::DataBoard;
use vstd::prelude::*;

verus! {

/// What applying a reader event to a log file tells the owner: either
/// nothing of note, or that the file is gone and must be dropped.
pub enum Event {
    /// Nothing of note happened.
    Tick,
    /// The file behind this log was removed.
    Removed,
}

/// One physical file of a rotating log: its current path, and its lines.
pub struct LogFile {
    path: Vec<u8>,
    content: LogFileContent,
}

impl LogFile {
    /// The stored lines.
    pub closed spec fn spec_data(self) -> LogFileContent {
        self.content
    }

    /// The file's current path.
    pub closed spec fn spec_path(self) -> Seq<u8> {
        self.path@
    }

    /// A file under `path` with nothing read from it yet; its reader will
    /// fill it line by line.
    pub fn open(path: Vec<u8>) -> (r: LogFile)
        ensures
            r.spec_data().wf(),
            r.spec_data()@ == Seq::<LogLine>::empty(),
            r.spec_path() == path@,
    {
        LogFile { path, content: LogFileContent::default() }
    }

    /// The stored lines, read-only.
    pub fn data(&self) -> (r: &LogFileContent)
        ensures
            *r == self.spec_data(),
    {
        &self.content
    }

    /// The file's current path.
    pub fn path(&self) -> (r: &Vec<u8>)
        ensures
            r@ == self.spec_path(),
    {
        &self.path
    }

    /// Digests one reader event: a new head line is parsed and put in
    /// front, a new tail line behind, a rename moves the path, and a
    /// removal is handed back to the owner. Any tag of a parsed line is
    /// recorded on the board.
    pub fn update(&mut self, board: &mut DataBoard, event: reader::Event) -> (r: Event)
        requires
            old(self).spec_data().wf(),
            old(board).spec_tags().wf(),
        ensures
            final(self).spec_data().wf(),
            final(board).spec_tags().wf(),
            final(board).spec_root() == old(board).spec_root(),
            final(board).spec_tags().version() == old(board).spec_tags().version(),
            match event {
                reader::Event::NewHead(bytes) => {
                    &&& final(self).spec_data()@.len() == old(self).spec_data()@.len() + 1
                    &&& final(self).spec_data()@.skip(1) == old(self).spec_data()@
                    &&& crate::line::parses_to(bytes@, final(self).spec_data()@[0].data())
                    &&& final(self).spec_data()@[0].data().is_good() ==> final(board).spec_tags().spec_contains(final(self).spec_data()@[0].data().tag())
                    &&& final(self).spec_path() == old(self).spec_path()
                    &&& r is Tick
                },
                reader::Event::NewTail(bytes) => {
                    &&& final(self).spec_data()@ == old(self).spec_data()@.push(
                        final(self).spec_data()@.last(),
                    )
                    &&& crate::line::parses_to(bytes@, final(self).spec_data()@.last().data())
                    &&& final(self).spec_data()@.last().data().is_good() ==> final(board).spec_tags().spec_contains(final(self).spec_data()@.last().data().tag())
                    &&& final(self).spec_path() == old(self).spec_path()
                    &&& r is Tick
                },
                reader::Event::Renamed(new_path) => {
                    &&& final(self).spec_data() == old(self).spec_data()
                    &&& final(self).spec_path() == new_path@
                    &&& *final(board) == *old(board)
                    &&& r is Tick
                },
                reader::Event::Removed => {
                    &&& *final(self) == *old(self)
                    &&& *final(board) == *old(board)
                    &&& r is Removed
                },
            },
    {
        match event {
            reader::Event::NewHead(bytes) => {
                let line = LogLine::new(bytes);
                Self::record_tag(board, &line);
                self.content.push_front(line);
                proof {
                    assert(self.content@.skip(1) =~= old(self).spec_data()@);
                }
                Event::Tick
            },
            reader::Event::NewTail(bytes) => {
                let line = LogLine::new(bytes);
                Self::record_tag(board, &line);
                self.content.push_back(line);
                Event::Tick
            },
            reader::Event::Renamed(new_path) => {
                self.path = new_path;
                Event::Tick
            },
            reader::Event::Removed => Event::Removed,
        }
    }

    /// Records the tag of a parsed line on the board.
    fn record_tag(board: &mut DataBoard, line: &LogLine)
        requires
            old(board).spec_tags().wf(),
        ensures
            final(board).spec_tags().wf(),
            final(board).spec_root() == old(board).spec_root(),
            final(board).spec_tags().version() == old(board).spec_tags().version(),
            line.data().is_good() ==> final(board).spec_tags().spec_contains(line.data().tag()),
            !line.data().is_good() ==> *final(board) == *old(board),
    {
        match line.get_tag() {
            Some(tag) => {
                let t = crate::bytes::copy_bytes(tag.as_slice());
                board.update_tag(t.as_slice());
            },
            None => {},
        }
    }
}

/// A position inside one logical log: which file, and where inside it.
#[derive(PartialEq, Eq, Structural, Debug, Copy, Clone)]
pub struct Index {
    file_index: usize,
    line_index: LogFileIndex,
}

impl Index {
    /// The file addressed.
    pub closed spec fn file(self) -> int {
        self.file_index as int
    }

    /// The position inside that file.
    pub closed spec fn line(self) -> LogFileIndex {
        self.line_index
    }

    /// An index made of its two coordinates.
    fn new(file_index: usize, line_index: LogFileIndex) -> (r: Self)
        ensures
            r.file() == file_index,
            r.line() == line_index,
    {
        Self { file_index, line_index }
    }

    /// The position of the very first line of the oldest file.
    pub fn zero() -> (r: Self)
        ensures
            r.file() == 0,
            r.line().chunk() == 0,
            r.line().line() == 0,
    {
        Self::new(0, LogFileIndex::zero())
    }

    /// Is this the all-zero position — the one `first_index` hands out?
    pub fn is_zero(&self) -> (r: bool)
        ensures
            r == is_zero_index(*self),
    {
        self.file_index == 0 && self.line_index.is_zero()
    }
}

/// The all-zero position: first file, first chunk, first line.
pub open spec fn is_zero_index(i: Index) -> bool {
    i.file() == 0 && i.line().chunk() == 0 && i.line().line() == 0
}

/// How a rotating log is set up.
#[derive(Clone, Copy)]
pub struct Config {
    /// How many rotated files the daemon is expected to keep around.
    pub possible_max_rotated_count: usize,
}

impl Config {
    /// The customary rotation depth.
    pub fn default() -> (r: Self)
        ensures
            r.possible_max_rotated_count == 5,
    {
        Self { possible_max_rotated_count: 5 }
    }
}

/// One named, rotating log: its files in chronological order, the live one
/// last.
pub struct RotatedLog {
    path: Vec<u8>,
    log_files: Vec<LogFile>,
    want_older_log: bool,
}

impl RotatedLog {
    /// The line sequence of each loaded file, oldest file first.
    pub closed spec fn file_seqs(self) -> Seq<Seq<LogLine>> {
        self.log_files@.map_values(|f: LogFile| f.spec_data()@)
    }

    /// The loaded files themselves.
    pub closed spec fn spec_files(self) -> Seq<LogFile> {
        self.log_files@
    }

    /// The canonical path of the live file.
    pub closed spec fn spec_path(self) -> Seq<u8> {
        self.path@
    }

    /// Is a load of an older rotation file pending?
    pub closed spec fn spec_want_older(self) -> bool {
        self.want_older_log
    }

    /// The index of the last line, as a value: the last file's last
    /// position, or the all-zero index when nothing is loaded.
    pub closed spec fn spec_last_index(self) -> Index {
        if self.log_files@.len() == 0 {
            Index { file_index: 0, line_index: LogFileIndex::spec_zero() }
        } else {
            Index {
                file_index: (self.log_files@.len() - 1) as usize,
                line_index: self.log_files@[self.log_files@.len() - 1].spec_data().spec_last_index(),
            }
        }
    }

    /// All lines of the log in chronological file order.
    pub open spec fn view(self) -> Seq<LogLine> {
        concat_all(self.file_seqs())
    }

    /// Every loaded file's store is well formed.
    pub open spec fn wf(self) -> bool {
        forall|k: int|
            0 <= k < self.spec_files().len() ==> (#[trigger] self.spec_files()[k]).spec_data().wf()
    }

    /// No loaded file is empty; index stepping crosses files only on this
    /// assumption, as an empty file ends a walk early.
    pub open spec fn files_nonempty(self) -> bool {
        forall|k: int| 0 <= k < self.file_seqs().len() ==> (#[trigger] self.file_seqs()[k]).len() > 0
    }

    /// Does the index address a line?
    pub open spec fn valid_index(self, idx: Index) -> bool {
        &&& 0 <= idx.file() < self.spec_files().len()
        &&& self.spec_files()[idx.file()].spec_data().valid_index(idx.line())
    }

    /// The flat position an index addresses.
    pub open spec fn flat_index(self, idx: Index) -> int {
        offset_of(self.file_seqs(), idx.file()) + self.spec_files()[idx.file()].spec_data().flat_index(
            idx.line(),
        )
    }

    /// A log rooted at the live file's path, with nothing loaded yet.
    pub fn new(path: Vec<u8>, config: Config) -> (r: Self)
        ensures
            r.wf(),
            r@ == Seq::<LogLine>::empty(),
            r.spec_files().len() == 0,
            r.spec_path() == path@,
            !r.spec_want_older(),
    {
        let _ = config;
        let r = RotatedLog { path, log_files: Vec::new(), want_older_log: false };
        proof {
            assert(r.file_seqs() =~= Seq::<Seq<LogLine>>::empty());
        }
        r
    }

    /// Asks for one more, older rotation file at the next poll cycle.
    pub fn set_want_older_log(&mut self)
        ensures
            final(self).spec_want_older(),
            final(self).spec_files() == old(self).spec_files(),
            final(self).spec_path() == old(self).spec_path(),
    {
        self.want_older_log = true;
    }

    /// The index of the first line; meaningful only when something is
    /// loaded and the oldest file is nonempty.
    pub fn first_index(&self) -> (r: Index)
        requires
            self.wf(),
        ensures
            r.file() == 0 && r.line().chunk() == 0 && r.line().line() == 0,
            self.spec_files().len() > 0 && self.file_seqs()[0].len() > 0 ==> self.valid_index(r)
                && self.flat_index(r) == 0,
    {
        let zero = LogFileIndex::zero();
        proof {
            if self.spec_files().len() > 0 && self.file_seqs()[0].len() > 0 {
                crate::content::lemma_zero_index_valid(self.spec_files()[0].spec_data(), zero);
            }
        }
        Index::new(0, zero)
    }

    /// The index of the last line; meaningful only when something is loaded
    /// and the newest file is nonempty.
    pub fn last_index(&self) -> (r: Index)
        requires
            self.wf(),
        ensures
            r == self.spec_last_index(),
            self.spec_files().len() > 0 && self.file_seqs()[self.file_seqs().len() - 1].len() > 0
                ==> self.valid_index(r) && self.flat_index(r) == offset_of(
                self.file_seqs(),
                self.file_seqs().len() - 1,
            ) + self.file_seqs()[self.file_seqs().len() - 1].len() - 1,
            self.files_nonempty() && self.spec_files().len() > 0 ==> self.valid_index(r)
                && self.flat_index(r) == self@.len() - 1,
    {
        if self.log_files.len() == 0 {
            return Index::new(0, LogFileIndex::zero());
        }
        let fi = self.log_files.len() - 1;
        proof {
            assert(self.spec_files()[fi as int].spec_data().wf());
        }
        let li = self.log_files[fi].data().last_index();
        proof {
            let seqs = self.file_seqs();
            lemma_offset_bounds(seqs, fi as int);
            lemma_offset_le_concat_len(seqs, seqs.len() as int);
        }
        Index::new(fi, li)
    }

    /// The line an index addresses, if it addresses one.
    pub fn get(&self, index: Index) -> (r: Option<&LogLine>)
        requires
            self.wf(),
        ensures
            match r {
                Some(l) => self.valid_index(index) && *l == self@[self.flat_index(index)],
                None => !self.valid_index(index),
            },
    {
        if index.file_index >= self.log_files.len() {
            return None;
        }
        proof {
            assert(self.spec_files()[index.file() as int].spec_data().wf());
        }
        let r = self.log_files[index.file_index].data().get(index.line_index);
        proof {
            if r is Some {
                let fd = self.spec_files()[index.file() as int].spec_data();
                crate::content::lemma_flat_in_range(fd, index.line());
                lemma_concat_flat(self.file_seqs(), index.file(), fd.flat_index(index.line()));
            }
        }
        r
    }

    /// Moves an index `n` logical steps, crossing file boundaries as
    /// needed, exactly mirroring the chunk arithmetic one level up. With
    /// every loaded file nonempty, running off an end reports the signed
    /// distance still unconsumed; an empty loaded file merely ends the walk
    /// early with the distance consumed so far.
    pub fn step_index(&self, index: Index, n: isize) -> (r: Result<Index, isize>)
        requires
            self.wf(),
        ensures
            ({
                let target = self.flat_index(index) + n;
                match r {
                    Ok(j) => self.valid_index(index) && self.valid_index(j) && self.flat_index(j)
                        == target,
                    Err(m) => if !self.valid_index(index) {
                        m == n
                    } else {
                        &&& n != 0
                        &&& (n >= 0 ==> 0 <= m <= n)
                        &&& (n < 0 ==> n <= m <= 0)
                        &&& self.files_nonempty() ==> ((target >= self@.len() && m == target
                            - self@.len()) || (target < 0 && m == target + 1))
                    },
                }
            }),
    {
        if index.file_index >= self.log_files.len() {
            return Err(n);
        }
        proof {
            assert(self.spec_files()[index.file() as int].spec_data().wf());
        }
        let valid_start = match self.log_files[index.file_index].data().get(index.line_index) {
            Some(_) => true,
            None => false,
        };
        if !valid_start {
            return Err(n);
        }
        let mut fi: usize = index.file_index;
        let mut ci: LogFileIndex = index.line_index;
        let mut rem: isize = n;
        let ghost target = self.flat_index(index) + n;
        proof {
            crate::content::lemma_flat_in_range(
                self.spec_files()[fi as int].spec_data(),
                index.line(),
            );
        }
        loop
            invariant
                self.wf(),
                0 <= fi < self.spec_files().len(),
                self.spec_files()[fi as int].spec_data().valid_index(ci),
                n >= 0 ==> 0 <= rem <= n,
                n < 0 ==> n <= rem <= 0,
                offset_of(self.file_seqs(), fi as int) + self.spec_files()[
                    fi as int
                ].spec_data().flat_index(ci) + rem == target,
                target == self.flat_index(index) + n,
                self.valid_index(index),
            decreases (if n >= 0 {
                self.spec_files().len() - fi
            } else {
                fi + 1
            }),
        {
            proof {
                assert(self.spec_files()[fi as int].spec_data().wf());
            }
            let file_data = self.log_files[fi].data();
            proof {
                crate::content::lemma_flat_in_range(*file_data, ci);
            }
            match file_data.step_index(ci, rem) {
                Ok(found) => {
                    proof {
                        crate::content::lemma_flat_in_range(*file_data, found);
                        lemma_concat_flat(self.file_seqs(), fi as int, file_data.flat_index(found));
                    }
                    return Ok(Index::new(fi, found));
                },
                Err(m) => {
                    proof {
                        lemma_offset_bounds(self.file_seqs(), fi as int);
                        lemma_offset_nonneg(self.file_seqs(), fi as int);
                    }
                    if rem >= 0 {
                        // Ran off this file's end; continue in the next
                        // file at its first line.
                        proof {
                            assert(self.spec_files().len() == self.log_files@.len());
                        }
                        if fi == self.log_files.len() - 1 {
                            proof {
                                lemma_offset_le_concat_len(
                                    self.file_seqs(),
                                    self.file_seqs().len() as int,
                                );
                                lemma_offset_tail_total(self.file_seqs(), fi as int);
                            }
                            return Err(m);
                        }
                        fi = fi + 1;
                        proof {
                            assert(self.spec_files()[fi as int].spec_data().wf());
                        }
                        let next_first = self.log_files[fi].data().first_index();
                        let occupied = match self.log_files[fi].data().get(next_first) {
                            Some(_) => true,
                            None => false,
                        };
                        if !occupied {
                            proof {
                                assert(self.file_seqs()[fi as int].len() == 0);
                                assert(!self.files_nonempty());
                            }
                            return Err(m);
                        }
                        ci = next_first;
                        rem = m;
                    } else {
                        // Ran off this file's front; continue in the
                        // previous file at its last line.
                        if fi == 0 {
                            proof {
                                crate::content::lemma_flat_in_range(*file_data, ci);
                            }
                            return Err(m);
                        }
                        fi = fi - 1;
                        proof {
                            assert(self.spec_files()[fi as int].spec_data().wf());
                        }
                        let prev_last = self.log_files[fi].data().last_index();
                        let occupied = match self.log_files[fi].data().get(prev_last) {
                            Some(_) => true,
                            None => false,
                        };
                        if !occupied {
                            proof {
                                assert(self.file_seqs()[fi as int].len() == 0);
                                assert(!self.files_nonempty());
                            }
                            return Err(m);
                        }
                        ci = prev_last;
                        rem = m;
                        proof {
                            lemma_offset_bounds(self.file_seqs(), fi as int);
                        }
                    }
                },
            }
        }
    }
}

/// Do two logs slice their lines into files and chunks of the same lengths?
/// Indices keep their meaning exactly when they do.
pub open spec fn same_log_shape(a: RotatedLog, b: RotatedLog) -> bool {
    &&& a.spec_files().len() == b.spec_files().len()
    &&& forall|k: int|
        0 <= k < a.spec_files().len() ==> crate::content::same_shape(
            (#[trigger] a.spec_files()[k]).spec_data(),
            b.spec_files()[k].spec_data(),
        )
}

/// Shape agreement is transitive.
pub proof fn lemma_same_log_shape_trans(a: RotatedLog, b: RotatedLog, c: RotatedLog)
    requires
        same_log_shape(a, b),
        same_log_shape(b, c),
    ensures
        same_log_shape(a, c),
{
    assert forall|k: int| 0 <= k < a.spec_files().len() implies crate::content::same_shape(
        (#[trigger] a.spec_files()[k]).spec_data(),
        c.spec_files()[k].spec_data(),
    ) by {
        assert(crate::content::same_shape(
            a.spec_files()[k].spec_data(),
            b.spec_files()[k].spec_data(),
        ));
        assert(crate::content::same_shape(
            b.spec_files()[k].spec_data(),
            c.spec_files()[k].spec_data(),
        ));
    }
}

/// Two logs of the same shape agree on index validity and flat positions.
pub proof fn lemma_same_log_shape_flat(a: RotatedLog, b: RotatedLog)
    requires
        same_log_shape(a, b),
    ensures
        a@.len() == b@.len(),
        forall|i: Index| a.valid_index(i) == b.valid_index(i),
        forall|i: Index| a.valid_index(i) ==> #[trigger] a.flat_index(i) == b.flat_index(i),
        a.files_nonempty() == b.files_nonempty(),
{
    assert forall|k: int| 0 <= k < a.file_seqs().len() implies (#[trigger] a.file_seqs()[k]).len()
        == b.file_seqs()[k].len() by {
        crate::content::lemma_same_shape_flat(
            a.spec_files()[k].spec_data(),
            b.spec_files()[k].spec_data(),
        );
    }
    lemma_concat_len_congruent(a.file_seqs(), b.file_seqs());
    assert forall|k: int| 0 <= k < b.file_seqs().len() implies (#[trigger] b.file_seqs()[k]).len()
        == a.file_seqs()[k].len() by {
        assert(a.file_seqs()[k].len() == b.file_seqs()[k].len());
    }
    assert forall|i: Index| a.valid_index(i) == b.valid_index(i) by {
        if 0 <= i.file() < a.spec_files().len() {
            crate::content::lemma_same_shape_flat(
                a.spec_files()[i.file()].spec_data(),
                b.spec_files()[i.file()].spec_data(),
            );
        }
    }
    assert forall|i: Index| a.valid_index(i) implies #[trigger] a.flat_index(i) == b.flat_index(
        i,
    ) by {
        crate::content::lemma_offset_congruent(a.file_seqs(), b.file_seqs(), i.file());
        crate::content::lemma_same_shape_flat(
            a.spec_files()[i.file()].spec_data(),
            b.spec_files()[i.file()].spec_data(),
        );
    }
}

/// Concatenations of pointwise equally long sequences are equally long.
proof fn lemma_concat_len_congruent(x: Seq<Seq<LogLine>>, y: Seq<Seq<LogLine>>)
    requires
        x.len() == y.len(),
        forall|j: int| 0 <= j < x.len() ==> (#[trigger] x[j]).len() == y[j].len(),
    ensures
        concat_all(x).len() == concat_all(y).len(),
{
    lemma_offset_le_concat_len(x, x.len() as int);
    lemma_offset_le_concat_len(y, y.len() as int);
    crate::content::lemma_offset_congruent(x, y, x.len() as int);
}

/// When two logs differ in a single line of a single file, their flat views
/// differ in exactly that line.
proof fn lemma_log_point_update(a: RotatedLog, b: RotatedLog, fi: int, p: int)
    requires
        0 <= fi < a.file_seqs().len(),
        0 <= p < a.file_seqs()[fi].len(),
        b.file_seqs().len() == a.file_seqs().len(),
        forall|k: int| 0 <= k < a.file_seqs().len() && k != fi ==> b.file_seqs()[k] == a.file_seqs()[k],
        b.file_seqs()[fi] == a.file_seqs()[fi].update(p, b.file_seqs()[fi][p]),
    ensures
        b@ == a@.update(offset_of(a.file_seqs(), fi) + p, b.file_seqs()[fi][p]),
        0 <= offset_of(a.file_seqs(), fi) + p < a@.len(),
        a@[offset_of(a.file_seqs(), fi) + p] == a.file_seqs()[fi][p],
{
    let av = a.file_seqs();
    let bv = b.file_seqs();
    let x = bv[fi][p];
    assert(bv =~= av.update(fi, av[fi].update(p, x)));
    lemma_concat_update_chunk(av, fi, av[fi].update(p, x));
    lemma_concat_update_chunk(av, fi, av[fi]);
    assert(av.update(fi, av[fi]) =~= av);
    lemma_offset_bounds(av, fi);
    lemma_offset_le_concat_len(av, av.len() as int);
    lemma_offset_nonneg(av, fi);
    lemma_concat_index(av, fi, p);
    assert forall|j: int| 0 <= j < av[fi].len() implies concat_all(av)[offset_of(av, fi) + j]
        == av[fi][j] by {
        lemma_concat_index(av, fi, j);
    }
    assert(b@ =~= a@.update(offset_of(av, fi) + p, x));
}

/// A mutable borrow of one file of a file vector, with the final vector
/// pinned to the final file.
fn vec_file_mut(v: &mut Vec<LogFile>, i: usize) -> (element: &mut LogFile)
    requires
        i < old(v).len(),
    ensures
        *element == old(v)@[i as int],
        final(v)@ == old(v)@.update(i as int, *final(element)),
{
    &mut v[i]
}

impl LogFile {
    /// Rewrites the cached link of the line at `idx` for one direction.
    fn set_link_at(&mut self, idx: LogFileIndex, direction: LogDirection, new_link: LogLink)
        requires
            old(self).spec_data().wf(),
            old(self).spec_data().valid_index(idx),
        ensures
            final(self).spec_data().wf(),
            final(self).spec_path() == old(self).spec_path(),
            crate::content::same_shape(old(self).spec_data(), final(self).spec_data()),
            final(self).spec_data()@.len() == old(self).spec_data()@.len(),
            forall|i: int|
                0 <= i < old(self).spec_data()@.len() && i != old(self).spec_data().flat_index(idx)
                    ==> final(self).spec_data()@[i] == old(self).spec_data()@[i],
            ({
                let f = old(self).spec_data().flat_index(idx);
                &&& final(self).spec_data()@[f].data() == old(self).spec_data()@[f].data()
                &&& final(self).spec_data()@[f].spec_link(direction) == (if old(
                    self,
                ).spec_data()@[f].data().is_good() {
                    new_link
                } else {
                    old(self).spec_data()@[f].spec_link(direction)
                })
&&& final(self).spec_data()@[f].spec_link(crate::line::opposite(direction))
                    == old(self).spec_data()@[f].spec_link(crate::line::opposite(direction))
            }),
    {
        self.content.set_link_at(idx, direction, new_link);
    }

    /// Flips the user-visible mark of the line at `idx`.
    fn toggle_mark_at(&mut self, idx: LogFileIndex)
        requires
            old(self).spec_data().wf(),
            old(self).spec_data().valid_index(idx),
        ensures
            final(self).spec_data().wf(),
            final(self).spec_path() == old(self).spec_path(),
            crate::content::same_shape(old(self).spec_data(), final(self).spec_data()),
            final(self).spec_data()@.len() == old(self).spec_data()@.len(),
            forall|i: int|
                0 <= i < old(self).spec_data()@.len() && i != old(self).spec_data().flat_index(idx)
                    ==> final(self).spec_data()@[i] == old(self).spec_data()@[i],
            ({
                let f = old(self).spec_data().flat_index(idx);
                &&& final(self).spec_data()@[f].data() == old(self).spec_data()@[f].data().with_marked(
                    !old(self).spec_data()@[f].data().marked(),
                )
                &&& forall|d: LogDirection|
                    final(self).spec_data()@[f].spec_link(d) == old(self).spec_data()@[f].spec_link(
                        d,
                    )
            }),
    {
        self.content.toggle_mark_at(idx);
    }
}

impl RotatedLog {
    /// Rewrites the cached link of the line at `index` for one direction.
    /// Everything else — every other line, the shape, every index's meaning
    /// — stays as it was.
    pub fn set_link_at(&mut self, index: Index, direction: LogDirection, new_link: LogLink)
        requires
            old(self).wf(),
            old(self).valid_index(index),
        ensures
            final(self).wf(),
            same_log_shape(*old(self), *final(self)),
            final(self).spec_path() == old(self).spec_path(),
            final(self).spec_want_older() == old(self).spec_want_older(),
            final(self)@.len() == old(self)@.len(),
            forall|i: int|
                0 <= i < old(self)@.len() && i != old(self).flat_index(index) ==> final(self)@[i] == old(self)@[i],
            ({
                let f = old(self).flat_index(index);
                &&& 0 <= f < old(self)@.len()
                &&& final(self)@[f].data() == old(self)@[f].data()
                &&& final(self)@[f].spec_link(direction) == (if old(self)@[f].data().is_good() {
                    new_link
                } else {
                    old(self)@[f].spec_link(direction)
                })
                &&& final(self)@[f].spec_link(crate::line::opposite(direction)) == old(
                    self,
                )@[f].spec_link(crate::line::opposite(direction))
            }),
    {
        let fi = index.file_index;
        proof {
            assert(self.spec_files()[fi as int].spec_data().wf());
        }
        let file = vec_file_mut(&mut self.log_files, fi);
        file.set_link_at(index.line_index, direction, new_link);
        proof {
            crate::content::lemma_flat_in_range(
                old(self).spec_files()[fi as int].spec_data(),
                index.line(),
            );
            assert(old(self).file_seqs()[fi as int] == old(self).spec_files()[
                fi as int
            ].spec_data()@);
            assert(forall|k: int|
                0 <= k < old(self).file_seqs().len() && k != fi ==> self.file_seqs()[k] == old(
                    self,
                ).file_seqs()[k]);
            crate::content::lemma_same_shape_flat(
                old(self).spec_files()[fi as int].spec_data(),
                self.spec_files()[fi as int].spec_data(),
            );
            assert(self.file_seqs()[fi as int] =~= old(self).file_seqs()[fi as int].update(
                old(self).spec_files()[fi as int].spec_data().flat_index(index.line()),
                self.file_seqs()[fi as int][old(self).spec_files()[
                    fi as int
                ].spec_data().flat_index(index.line())],
            ));
            lemma_log_point_update(
                *old(self),
                *self,
                fi as int,
                old(self).spec_files()[fi as int].spec_data().flat_index(index.line()),
            );
            crate::content::lemma_flat_in_range(
                old(self).spec_files()[fi as int].spec_data(),
                index.line(),
            );
        }
    }

    /// Flips the user-visible mark of the line at `index`; nothing else
    /// changes.
    pub fn toggle_mark_at(&mut self, index: Index)
        requires
            old(self).wf(),
            old(self).valid_index(index),
        ensures
            final(self).wf(),
            same_log_shape(*old(self), *final(self)),
            final(self).spec_path() == old(self).spec_path(),
            final(self).spec_want_older() == old(self).spec_want_older(),
            final(self)@.len() == old(self)@.len(),
            forall|i: int|
                0 <= i < old(self)@.len() && i != old(self).flat_index(index) ==> final(self)@[i] == old(self)@[i],
            ({
                let f = old(self).flat_index(index);
                &&& 0 <= f < old(self)@.len()
                &&& final(self)@[f].data() == old(self)@[f].data().with_marked(
                    !old(self)@[f].data().marked(),
                )
                &&& forall|d: LogDirection|
                    final(self)@[f].spec_link(d) == old(self)@[f].spec_link(d)
            }),
    {
        let fi = index.file_index;
        proof {
            assert(self.spec_files()[fi as int].spec_data().wf());
        }
        let file = vec_file_mut(&mut self.log_files, fi);
        file.toggle_mark_at(index.line_index);
        proof {
            crate::content::lemma_flat_in_range(
                old(self).spec_files()[fi as int].spec_data(),
                index.line(),
            );
            assert(old(self).file_seqs()[fi as int] == old(self).spec_files()[
                fi as int
            ].spec_data()@);
            assert(forall|k: int|
                0 <= k < old(self).file_seqs().len() && k != fi ==> self.file_seqs()[k] == old(
                    self,
                ).file_seqs()[k]);
            crate::content::lemma_same_shape_flat(
                old(self).spec_files()[fi as int].spec_data(),
                self.spec_files()[fi as int].spec_data(),
            );
            assert(self.file_seqs()[fi as int] =~= old(self).file_seqs()[fi as int].update(
                old(self).spec_files()[fi as int].spec_data().flat_index(index.line()),
                self.file_seqs()[fi as int][old(self).spec_files()[
                    fi as int
                ].spec_data().flat_index(index.line())],
            ));
            lemma_log_point_update(
                *old(self),
                *self,
                fi as int,
                old(self).spec_files()[fi as int].spec_data().flat_index(index.line()),
            );
            crate::content::lemma_flat_in_range(
                old(self).spec_files()[fi as int].spec_data(),
                index.line(),
            );
        }
    }

    /// Routes one reader event to the file it belongs to; reports whether
    /// that file announced its own removal. Removal itself is the owner's
    /// next move, through `remove_file`.
    pub fn update_file(&mut self, file_index: usize, board: &mut DataBoard, event: reader::Event) -> (r:
        Event)
        requires
            old(self).wf(),
            file_index < old(self).spec_files().len(),
            old(board).spec_tags().wf(),
        ensures
            final(self).wf(),
            final(board).spec_tags().wf(),
            final(board).spec_root() == old(board).spec_root(),
            final(board).spec_tags().version() == old(board).spec_tags().version(),
            final(self).spec_files().len() == old(self).spec_files().len(),
            final(self).spec_path() == old(self).spec_path(),
            final(self).spec_want_older() == old(self).spec_want_older(),
            forall|k: int|
                0 <= k < old(self).spec_files().len() && k != file_index ==> final(self).spec_files()[k] == old(self).spec_files()[k],
            match event {
                reader::Event::NewHead(bytes) => {
                    let fs = final(self).spec_files()[file_index as int].spec_data()@;
                    &&& fs.len() == old(self).file_seqs()[file_index as int].len() + 1
                    &&& fs.skip(1) == old(self).file_seqs()[file_index as int]
                    &&& crate::line::parses_to(bytes@, fs[0].data())
                    &&& (fs[0].data().is_good() ==> final(board).spec_tags().spec_contains(
                        fs[0].data().tag(),
                    ))
                    &&& r is Tick
                },
                reader::Event::NewTail(bytes) => {
                    let fs = final(self).spec_files()[file_index as int].spec_data()@;
                    &&& fs == old(self).file_seqs()[file_index as int].push(fs.last())
                    &&& crate::line::parses_to(bytes@, fs.last().data())
                    &&& (fs.last().data().is_good() ==> final(board).spec_tags().spec_contains(
                        fs.last().data().tag(),
                    ))
                    &&& r is Tick
                },
                reader::Event::Renamed(_) => final(self).file_seqs() == old(self).file_seqs() && r
                    is Tick,
                reader::Event::Removed => final(self).spec_files() == old(self).spec_files()
                    && r is Removed,
            },
    {
        proof {
            assert(self.spec_files()[file_index as int].spec_data().wf());
        }
        let file = vec_file_mut(&mut self.log_files, file_index);
        let r = file.update(board, event);
        proof {
            if r is Removed {
                assert(self.spec_files() =~= old(self).spec_files());
            }
        }
        proof {
            assert(self.file_seqs()[file_index as int] == self.spec_files()[
                file_index as int
            ].spec_data()@);
            assert(old(self).file_seqs()[file_index as int] == old(self).spec_files()[
                file_index as int
            ].spec_data()@);
            assert(forall|k: int|
                0 <= k < old(self).spec_files().len() && k != file_index ==> self.spec_files()[k]
                    == old(self).spec_files()[k]);
        }
        r
    }

    /// Drops a loaded file, removing its lines from the log.
    pub fn remove_file(&mut self, file_index: usize)
        requires
            old(self).wf(),
            file_index < old(self).spec_files().len(),
        ensures
            final(self).wf(),
            final(self).spec_files() == old(self).spec_files().remove(file_index as int),
            final(self).spec_path() == old(self).spec_path(),
            final(self).spec_want_older() == old(self).spec_want_older(),
    {
        let _ = self.log_files.remove(file_index);
    }

    /// Loads the newest file of the rotation under the given path; it joins
    /// at the back, empty until its reader reports lines.
    pub fn attach_latest_file(&mut self, path: Vec<u8>)
        requires
            old(self).wf(),
        ensures
            final(self).wf(),
            final(self)@ == old(self)@,
            final(self).spec_files().len() == old(self).spec_files().len() + 1,
            forall|k: int|
                0 <= k < old(self).spec_files().len() ==> final(self).spec_files()[k] == old(
                    self,
                ).spec_files()[k],
            final(self).spec_files().last().spec_path() == path@,
            final(self).spec_files().last().spec_data()@ == Seq::<LogLine>::empty(),
            final(self).spec_path() == old(self).spec_path(),
            final(self).spec_want_older() == old(self).spec_want_older(),
    {
        self.log_files.push(LogFile::open(path));
        proof {
            assert(self.file_seqs() =~= old(self).file_seqs().push(Seq::<LogLine>::empty()));
            lemma_concat_append_chunk(old(self).file_seqs(), Seq::<LogLine>::empty());
            assert(self@ =~= old(self)@);
        }
    }

    /// Loads one more, older rotation file under the given path; it joins
    /// at the front, empty until its reader reports lines.
    pub fn attach_older_file(&mut self, path: Vec<u8>)
        requires
            old(self).wf(),
        ensures
            final(self).wf(),
            final(self)@ == old(self)@,
            final(self).spec_files().len() == old(self).spec_files().len() + 1,
            forall|k: int|
                0 <= k < old(self).spec_files().len() ==> final(self).spec_files()[k + 1] == old(
                    self,
                ).spec_files()[k],
            final(self).spec_files()[0].spec_path() == path@,
            final(self).spec_files()[0].spec_data()@ == Seq::<LogLine>::empty(),
            final(self).spec_path() == old(self).spec_path(),
            final(self).spec_want_older() == old(self).spec_want_older(),
    {
        self.log_files.insert(0, LogFile::open(path));
        proof {
            assert(self.file_seqs() =~= seq![Seq::<LogLine>::empty()] + old(self).file_seqs());
            assert(self.file_seqs().skip(1) =~= old(self).file_seqs());
            assert(self@ == self.file_seqs()[0] + concat_all(self.file_seqs().skip(1)));
            assert(self@ =~= old(self)@);
        }
    }

    /// How many rotation files are loaded.
    pub fn file_count(&self) -> (r: usize)
        ensures
            r == self.spec_files().len(),
    {
        self.log_files.len()
    }

    /// Has every loaded file received at least one line? Index stepping
    /// and filtered iteration are exact only then; an unverified caller
    /// can test this before asking for a merge.
    pub fn files_ready(&self) -> (r: bool)
        requires
            self.wf(),
        ensures
            r == self.files_nonempty(),
    {
        let n = self.log_files.len();
        let mut k: usize = 0;
        while k < n
            invariant
                0 <= k <= n,
                self.wf(),
                n == self.spec_files().len(),
                forall|j: int| 0 <= j < k ==> (#[trigger] self.file_seqs()[j]).len() > 0,
            decreases n - k,
        {
            proof {
                assert(self.spec_files()[k as int].spec_data().wf());
            }
            if self.log_files[k].data().is_empty() {
                proof {
                    assert(self.file_seqs()[k as int].len() == 0);
                }
                return false;
            }
            proof {
                assert(self.file_seqs()[k as int].len() > 0);
            }
            k += 1;
        }
        true
    }

    /// Reads and clears the pending wish for an older rotation file.
    pub fn take_want_older(&mut self) -> (r: bool)
        ensures
            r == old(self).spec_want_older(),
            !final(self).spec_want_older(),
            final(self).spec_files() == old(self).spec_files(),
            final(self).spec_path() == old(self).spec_path(),
    {
        let r = self.want_older_log;
        self.want_older_log = false;
        r
    }
}

/// The per-file line sequences are exactly the loaded files' contents, in
/// order.
pub proof fn lemma_file_seqs(a: RotatedLog)
    ensures
        a.file_seqs().len() == a.spec_files().len(),
        forall|k: int|
            0 <= k < a.spec_files().len() ==> #[trigger] a.file_seqs()[k] == a.spec_files()[
                k
            ].spec_data()@,
{
}

/// A valid index addresses a real flat position of the log.
pub proof fn lemma_log_flat_in_range(a: RotatedLog, i: Index)
    requires
        a.wf(),
        a.valid_index(i),
    ensures
        0 <= a.flat_index(i) < a@.len(),
{
    lemma_offset_nonneg(a.file_seqs(), i.file());
    lemma_offset_bounds(a.file_seqs(), i.file());
    lemma_offset_le_concat_len(a.file_seqs(), a.file_seqs().len() as int);
    assert(a.spec_files()[i.file()].spec_data().wf());
    crate::content::lemma_flat_in_range(a.spec_files()[i.file()].spec_data(), i.line());
}

/// Two distinct valid indices of a log address distinct flat positions.
pub proof fn lemma_log_flat_injective(a: RotatedLog, i1: Index, i2: Index)
    requires
        a.wf(),
        a.valid_index(i1),
        a.valid_index(i2),
        a.flat_index(i1) == a.flat_index(i2),
    ensures
        i1 == i2,
{
    if i1.file() != i2.file() {
        let (lo, hi) = if i1.file() < i2.file() {
            (i1, i2)
        } else {
            (i2, i1)
        };
        lemma_offset_bounds(a.file_seqs(), lo.file());
        lemma_offset_monotone(a.file_seqs(), lo.file() + 1, hi.file());
        assert(a.spec_files()[lo.file()].spec_data().wf());
        assert(a.spec_files()[hi.file()].spec_data().wf());
        crate::content::lemma_flat_in_range(a.spec_files()[lo.file()].spec_data(), lo.line());
        crate::content::lemma_flat_in_range(a.spec_files()[hi.file()].spec_data(), hi.line());
        assert(a.flat_index(lo) < offset_of(a.file_seqs(), lo.file() + 1));
        assert(a.flat_index(hi) >= offset_of(a.file_seqs(), hi.file()));
        assert(false);
    } else {
        assert(a.spec_files()[i1.file()].spec_data().wf());
        crate::content::lemma_flat_injective(
            a.spec_files()[i1.file()].spec_data(),
            i1.line(),
            i2.line(),
        );
    }
}

/// Index symmetry, one level up: when stepping an index of a log by `n`
/// lands on a valid index `j`, stepping `j` by `-n` must land back on the
/// original index and nowhere else. Together with `step_index`'s contract,
/// and with every loaded file nonempty, this pins
/// `step_index(step_index(i, n), -n)` to `Ok(i)`.
pub proof fn lemma_log_step_symmetry(a: RotatedLog, i: Index, j: Index, n: int)
    requires
        a.wf(),
        a.valid_index(i),
        a.valid_index(j),
        a.flat_index(j) == a.flat_index(i) + n,
    ensures
        a.flat_index(i) == a.flat_index(j) + (-n),
        forall|k: Index|
            a.valid_index(k) && a.flat_index(k) == a.flat_index(j) + (-n) ==> k == i,
{
    assert forall|k: Index|
        a.valid_index(k) && a.flat_index(k) == a.flat_index(j) + (-n) implies k == i by {
        lemma_log_flat_injective(a, k, i);
    }
}

/// Walks a `RotatedLog` from old to new. The cursor holds no borrow: it
/// re-resolves its position through the log on each step.
pub struct ForwardIter {
    index: Option<Index>,
}

/// Walks a `RotatedLog` from new to old.
pub struct BackwardIter {
    index: Option<Index>,
}

impl ForwardIter {
    /// The position the next call will yield, if any.
    pub closed spec fn cur(self) -> Option<Index> {
        self.index
    }

    /// Yields the line at the cursor and advances one step.
    pub fn next<'a>(&mut self, data: &'a RotatedLog) -> (r: Option<(Index, &'a LogLine)>)
        requires
            data.wf(),
        ensures
            match r {
                Some((i, l)) => {
                    &&& old(self).cur() == Some(i)
                    &&& data.valid_index(i)
                    &&& *l == data@[data.flat_index(i)]
                    &&& match final(self).cur() {
                        Some(j) => data.valid_index(j) && data.flat_index(j) == data.flat_index(i)
                            + 1,
                        None => data.files_nonempty() ==> data.flat_index(i) + 1 >= data@.len(),
                    }
                },
                None => {
                    &&& final(self).cur() == old(self).cur()
                    &&& match old(self).cur() {
                        Some(i) => !data.valid_index(i),
                        None => true,
                    }
                },
            },
    {
        match self.next_nth(data, 0) {
            Ok((i, l)) => {
                proof {
                    lemma_log_flat_injective(*data, i, old(self).cur().unwrap());
                }
                Some((i, l))
            },
            Err(_) => {
                proof {
                    match old(self).cur() {
                        Some(s) => {
                            if data.valid_index(s) {
                                lemma_log_flat_in_range(*data, s);
                            }
                        },
                        None => {},
                    }
                }
                None
            },
        }
    }

    /// Yields the line `n` steps ahead of the cursor and advances past it.
    /// Past the end, with every loaded file nonempty: the number of steps
    /// that did not fit.
    pub fn next_nth<'a>(&mut self, data: &'a RotatedLog, n: usize) -> (r: Result<
        (Index, &'a LogLine),
        usize,
    >)
        requires
            data.wf(),
            n <= isize::MAX as usize,
        ensures
            match r {
                Ok((i, l)) => {
                    &&& match old(self).cur() {
                        Some(s) => data.valid_index(s) && data.valid_index(i) && data.flat_index(i)
                            == data.flat_index(s) + n,
                        None => false,
                    }
                    &&& *l == data@[data.flat_index(i)]
                    &&& match final(self).cur() {
                        Some(j) => data.valid_index(j) && data.flat_index(j) == data.flat_index(i)
                            + 1,
                        None => data.files_nonempty() ==> data.flat_index(i) + 1 >= data@.len(),
                    }
                },
                Err(m) => {
                    &&& final(self).cur() == old(self).cur()
                    &&& match old(self).cur() {
                        Some(s) => if !data.valid_index(s) {
                            m == n
                        } else {
                            n != 0 && (data.files_nonempty() ==> data.flat_index(s) + n
                                >= data@.len() && m == data.flat_index(s) + n - data@.len())
                        },
                        None => m == n,
                    }
                },
            },
    {
        match self.index {
            None => Err(n),
            Some(index) => {
                match data.step_index(index, n as isize) {
                    Ok(found) => {
                        proof {
                            lemma_log_flat_in_range(*data, found);
                        }
                        let line = match data.get(found) {
                            Some(l) => l,
                            None => {
                                proof {
                                    assert(false);
                                }
                                unreached()
                            },
                        };
                        self.index = match data.step_index(found, 1) {
                            Ok(j) => Some(j),
                            Err(_) => None,
                        };
                        Ok((found, line))
                    },
                    Err(m) => {
                        proof {
                            if data.valid_index(index) {
                                lemma_log_flat_in_range(*data, index);
                            }
                        }
                        Err(m as usize)
                    },
                }
            },
        }
    }
}

impl BackwardIter {
    /// The position the next call will yield, if any.
    pub closed spec fn cur(self) -> Option<Index> {
        self.index
    }

    /// Yields the line at the cursor and steps one back.
    pub fn next<'a>(&mut self, data: &'a RotatedLog) -> (r: Option<(Index, &'a LogLine)>)
        requires
            data.wf(),
        ensures
            match r {
                Some((i, l)) => {
                    &&& old(self).cur() == Some(i)
                    &&& data.valid_index(i)
                    &&& *l == data@[data.flat_index(i)]
                    &&& match final(self).cur() {
                        Some(j) => data.valid_index(j) && data.flat_index(j) == data.flat_index(i)
                            - 1,
                        None => data.files_nonempty() ==> data.flat_index(i) == 0,
                    }
                },
                None => {
                    &&& final(self).cur() == old(self).cur()
                    &&& match old(self).cur() {
                        Some(i) => !data.valid_index(i),
                        None => true,
                    }
                },
            },
    {
        match self.next_nth(data, 0) {
            Ok((i, l)) => {
                proof {
                    lemma_log_flat_injective(*data, i, old(self).cur().unwrap());
                }
                Some((i, l))
            },
            Err(_) => {
                proof {
                    match old(self).cur() {
                        Some(s) => {
                            if data.valid_index(s) {
                                lemma_log_flat_in_range(*data, s);
                            }
                        },
                        None => {},
                    }
                }
                None
            },
        }
    }

    /// Yields the line `n` steps behind the cursor and steps past it. Past
    /// the front, with every loaded file nonempty: the number of steps that
    /// did not fit.
    pub fn next_nth<'a>(&mut self, data: &'a RotatedLog, n: usize) -> (r: Result<
        (Index, &'a LogLine),
        usize,
    >)
        requires
            data.wf(),
            n <= isize::MAX as usize,
        ensures
            match r {
                Ok((i, l)) => {
                    &&& match old(self).cur() {
                        Some(s) => data.valid_index(s) && data.valid_index(i) && data.flat_index(i)
                            == data.flat_index(s) - n,
                        None => false,
                    }
                    &&& *l == data@[data.flat_index(i)]
                    &&& match final(self).cur() {
                        Some(j) => data.valid_index(j) && data.flat_index(j) == data.flat_index(i)
                            - 1,
                        None => data.files_nonempty() ==> data.flat_index(i) == 0,
                    }
                },
                Err(m) => {
                    &&& final(self).cur() == old(self).cur()
                    &&& match old(self).cur() {
                        Some(s) => if !data.valid_index(s) {
                            m == n
                        } else {
                            n != 0 && (data.files_nonempty() ==> data.flat_index(s) - n < 0 && m
                                == n - data.flat_index(s) - 1)
                        },
                        None => m == n,
                    }
                },
            },
    {
        match self.index {
            None => Err(n),
            Some(index) => {
                let step: isize = -(n as isize);
                match data.step_index(index, step) {
                    Ok(found) => {
                        proof {
                            lemma_log_flat_in_range(*data, found);
                        }
                        let line = match data.get(found) {
                            Some(l) => l,
                            None => {
                                proof {
                                    assert(false);
                                }
                                unreached()
                            },
                        };
                        self.index = match data.step_index(found, -1) {
                            Ok(j) => Some(j),
                            Err(_) => None,
                        };
                        Ok((found, line))
                    },
                    Err(m) => {
                        proof {
                            if data.valid_index(index) {
                                lemma_log_flat_in_range(*data, index);
                            }
                        }
                        let magnitude: isize = -m;
                        Err(magnitude as usize)
                    },
                }
            },
        }
    }
}

impl RotatedLog {
    /// A forward walk starting at `index`.
    pub fn iter_forward_from(&self, index: Index) -> (r: ForwardIter)
        requires
            self.wf(),
        ensures
            r.cur() == Some(index),
    {
        ForwardIter { index: Some(index) }
    }

    /// A forward walk over everything.
    pub fn iter_forward_from_head(&self) -> (r: ForwardIter)
        requires
            self.wf(),
        ensures
            ({
                let i = r.cur().unwrap();
                &&& r.cur() is Some
                &&& i.file() == 0 && i.line().chunk() == 0 && i.line().line() == 0
                &&& self.spec_files().len() > 0 && self.file_seqs()[0].len() > 0
                    ==> self.valid_index(i) && self.flat_index(i) == 0
            }),
    {
        let first = self.first_index();
        ForwardIter { index: Some(first) }
    }

    /// A backward walk starting at `index`.
    pub fn iter_backward_from(&self, index: Index) -> (r: BackwardIter)
        requires
            self.wf(),
        ensures
            r.cur() == Some(index),
    {
        BackwardIter { index: Some(index) }
    }

    /// A backward walk over everything.
    pub fn iter_backward_from_tail(&self) -> (r: BackwardIter)
        requires
            self.wf(),
        ensures
            ({
                let i = r.cur().unwrap();
                &&& r.cur() is Some
                &&& self.files_nonempty() && self.spec_files().len() > 0 ==> self.valid_index(i)
                    && self.flat_index(i) == self@.len() - 1
            }),
    {
        let last = self.last_index();
        BackwardIter { index: Some(last) }
    }
}

/// The file-name part of a path: the bytes after the last slash.
pub open spec fn base_name(s: Seq<u8>) -> Seq<u8>
    decreases s.len(),
{
    if s.len() == 0 {
        s
    } else if s.last() == 47 {
        Seq::empty()
    } else {
        base_name(s.take(s.len() - 1)).push(s.last())
    }
}

/// Does the path belong to the rotation of the log named `name`? It does
/// when its file name starts with that name: `x.log`, `x.log.1`, ...
pub open spec fn considered(name: Seq<u8>, p: Seq<u8>) -> bool {
    base_name(p).len() >= name.len() && base_name(p).take(name.len() as int) == name
}

/// The lexicographically smallest rotation path in a directory listing —
/// that is, the newest file of the rotation — or `None` when the listing
/// holds none. Of equal paths the earliest in the listing is kept.
pub open spec fn min_candidate(listing: Seq<Seq<u8>>, name: Seq<u8>) -> Option<Seq<u8>>
    decreases listing.len(),
{
    if listing.len() == 0 {
        None
    } else {
        let prev = min_candidate(listing.take(listing.len() - 1), name);
        let last = listing.last();
        if !considered(name, last) {
            prev
        } else {
            match prev {
                None => Some(last),
                Some(m) => if crate::bytes::lex_lt(last, m) {
                    Some(last)
                } else {
                    Some(m)
                },
            }
        }
    }
}

/// Like `min_candidate`, but only among rotation paths strictly above
/// `bound`: the newest file that is still older than the one at `bound`.
pub open spec fn min_candidate_above(listing: Seq<Seq<u8>>, name: Seq<u8>, bound: Seq<u8>) -> Option<
    Seq<u8>,
>
    decreases listing.len(),
{
    if listing.len() == 0 {
        None
    } else {
        let prev = min_candidate_above(listing.take(listing.len() - 1), name, bound);
        let last = listing.last();
        if !(considered(name, last) && crate::bytes::lex_lt(bound, last)) {
            prev
        } else {
            match prev {
                None => Some(last),
                Some(m) => if crate::bytes::lex_lt(last, m) {
                    Some(last)
                } else {
                    Some(m)
                },
            }
        }
    }
}

/// The file-name part of a path.
pub fn base_name_of(s: &[u8]) -> (r: &[u8])
    ensures
        r@ == base_name(s@),
{
    let n = s.len();
    let mut i: usize = n;
    while i > 0
        invariant
            0 <= i <= n,
            n == s@.len(),
            forall|j: int| i <= j < n ==> s@[j] != 47,
        decreases i,
    {
        if s[i - 1] == 47 {
            let r = &s[i..n];
            proof {
                lemma_base_name_after_slash(s@, i - 1);
                assert(r@ =~= s@.skip(i as int));
            }
            return r;
        }
        i = i - 1;
    }
    proof {
        lemma_base_name_no_slash(s@);
    }
    let r = &s[0..n];
    proof {
        assert(r@ =~= s@);
    }
    r
}

/// With the last slash at `p`, the file name is everything after it.
proof fn lemma_base_name_after_slash(s: Seq<u8>, p: int)
    requires
        0 <= p < s.len(),
        s[p] == 47,
        forall|j: int| p < j < s.len() ==> s[j] != 47,
    ensures
        base_name(s) == s.skip(p + 1),
    decreases s.len(),
{
    if p == s.len() - 1 {
        assert(base_name(s) =~= s.skip(p + 1));
    } else {
        assert(forall|j: int|
            p < j < s.take(s.len() - 1).len() ==> #[trigger] s.take(s.len() - 1)[j] != 47);
        lemma_base_name_after_slash(s.take(s.len() - 1), p);
        assert(base_name(s) == base_name(s.take(s.len() - 1)).push(s.last()));
        assert(s.take(s.len() - 1).skip(p + 1).push(s.last()) =~= s.skip(p + 1));
    }
}

/// Without a slash the file name is the whole path.
proof fn lemma_base_name_no_slash(s: Seq<u8>)
    requires
        forall|j: int| 0 <= j < s.len() ==> s[j] != 47,
    ensures
        base_name(s) == s,
    decreases s.len(),
{
    if s.len() > 0 {
        assert(forall|j: int|
            0 <= j < s.take(s.len() - 1).len() ==> #[trigger] s.take(s.len() - 1)[j] != 47);
        lemma_base_name_no_slash(s.take(s.len() - 1));
        assert(s.take(s.len() - 1).push(s.last()) =~= s);
    }
}

impl RotatedLog {
    /// Among the paths of a directory listing, the newest file of this
    /// log's rotation: lexicographically smallest wins, since `x.log` <
    /// `x.log.1` < `x.log.2`.
    pub fn find_latest_log_path(&self, listing: &Vec<Vec<u8>>) -> (r: Option<Vec<u8>>)
        ensures
            ({
                let lviews = listing@.map_values(|v: Vec<u8>| v@);
                let name = base_name(self.spec_path());
                match r {
                    Some(p) => min_candidate(lviews, name) == Some(p@),
                    None => min_candidate(lviews, name) is None,
                }
            }),
    {
        let name = base_name_of(self.path.as_slice());
        let ghost lviews = listing@.map_values(|v: Vec<u8>| v@);
        let mut best: Option<Vec<u8>> = None;
        let n = listing.len();
        let mut i: usize = 0;
        while i < n
            invariant
                0 <= i <= n,
                n == lviews.len(),
                lviews == listing@.map_values(|v: Vec<u8>| v@),
                name@ == base_name(self.spec_path()),
                match best {
                    Some(b) => min_candidate(lviews.take(i as int), name@) == Some(b@),
                    None => min_candidate(lviews.take(i as int), name@) is None,
                },
            decreases n - i,
        {
            let p = &listing[i];
            let eligible = crate::bytes::starts_with(base_name_of(p.as_slice()), name);
            proof {
                assert(lviews.take(i + 1).last() == p@);
                assert(lviews.take(i + 1).take(i as int) =~= lviews.take(i as int));
            }
            if eligible {
                let replace = match &best {
                    None => true,
                    Some(b) => crate::bytes::bytes_lt(p.as_slice(), b.as_slice()),
                };
                if replace {
                    best = Some(crate::bytes::copy_bytes(p.as_slice()));
                }
            }
            i += 1;
        }
        proof {
            assert(lviews.take(n as int) =~= lviews);
        }
        best
    }

    /// Among the paths of a directory listing, the rotation file that is
    /// immediately older than the oldest one already loaded, if any.
    pub fn find_older_log_path(&self, listing: &Vec<Vec<u8>>) -> (r: Option<Vec<u8>>)
        ensures
            ({
                let lviews = listing@.map_values(|v: Vec<u8>| v@);
                let name = base_name(self.spec_path());
                if self.spec_files().len() == 0 {
                    r is None
                } else {
                    let bound = self.spec_files()[0].spec_path();
                    match r {
                        Some(p) => min_candidate_above(lviews, name, bound) == Some(p@),
                        None => min_candidate_above(lviews, name, bound) is None,
                    }
                }
            }),
    {
        if self.log_files.len() == 0 {
            return None;
        }
        let name = base_name_of(self.path.as_slice());
        let bound = self.log_files[0].path();
        let ghost lviews = listing@.map_values(|v: Vec<u8>| v@);
        let mut best: Option<Vec<u8>> = None;
        let n = listing.len();
        let mut i: usize = 0;
        while i < n
            invariant
                0 <= i <= n,
                n == lviews.len(),
                lviews == listing@.map_values(|v: Vec<u8>| v@),
                name@ == base_name(self.spec_path()),
                self.spec_files().len() > 0,
                bound@ == self.spec_files()[0].spec_path(),
                match best {
                    Some(b) => min_candidate_above(lviews.take(i as int), name@, bound@) == Some(
                        b@,
                    ),
                    None => min_candidate_above(lviews.take(i as int), name@, bound@) is None,
                },
            decreases n - i,
        {
            let p = &listing[i];
            let eligible = crate::bytes::starts_with(base_name_of(p.as_slice()), name)
                && crate::bytes::bytes_lt(bound.as_slice(), p.as_slice());
            proof {
                assert(lviews.take(i + 1).last() == p@);
                assert(lviews.take(i + 1).take(i as int) =~= lviews.take(i as int));
            }
            if eligible {
                let replace = match &best {
                    None => true,
                    Some(b) => crate::bytes::bytes_lt(p.as_slice(), b.as_slice()),
                };
                if replace {
                    best = Some(crate::bytes::copy_bytes(p.as_slice()));
                }
            }
            i += 1;
        }
        proof {
            assert(lviews.take(n as int) =~= lviews);
        }
        best
    }

    /// Which file, if any, should be loaded at the back as the current
    /// live file: the newest rotation file in the listing, unless the live
    /// path itself or that newest file is already loaded last.
    pub fn decide_latest_to_load(&self, listing: &Vec<Vec<u8>>) -> (r: Option<Vec<u8>>)
        ensures
            ({
                let lviews = listing@.map_values(|v: Vec<u8>| v@);
                let name = base_name(self.spec_path());
                let loaded = if self.spec_files().len() > 0 {
                    self.spec_files().last().spec_path()
                } else {
                    Seq::<u8>::empty()
                };
                if loaded == self.spec_path() {
                    r is None
                } else {
                    match min_candidate(lviews, name) {
                        None => r is None,
                        Some(m) => if m == loaded {
                            r is None
                        } else {
                            r is Some && r.unwrap()@ == m
                        },
                    }
                }
            }),
    {
        let empty: Vec<u8> = Vec::new();
        let loaded: &Vec<u8> = if self.log_files.len() > 0 {
            self.log_files[self.log_files.len() - 1].path()
        } else {
            &empty
        };
        proof {
            if self.spec_files().len() == 0 {
                assert(loaded@ =~= Seq::<u8>::empty());
            }
        }
        if crate::bytes::bytes_eq(loaded.as_slice(), self.path.as_slice()) {
            return None;
        }
        match self.find_latest_log_path(listing) {
            None => None,
            Some(m) => {
                if crate::bytes::bytes_eq(m.as_slice(), loaded.as_slice()) {
                    None
                } else {
                    Some(m)
                }
            },
        }
    }
}

/// The flat position of a line inside one file, shifted by that file's
/// offset, addresses the same line in the whole log's view.
pub proof fn lemma_concat_flat(seqs: Seq<Seq<LogLine>>, k: int, p: int)
    requires
        0 <= k < seqs.len(),
        0 <= p < seqs[k].len(),
    ensures
        0 <= offset_of(seqs, k) + p < concat_all(seqs).len(),
        concat_all(seqs)[offset_of(seqs, k) + p] == seqs[k][p],
{
    lemma_concat_index(seqs, k, p);
}

/// The offset of the last element plus its length is the whole length.
proof fn lemma_offset_tail_total(seqs: Seq<Seq<LogLine>>, k: int)
    requires
        0 <= k < seqs.len(),
        k == seqs.len() - 1,
    ensures
        offset_of(seqs, k) + seqs[k].len() == concat_all(seqs).len(),
{
    lemma_offset_bounds(seqs, k);
    lemma_offset_le_concat_len(seqs, seqs.len() as int);
}

} // verus!
