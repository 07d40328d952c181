//! Tag-filtered iteration over a rotating log, with skip-link caching: each
//! visited line is lazily stamped with how far ahead (or behind) the next
//! visible line lies under the current filter version, so a second pass over
//! the same range steps straight between visible lines. The caching may
//! never change the output, only its speed: every function here promises
//! exactly the naive filter of the log's lines.

use crate::line::{LineData, LogDirection, LogLine, LogLink};
use crate::rotated::{lemma_log_flat_in_range, lemma_log_flat_injective, Index, RotatedLog};
use crate::tags::TagsData;
use vstd::prelude::*;

verus! {

/// Does the filter show this line? A `Bad` line has no tag and is never
/// hidden; a `Good` line is shown exactly when its tag is enabled.
pub open spec fn passes(d: LineData, tags: TagsData) -> bool {
    match d {
        LineData::Bad { .. } => true,
        LineData::Good { tag, .. } => tags.spec_get(tag),
    }
}

/// The line values of a stored sequence.
pub open spec fn data_seq(s: Seq<LogLine>) -> Seq<LineData> {
    s.map_values(|l: LogLine| l.data())
}

/// The naive reference filter: the visible line values from position `from`
/// on, in order.
pub open spec fn filter_from(ds: Seq<LineData>, tags: TagsData, from: int) -> Seq<LineData>
    decreases ds.len() - from when from <= ds.len()
{
    if from < 0 || from >= ds.len() {
        Seq::empty()
    } else if passes(ds[from], tags) {
        seq![ds[from]] + filter_from(ds, tags, from + 1)
    } else {
        filter_from(ds, tags, from + 1)
    }
}

/// The naive reference filter of the visible line values before position
/// `upto`, walking backward from the end, newest first.
pub open spec fn filter_back_from(ds: Seq<LineData>, tags: TagsData, upto: int) -> Seq<LineData>
    decreases upto + 1 when upto < ds.len()
{
    if upto < 0 || upto >= ds.len() {
        Seq::empty()
    } else if passes(ds[upto], tags) {
        seq![ds[upto]] + filter_back_from(ds, tags, upto - 1)
    } else {
        filter_back_from(ds, tags, upto - 1)
    }
}

/// What a forward link of the current version is allowed to claim of
/// position `i`: the next `skip` positions short of one are all hidden, and
/// the link does not reach past the end.
pub open spec fn fwd_claim(ds: Seq<LineData>, tags: TagsData, i: int, skip: int) -> bool {
    &&& i + skip <= ds.len()
    &&& forall|j: int| i < j < i + skip ==> !passes(#[trigger] ds[j], tags)
}

/// What a backward link of the current version is allowed to claim of
/// position `i`.
pub open spec fn bwd_claim(ds: Seq<LineData>, tags: TagsData, i: int, skip: int) -> bool {
    &&& i - skip >= -1
    &&& forall|j: int| i - skip < j < i ==> !passes(#[trigger] ds[j], tags)
}

/// The system invariant on cached links: a link is trustworthy exactly when
/// its version matches the filter's, so every link of the current version
/// must claim the truth, and no link is from the future. The claim is the
/// one that survives growth: every position the link jumps over is hidden.
/// The patching passes in fact write the exact distance to the next visible
/// line (see `patch_fwd` and `patch_bwd`), but exactness cannot be the
/// standing invariant: a line appended under an unchanged version can land
/// right where a link that pointed past the end now ends, so such a link
/// stays truthful about what it skips without naming the next visible line.
pub open spec fn links_wf(s: Seq<LogLine>, tags: TagsData) -> bool {
    &&& forall|i: int, d: LogDirection|
        0 <= i < s.len() ==> (#[trigger] s[i].spec_link(d)).ver <= tags.version()
    &&& forall|i: int|
        0 <= i < s.len() && (#[trigger] s[i].spec_link(LogDirection::Forward)).ver
            == tags.version() ==> fwd_claim(
            data_seq(s),
            tags,
            i,
            s[i].spec_link(LogDirection::Forward).skip as int,
        )
    &&& forall|i: int|
        0 <= i < s.len() && (#[trigger] s[i].spec_link(LogDirection::Backward)).ver
            == tags.version() ==> bwd_claim(
            data_seq(s),
            tags,
            i,
            s[i].spec_link(LogDirection::Backward).skip as int,
        )
}

/// Rewriting one line's link with a truthful claim of the current version,
/// without touching any line value, keeps the invariant.
proof fn lemma_links_wf_after_set(
    a: Seq<LogLine>,
    b: Seq<LogLine>,
    tags: TagsData,
    f: int,
    d: LogDirection,
)
    requires
        links_wf(a, tags),
        b.len() == a.len(),
        0 <= f < a.len(),
        forall|i: int| 0 <= i < a.len() && i != f ==> b[i] == a[i],
        b[f].data() == a[f].data(),
        b[f].spec_link(crate::line::opposite(d)) == a[f].spec_link(crate::line::opposite(d)),
        b[f].spec_link(d).ver <= tags.version(),
        b[f].spec_link(d).ver == tags.version() ==> match d {
            LogDirection::Forward => fwd_claim(data_seq(b), tags, f, b[f].spec_link(d).skip as int),
            LogDirection::Backward => bwd_claim(
                data_seq(b),
                tags,
                f,
                b[f].spec_link(d).skip as int,
            ),
        },
    ensures
        links_wf(b, tags),
        data_seq(b) == data_seq(a),
{
    assert(data_seq(b) =~= data_seq(a));
    assert forall|i: int, dd: LogDirection|
        0 <= i < b.len() implies (#[trigger] b[i].spec_link(dd)).ver <= tags.version() by {
        if i != f {
            assert(b[i] == a[i]);
        } else {
            match (dd, d) {
                (LogDirection::Forward, LogDirection::Forward) => {},
                (LogDirection::Backward, LogDirection::Backward) => {},
                (LogDirection::Forward, LogDirection::Backward) => {
                    assert(b[f].spec_link(dd) == a[f].spec_link(dd));
                },
                (LogDirection::Backward, LogDirection::Forward) => {
                    assert(b[f].spec_link(dd) == a[f].spec_link(dd));
                },
            }
        }
    }
    assert forall|i: int|
        0 <= i < b.len() && (#[trigger] b[i].spec_link(LogDirection::Forward)).ver
            == tags.version() implies fwd_claim(
        data_seq(b),
        tags,
        i,
        b[i].spec_link(LogDirection::Forward).skip as int,
    ) by {
        if i != f {
            assert(b[i] == a[i]);
        } else {
            match d {
                LogDirection::Forward => {},
                LogDirection::Backward => {
                    assert(b[f].spec_link(LogDirection::Forward) == a[f].spec_link(
                        LogDirection::Forward,
                    ));
                },
            }
        }
    }
    assert forall|i: int|
        0 <= i < b.len() && (#[trigger] b[i].spec_link(LogDirection::Backward)).ver
            == tags.version() implies bwd_claim(
        data_seq(b),
        tags,
        i,
        b[i].spec_link(LogDirection::Backward).skip as int,
    ) by {
        if i != f {
            assert(b[i] == a[i]);
        } else {
            match d {
                LogDirection::Backward => {},
                LogDirection::Forward => {
                    assert(b[f].spec_link(LogDirection::Backward) == a[f].spec_link(
                        LogDirection::Backward,
                    ));
                },
            }
        }
    }
}

/// Skipping hidden positions leaves the reference filter unchanged.
proof fn lemma_filter_from_skip(ds: Seq<LineData>, tags: TagsData, a: int, b: int)
    requires
        0 <= a <= b <= ds.len(),
        forall|j: int| a <= j < b ==> !passes(#[trigger] ds[j], tags),
    ensures
        filter_from(ds, tags, a) == filter_from(ds, tags, b),
    decreases b - a,
{
    if a < b {
        lemma_filter_from_skip(ds, tags, a + 1, b);
    }
}

/// Skipping hidden positions leaves the backward reference filter unchanged.
proof fn lemma_filter_back_skip(ds: Seq<LineData>, tags: TagsData, a: int, b: int)
    requires
        -1 <= b <= a < ds.len() || (b == a && a == -1),
        -1 <= b <= a,
        a < ds.len(),
        forall|j: int| b < j <= a ==> !passes(#[trigger] ds[j], tags),
    ensures
        filter_back_from(ds, tags, a) == filter_back_from(ds, tags, b),
    decreases a - b,
{
    if b < a {
        lemma_filter_back_skip(ds, tags, a - 1, b);
    }
}

/// Growing the line sequence at its end extends the reference filter by at
/// most that one line.
proof fn lemma_filter_from_push(ds: Seq<LineData>, tags: TagsData, x: LineData, i: int)
    requires
        0 <= i <= ds.len(),
    ensures
        filter_from(ds.push(x), tags, i) == filter_from(ds, tags, i) + (if passes(x, tags) {
            seq![x]
        } else {
            Seq::<LineData>::empty()
        }),
    decreases ds.len() - i,
{
    if i < ds.len() {
        assert(ds.push(x)[i] == ds[i]);
        lemma_filter_from_push(ds, tags, x, i + 1);
        if passes(ds[i], tags) {
            assert(seq![ds[i]] + (filter_from(ds, tags, i + 1) + (if passes(x, tags) {
                seq![x]
            } else {
                Seq::<LineData>::empty()
            })) =~= (seq![ds[i]] + filter_from(ds, tags, i + 1)) + (if passes(x, tags) {
                seq![x]
            } else {
                Seq::<LineData>::empty()
            }));
        }
    } else {
        assert(ds.push(x)[i] == x);
        assert(filter_from(ds, tags, i) =~= Seq::<LineData>::empty());
        assert(filter_from(ds.push(x), tags, i + 1) =~= Seq::<LineData>::empty());
        if passes(x, tags) {
            assert(filter_from(ds.push(x), tags, i) =~= seq![x]);
            assert(filter_from(ds, tags, i) + seq![x] =~= seq![x]);
        } else {
            assert(filter_from(ds, tags, i) + Seq::<LineData>::empty() =~= Seq::<
                LineData,
            >::empty());
        }
    }
}

/// Reversing a sequence after appending one line puts that line first.
proof fn lemma_reverse_snoc(a: Seq<LineData>, x: LineData)
    ensures
        (a + seq![x]).reverse() == seq![x] + a.reverse(),
{
    assert((a + seq![x]).reverse() =~= seq![x] + a.reverse());
}

/// The backward reference filter walks the same visible lines as the
/// forward one over the covered prefix, newest first.
proof fn lemma_filter_back_prefix(ds: Seq<LineData>, tags: TagsData, u: int)
    requires
        -1 <= u < ds.len(),
    ensures
        filter_back_from(ds, tags, u) == filter_from(ds.take(u + 1), tags, 0).reverse(),
    decreases u + 1,
{
    if u < 0 {
        assert(ds.take(0) =~= Seq::<LineData>::empty());
        assert(filter_from(ds.take(0), tags, 0) =~= Seq::<LineData>::empty());
        assert(Seq::<LineData>::empty().reverse() =~= Seq::<LineData>::empty());
        assert(filter_back_from(ds, tags, u) =~= Seq::<LineData>::empty());
    } else {
        lemma_filter_back_prefix(ds, tags, u - 1);
        assert(ds.take(u + 1) =~= ds.take(u).push(ds[u]));
        lemma_filter_from_push(ds.take(u), tags, ds[u], 0);
        if passes(ds[u], tags) {
            lemma_reverse_snoc(filter_from(ds.take(u), tags, 0), ds[u]);
            assert(filter_from(ds.take(u), tags, 0) + seq![ds[u]] =~= (filter_from(
                ds.take(u),
                tags,
                0,
            ) + seq![ds[u]]));
            assert(filter_back_from(ds, tags, u) == seq![ds[u]] + filter_back_from(
                ds,
                tags,
                u - 1,
            ));
        } else {
            assert(filter_from(ds.take(u), tags, 0) + Seq::<LineData>::empty() =~= filter_from(
                ds.take(u),
                tags,
                0,
            ));
        }
    }
}

/// The backward traversal of the whole log yields exactly the reverse of
/// the forward one: the lines visible under the filter, newest first. This
/// grounds `filtered_collect_backward` as the reverse of
/// `filtered_collect_forward` on any log and any filter.
pub proof fn lemma_filter_backward_is_reverse(ds: Seq<LineData>, tags: TagsData)
    ensures
        filter_back_from(ds, tags, ds.len() - 1) == filter_from(ds, tags, 0).reverse(),
{
    lemma_filter_back_prefix(ds, tags, ds.len() - 1);
    assert(ds.take(ds.len() as int) =~= ds);
}

/// A cursor for tag-filtered forward iteration. It holds positions, never
/// borrows: each step re-resolves through the log.
pub struct FilterCursor {
    /// The next candidate position; `None` once the log is exhausted.
    pub next: Option<Index>,
    /// The cached link of the line yielded last, used to step straight over
    /// a known run of hidden lines.
    pub anchor_link: LogLink,
    /// A run of lines whose links are stale, waiting to be patched once the
    /// next visible line is found: its start, and how many steps lie
    /// between that start and the candidate.
    pub chain: Option<(Index, usize)>,
}

/// When the cursor may be used on a log: its candidate addresses a line,
/// what its anchor link promises is true, and its pending stale run indeed
/// sits just behind the candidate with only hidden lines inside.
pub open spec fn cursor_fwd_wf(log: RotatedLog, tags: TagsData, c: FilterCursor) -> bool {
    match c.next {
        Some(p) => {
            &&& log.valid_index(p)
            &&& (c.anchor_link.ver == tags.version() ==> fwd_claim(
                data_seq(log@),
                tags,
                log.flat_index(p) - 1,
                c.anchor_link.skip as int,
            ))
            &&& (c.chain is Some ==> c.anchor_link.ver != tags.version())
            &&& match c.chain {
                None => true,
                Some((s, d)) => {
                    &&& log.valid_index(s)
                    &&& d >= 1
                    &&& log.flat_index(s) + d == log.flat_index(p)
                    &&& forall|j: int|
                        log.flat_index(s) < j < log.flat_index(p) ==> !passes(
                            #[trigger] data_seq(log@)[j],
                            tags,
                        )
                },
            }
        },
        None => c.chain is None,
    }
}

/// Stamps every line of the stale run from `start` (inclusive) with a
/// fresh forward link of the current version: the line `d + extra` steps
/// past `start` is where the next visible line lies (or the end of the
/// log). Only links change; every line value stays.
fn patch_fwd(log: &mut RotatedLog, tags: &TagsData, start: Index, d: usize, extra: usize)
    requires
        old(log).wf(),
        old(log).files_nonempty(),
        old(log)@.len() <= usize::MAX,
        links_wf(old(log)@, *tags),
        old(log).valid_index(start),
        d >= 1,
        old(log).flat_index(start) + d + extra <= old(log)@.len(),
        forall|j: int|
            old(log).flat_index(start) < j < old(log).flat_index(start) + d + extra ==> !passes(
                #[trigger] data_seq(old(log)@)[j],
                *tags,
            ),
    ensures
        final(log).wf(),
        final(log).files_nonempty(),
        crate::rotated::same_log_shape(*old(log), *final(log)),
        final(log)@.len() == old(log)@.len(),
        data_seq(final(log)@) == data_seq(old(log)@),
        links_wf(final(log)@, *tags),
        final(log).spec_path() == old(log).spec_path(),
        final(log).spec_want_older() == old(log).spec_want_older(),
        forall|j: int|
            0 <= j < d && data_seq(old(log)@)[old(log).flat_index(start) + j].is_good() ==> {
                let written = (#[trigger] final(log)@[old(log).flat_index(start) + j]).spec_link(
                    LogDirection::Forward,
                );
                written.ver == tags.version() && written.skip == d + extra - j
            },
{
    let ghost start_flat = log.flat_index(start);
    proof {
        lemma_log_flat_in_range(*log, start);
    }
    let mut p = start;
    let mut k: usize = 0;
    let ver = tags.get_version();
    while k < d
        invariant
            log.wf(),
            log.files_nonempty(),
            log@.len() <= usize::MAX,
            links_wf(log@, *tags),
            tags.version() == ver,
            0 <= k <= d,
            d >= 1,
            log.valid_index(p),
            log.flat_index(p) == start_flat + (if k < d {
                k as int
            } else {
                d - 1
            }),
            0 <= start_flat,
            start_flat + d + extra <= log@.len(),
            forall|j: int|
                start_flat < j < start_flat + d + extra ==> !passes(
                    #[trigger] data_seq(log@)[j],
                    *tags,
                ),
            forall|j: int|
                0 <= j < k && data_seq(log@)[start_flat + j].is_good() ==> {
                    let written = (#[trigger] log@[start_flat + j]).spec_link(
                        LogDirection::Forward,
                    );
                    written.ver == tags.version() && written.skip == d + extra - j
                },
            crate::rotated::same_log_shape(*old(log), *log),
            data_seq(log@) == data_seq(old(log)@),
            log@.len() == old(log)@.len(),
            log.spec_path() == old(log).spec_path(),
            log.spec_want_older() == old(log).spec_want_older(),
        decreases d - k,
    {
        proof {
            lemma_log_flat_in_range(*log, p);
            assert(log.flat_index(p) == start_flat + k);
        }
        let skip = d - k + extra;
        let ghost pre = *log;
        log.set_link_at(p, LogDirection::Forward, LogLink { ver, skip });
        proof {
            crate::rotated::lemma_same_log_shape_flat(pre, *log);
            crate::rotated::lemma_same_log_shape_trans(*old(log), pre, *log);
            assert(data_seq(log@) =~= data_seq(pre@));
            let f = pre.flat_index(p);
            assert(log@[f].spec_link(LogDirection::Forward).ver <= tags.version());
            if log@[f].spec_link(LogDirection::Forward).ver == tags.version() {
                assert(fwd_claim(
                    data_seq(log@),
                    *tags,
                    f,
                    log@[f].spec_link(LogDirection::Forward).skip as int,
                ));
            }
            lemma_links_wf_after_set(
                pre@,
                log@,
                *tags,
                pre.flat_index(p),
                LogDirection::Forward,
            );
            assert forall|j: int|
                0 <= j < k + 1 && data_seq(log@)[start_flat + j].is_good() implies {
                let written = (#[trigger] log@[start_flat + j]).spec_link(LogDirection::Forward);
                written.ver == tags.version() && written.skip == d + extra - j
            } by {
                if j == k {
                    assert(log@[f].data() == pre@[f].data());
                } else {
                    assert(log@[start_flat + j] == pre@[start_flat + j]);
                }
            }
        }
        k = k + 1;
        if k < d {
            let stepped = log.step_index(p, 1);
            match stepped {
                Ok(q) => {
                    p = q;
                },
                Err(_) => {
                    proof {
                        lemma_log_flat_in_range(*log, p);
                        assert(false);
                    }
                },
            }
        }
    }
}

/// Patches a pending stale run, if one exists; see `patch_fwd`. The run's
/// lines get links claiming the next visible line `extra` steps past the
/// run's end.
fn patch_pending(log: &mut RotatedLog, tags: &TagsData, chain: Option<(Index, usize)>, extra: usize)
    requires
        old(log).wf(),
        old(log).files_nonempty(),
        old(log)@.len() <= usize::MAX,
        links_wf(old(log)@, *tags),
        match chain {
            None => true,
            Some((s, d)) => {
                &&& old(log).valid_index(s)
                &&& d >= 1
                &&& old(log).flat_index(s) + d + extra <= old(log)@.len()
                &&& forall|j: int|
                    old(log).flat_index(s) < j < old(log).flat_index(s) + d + extra ==> !passes(
                        #[trigger] data_seq(old(log)@)[j],
                        *tags,
                    )
            },
        },
    ensures
        final(log).wf(),
        final(log).files_nonempty(),
        crate::rotated::same_log_shape(*old(log), *final(log)),
        final(log)@.len() == old(log)@.len(),
        data_seq(final(log)@) == data_seq(old(log)@),
        links_wf(final(log)@, *tags),
        final(log).spec_path() == old(log).spec_path(),
        final(log).spec_want_older() == old(log).spec_want_older(),
{
    match chain {
        Some((s, d)) => {
            patch_fwd(log, tags, s, d, extra);
        },
        None => {},
    }
}

impl RotatedLog {
    /// A filtered forward walk starting at `index`.
    pub fn filtered_iter_forward_from(&self, tags: &TagsData, index: Index) -> (r: FilterCursor)
        requires
            self.wf(),
        ensures
            r.next == Some(index),
            r.chain is None,
            self.valid_index(index) ==> cursor_fwd_wf(*self, *tags, r),
    {
        proof {
            if self.valid_index(index) {
                lemma_log_flat_in_range(*self, index);
            }
        }
        FilterCursor { next: Some(index), anchor_link: LogLink { ver: 0, skip: 0 }, chain: None }
    }

    /// A filtered forward walk over the whole log.
    pub fn filtered_iter_forward_from_head(&self, tags: &TagsData) -> (r: FilterCursor)
        requires
            self.wf(),
        ensures
            r.chain is None,
            r.next is Some,
            self.spec_files().len() > 0 && self.file_seqs()[0].len() > 0 ==> cursor_fwd_wf(
                *self,
                *tags,
                r,
            ) && self.flat_index(r.next.unwrap()) == 0,
    {
        let first = self.first_index();
        proof {
            if self.spec_files().len() > 0 && self.file_seqs()[0].len() > 0 {
                lemma_log_flat_in_range(*self, first);
            }
        }
        FilterCursor { next: Some(first), anchor_link: LogLink { ver: 0, skip: 0 }, chain: None }
    }
}

/// Yields the next visible line at or after the cursor, patching stale
/// links along the way; the caching never changes which line comes next.
pub fn filtered_next_forward(log: &mut RotatedLog, tags: &TagsData, cur: &mut FilterCursor) -> (r:
    Option<(Index, LogLine)>)
    requires
        old(log).wf(),
        old(log).files_nonempty(),
        old(log)@.len() <= usize::MAX,
        links_wf(old(log)@, *tags),
        cursor_fwd_wf(*old(log), *tags, *old(cur)),
    ensures
        final(log).wf(),
        final(log).files_nonempty(),
        crate::rotated::same_log_shape(*old(log), *final(log)),
        data_seq(final(log)@) == data_seq(old(log)@),
        final(log)@.len() == old(log)@.len(),
        links_wf(final(log)@, *tags),
        cursor_fwd_wf(*final(log), *tags, *final(cur)),
        final(log).spec_path() == old(log).spec_path(),
        final(log).spec_want_older() == old(log).spec_want_older(),
        match r {
            Some((i, line)) => {
                let ds = data_seq(old(log)@);
                &&& old(cur).next is Some
                &&& old(log).valid_index(i)
                &&& old(log).flat_index(old(cur).next.unwrap()) <= old(log).flat_index(i)
                    < old(log)@.len()
                &&& passes(ds[old(log).flat_index(i)], *tags)
                &&& forall|j: int|
                    old(log).flat_index(old(cur).next.unwrap()) <= j < old(log).flat_index(i)
                        ==> !passes(#[trigger] ds[j], *tags)
                &&& line.data() == ds[old(log).flat_index(i)]
                &&& match final(cur).next {
                    Some(q) => final(log).valid_index(q) && final(log).flat_index(q) == old(
                        log,
                    ).flat_index(i) + 1,
                    None => old(log).flat_index(i) + 1 >= old(log)@.len(),
                }
            },
            None => {
                &&& final(cur).next is None
                &&& match old(cur).next {
                    Some(p) => forall|j: int|
                        old(log).flat_index(p) <= j < old(log)@.len() ==> !passes(
                            #[trigger] data_seq(old(log)@)[j],
                            *tags,
                        ),
                    None => true,
                }
            },
        },
{
    let ghost ds0 = data_seq(old(log)@);
    let start = match cur.next {
        None => {
            return None;
        },
        Some(p) => p,
    };
    let ghost start_flat = log.flat_index(start);
    let mut cand = start;
    proof {
        lemma_log_flat_in_range(*log, cand);
    }
    // Step straight over the run of hidden lines the anchor's link records.
    if cur.anchor_link.ver == tags.get_version() && cur.anchor_link.skip > 1 && cur.anchor_link.skip
        - 1 <= (isize::MAX as usize) {
        let jump = cur.anchor_link.skip - 1;
        proof {
            assert(fwd_claim(ds0, *tags, start_flat - 1, cur.anchor_link.skip as int));
        }
        match log.step_index(cand, jump as isize) {
            Ok(q) => {
                cand = q;
                proof {
                    lemma_log_flat_in_range(*log, cand);
                }
            },
            Err(_) => {
                // The link reaches the end: nothing visible remains.
                cur.next = None;
                cur.chain = None;
                proof {
                    lemma_log_flat_in_range(*log, cand);
                }
                return None;
            },
        }
    }
    loop
        invariant
            log.wf(),
            log.files_nonempty(),
            log@.len() <= usize::MAX,
            links_wf(log@, *tags),
            data_seq(log@) == ds0,
            ds0 == data_seq(old(log)@),
            log@.len() == old(log)@.len(),
            crate::rotated::same_log_shape(*old(log), *log),
            log.spec_path() == old(log).spec_path(),
            log.spec_want_older() == old(log).spec_want_older(),
            log.valid_index(cand),
            start_flat <= log.flat_index(cand) < log@.len(),
            forall|j: int|
                start_flat <= j < log.flat_index(cand) ==> !passes(#[trigger] ds0[j], *tags),
            match cur.chain {
                None => true,
                Some((s, dd)) => {
                    &&& log.valid_index(s)
                    &&& dd >= 1
                    &&& log.flat_index(s) + dd == log.flat_index(cand)
                    &&& forall|j: int|
                        log.flat_index(s) < j < log.flat_index(cand) ==> !passes(
                            #[trigger] ds0[j],
                            *tags,
                        )
                },
            },
            cur.next == old(cur).next,
            old(cur).next == Some(start),
            start_flat == old(log).flat_index(start),
        decreases log@.len() - log.flat_index(cand),
    {
        proof {
            lemma_log_flat_in_range(*log, cand);
        }
        let ghost cand_flat = log.flat_index(cand);
        let (visible, line_link) = match log.get(cand) {
            Some(l) => {
                let vis = match l.get_tag() {
                    None => true,
                    Some(t) => tags.get(t.as_slice()),
                };
                (vis, l.get_link(LogDirection::Forward))
            },
            None => {
                proof {
                    assert(false);
                }
                unreached()
            },
        };
        proof {
            assert(visible == passes(ds0[cand_flat], *tags));
        }
        if visible {
            // Found the next visible line: patch the stale run to point at
            // it, anchor there, and yield it.
            proof {
                assert(log@[cand_flat].spec_link(LogDirection::Forward) == line_link);
                if line_link.ver == tags.version() {
                    assert(fwd_claim(ds0, *tags, cand_flat, line_link.skip as int));
                }
            }
            let ghost before_patch = *log;
            patch_pending(log, tags, cur.chain, 0);
            proof {
                crate::rotated::lemma_same_log_shape_trans(*old(log), before_patch, *log);
                crate::rotated::lemma_same_log_shape_flat(*old(log), *log);
                crate::rotated::lemma_same_log_shape_flat(before_patch, *log);
            }
            let cloned = match log.get(cand) {
                Some(l) => l.clone(),
                None => {
                    proof {
                        assert(false);
                    }
                    unreached()
                },
            };
            cur.anchor_link = line_link;
            cur.chain = if line_link.ver == tags.get_version() {
                None
            } else {
                Some((cand, 1))
            };
            cur.next = match log.step_index(cand, 1) {
                Ok(q) => Some(q),
                Err(_) => None,
            };
            proof {
                if cur.next is None {
                    assert(log.flat_index(cand) + 1 >= log@.len());
                }
            }
            if cur.next.is_none() {
                cur.chain = None;
            }
            return Some((cand, cloned));
        }
        // Hidden line. A trustworthy link on it lets the walk jump the
        // recorded run; otherwise it joins the stale run and the walk takes
        // one step.
        if line_link.ver == tags.get_version() && line_link.skip >= 1 && line_link.skip <= (
        isize::MAX as usize) {
            let ghost before_patch = *log;
            proof {
                assert(log@[cand_flat].spec_link(LogDirection::Forward) == line_link);
                assert(fwd_claim(ds0, *tags, cand_flat, line_link.skip as int));
            }
            patch_pending(log, tags, cur.chain, line_link.skip);
            proof {
                crate::rotated::lemma_same_log_shape_trans(*old(log), before_patch, *log);
                crate::rotated::lemma_same_log_shape_flat(*old(log), *log);
                crate::rotated::lemma_same_log_shape_flat(before_patch, *log);
            }
            cur.chain = None;
            match log.step_index(cand, line_link.skip as isize) {
                Ok(q) => {
                    cand = q;
                    proof {
                        lemma_log_flat_in_range(*log, cand);
                    }
                },
                Err(_) => {
                    // The link reaches the end: nothing visible remains.
                    cur.next = None;
                    proof {
                        lemma_log_flat_in_range(*log, cand);
                    }
                    return None;
                },
            }
        } else {
            match cur.chain {
                Some((s, dd)) => {
                    proof {
                        lemma_log_flat_in_range(*log, s);
                    }
                    cur.chain = Some((s, dd + 1));
                },
                None => {
                    cur.chain = Some((cand, 1));
                },
            }
            match log.step_index(cand, 1) {
                Ok(q) => {
                    cand = q;
                    proof {
                        lemma_log_flat_in_range(*log, cand);
                    }
                },
                Err(_) => {
                    // Ran off the end: patch the stale run to point past it.
                    let ghost before_patch = *log;
                    patch_pending(log, tags, cur.chain, 0);
                    proof {
                        crate::rotated::lemma_same_log_shape_trans(*old(log), before_patch, *log);
                        crate::rotated::lemma_same_log_shape_flat(*old(log), *log);
                        crate::rotated::lemma_same_log_shape_flat(before_patch, *log);
                    }
                    cur.next = None;
                    cur.chain = None;
                    return None;
                },
            }
        }
    }
}

/// A visible line is in the forward reference filter of any range that
/// covers it.
proof fn lemma_filter_from_contains(ds: Seq<LineData>, tags: TagsData, from: int, i: int)
    requires
        0 <= from <= i < ds.len(),
        passes(ds[i], tags),
    ensures
        filter_from(ds, tags, from).contains(ds[i]),
    decreases i - from,
{
    if from == i {
        assert(filter_from(ds, tags, from)[0] == ds[i]);
    } else {
        lemma_filter_from_contains(ds, tags, from + 1, i);
        let j = choose|j: int|
            0 <= j < filter_from(ds, tags, from + 1).len() && #[trigger] filter_from(
                ds,
                tags,
                from + 1,
            )[j] == ds[i];
        if passes(ds[from], tags) {
            assert(filter_from(ds, tags, from)[j + 1] == ds[i]);
        }
    }
}

/// A visible line is in the backward reference filter of any range that
/// covers it.
proof fn lemma_filter_back_contains(ds: Seq<LineData>, tags: TagsData, upto: int, i: int)
    requires
        0 <= i <= upto < ds.len(),
        passes(ds[i], tags),
    ensures
        filter_back_from(ds, tags, upto).contains(ds[i]),
    decreases upto - i,
{
    if upto == i {
        assert(filter_back_from(ds, tags, upto)[0] == ds[i]);
    } else {
        lemma_filter_back_contains(ds, tags, upto - 1, i);
        let j = choose|j: int|
            0 <= j < filter_back_from(ds, tags, upto - 1).len() && #[trigger] filter_back_from(
                ds,
                tags,
                upto - 1,
            )[j] == ds[i];
        if passes(ds[upto], tags) {
            assert(filter_back_from(ds, tags, upto)[j + 1] == ds[i]);
        }
    }
}

/// An unparsable line can never starve behind the filter: it has no tag,
/// no tag rule can hide it, and both the forward and the backward filtered
/// traversal of the whole log surface it — whatever tags are enabled and
/// whatever the cache holds.
pub proof fn lemma_bad_lines_never_hidden(ds: Seq<LineData>, tags: TagsData, i: int)
    requires
        0 <= i < ds.len(),
        ds[i] is Bad,
    ensures
        passes(ds[i], tags),
        filter_from(ds, tags, 0).contains(ds[i]),
        filter_back_from(ds, tags, ds.len() - 1).contains(ds[i]),
{
    lemma_filter_from_contains(ds, tags, 0, i);
    lemma_filter_back_contains(ds, tags, ds.len() - 1, i);
}

/// The link invariant survives a new line joining at either end: a parsed
/// line starts with the empty link of version zero, which claims nothing.
pub proof fn lemma_links_wf_grow(s: Seq<LogLine>, l: LogLine, tags: TagsData)
    requires
        links_wf(s, tags),
        l.spec_link(LogDirection::Forward) == (LogLink { ver: 0, skip: 0 }),
        l.spec_link(LogDirection::Backward) == (LogLink { ver: 0, skip: 0 }),
    ensures
        links_wf(seq![l] + s, tags),
        links_wf(s.push(l), tags),
{
    let front = seq![l] + s;
    assert forall|i: int, d: LogDirection|
        0 <= i < front.len() implies (#[trigger] front[i].spec_link(d)).ver <= tags.version() by {
        if i > 0 {
            assert(front[i] == s[i - 1]);
        }
    }
    assert forall|i: int|
        0 <= i < front.len() && (#[trigger] front[i].spec_link(LogDirection::Forward)).ver
            == tags.version() implies fwd_claim(
        data_seq(front),
        tags,
        i,
        front[i].spec_link(LogDirection::Forward).skip as int,
    ) by {
        if i > 0 {
            assert(front[i] == s[i - 1]);
            assert(fwd_claim(data_seq(s), tags, i - 1, s[i - 1].spec_link(
                LogDirection::Forward,
            ).skip as int));
            let skip = front[i].spec_link(LogDirection::Forward).skip as int;
            assert forall|j: int| i < j < i + skip implies !passes(
                #[trigger] data_seq(front)[j],
                tags,
            ) by {
                assert(data_seq(front)[j] == data_seq(s)[j - 1]);
            }
        }
    }
    assert forall|i: int|
        0 <= i < front.len() && (#[trigger] front[i].spec_link(LogDirection::Backward)).ver
            == tags.version() implies bwd_claim(
        data_seq(front),
        tags,
        i,
        front[i].spec_link(LogDirection::Backward).skip as int,
    ) by {
        if i > 0 {
            assert(front[i] == s[i - 1]);
            assert(bwd_claim(data_seq(s), tags, i - 1, s[i - 1].spec_link(
                LogDirection::Backward,
            ).skip as int));
            let skip = front[i].spec_link(LogDirection::Backward).skip as int;
            assert forall|j: int| i - skip < j < i implies !passes(
                #[trigger] data_seq(front)[j],
                tags,
            ) by {
                assert(data_seq(front)[j] == data_seq(s)[j - 1]);
            }
        }
    }
    let back = s.push(l);
    assert forall|i: int, d: LogDirection|
        0 <= i < back.len() implies (#[trigger] back[i].spec_link(d)).ver <= tags.version() by {
        if i < s.len() {
            assert(back[i] == s[i]);
        }
    }
    assert forall|i: int|
        0 <= i < back.len() && (#[trigger] back[i].spec_link(LogDirection::Forward)).ver
            == tags.version() implies fwd_claim(
        data_seq(back),
        tags,
        i,
        back[i].spec_link(LogDirection::Forward).skip as int,
    ) by {
        if i < s.len() {
            assert(back[i] == s[i]);
            assert(fwd_claim(data_seq(s), tags, i, s[i].spec_link(
                LogDirection::Forward,
            ).skip as int));
            let skip = back[i].spec_link(LogDirection::Forward).skip as int;
            assert forall|j: int| i < j < i + skip implies !passes(
                #[trigger] data_seq(back)[j],
                tags,
            ) by {
                assert(data_seq(back)[j] == data_seq(s)[j]);
            }
        }
    }
    assert forall|i: int|
        0 <= i < back.len() && (#[trigger] back[i].spec_link(LogDirection::Backward)).ver
            == tags.version() implies bwd_claim(
        data_seq(back),
        tags,
        i,
        back[i].spec_link(LogDirection::Backward).skip as int,
    ) by {
        if i < s.len() {
            assert(back[i] == s[i]);
            assert(bwd_claim(data_seq(s), tags, i, s[i].spec_link(
                LogDirection::Backward,
            ).skip as int));
            let skip = back[i].spec_link(LogDirection::Backward).skip as int;
            assert forall|j: int| i - skip < j < i implies !passes(
                #[trigger] data_seq(back)[j],
                tags,
            ) by {
                assert(data_seq(back)[j] == data_seq(s)[j]);
            }
        }
    }
}

/// Bumping the filter version lazily invalidates every cached link in one
/// stroke: no link of the new version exists, so the invariant holds
/// trivially again, whatever the enabled set now is. This is what `set`,
/// `unset`, `toggle` and the bulk operations rely on: each ensures exactly
/// such a bump.
pub proof fn lemma_links_wf_new_version(s: Seq<LogLine>, tags0: TagsData, tags1: TagsData)
    requires
        links_wf(s, tags0),
        tags1.version() > tags0.version(),
    ensures
        links_wf(s, tags1),
{
    assert forall|i: int, d: LogDirection|
        0 <= i < s.len() implies (#[trigger] s[i].spec_link(d)).ver <= tags1.version() by {
        assert(s[i].spec_link(d).ver <= tags0.version());
    }
}

/// When a backward cursor may be used on a log; the mirror image of
/// `cursor_fwd_wf`, with the anchor one step above the candidate.
pub open spec fn cursor_bwd_wf(log: RotatedLog, tags: TagsData, c: FilterCursor) -> bool {
    match c.next {
        Some(p) => {
            &&& log.valid_index(p)
            &&& (c.anchor_link.ver == tags.version() ==> bwd_claim(
                data_seq(log@),
                tags,
                log.flat_index(p) + 1,
                c.anchor_link.skip as int,
            ))
            &&& (c.chain is Some ==> c.anchor_link.ver != tags.version())
            &&& match c.chain {
                None => true,
                Some((s, d)) => {
                    &&& log.valid_index(s)
                    &&& d >= 1
                    &&& log.flat_index(s) - d == log.flat_index(p)
                    &&& forall|j: int|
                        log.flat_index(p) < j < log.flat_index(s) ==> !passes(
                            #[trigger] data_seq(log@)[j],
                            tags,
                        )
                },
            }
        },
        None => c.chain is None,
    }
}

/// The backward counterpart of `patch_fwd`: stamps the stale run from
/// `start` downward with backward links pointing `d + extra` steps below
/// `start` (or past the front of the log).
fn patch_bwd(log: &mut RotatedLog, tags: &TagsData, start: Index, d: usize, extra: usize)
    requires
        old(log).wf(),
        old(log).files_nonempty(),
        old(log)@.len() <= usize::MAX,
        links_wf(old(log)@, *tags),
        old(log).valid_index(start),
        d >= 1,
        old(log).flat_index(start) - d - extra >= -1,
        forall|j: int|
            old(log).flat_index(start) - d - extra < j < old(log).flat_index(start) ==> !passes(
                #[trigger] data_seq(old(log)@)[j],
                *tags,
            ),
    ensures
        final(log).wf(),
        final(log).files_nonempty(),
        crate::rotated::same_log_shape(*old(log), *final(log)),
        final(log)@.len() == old(log)@.len(),
        data_seq(final(log)@) == data_seq(old(log)@),
        links_wf(final(log)@, *tags),
        final(log).spec_path() == old(log).spec_path(),
        final(log).spec_want_older() == old(log).spec_want_older(),
        forall|j: int|
            0 <= j < d && data_seq(old(log)@)[old(log).flat_index(start) - j].is_good() ==> {
                let written = (#[trigger] final(log)@[old(log).flat_index(start) - j]).spec_link(
                    LogDirection::Backward,
                );
                written.ver == tags.version() && written.skip == d + extra - j
            },
{
    let ghost start_flat = log.flat_index(start);
    proof {
        lemma_log_flat_in_range(*log, start);
    }
    let mut p = start;
    let mut k: usize = 0;
    let ver = tags.get_version();
    while k < d
        invariant
            log.wf(),
            log.files_nonempty(),
            log@.len() <= usize::MAX,
            links_wf(log@, *tags),
            tags.version() == ver,
            0 <= k <= d,
            d >= 1,
            log.valid_index(p),
            log.flat_index(p) == start_flat - (if k < d {
                k as int
            } else {
                d - 1
            }),
            start_flat - d - extra >= -1,
            start_flat < log@.len(),
            forall|j: int|
                start_flat - d - extra < j < start_flat ==> !passes(
                    #[trigger] data_seq(log@)[j],
                    *tags,
                ),
            forall|j: int|
                0 <= j < k && data_seq(log@)[start_flat - j].is_good() ==> {
                    let written = (#[trigger] log@[start_flat - j]).spec_link(
                        LogDirection::Backward,
                    );
                    written.ver == tags.version() && written.skip == d + extra - j
                },
            crate::rotated::same_log_shape(*old(log), *log),
            data_seq(log@) == data_seq(old(log)@),
            log@.len() == old(log)@.len(),
            log.spec_path() == old(log).spec_path(),
            log.spec_want_older() == old(log).spec_want_older(),
        decreases d - k,
    {
        proof {
            lemma_log_flat_in_range(*log, p);
            assert(log.flat_index(p) == start_flat - k);
        }
        let skip = d - k + extra;
        let ghost pre = *log;
        log.set_link_at(p, LogDirection::Backward, LogLink { ver, skip });
        proof {
            crate::rotated::lemma_same_log_shape_flat(pre, *log);
            crate::rotated::lemma_same_log_shape_trans(*old(log), pre, *log);
            assert(data_seq(log@) =~= data_seq(pre@));
            let f = pre.flat_index(p);
            assert(log@[f].spec_link(LogDirection::Backward).ver <= tags.version());
            if log@[f].spec_link(LogDirection::Backward).ver == tags.version() {
                assert(bwd_claim(
                    data_seq(log@),
                    *tags,
                    f,
                    log@[f].spec_link(LogDirection::Backward).skip as int,
                ));
            }
            lemma_links_wf_after_set(pre@, log@, *tags, pre.flat_index(p), LogDirection::Backward);
            assert forall|j: int|
                0 <= j < k + 1 && data_seq(log@)[start_flat - j].is_good() implies {
                let written = (#[trigger] log@[start_flat - j]).spec_link(LogDirection::Backward);
                written.ver == tags.version() && written.skip == d + extra - j
            } by {
                if j == k {
                    assert(log@[f].data() == pre@[f].data());
                } else {
                    assert(log@[start_flat - j] == pre@[start_flat - j]);
                }
            }
        }
        k = k + 1;
        if k < d {
            let stepped = log.step_index(p, -1);
            match stepped {
                Ok(q) => {
                    p = q;
                },
                Err(_) => {
                    proof {
                        lemma_log_flat_in_range(*log, p);
                        assert(false);
                    }
                },
            }
        }
    }
}

/// Patches a pending stale run of a backward walk, if one exists.
fn patch_bwd_pending(
    log: &mut RotatedLog,
    tags: &TagsData,
    chain: Option<(Index, usize)>,
    extra: usize,
)
    requires
        old(log).wf(),
        old(log).files_nonempty(),
        old(log)@.len() <= usize::MAX,
        links_wf(old(log)@, *tags),
        match chain {
            None => true,
            Some((s, d)) => {
                &&& old(log).valid_index(s)
                &&& d >= 1
                &&& old(log).flat_index(s) - d - extra >= -1
                &&& forall|j: int|
                    old(log).flat_index(s) - d - extra < j < old(log).flat_index(s) ==> !passes(
                        #[trigger] data_seq(old(log)@)[j],
                        *tags,
                    )
            },
        },
    ensures
        final(log).wf(),
        final(log).files_nonempty(),
        crate::rotated::same_log_shape(*old(log), *final(log)),
        final(log)@.len() == old(log)@.len(),
        data_seq(final(log)@) == data_seq(old(log)@),
        links_wf(final(log)@, *tags),
        final(log).spec_path() == old(log).spec_path(),
        final(log).spec_want_older() == old(log).spec_want_older(),
{
    match chain {
        Some((s, d)) => {
            patch_bwd(log, tags, s, d, extra);
        },
        None => {},
    }
}

impl RotatedLog {
    /// A filtered backward walk starting at `index`.
    pub fn filtered_iter_backward_from(&self, tags: &TagsData, index: Index) -> (r: FilterCursor)
        requires
            self.wf(),
        ensures
            r.next == Some(index),
            r.chain is None,
            self.valid_index(index) ==> cursor_bwd_wf(*self, *tags, r),
    {
        proof {
            if self.valid_index(index) {
                lemma_log_flat_in_range(*self, index);
            }
        }
        FilterCursor { next: Some(index), anchor_link: LogLink { ver: 0, skip: 0 }, chain: None }
    }

    /// A filtered backward walk over the whole log, newest line first.
    pub fn filtered_iter_backward_from_tail(&self, tags: &TagsData) -> (r: FilterCursor)
        requires
            self.wf(),
        ensures
            r.chain is None,
            r.next is Some,
            self.files_nonempty() && self.spec_files().len() > 0 ==> cursor_bwd_wf(
                *self,
                *tags,
                r,
            ) && self.flat_index(r.next.unwrap()) == self@.len() - 1,
    {
        let last = self.last_index();
        proof {
            if self.files_nonempty() && self.spec_files().len() > 0 {
                lemma_log_flat_in_range(*self, last);
            }
        }
        FilterCursor { next: Some(last), anchor_link: LogLink { ver: 0, skip: 0 }, chain: None }
    }
}

/// Yields the next visible line at or before the cursor, walking backward
/// and patching stale backward links along the way.
pub fn filtered_next_backward(log: &mut RotatedLog, tags: &TagsData, cur: &mut FilterCursor) -> (r:
    Option<(Index, LogLine)>)
    requires
        old(log).wf(),
        old(log).files_nonempty(),
        old(log)@.len() <= usize::MAX,
        links_wf(old(log)@, *tags),
        cursor_bwd_wf(*old(log), *tags, *old(cur)),
    ensures
        final(log).wf(),
        final(log).files_nonempty(),
        crate::rotated::same_log_shape(*old(log), *final(log)),
        data_seq(final(log)@) == data_seq(old(log)@),
        final(log)@.len() == old(log)@.len(),
        links_wf(final(log)@, *tags),
        cursor_bwd_wf(*final(log), *tags, *final(cur)),
        final(log).spec_path() == old(log).spec_path(),
        final(log).spec_want_older() == old(log).spec_want_older(),
        match r {
            Some((i, line)) => {
                let ds = data_seq(old(log)@);
                &&& old(cur).next is Some
                &&& old(log).valid_index(i)
                &&& 0 <= old(log).flat_index(i) <= old(log).flat_index(old(cur).next.unwrap())
                &&& passes(ds[old(log).flat_index(i)], *tags)
                &&& forall|j: int|
                    old(log).flat_index(i) < j <= old(log).flat_index(old(cur).next.unwrap())
                        ==> !passes(#[trigger] ds[j], *tags)
                &&& line.data() == ds[old(log).flat_index(i)]
                &&& match final(cur).next {
                    Some(q) => final(log).valid_index(q) && final(log).flat_index(q) == old(
                        log,
                    ).flat_index(i) - 1,
                    None => old(log).flat_index(i) == 0,
                }
            },
            None => {
                &&& final(cur).next is None
                &&& match old(cur).next {
                    Some(p) => forall|j: int|
                        0 <= j <= old(log).flat_index(p) ==> !passes(
                            #[trigger] data_seq(old(log)@)[j],
                            *tags,
                        ),
                    None => true,
                }
            },
        },
{
    let ghost ds0 = data_seq(old(log)@);
    let start = match cur.next {
        None => {
            return None;
        },
        Some(p) => p,
    };
    let ghost start_flat = log.flat_index(start);
    let mut cand = start;
    proof {
        lemma_log_flat_in_range(*log, cand);
    }
    // Step straight over the run of hidden lines the anchor's link records.
    if cur.anchor_link.ver == tags.get_version() && cur.anchor_link.skip > 1 && cur.anchor_link.skip
        - 1 <= (isize::MAX as usize) {
        let jump = cur.anchor_link.skip - 1;
        proof {
            assert(bwd_claim(ds0, *tags, start_flat + 1, cur.anchor_link.skip as int));
        }
        let step: isize = -(jump as isize);
        match log.step_index(cand, step) {
            Ok(q) => {
                cand = q;
                proof {
                    lemma_log_flat_in_range(*log, cand);
                }
            },
            Err(_) => {
                // The link reaches the front: nothing visible remains.
                cur.next = None;
                cur.chain = None;
                proof {
                    lemma_log_flat_in_range(*log, cand);
                }
                return None;
            },
        }
    }
    loop
        invariant
            log.wf(),
            log.files_nonempty(),
            log@.len() <= usize::MAX,
            links_wf(log@, *tags),
            data_seq(log@) == ds0,
            ds0 == data_seq(old(log)@),
            log@.len() == old(log)@.len(),
            crate::rotated::same_log_shape(*old(log), *log),
            log.spec_path() == old(log).spec_path(),
            log.spec_want_older() == old(log).spec_want_older(),
            log.valid_index(cand),
            0 <= log.flat_index(cand) <= start_flat,
            start_flat < log@.len(),
            forall|j: int|
                log.flat_index(cand) < j <= start_flat ==> !passes(#[trigger] ds0[j], *tags),
            match cur.chain {
                None => true,
                Some((s, dd)) => {
                    &&& log.valid_index(s)
                    &&& dd >= 1
                    &&& log.flat_index(s) - dd == log.flat_index(cand)
                    &&& forall|j: int|
                        log.flat_index(cand) < j < log.flat_index(s) ==> !passes(
                            #[trigger] ds0[j],
                            *tags,
                        )
                },
            },
            cur.next == old(cur).next,
            old(cur).next == Some(start),
            start_flat == old(log).flat_index(start),
        decreases log.flat_index(cand) + 1,
    {
        proof {
            lemma_log_flat_in_range(*log, cand);
        }
        let ghost cand_flat = log.flat_index(cand);
        let (visible, line_link) = match log.get(cand) {
            Some(l) => {
                let vis = match l.get_tag() {
                    None => true,
                    Some(t) => tags.get(t.as_slice()),
                };
                (vis, l.get_link(LogDirection::Backward))
            },
            None => {
                proof {
                    assert(false);
                }
                unreached()
            },
        };
        proof {
            assert(visible == passes(ds0[cand_flat], *tags));
        }
        if visible {
            // Found the next visible line: patch the stale run to point at
            // it, anchor there, and yield it.
            proof {
                assert(log@[cand_flat].spec_link(LogDirection::Backward) == line_link);
                if line_link.ver == tags.version() {
                    assert(bwd_claim(ds0, *tags, cand_flat, line_link.skip as int));
                }
            }
            let ghost before_patch = *log;
            patch_bwd_pending(log, tags, cur.chain, 0);
            proof {
                crate::rotated::lemma_same_log_shape_trans(*old(log), before_patch, *log);
                crate::rotated::lemma_same_log_shape_flat(*old(log), *log);
                crate::rotated::lemma_same_log_shape_flat(before_patch, *log);
            }
            let cloned = match log.get(cand) {
                Some(l) => l.clone(),
                None => {
                    proof {
                        assert(false);
                    }
                    unreached()
                },
            };
            cur.anchor_link = line_link;
            cur.chain = if line_link.ver == tags.get_version() {
                None
            } else {
                Some((cand, 1))
            };
            cur.next = match log.step_index(cand, -1) {
                Ok(q) => Some(q),
                Err(_) => None,
            };
            proof {
                if cur.next is None {
                    assert(log.flat_index(cand) == 0);
                }
            }
            if cur.next.is_none() {
                cur.chain = None;
            }
            return Some((cand, cloned));
        }
        // Hidden line: jump its trustworthy backward link, or take one
        // step down and extend the stale run.
        if line_link.ver == tags.get_version() && line_link.skip >= 1 && line_link.skip <= (
        isize::MAX as usize) {
            let ghost before_patch = *log;
            proof {
                assert(log@[cand_flat].spec_link(LogDirection::Backward) == line_link);
                assert(bwd_claim(ds0, *tags, cand_flat, line_link.skip as int));
            }
            patch_bwd_pending(log, tags, cur.chain, line_link.skip);
            proof {
                crate::rotated::lemma_same_log_shape_trans(*old(log), before_patch, *log);
                crate::rotated::lemma_same_log_shape_flat(*old(log), *log);
                crate::rotated::lemma_same_log_shape_flat(before_patch, *log);
            }
            cur.chain = None;
            let step: isize = -(line_link.skip as isize);
            match log.step_index(cand, step) {
                Ok(q) => {
                    cand = q;
                    proof {
                        lemma_log_flat_in_range(*log, cand);
                    }
                },
                Err(_) => {
                    // The link reaches the front: nothing visible remains.
                    cur.next = None;
                    proof {
                        lemma_log_flat_in_range(*log, cand);
                    }
                    return None;
                },
            }
        } else {
            match cur.chain {
                Some((s, dd)) => {
                    proof {
                        lemma_log_flat_in_range(*log, s);
                    }
                    cur.chain = Some((s, dd + 1));
                },
                None => {
                    cur.chain = Some((cand, 1));
                },
            }
            match log.step_index(cand, -1) {
                Ok(q) => {
                    cand = q;
                    proof {
                        lemma_log_flat_in_range(*log, cand);
                    }
                },
                Err(_) => {
                    // Ran off the front: patch the stale run to point past
                    // it.
                    let ghost before_patch = *log;
                    patch_bwd_pending(log, tags, cur.chain, 0);
                    proof {
                        crate::rotated::lemma_same_log_shape_trans(*old(log), before_patch, *log);
                        crate::rotated::lemma_same_log_shape_flat(*old(log), *log);
                        crate::rotated::lemma_same_log_shape_flat(before_patch, *log);
                    }
                    cur.next = None;
                    cur.chain = None;
                    return None;
                },
            }
        }
    }
}

/// Collects every line visible under the filter, newest first, into fresh
/// copies; the backward counterpart of `filtered_collect_forward`.
pub fn filtered_collect_backward(log: &mut RotatedLog, tags: &TagsData) -> (r: Vec<LogLine>)
    requires
        old(log).wf(),
        old(log).files_nonempty(),
        old(log)@.len() <= usize::MAX,
        links_wf(old(log)@, *tags),
    ensures
        final(log).wf(),
        final(log).files_nonempty(),
        crate::rotated::same_log_shape(*old(log), *final(log)),
        data_seq(final(log)@) == data_seq(old(log)@),
        final(log)@.len() == old(log)@.len(),
        links_wf(final(log)@, *tags),
        final(log).spec_path() == old(log).spec_path(),
        final(log).spec_want_older() == old(log).spec_want_older(),
        data_seq(r@) == filter_back_from(data_seq(old(log)@), *tags, old(log)@.len() - 1),
{
    let ghost ds0 = data_seq(old(log)@);
    if log.file_count() == 0 {
        let out: Vec<LogLine> = Vec::new();
        proof {
            crate::rotated::lemma_file_seqs(*log);
            assert(log.file_seqs() =~= Seq::<Seq<LogLine>>::empty());
            assert(ds0 =~= Seq::<LineData>::empty());
            assert(data_seq(out@) =~= filter_back_from(ds0, *tags, -1));
        }
        return out;
    }
    let last = log.last_index();
    proof {
        crate::rotated::lemma_file_seqs(*log);
    }
    filtered_collect_backward_from(log, tags, last)
}

/// Collects the lines visible under the filter at or before `index`,
/// newest first — the backward resumption of the merged stream at a saved
/// position. An index that addresses no line yields nothing and leaves the
/// log untouched.
pub fn filtered_collect_backward_from(log: &mut RotatedLog, tags: &TagsData, index: Index) -> (r:
    Vec<LogLine>)
    requires
        old(log).wf(),
        old(log).files_nonempty(),
        old(log)@.len() <= usize::MAX,
        links_wf(old(log)@, *tags),
    ensures
        final(log).wf(),
        final(log).files_nonempty(),
        crate::rotated::same_log_shape(*old(log), *final(log)),
        data_seq(final(log)@) == data_seq(old(log)@),
        final(log)@.len() == old(log)@.len(),
        links_wf(final(log)@, *tags),
        final(log).spec_path() == old(log).spec_path(),
        final(log).spec_want_older() == old(log).spec_want_older(),
        old(log).valid_index(index) ==> data_seq(r@) == filter_back_from(
            data_seq(old(log)@),
            *tags,
            old(log).flat_index(index),
        ),
        !old(log).valid_index(index) ==> r@.len() == 0 && *final(log) == *old(log),
{
    let ghost ds0 = data_seq(old(log)@);
    let mut out: Vec<LogLine> = Vec::new();
    let valid_start = match log.get(index) {
        Some(_) => true,
        None => false,
    };
    if !valid_start {
        return out;
    }
    let ghost start0 = old(log).flat_index(index);
    proof {
        lemma_log_flat_in_range(*log, index);
    }
    let mut cur = log.filtered_iter_backward_from(tags, index);
    proof {
        assert(data_seq(out@) =~= Seq::<LineData>::empty());
    }
    loop
        invariant
            log.wf(),
            log.files_nonempty(),
            log@.len() <= usize::MAX,
            links_wf(log@, *tags),
            data_seq(log@) == ds0,
            ds0 == data_seq(old(log)@),
            log@.len() == old(log)@.len(),
            crate::rotated::same_log_shape(*old(log), *log),
            log.spec_path() == old(log).spec_path(),
            log.spec_want_older() == old(log).spec_want_older(),
            cursor_bwd_wf(*log, *tags, cur),
            -1 <= start0 < log@.len(),
            old(log).valid_index(index),
            start0 == old(log).flat_index(index),
            ({
                let pos = match cur.next {
                    Some(p) => log.flat_index(p),
                    None => -1,
                };
                &&& -1 <= pos < log@.len()
                &&& data_seq(out@) + filter_back_from(ds0, *tags, pos) == filter_back_from(
                    ds0,
                    *tags,
                    start0,
                )
            }),
        decreases (match cur.next {
            Some(p) => log.flat_index(p) + 2,
            None => 0int,
        }),
    {
        let ghost prev_pos = match cur.next {
            Some(p) => log.flat_index(p),
            None => -1int,
        };
        let ghost pre = *log;
        match filtered_next_backward(log, tags, &mut cur) {
            Some((i, line)) => {
                proof {
                    crate::rotated::lemma_same_log_shape_trans(*old(log), pre, *log);
                    crate::rotated::lemma_same_log_shape_flat(pre, *log);
                    let fi = pre.flat_index(i);
                    lemma_filter_back_skip(ds0, *tags, prev_pos, fi);
                    assert(filter_back_from(ds0, *tags, fi) == seq![ds0[fi]] + filter_back_from(
                        ds0,
                        *tags,
                        fi - 1,
                    ));
                }
                let ghost out_ds = data_seq(out@);
                out.push(line);
                proof {
                    assert(data_seq(out@) =~= out_ds.push(ds0[pre.flat_index(i)]));
                    let fi = pre.flat_index(i);
                    assert(data_seq(out@) + filter_back_from(ds0, *tags, fi - 1) =~= (out_ds
                        + filter_back_from(ds0, *tags, fi)));
                    match cur.next {
                        Some(q) => {
                            assert(log.flat_index(q) == fi - 1);
                        },
                        None => {
                            assert(fi == 0);
                        },
                    }
                }
            },
            None => {
                proof {
                    crate::rotated::lemma_same_log_shape_trans(*old(log), pre, *log);
                    crate::rotated::lemma_same_log_shape_flat(pre, *log);
                    if prev_pos >= 0 {
                        lemma_filter_back_skip(ds0, *tags, prev_pos, -1);
                    }
                    assert(filter_back_from(ds0, *tags, -1) =~= Seq::<LineData>::empty());
                    assert(data_seq(out@) + Seq::<LineData>::empty() =~= data_seq(out@));
                }
                return out;
            },
        }
    }
}

/// Collects every line visible under the filter, oldest first, into fresh
/// copies. The result equals the naive reference filter of the whole log,
/// whatever the cache held beforehand: running this twice in a row gives
/// the same lines both times, the second pass merely jumping the cached
/// runs.
pub fn filtered_collect_forward(log: &mut RotatedLog, tags: &TagsData) -> (r: Vec<LogLine>)
    requires
        old(log).wf(),
        old(log).files_nonempty(),
        old(log)@.len() <= usize::MAX,
        links_wf(old(log)@, *tags),
    ensures
        final(log).wf(),
        final(log).files_nonempty(),
        crate::rotated::same_log_shape(*old(log), *final(log)),
        data_seq(final(log)@) == data_seq(old(log)@),
        final(log)@.len() == old(log)@.len(),
        links_wf(final(log)@, *tags),
        final(log).spec_path() == old(log).spec_path(),
        final(log).spec_want_older() == old(log).spec_want_older(),
        data_seq(r@) == filter_from(data_seq(old(log)@), *tags, 0),
{
    let ghost ds0 = data_seq(old(log)@);
    if log.file_count() == 0 {
        let out: Vec<LogLine> = Vec::new();
        proof {
            crate::rotated::lemma_file_seqs(*log);
            assert(log.file_seqs() =~= Seq::<Seq<LogLine>>::empty());
            assert(ds0 =~= Seq::<LineData>::empty());
            assert(data_seq(out@) =~= filter_from(ds0, *tags, 0));
        }
        return out;
    }
    let first = log.first_index();
    proof {
        crate::rotated::lemma_file_seqs(*log);
        assert(log.file_seqs()[0].len() > 0);
    }
    filtered_collect_forward_from(log, tags, first)
}

/// Collects the lines visible under the filter at or after `index`, oldest
/// first — the randomly-addressable resumption of the merged stream at a
/// saved position. An index that addresses no line yields nothing and
/// leaves the log untouched.
pub fn filtered_collect_forward_from(log: &mut RotatedLog, tags: &TagsData, index: Index) -> (r:
    Vec<LogLine>)
    requires
        old(log).wf(),
        old(log).files_nonempty(),
        old(log)@.len() <= usize::MAX,
        links_wf(old(log)@, *tags),
    ensures
        final(log).wf(),
        final(log).files_nonempty(),
        crate::rotated::same_log_shape(*old(log), *final(log)),
        data_seq(final(log)@) == data_seq(old(log)@),
        final(log)@.len() == old(log)@.len(),
        links_wf(final(log)@, *tags),
        final(log).spec_path() == old(log).spec_path(),
        final(log).spec_want_older() == old(log).spec_want_older(),
        old(log).valid_index(index) ==> data_seq(r@) == filter_from(
            data_seq(old(log)@),
            *tags,
            old(log).flat_index(index),
        ),
        !old(log).valid_index(index) ==> r@.len() == 0 && *final(log) == *old(log),
{
    let ghost ds0 = data_seq(old(log)@);
    let mut out: Vec<LogLine> = Vec::new();
    let valid_start = match log.get(index) {
        Some(_) => true,
        None => false,
    };
    if !valid_start {
        return out;
    }
    let ghost start0 = old(log).flat_index(index);
    proof {
        lemma_log_flat_in_range(*log, index);
    }
    let mut cur = log.filtered_iter_forward_from(tags, index);
    proof {
        assert(data_seq(out@) =~= Seq::<LineData>::empty());
    }
    loop
        invariant
            log.wf(),
            log.files_nonempty(),
            log@.len() <= usize::MAX,
            links_wf(log@, *tags),
            data_seq(log@) == ds0,
            ds0 == data_seq(old(log)@),
            log@.len() == old(log)@.len(),
            crate::rotated::same_log_shape(*old(log), *log),
            log.spec_path() == old(log).spec_path(),
            log.spec_want_older() == old(log).spec_want_older(),
            cursor_fwd_wf(*log, *tags, cur),
            0 <= start0 <= log@.len(),
            old(log).valid_index(index),
            start0 == old(log).flat_index(index),
            ({
                let pos = match cur.next {
                    Some(p) => log.flat_index(p),
                    None => log@.len() as int,
                };
                &&& 0 <= pos <= log@.len()
                &&& data_seq(out@) + filter_from(ds0, *tags, pos) == filter_from(
                    ds0,
                    *tags,
                    start0,
                )
            }),
        decreases (match cur.next {
            Some(p) => log@.len() - log.flat_index(p) + 1,
            None => 0int,
        }),
    {
        let ghost prev_pos = match cur.next {
            Some(p) => log.flat_index(p),
            None => log@.len() as int,
        };
        let ghost pre = *log;
        match filtered_next_forward(log, tags, &mut cur) {
            Some((i, line)) => {
                proof {
                    crate::rotated::lemma_same_log_shape_trans(*old(log), pre, *log);
                    crate::rotated::lemma_same_log_shape_flat(pre, *log);
                    let fi = pre.flat_index(i);
                    lemma_filter_from_skip(ds0, *tags, prev_pos, fi);
                    assert(filter_from(ds0, *tags, fi) == seq![ds0[fi]] + filter_from(
                        ds0,
                        *tags,
                        fi + 1,
                    ));
                }
                let ghost out_ds = data_seq(out@);
                out.push(line);
                proof {
                    assert(data_seq(out@) =~= out_ds.push(ds0[pre.flat_index(i)]));
                    let fi = pre.flat_index(i);
                    assert(data_seq(out@) + filter_from(ds0, *tags, fi + 1) =~= (out_ds
                        + filter_from(ds0, *tags, fi)));
                    match cur.next {
                        Some(q) => {
                            assert(log.flat_index(q) == fi + 1);
                        },
                        None => {
                            assert(fi + 1 >= log@.len());
                            assert(filter_from(ds0, *tags, fi + 1) =~= filter_from(
                                ds0,
                                *tags,
                                log@.len() as int,
                            ));
                        },
                    }
                }
            },
            None => {
                proof {
                    crate::rotated::lemma_same_log_shape_trans(*old(log), pre, *log);
                    crate::rotated::lemma_same_log_shape_flat(pre, *log);
                    if prev_pos < log@.len() {
                        lemma_filter_from_skip(ds0, *tags, prev_pos, log@.len() as int);
                    }
                    assert(filter_from(ds0, *tags, log@.len() as int) =~= Seq::<
                        LineData,
                    >::empty());
                    assert(data_seq(out@) + Seq::<LineData>::empty() =~= data_seq(out@));
                }
                return out;
            },
        }
    }
}

} // verus!
