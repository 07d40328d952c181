//! The cross-log merge: several independently rotating, named logs
//! presented as one chronologically ordered stream by k-way selection, with
//! the shared tag registry beside them.

use crate::filter::{data_seq, filter_back_from, filter_from, links_wf};
use crate::line::{newer_order, older_order, LineData, LogLine};
use crate::rotated::{Config, Index as LogIndex, RotatedLog};
use crate::tags::DataBoard;
use vstd::multiset::Multiset;
use vstd::prelude::*;

verus! {

/// Is `a` strictly older than `b` under the merge's forward comparator?
pub open spec fn strictly_older(a: LineData, b: LineData) -> bool {
    older_order(a, b) is Less
}

/// Is `a` strictly newer than `b` under the merge's backward comparator?
pub open spec fn strictly_newer(a: LineData, b: LineData) -> bool {
    newer_order(a, b) is Less
}

/// How many lines all the sources still hold.
pub open spec fn total_len(seqs: Seq<Seq<LineData>>) -> nat
    decreases seqs.len(),
{
    if seqs.len() == 0 {
        0
    } else {
        seqs[0].len() + total_len(seqs.skip(1))
    }
}

/// Which of the sources `k..` the forward merge takes next: the one with
/// the oldest head, an earlier source winning ties, a later one only when
/// strictly older.
pub open spec fn pick_oldest(seqs: Seq<Seq<LineData>>, k: int) -> Option<int>
    decreases seqs.len() - k when 0 <= k <= seqs.len()
{
    if k >= seqs.len() {
        None
    } else {
        let rest = pick_oldest(seqs, k + 1);
        if seqs[k].len() == 0 {
            rest
        } else {
            match rest {
                None => Some(k),
                Some(m) => if strictly_older(seqs[m][0], seqs[k][0]) {
                    Some(m)
                } else {
                    Some(k)
                },
            }
        }
    }
}

/// Which of the sources `k..` the backward merge takes next: the one with
/// the newest head, a later source winning ties, an earlier one only when
/// strictly newer.
pub open spec fn pick_newest(seqs: Seq<Seq<LineData>>, k: int) -> Option<int>
    decreases seqs.len() - k when 0 <= k <= seqs.len()
{
    if k >= seqs.len() {
        None
    } else {
        let rest = pick_newest(seqs, k + 1);
        if seqs[k].len() == 0 {
            rest
        } else {
            match rest {
                None => Some(k),
                Some(m) => if strictly_newer(seqs[k][0], seqs[m][0]) {
                    Some(k)
                } else {
                    Some(m)
                },
            }
        }
    }
}

/// The chosen source holds a line, and the choice is in range.
pub proof fn lemma_pick_oldest_some(seqs: Seq<Seq<LineData>>, k: int)
    requires
        0 <= k <= seqs.len(),
    ensures
        match pick_oldest(seqs, k) {
            Some(m) => k <= m < seqs.len() && seqs[m].len() > 0,
            None => forall|j: int| k <= j < seqs.len() ==> (#[trigger] seqs[j]).len() == 0,
        },
    decreases seqs.len() - k,
{
    if k < seqs.len() {
        lemma_pick_oldest_some(seqs, k + 1);
    }
}

/// The chosen source holds a line, and the choice is in range.
pub proof fn lemma_pick_newest_some(seqs: Seq<Seq<LineData>>, k: int)
    requires
        0 <= k <= seqs.len(),
    ensures
        match pick_newest(seqs, k) {
            Some(m) => k <= m < seqs.len() && seqs[m].len() > 0,
            None => forall|j: int| k <= j < seqs.len() ==> (#[trigger] seqs[j]).len() == 0,
        },
    decreases seqs.len() - k,
{
    if k < seqs.len() {
        lemma_pick_newest_some(seqs, k + 1);
    }
}

/// Taking one line from a source drops the total by one.
pub proof fn lemma_total_len_update(seqs: Seq<Seq<LineData>>, k: int)
    requires
        0 <= k < seqs.len(),
        seqs[k].len() > 0,
    ensures
        total_len(seqs.update(k, seqs[k].skip(1))) == total_len(seqs) - 1,
    decreases k,
{
    if k == 0 {
        assert(seqs.update(0, seqs[0].skip(1)).skip(1) =~= seqs.skip(1));
    } else {
        assert(seqs.update(k, seqs[k].skip(1)).skip(1) =~= seqs.skip(1).update(
            k - 1,
            seqs.skip(1)[k - 1].skip(1),
        ));
        lemma_total_len_update(seqs.skip(1), k - 1);
    }
}

/// The forward merge of the sources: repeatedly emit the oldest head.
pub open spec fn merge_oldest(seqs: Seq<Seq<LineData>>) -> Seq<LineData>
    decreases total_len(seqs) via merge_oldest_dec
{
    match pick_oldest(seqs, 0) {
        None => Seq::empty(),
        Some(m) => seq![seqs[m][0]] + merge_oldest(seqs.update(m, seqs[m].skip(1))),
    }
}

#[via_fn]
proof fn merge_oldest_dec(seqs: Seq<Seq<LineData>>) {
    lemma_pick_oldest_some(seqs, 0);
    match pick_oldest(seqs, 0) {
        None => {},
        Some(m) => {
            lemma_total_len_update(seqs, m);
        },
    }
}

/// The backward merge of the sources: repeatedly emit the newest head.
pub open spec fn merge_newest(seqs: Seq<Seq<LineData>>) -> Seq<LineData>
    decreases total_len(seqs) via merge_newest_dec
{
    match pick_newest(seqs, 0) {
        None => Seq::empty(),
        Some(m) => seq![seqs[m][0]] + merge_newest(seqs.update(m, seqs[m].skip(1))),
    }
}

#[via_fn]
proof fn merge_newest_dec(seqs: Seq<Seq<LineData>>) {
    lemma_pick_newest_some(seqs, 0);
    match pick_newest(seqs, 0) {
        None => {},
        Some(m) => {
            lemma_total_len_update(seqs, m);
        },
    }
}

/// Chronological order as the merge needs it: `a` is no newer than `b`.
pub open spec fn chrono_le(a: LineData, b: LineData) -> bool {
    !strictly_older(b, a)
}

/// Is every line of the sequence a parsed one, in chronological order?
pub open spec fn all_good_sorted(s: Seq<LineData>) -> bool {
    &&& forall|i: int| 0 <= i < s.len() ==> (#[trigger] s[i]) is Good
    &&& forall|i: int, j: int| 0 <= i <= j < s.len() ==> chrono_le(#[trigger] s[i], #[trigger] s[j])
}

/// Is the merged stream in chronological order?
pub open spec fn sorted_chrono(s: Seq<LineData>) -> bool {
    forall|i: int, j: int| 0 <= i <= j < s.len() ==> chrono_le(#[trigger] s[i], #[trigger] s[j])
}

/// All the sources' lines as one multiset.
pub open spec fn multiset_union(seqs: Seq<Seq<LineData>>) -> Multiset<LineData>
    decreases seqs.len(),
{
    if seqs.len() == 0 {
        Multiset::empty()
    } else {
        seqs[0].to_multiset().add(multiset_union(seqs.skip(1)))
    }
}

/// A line counted by the union is held by one of the sources.
proof fn lemma_union_contains(seqs: Seq<Seq<LineData>>, x: LineData)
    requires
        multiset_union(seqs).count(x) > 0,
    ensures
        exists|k: int| 0 <= k < seqs.len() && (#[trigger] seqs[k]).contains(x),
    decreases seqs.len(),
{
    broadcast use vstd::seq_lib::group_to_multiset_ensures;

    if seqs.len() > 0 {
        if seqs[0].to_multiset().count(x) > 0 {
            assert(seqs[0].contains(x));
        } else {
            lemma_union_contains(seqs.skip(1), x);
            let k = choose|k: int| 0 <= k < seqs.skip(1).len() && (#[trigger] seqs.skip(1)[
                k
            ]).contains(x);
            assert(seqs[k + 1].contains(x));
        }
    }
}

/// A line held by a source is counted by the union.
proof fn lemma_union_counts(seqs: Seq<Seq<LineData>>, k: int, x: LineData)
    requires
        0 <= k < seqs.len(),
        seqs[k].contains(x),
    ensures
        multiset_union(seqs).count(x) > 0,
    decreases k,
{
    broadcast use vstd::seq_lib::group_to_multiset_ensures;

    if k == 0 {
        assert(seqs[0].to_multiset().count(x) > 0);
    } else {
        assert(seqs.skip(1)[k - 1] == seqs[k]);
        lemma_union_counts(seqs.skip(1), k - 1, x);
    }
}

/// Sources that hold nothing make an empty union.
proof fn lemma_union_empty(seqs: Seq<Seq<LineData>>)
    requires
        forall|j: int| 0 <= j < seqs.len() ==> (#[trigger] seqs[j]).len() == 0,
    ensures
        multiset_union(seqs) =~= Multiset::<LineData>::empty(),
    decreases seqs.len(),
{
    broadcast use vstd::seq_lib::group_to_multiset_ensures;

    if seqs.len() > 0 {
        assert(seqs[0] =~= Seq::<LineData>::empty());
        assert(Seq::<LineData>::empty().to_multiset() =~= Multiset::<LineData>::empty()) by {
            Seq::<LineData>::empty().to_multiset_ensures();
        }
        lemma_union_empty(seqs.skip(1));
    }
}

/// Taking the head of one source removes exactly that line from the union.
proof fn lemma_union_take_head(seqs: Seq<Seq<LineData>>, m: int)
    requires
        0 <= m < seqs.len(),
        seqs[m].len() > 0,
    ensures
        multiset_union(seqs.update(m, seqs[m].skip(1))) =~= multiset_union(seqs).remove(
            seqs[m][0],
        ),
        multiset_union(seqs).count(seqs[m][0]) > 0,
    decreases m,
{
    broadcast use vstd::seq_lib::group_to_multiset_ensures;

    assert(seqs[m].contains(seqs[m][0]));
    lemma_union_counts(seqs, m, seqs[m][0]);
    if m == 0 {
        assert(seqs[0].remove(0) =~= seqs[0].skip(1));
        assert(seqs[0].skip(1).to_multiset() =~= seqs[0].to_multiset().remove(seqs[0][0]));
        assert(seqs.update(0, seqs[0].skip(1)).skip(1) =~= seqs.skip(1));
    } else {
        assert(seqs.update(m, seqs[m].skip(1)).skip(1) =~= seqs.skip(1).update(
            m - 1,
            seqs.skip(1)[m - 1].skip(1),
        ));
        lemma_union_take_head(seqs.skip(1), m - 1);
    }
}

/// The head the forward merge picks is no newer than any source's head.
proof fn lemma_pick_oldest_min(seqs: Seq<Seq<LineData>>, k: int)
    requires
        0 <= k <= seqs.len(),
        forall|j: int|
            k <= j < seqs.len() && (#[trigger] seqs[j]).len() > 0 ==> seqs[j][0] is Good,
    ensures
        match pick_oldest(seqs, k) {
            Some(m) => forall|j: int|
                k <= j < seqs.len() && (#[trigger] seqs[j]).len() > 0 ==> chrono_le(
                    seqs[m][0],
                    seqs[j][0],
                ),
            None => true,
        },
    decreases seqs.len() - k,
{
    if k < seqs.len() {
        lemma_pick_oldest_min(seqs, k + 1);
        lemma_pick_oldest_some(seqs, k + 1);
    }
}

/// The forward merge of chronologically sorted, fully parsed sources is
/// itself chronologically sorted, and holds exactly the union of the
/// sources' lines. This is what makes the merged stream "the union,
/// sorted": order and content are both pinned. An unparsable line breaks
/// the premise — the comparator deliberately treats it as older than
/// everything, itself included, so two of them in different sources have no
/// consistent order.
pub proof fn lemma_merge_oldest_sorted(seqs: Seq<Seq<LineData>>)
    requires
        forall|k: int| 0 <= k < seqs.len() ==> all_good_sorted(#[trigger] seqs[k]),
    ensures
        sorted_chrono(merge_oldest(seqs)),
        merge_oldest(seqs).to_multiset() == multiset_union(seqs),
    decreases total_len(seqs),
{
    broadcast use vstd::seq_lib::group_to_multiset_ensures;

    lemma_pick_oldest_some(seqs, 0);
    match pick_oldest(seqs, 0) {
        None => {
            lemma_union_empty(seqs);
            assert(merge_oldest(seqs) =~= Seq::<LineData>::empty());
            assert(Seq::<LineData>::empty().to_multiset() =~= Multiset::<LineData>::empty()) by {
                Seq::<LineData>::empty().to_multiset_ensures();
            }
        },
        Some(m) => {
            let head = seqs[m][0];
            let upd = seqs.update(m, seqs[m].skip(1));
            assert forall|k: int| 0 <= k < upd.len() implies all_good_sorted(
                #[trigger] upd[k],
            ) by {
                if k == m {
                    assert(forall|i: int|
                        0 <= i < upd[m].len() ==> #[trigger] upd[m][i] == seqs[m][i + 1]);
                } else {
                    assert(upd[k] == seqs[k]);
                }
            }
            lemma_total_len_update(seqs, m);
            lemma_merge_oldest_sorted(upd);
            lemma_union_take_head(seqs, m);
            let rest = merge_oldest(upd);
            let merged = merge_oldest(seqs);
            assert(merged == seq![head] + rest);
            // Everything that remains is no older than the picked head.
            assert forall|x: LineData| rest.contains(x) implies x is Good && chrono_le(
                head,
                x,
            ) by {
                assert(rest.to_multiset().count(x) > 0);
                lemma_union_contains(upd, x);
                let k = choose|k: int| 0 <= k < upd.len() && (#[trigger] upd[k]).contains(x);
                let idx = choose|idx: int| 0 <= idx < upd[k].len() && upd[k][idx] == x;
                assert(chrono_le(upd[k][0], x));
                lemma_pick_oldest_min(seqs, 0);
                if k == m {
                    assert(upd[m][0] == seqs[m][1]);
                    assert(chrono_le(seqs[m][0], seqs[m][1]));
                    assert(upd[k][0] is Good);
                } else {
                    assert(upd[k] == seqs[k]);
                    assert(chrono_le(head, seqs[k][0]));
                }
            }
            assert forall|i: int, j: int| 0 <= i <= j < merged.len() implies chrono_le(
                #[trigger] merged[i],
                #[trigger] merged[j],
            ) by {
                if i == 0 {
                    if j > 0 {
                        assert(rest.contains(rest[j - 1]));
                        assert(merged[j] == rest[j - 1]);
                    }
                } else {
                    assert(merged[i] == rest[i - 1]);
                    assert(merged[j] == rest[j - 1]);
                    assert(chrono_le(rest[i - 1], rest[j - 1]));
                }
            }
            // The multiset: the head goes back in for what was taken out.
            vstd::seq_lib::lemma_multiset_commutative(seq![head], rest);
            assert(seq![head] =~= Seq::<LineData>::empty().push(head));
            assert(seq![head].to_multiset() =~= Multiset::<LineData>::empty().insert(head)) by {
                Seq::<LineData>::empty().to_multiset_ensures();
                assert(Seq::<LineData>::empty().to_multiset() =~= Multiset::<
                    LineData,
                >::empty());
            }
            assert(merged.to_multiset() =~= multiset_union(seqs));
        },
    }
}

/// Reverse-chronological order as the backward merge needs it: `a` is no
/// older than `b`.
pub open spec fn chrono_ge(a: LineData, b: LineData) -> bool {
    !strictly_newer(b, a)
}

/// Is every line of the sequence a parsed one, newest first?
pub open spec fn all_good_rev_sorted(s: Seq<LineData>) -> bool {
    &&& forall|i: int| 0 <= i < s.len() ==> (#[trigger] s[i]) is Good
    &&& forall|i: int, j: int| 0 <= i <= j < s.len() ==> chrono_ge(#[trigger] s[i], #[trigger] s[j])
}

/// Is the merged stream in reverse-chronological order?
pub open spec fn sorted_rev_chrono(s: Seq<LineData>) -> bool {
    forall|i: int, j: int| 0 <= i <= j < s.len() ==> chrono_ge(#[trigger] s[i], #[trigger] s[j])
}

/// The head the backward merge picks is no older than any source's head.
proof fn lemma_pick_newest_min(seqs: Seq<Seq<LineData>>, k: int)
    requires
        0 <= k <= seqs.len(),
        forall|j: int|
            k <= j < seqs.len() && (#[trigger] seqs[j]).len() > 0 ==> seqs[j][0] is Good,
    ensures
        match pick_newest(seqs, k) {
            Some(m) => forall|j: int|
                k <= j < seqs.len() && (#[trigger] seqs[j]).len() > 0 ==> chrono_ge(
                    seqs[m][0],
                    seqs[j][0],
                ),
            None => true,
        },
    decreases seqs.len() - k,
{
    if k < seqs.len() {
        lemma_pick_newest_min(seqs, k + 1);
        lemma_pick_newest_some(seqs, k + 1);
    }
}

/// The backward merge of reverse-chronologically sorted, fully parsed
/// sources is itself newest-first, and holds exactly the union of the
/// sources' lines; the mirror of `lemma_merge_oldest_sorted`.
pub proof fn lemma_merge_newest_sorted(seqs: Seq<Seq<LineData>>)
    requires
        forall|k: int| 0 <= k < seqs.len() ==> all_good_rev_sorted(#[trigger] seqs[k]),
    ensures
        sorted_rev_chrono(merge_newest(seqs)),
        merge_newest(seqs).to_multiset() == multiset_union(seqs),
    decreases total_len(seqs),
{
    broadcast use vstd::seq_lib::group_to_multiset_ensures;

    lemma_pick_newest_some(seqs, 0);
    match pick_newest(seqs, 0) {
        None => {
            lemma_union_empty(seqs);
            assert(merge_newest(seqs) =~= Seq::<LineData>::empty());
            assert(Seq::<LineData>::empty().to_multiset() =~= Multiset::<LineData>::empty()) by {
                Seq::<LineData>::empty().to_multiset_ensures();
            }
        },
        Some(m) => {
            let head = seqs[m][0];
            let upd = seqs.update(m, seqs[m].skip(1));
            assert forall|k: int| 0 <= k < upd.len() implies all_good_rev_sorted(
                #[trigger] upd[k],
            ) by {
                if k == m {
                    assert(forall|i: int|
                        0 <= i < upd[m].len() ==> #[trigger] upd[m][i] == seqs[m][i + 1]);
                } else {
                    assert(upd[k] == seqs[k]);
                }
            }
            lemma_total_len_update(seqs, m);
            lemma_merge_newest_sorted(upd);
            lemma_union_take_head(seqs, m);
            let rest = merge_newest(upd);
            let merged = merge_newest(seqs);
            assert(merged == seq![head] + rest);
            // Everything that remains is no newer than the picked head.
            assert forall|x: LineData| rest.contains(x) implies x is Good && chrono_ge(
                head,
                x,
            ) by {
                assert(rest.to_multiset().count(x) > 0);
                lemma_union_contains(upd, x);
                let k = choose|k: int| 0 <= k < upd.len() && (#[trigger] upd[k]).contains(x);
                let idx = choose|idx: int| 0 <= idx < upd[k].len() && upd[k][idx] == x;
                assert(chrono_ge(upd[k][0], x));
                lemma_pick_newest_min(seqs, 0);
                if k == m {
                    assert(upd[m][0] == seqs[m][1]);
                    assert(chrono_ge(seqs[m][0], seqs[m][1]));
                    assert(upd[k][0] is Good);
                } else {
                    assert(upd[k] == seqs[k]);
                    assert(chrono_ge(head, seqs[k][0]));
                }
            }
            assert forall|i: int, j: int| 0 <= i <= j < merged.len() implies chrono_ge(
                #[trigger] merged[i],
                #[trigger] merged[j],
            ) by {
                if i == 0 {
                    if j > 0 {
                        assert(rest.contains(rest[j - 1]));
                        assert(merged[j] == rest[j - 1]);
                    }
                } else {
                    assert(merged[i] == rest[i - 1]);
                    assert(merged[j] == rest[j - 1]);
                    assert(chrono_ge(rest[i - 1], rest[j - 1]));
                }
            }
            vstd::seq_lib::lemma_multiset_commutative(seq![head], rest);
            assert(seq![head] =~= Seq::<LineData>::empty().push(head));
            assert(seq![head].to_multiset() =~= Multiset::<LineData>::empty().insert(head)) by {
                Seq::<LineData>::empty().to_multiset_ensures();
                assert(Seq::<LineData>::empty().to_multiset() =~= Multiset::<
                    LineData,
                >::empty());
            }
            assert(merged.to_multiset() =~= multiset_union(seqs));
        },
    }
}

/// Filtering a chronologically sorted, fully parsed log keeps it sorted:
/// the sources the forward merge runs on satisfy `lemma_merge_oldest_sorted`'s
/// premise whenever the stored lines do.
pub proof fn lemma_filter_keeps_sorted(ds: Seq<LineData>, tags: crate::tags::TagsData, from: int)
    requires
        0 <= from <= ds.len(),
        forall|i: int| 0 <= i < ds.len() ==> (#[trigger] ds[i]) is Good,
        forall|i: int, j: int| 0 <= i <= j < ds.len() ==> chrono_le(#[trigger] ds[i], #[trigger] ds[j]),
    ensures
        all_good_sorted(filter_from(ds, tags, from)),
        forall|x: LineData|
            #[trigger] filter_from(ds, tags, from).contains(x) ==> exists|k: int|
                from <= k < ds.len() && ds[k] == x,
    decreases ds.len() - from,
{
    if from < ds.len() {
        lemma_filter_keeps_sorted(ds, tags, from + 1);
        let rest = filter_from(ds, tags, from + 1);
        if crate::filter::passes(ds[from], tags) {
            let whole = filter_from(ds, tags, from);
            assert(whole == seq![ds[from]] + rest);
            assert forall|x: LineData| #[trigger] whole.contains(x) implies exists|k: int|
                from <= k < ds.len() && ds[k] == x by {
                let j = choose|j: int| 0 <= j < whole.len() && whole[j] == x;
                if j == 0 {
                    assert(ds[from] == x);
                } else {
                    assert(rest[j - 1] == x);
                    assert(rest.contains(x));
                }
            }
            assert forall|i: int, j: int| 0 <= i <= j < whole.len() implies chrono_le(
                #[trigger] whole[i],
                #[trigger] whole[j],
            ) by {
                if i == 0 {
                    if j > 0 {
                        assert(whole[j] == rest[j - 1]);
                        assert(rest.contains(rest[j - 1]));
                        let k = choose|k: int| from + 1 <= k < ds.len() && ds[k] == rest[j - 1];
                        assert(chrono_le(ds[from], ds[k]));
                    }
                } else {
                    assert(whole[i] == rest[i - 1]);
                    assert(whole[j] == rest[j - 1]);
                    assert(chrono_le(rest[i - 1], rest[j - 1]));
                }
            }
            assert forall|i: int| 0 <= i < whole.len() implies (#[trigger] whole[i]) is Good by {
                if i > 0 {
                    assert(whole[i] == rest[i - 1]);
                }
            }
        }
    }
}

/// Filtering a log backward from its newest line yields it newest first:
/// the sources the backward merge runs on satisfy
/// `lemma_merge_newest_sorted`'s premise whenever the stored lines are
/// chronologically sorted and fully parsed.
pub proof fn lemma_filter_back_keeps_sorted(
    ds: Seq<LineData>,
    tags: crate::tags::TagsData,
    upto: int,
)
    requires
        -1 <= upto < ds.len(),
        forall|i: int| 0 <= i < ds.len() ==> (#[trigger] ds[i]) is Good,
        forall|i: int, j: int| 0 <= i <= j < ds.len() ==> chrono_le(#[trigger] ds[i], #[trigger] ds[j]),
    ensures
        all_good_rev_sorted(filter_back_from(ds, tags, upto)),
        forall|x: LineData|
            #[trigger] filter_back_from(ds, tags, upto).contains(x) ==> exists|k: int|
                0 <= k <= upto && ds[k] == x,
    decreases upto + 1,
{
    if upto >= 0 {
        lemma_filter_back_keeps_sorted(ds, tags, upto - 1);
        let rest = filter_back_from(ds, tags, upto - 1);
        if crate::filter::passes(ds[upto], tags) {
            let whole = filter_back_from(ds, tags, upto);
            assert(whole == seq![ds[upto]] + rest);
            assert forall|x: LineData| #[trigger] whole.contains(x) implies exists|k: int|
                0 <= k <= upto && ds[k] == x by {
                let j = choose|j: int| 0 <= j < whole.len() && whole[j] == x;
                if j == 0 {
                    assert(ds[upto] == x);
                } else {
                    assert(rest[j - 1] == x);
                    assert(rest.contains(x));
                }
            }
            assert forall|i: int, j: int| 0 <= i <= j < whole.len() implies chrono_ge(
                #[trigger] whole[i],
                #[trigger] whole[j],
            ) by {
                if i == 0 {
                    if j > 0 {
                        assert(whole[j] == rest[j - 1]);
                        assert(rest.contains(rest[j - 1]));
                        let k = choose|k: int| 0 <= k <= upto - 1 && ds[k] == rest[j - 1];
                        assert(chrono_le(ds[k], ds[upto]));
                    }
                } else {
                    assert(whole[i] == rest[i - 1]);
                    assert(whole[j] == rest[j - 1]);
                    assert(chrono_ge(rest[i - 1], rest[j - 1]));
                }
            }
            assert forall|i: int| 0 <= i < whole.len() implies (#[trigger] whole[i]) is Good by {
                if i > 0 {
                    assert(whole[i] == rest[i - 1]);
                }
            }
        }
    }
}

/// A position in the merged multi-log stream: one position per source,
/// plus a selection slot naming the source that yielded the current line.
/// The per-source positions alone pin the resume point here — each source's
/// next line is recorded, so `collect_forward_from` and its mirror replay
/// the same stream for the same saved position, ties included — and the
/// positions the hub hands out therefore carry no selection.
pub struct Index {
    indexes: Vec<LogIndex>,
    selection: usize,
}

impl Index {
    /// The per-source positions.
    pub closed spec fn spec_indexes(self) -> Seq<LogIndex> {
        self.indexes@
    }

    /// The selection slot; the positions the hub hands out leave it at
    /// `usize::MAX`, meaning none.
    pub closed spec fn spec_selection(self) -> int {
        self.selection as int
    }

    /// The position of source `k`.
    pub fn index_of(&self, k: usize) -> (r: LogIndex)
        requires
            k < self.spec_indexes().len(),
        ensures
            r == self.spec_indexes()[k as int],
    {
        self.indexes[k]
    }

    /// How many sources the position spans.
    pub fn len(&self) -> (r: usize)
        ensures
            r == self.spec_indexes().len(),
    {
        self.indexes.len()
    }
}

impl Clone for Index {
    /// A clone records the same positions and selection.
    fn clone(&self) -> (r: Self)
        ensures
            r.spec_indexes() == self.spec_indexes(),
            r.spec_selection() == self.spec_selection(),
    {
        let mut indexes: Vec<LogIndex> = Vec::new();
        let mut i: usize = 0;
        while i < self.indexes.len()
            invariant
                0 <= i <= self.indexes.len(),
                indexes@ == self.indexes@.subrange(0, i as int),
            decreases self.indexes.len() - i,
        {
            indexes.push(self.indexes[i]);
            proof {
                assert(indexes@ =~= self.indexes@.subrange(0, i + 1));
            }
            i += 1;
        }
        proof {
            assert(indexes@ =~= self.indexes@);
        }
        Index { indexes, selection: self.selection }
    }
}

/// A mutable borrow of one log of a log vector, with the final vector
/// pinned to the final log.
fn vec_log_mut(v: &mut Vec<RotatedLog>, i: usize) -> (element: &mut RotatedLog)
    requires
        i < old(v).len(),
    ensures
        *element == old(v)@[i as int],
        final(v)@ == old(v)@.update(i as int, *final(element)),
{
    &mut v[i]
}

/// All the tracked logs, merged on demand, and the board they share.
pub struct LogHub {
    logs: Vec<RotatedLog>,
    board: DataBoard,
}

impl LogHub {
    /// The tracked logs, in the fixed order given at opening.
    pub closed spec fn spec_logs(self) -> Seq<RotatedLog> {
        self.logs@
    }

    /// The shared board.
    pub closed spec fn spec_board(self) -> DataBoard {
        self.board
    }

    /// Every tracked log is fit for merging: well formed, no empty loaded
    /// file, a line count a machine index can hold, and cached links that
    /// tell the truth under the current filter.
    pub open spec fn mergeable(self) -> bool {
        &&& forall|k: int| 0 <= k < self.spec_logs().len() ==> (#[trigger] self.spec_logs()[k]).wf()
        &&& forall|k: int|
            0 <= k < self.spec_logs().len() ==> (#[trigger] self.spec_logs()[k]).files_nonempty()
        &&& forall|k: int|
            0 <= k < self.spec_logs().len() ==> (#[trigger] self.spec_logs()[k])@.len()
                <= usize::MAX
        &&& forall|k: int|
            0 <= k < self.spec_logs().len() ==> links_wf(
                (#[trigger] self.spec_logs()[k])@,
                self.spec_board().spec_tags(),
            )
    }

    /// The per-source sequences the forward merge runs on: each log's
    /// visible lines, oldest first.
    pub open spec fn filtered_views(self) -> Seq<Seq<LineData>> {
        Seq::new(
            self.spec_logs().len(),
            |k: int| filter_from(data_seq(self.spec_logs()[k]@), self.spec_board().spec_tags(), 0),
        )
    }

    /// The per-source sequences a resumed forward merge runs on: each
    /// log's visible lines at or after its saved position; a position that
    /// addresses no line contributes nothing.
    pub open spec fn filtered_views_from(self, index: Index) -> Seq<Seq<LineData>> {
        Seq::new(
            self.spec_logs().len(),
            |k: int|
                if self.spec_logs()[k].valid_index(index.spec_indexes()[k]) {
                    filter_from(
                        data_seq(self.spec_logs()[k]@),
                        self.spec_board().spec_tags(),
                        self.spec_logs()[k].flat_index(index.spec_indexes()[k]),
                    )
                } else {
                    Seq::empty()
                },
        )
    }

    /// The per-source sequences a resumed backward merge runs on: each
    /// log's visible lines at or before its saved position, newest first.
    pub open spec fn filtered_views_back_from(self, index: Index) -> Seq<Seq<LineData>> {
        Seq::new(
            self.spec_logs().len(),
            |k: int|
                if self.spec_logs()[k].valid_index(index.spec_indexes()[k]) {
                    filter_back_from(
                        data_seq(self.spec_logs()[k]@),
                        self.spec_board().spec_tags(),
                        self.spec_logs()[k].flat_index(index.spec_indexes()[k]),
                    )
                } else {
                    Seq::empty()
                },
        )
    }

    /// The per-source sequences the backward merge runs on: each log's
    /// visible lines, newest first.
    pub open spec fn filtered_views_back(self) -> Seq<Seq<LineData>> {
        Seq::new(
            self.spec_logs().len(),
            |k: int|
                filter_back_from(
                    data_seq(self.spec_logs()[k]@),
                    self.spec_board().spec_tags(),
                    self.spec_logs()[k]@.len() - 1,
                ),
        )
    }

    /// Opens one hub over the named logs under `root`: log `name` lives at
    /// `root/name.log`. The given order of names fixes the source order for
    /// good.
    pub fn open(root: Vec<u8>, names: Vec<(Vec<u8>, Config)>) -> (r: LogHub)
        ensures
            r.spec_logs().len() == names@.len(),
            forall|k: int|
                0 <= k < names@.len() ==> {
                    &&& (#[trigger] r.spec_logs()[k]).spec_path() == r.spec_board().spec_root()
                        + seq![47u8] + names@[k].0@ + seq![46u8, 108u8, 111u8, 103u8]
                    &&& r.spec_logs()[k].spec_files().len() == 0
                    &&& r.spec_logs()[k].wf()
                },
            r.spec_board().spec_root() == root@,
            r.spec_board().spec_tags().wf(),
            r.spec_board().spec_tags().version() == 0,
            r.spec_board().spec_tags().entries_view() == Seq::<(Seq<u8>, bool)>::empty(),
    {
        let mut logs: Vec<RotatedLog> = Vec::new();
        let ghost rootv = root@;
        let board = DataBoard::new(root);
        let n = names.len();
        let mut k: usize = 0;
        while k < n
            invariant
                0 <= k <= n,
                n == names@.len(),
                logs@.len() == k,
                board.spec_root() == rootv,
                board.spec_tags().wf(),
                board.spec_tags().version() == 0,
                board.spec_tags().entries_view() == Seq::<(Seq<u8>, bool)>::empty(),
                forall|j: int|
                    0 <= j < k ==> {
                        &&& (#[trigger] logs@[j]).spec_path() == rootv + seq![47u8] + names@[j].0@
                            + seq![46u8, 108u8, 111u8, 103u8]
                        &&& logs@[j].spec_files().len() == 0
                        &&& logs@[j].wf()
                    },
            decreases n - k,
        {
            let name = crate::bytes::copy_bytes(names[k].0.as_slice());
            let config = names[k].1;
            let mut path = crate::bytes::copy_bytes(board.get_root_path().as_slice());
            path.push(47);
            let mut i: usize = 0;
            while i < name.len()
                invariant
                    0 <= i <= name@.len(),
                    path@ == rootv + seq![47u8] + name@.subrange(0, i as int),
                decreases name@.len() - i,
            {
                path.push(name[i]);
                proof {
                    assert(path@ =~= rootv + seq![47u8] + name@.subrange(0, i + 1));
                }
                i += 1;
            }
            proof {
                assert(name@.subrange(0, name@.len() as int) =~= name@);
            }
            path.push(46);
            path.push(108);
            path.push(111);
            path.push(103);
            proof {
                assert(path@ =~= rootv + seq![47u8] + name@ + seq![46u8, 108u8, 111u8, 103u8]);
            }
            logs.push(RotatedLog::new(path, config));
            k += 1;
        }
        LogHub { logs, board }
    }

    /// Read access to the shared board.
    pub fn data_board(&self) -> (r: &DataBoard)
        ensures
            *r == self.spec_board(),
    {
        &self.board
    }

    /// Write access to the shared board.
    pub fn data_board_mut(&mut self) -> (r: &mut DataBoard)
        ensures
            *r == old(self).spec_board(),
            final(self).spec_board() == *final(r),
            final(self).spec_logs() == old(self).spec_logs(),
    {
        &mut self.board
    }

    /// How many logs are tracked.
    pub fn log_count(&self) -> (r: usize)
        ensures
            r == self.spec_logs().len(),
    {
        self.logs.len()
    }

    /// Write access to one tracked log.
    pub fn log_mut(&mut self, k: usize) -> (r: &mut RotatedLog)
        requires
            k < old(self).spec_logs().len(),
        ensures
            *r == old(self).spec_logs()[k as int],
            final(self).spec_logs() == old(self).spec_logs().update(k as int, *final(r)),
            final(self).spec_board() == old(self).spec_board(),
    {
        &mut self.logs[k]
    }

    /// Routes one reader event to one file of one tracked log, recording
    /// any newly seen tag on the shared board; the per-event effect is that
    /// of `RotatedLog::update_file`, and only a removal event reports a
    /// removal.
    pub fn update_log(&mut self, k: usize, file_index: usize, event: crate::reader::Event) -> (r:
        crate::rotated::Event)
        requires
            k < old(self).spec_logs().len(),
            old(self).spec_logs()[k as int].wf(),
            file_index < old(self).spec_logs()[k as int].spec_files().len(),
            old(self).spec_board().spec_tags().wf(),
        ensures
            final(self).spec_logs().len() == old(self).spec_logs().len(),
            forall|j: int|
                0 <= j < old(self).spec_logs().len() && j != k ==> final(self).spec_logs()[j]
                    == old(self).spec_logs()[j],
            final(self).spec_logs()[k as int].wf(),
            final(self).spec_logs()[k as int].spec_files().len() == old(self).spec_logs()[
                k as int
            ].spec_files().len(),
            final(self).spec_logs()[k as int].spec_path() == old(self).spec_logs()[
                k as int
            ].spec_path(),
            final(self).spec_logs()[k as int].spec_want_older() == old(self).spec_logs()[
                k as int
            ].spec_want_older(),
            forall|j: int|
                0 <= j < old(self).spec_logs()[k as int].spec_files().len() && j != file_index
                    ==> final(self).spec_logs()[k as int].spec_files()[j] == old(
                    self,
                ).spec_logs()[k as int].spec_files()[j],
            final(self).spec_board().spec_tags().wf(),
            final(self).spec_board().spec_root() == old(self).spec_board().spec_root(),
            final(self).spec_board().spec_tags().version() == old(
                self,
            ).spec_board().spec_tags().version(),
            (r is Removed) <==> (event is Removed),
            match event {
                crate::reader::Event::NewHead(bytes) => {
                    let fs = final(self).spec_logs()[k as int].spec_files()[
                        file_index as int
                    ].spec_data()@;
                    let old_fs = old(self).spec_logs()[k as int].file_seqs()[file_index as int];
                    &&& fs.len() == old_fs.len() + 1
                    &&& fs.skip(1) == old_fs
                    &&& crate::line::parses_to(bytes@, fs[0].data())
                    &&& fs[0].data().is_good() ==> final(self).spec_board().spec_tags().spec_contains(fs[0].data().tag())
                },
                crate::reader::Event::NewTail(bytes) => {
                    let fs = final(self).spec_logs()[k as int].spec_files()[
                        file_index as int
                    ].spec_data()@;
                    let old_fs = old(self).spec_logs()[k as int].file_seqs()[file_index as int];
                    &&& fs == old_fs.push(fs.last())
                    &&& crate::line::parses_to(bytes@, fs.last().data())
                    &&& fs.last().data().is_good() ==> final(self).spec_board().spec_tags().spec_contains(fs.last().data().tag())
                },
                crate::reader::Event::Renamed(_) => final(self).spec_logs()[k as int].file_seqs()
                    == old(self).spec_logs()[k as int].file_seqs(),
                crate::reader::Event::Removed => final(self).spec_logs()[k as int].spec_files()
                    == old(self).spec_logs()[k as int].spec_files(),
            },
    {
        let ghost is_removal = event is Removed;
        let lg = vec_log_mut(&mut self.logs, k);
        let r = lg.update_file(file_index, &mut self.board, event);
        proof {
            crate::rotated::lemma_file_seqs(old(self).spec_logs()[k as int]);
            crate::rotated::lemma_file_seqs(self.spec_logs()[k as int]);
        }
        r
    }

    /// Has every loaded file of every tracked log received at least one
    /// line? The merge's exactness rests on that; an unverified caller can
    /// test it before asking for one.
    pub fn ready(&self) -> (r: bool)
        requires
            forall|k: int|
                0 <= k < self.spec_logs().len() ==> (#[trigger] self.spec_logs()[k]).wf(),
        ensures
            r == forall|k: int|
                0 <= k < self.spec_logs().len() ==> (#[trigger] self.spec_logs()[
                    k
                ]).files_nonempty(),
    {
        let n = self.logs.len();
        let mut k: usize = 0;
        while k < n
            invariant
                0 <= k <= n,
                n == self.spec_logs().len(),
                forall|j: int|
                    0 <= j < self.spec_logs().len() ==> (#[trigger] self.spec_logs()[j]).wf(),
                forall|j: int|
                    0 <= j < k ==> (#[trigger] self.spec_logs()[j]).files_nonempty(),
            decreases n - k,
        {
            proof {
                assert(self.spec_logs()[k as int].wf());
            }
            if !self.logs[k].files_ready() {
                return false;
            }
            k += 1;
        }
        true
    }

    /// The merged stream's position before anything is read: each source at
    /// its first line, no source selected yet.
    pub fn first_index(&self) -> (r: Index)
        requires
            forall|k: int|
                0 <= k < self.spec_logs().len() ==> (#[trigger] self.spec_logs()[k]).wf(),
        ensures
            r.spec_indexes().len() == self.spec_logs().len(),
            forall|k: int|
                0 <= k < self.spec_logs().len() ==> crate::rotated::is_zero_index(
                    #[trigger] r.spec_indexes()[k],
                ),
    {
        let mut indexes: Vec<LogIndex> = Vec::new();
        let n = self.logs.len();
        let mut k: usize = 0;
        while k < n
            invariant
                0 <= k <= n,
                n == self.spec_logs().len(),
                indexes@.len() == k,
                forall|k2: int|
                    0 <= k2 < self.spec_logs().len() ==> (#[trigger] self.spec_logs()[k2]).wf(),
                forall|j: int|
                    0 <= j < k ==> crate::rotated::is_zero_index(#[trigger] indexes@[j]),
            decreases n - k,
        {
            proof {
                assert(self.spec_logs()[k as int].wf());
            }
            indexes.push(self.logs[k].first_index());
            k += 1;
        }
        Index { indexes, selection: usize::MAX }
    }

    /// The merged stream's position past everything: each source at its
    /// last line, no source selected yet.
    pub fn last_index(&self) -> (r: Index)
        requires
            forall|k: int|
                0 <= k < self.spec_logs().len() ==> (#[trigger] self.spec_logs()[k]).wf(),
        ensures
            r.spec_indexes().len() == self.spec_logs().len(),
            forall|k: int|
                0 <= k < self.spec_logs().len() ==> #[trigger] r.spec_indexes()[k]
                    == self.spec_logs()[k].spec_last_index(),
    {
        let mut indexes: Vec<LogIndex> = Vec::new();
        let n = self.logs.len();
        let mut k: usize = 0;
        while k < n
            invariant
                0 <= k <= n,
                n == self.spec_logs().len(),
                indexes@.len() == k,
                forall|k2: int|
                    0 <= k2 < self.spec_logs().len() ==> (#[trigger] self.spec_logs()[k2]).wf(),
                forall|j: int|
                    0 <= j < k ==> #[trigger] indexes@[j] == self.spec_logs()[
                        j
                    ].spec_last_index(),
            decreases n - k,
        {
            proof {
                assert(self.spec_logs()[k as int].wf());
            }
            indexes.push(self.logs[k].last_index());
            k += 1;
        }
        Index { indexes, selection: usize::MAX }
    }

    /// Asks every source whose position in `index` sits at its first line
    /// to load one more, older rotation file at the next poll cycle.
    pub fn try_load_older_logs(&mut self, index: &Index)
        requires
            forall|k: int|
                0 <= k < old(self).spec_logs().len() ==> (#[trigger] old(self).spec_logs()[
                    k
                ]).wf(),
        ensures
            final(self).spec_board() == old(self).spec_board(),
            final(self).spec_logs().len() == old(self).spec_logs().len(),
            forall|k: int|
                0 <= k < old(self).spec_logs().len() ==> {
                    &&& (#[trigger] final(self).spec_logs()[k]).spec_files() == old(
                        self,
                    ).spec_logs()[k].spec_files()
                    &&& final(self).spec_logs()[k].spec_path() == old(self).spec_logs()[
                        k
                    ].spec_path()
                    &&& final(self).spec_logs()[k].spec_want_older() == (old(self).spec_logs()[
                        k
                    ].spec_want_older() || (k < index.spec_indexes().len()
                        && crate::rotated::is_zero_index(index.spec_indexes()[k])))
                },
    {
        let n = self.logs.len();
        let mut k: usize = 0;
        while k < n
            invariant
                0 <= k <= n,
                n == self.spec_logs().len(),
                self.spec_logs().len() == old(self).spec_logs().len(),
                self.spec_board() == old(self).spec_board(),
                forall|j: int|
                    k <= j < old(self).spec_logs().len() ==> #[trigger] self.spec_logs()[j]
                        == old(self).spec_logs()[j],
                forall|j: int|
                    0 <= j < k ==> {
                        &&& (#[trigger] self.spec_logs()[j]).spec_files() == old(
                            self,
                        ).spec_logs()[j].spec_files()
                        &&& self.spec_logs()[j].spec_path() == old(self).spec_logs()[j].spec_path()
                        &&& self.spec_logs()[j].spec_want_older() == (old(self).spec_logs()[
                            j
                        ].spec_want_older() || (j < index.spec_indexes().len()
                            && crate::rotated::is_zero_index(index.spec_indexes()[j])))
                    },
                forall|j: int|
                    0 <= j < old(self).spec_logs().len() ==> (#[trigger] self.spec_logs()[
                        j
                    ]).wf(),
            decreases n - k,
        {
            if k < index.len() {
                let pos = index.index_of(k);
                if pos.is_zero() {
                    let lg = vec_log_mut(&mut self.logs, k);
                    lg.set_want_older_log();
                }
            }
            k += 1;
        }
    }
}

/// The tails of the sources, each cut at its own position.
pub open spec fn suffixes(views: Seq<Seq<LineData>>, pos: Seq<usize>) -> Seq<Seq<LineData>> {
    Seq::new(views.len(), |j: int| views[j].skip(pos[j] as int))
}

impl LogHub {
    /// Every line visible under the filter across all logs, merged oldest
    /// first by k-way selection: at each step the chronologically least
    /// head is taken, an earlier source winning ties.
    pub fn collect_forward(&mut self) -> (r: Vec<LogLine>)
        requires
            old(self).mergeable(),
        ensures
            final(self).mergeable(),
            final(self).spec_board() == old(self).spec_board(),
            final(self).spec_logs().len() == old(self).spec_logs().len(),
            forall|k: int|
                0 <= k < old(self).spec_logs().len() ==> data_seq(
                    (#[trigger] final(self).spec_logs()[k])@,
                ) == data_seq(old(self).spec_logs()[k]@),
            data_seq(r@) == merge_oldest(old(self).filtered_views()),
    {
        let ghost views = old(self).filtered_views();
        let n = self.logs.len();
        let mut collected: Vec<Vec<LogLine>> = Vec::new();
        let mut k: usize = 0;
        while k < n
            invariant
                0 <= k <= n,
                n == self.spec_logs().len(),
                self.mergeable(),
                self.spec_board() == old(self).spec_board(),
                self.spec_logs().len() == old(self).spec_logs().len(),
                forall|j: int|
                    0 <= j < old(self).spec_logs().len() ==> data_seq(
                        (#[trigger] self.spec_logs()[j])@,
                    ) == data_seq(old(self).spec_logs()[j]@),
                views == old(self).filtered_views(),
                views.len() == n,
                collected@.len() == k,
                forall|j: int|
                    0 <= j < k ==> data_seq((#[trigger] collected@[j])@) == views[j],
            decreases n - k,
        {
            proof {
                assert(self.spec_logs()[k as int].wf());
                assert(self.spec_logs()[k as int].files_nonempty());
                assert(self.spec_logs()[k as int]@.len() <= usize::MAX);
                assert(links_wf(self.spec_logs()[k as int]@, self.spec_board().spec_tags()));
            }
            let ghost pre = *self;
            let lg = vec_log_mut(&mut self.logs, k);
            let v = crate::filter::filtered_collect_forward(lg, self.board.get_tags());
            proof {
                assert(data_seq(v@) == views[k as int]);
                assert(forall|j: int|
                    0 <= j < n && j != k ==> (#[trigger] self.spec_logs()[j]) == pre.spec_logs()[
                        j
                    ]);
            }
            collected.push(v);
            k += 1;
        }
        let merged = merge_vecs_oldest(&collected, Ghost(views));
        merged
    }

    /// Every line visible under the filter across all logs, merged newest
    /// first: at each step the chronologically greatest head is taken, a
    /// later source winning ties — the mirror of `collect_forward`.
    pub fn collect_backward(&mut self) -> (r: Vec<LogLine>)
        requires
            old(self).mergeable(),
        ensures
            final(self).mergeable(),
            final(self).spec_board() == old(self).spec_board(),
            final(self).spec_logs().len() == old(self).spec_logs().len(),
            forall|k: int|
                0 <= k < old(self).spec_logs().len() ==> data_seq(
                    (#[trigger] final(self).spec_logs()[k])@,
                ) == data_seq(old(self).spec_logs()[k]@),
            data_seq(r@) == merge_newest(old(self).filtered_views_back()),
    {
        let ghost views = old(self).filtered_views_back();
        let n = self.logs.len();
        let mut collected: Vec<Vec<LogLine>> = Vec::new();
        let mut k: usize = 0;
        while k < n
            invariant
                0 <= k <= n,
                n == self.spec_logs().len(),
                self.mergeable(),
                self.spec_board() == old(self).spec_board(),
                self.spec_logs().len() == old(self).spec_logs().len(),
                forall|j: int|
                    0 <= j < old(self).spec_logs().len() ==> data_seq(
                        (#[trigger] self.spec_logs()[j])@,
                    ) == data_seq(old(self).spec_logs()[j]@),
                views == old(self).filtered_views_back(),
                views.len() == n,
                collected@.len() == k,
                forall|j: int|
                    0 <= j < k ==> data_seq((#[trigger] collected@[j])@) == views[j],
            decreases n - k,
        {
            proof {
                assert(self.spec_logs()[k as int].wf());
                assert(self.spec_logs()[k as int].files_nonempty());
                assert(self.spec_logs()[k as int]@.len() <= usize::MAX);
                assert(links_wf(self.spec_logs()[k as int]@, self.spec_board().spec_tags()));
            }
            let ghost pre = *self;
            let lg = vec_log_mut(&mut self.logs, k);
            let v = crate::filter::filtered_collect_backward(lg, self.board.get_tags());
            proof {
                assert(data_seq(v@) == views[k as int]);
                assert(forall|j: int|
                    0 <= j < n && j != k ==> (#[trigger] self.spec_logs()[j]) == pre.spec_logs()[
                        j
                    ]);
            }
            collected.push(v);
            k += 1;
        }
        let merged = merge_vecs_newest(&collected, Ghost(views));
        merged
    }
}

impl LogHub {
    /// Resumes the merged stream forward from a saved position: every
    /// source contributes its visible lines at or after its recorded
    /// index, merged oldest first with the same tie-breaks as
    /// `collect_forward`. The per-source positions pin the resume point
    /// completely, so the same saved position always replays the same
    /// stream.
    pub fn collect_forward_from(&mut self, index: &Index) -> (r: Vec<LogLine>)
        requires
            old(self).mergeable(),
            index.spec_indexes().len() == old(self).spec_logs().len(),
        ensures
            final(self).mergeable(),
            final(self).spec_board() == old(self).spec_board(),
            final(self).spec_logs().len() == old(self).spec_logs().len(),
            forall|k: int|
                0 <= k < old(self).spec_logs().len() ==> data_seq(
                    (#[trigger] final(self).spec_logs()[k])@,
                ) == data_seq(old(self).spec_logs()[k]@),
            data_seq(r@) == merge_oldest(old(self).filtered_views_from(*index)),
    {
        let ghost views = old(self).filtered_views_from(*index);
        let n = self.logs.len();
        let mut collected: Vec<Vec<LogLine>> = Vec::new();
        let mut k: usize = 0;
        while k < n
            invariant
                0 <= k <= n,
                n == self.spec_logs().len(),
                self.mergeable(),
                self.spec_board() == old(self).spec_board(),
                self.spec_logs().len() == old(self).spec_logs().len(),
                index.spec_indexes().len() == old(self).spec_logs().len(),
                forall|j: int|
                    0 <= j < old(self).spec_logs().len() ==> data_seq(
                        (#[trigger] self.spec_logs()[j])@,
                    ) == data_seq(old(self).spec_logs()[j]@),
                forall|j: int|
                    0 <= j < old(self).spec_logs().len() ==> crate::rotated::same_log_shape(
                        #[trigger] old(self).spec_logs()[j],
                        self.spec_logs()[j],
                    ),
                views == old(self).filtered_views_from(*index),
                views.len() == n,
                collected@.len() == k,
                forall|j: int|
                    0 <= j < k ==> data_seq((#[trigger] collected@[j])@) == views[j],
            decreases n - k,
        {
            proof {
                assert(self.spec_logs()[k as int].wf());
                assert(self.spec_logs()[k as int].files_nonempty());
                assert(self.spec_logs()[k as int]@.len() <= usize::MAX);
                assert(links_wf(self.spec_logs()[k as int]@, self.spec_board().spec_tags()));
                crate::rotated::lemma_same_log_shape_flat(
                    old(self).spec_logs()[k as int],
                    self.spec_logs()[k as int],
                );
            }
            let ghost pre = *self;
            let pos = index.index_of(k);
            let lg = vec_log_mut(&mut self.logs, k);
            let v = crate::filter::filtered_collect_forward_from(lg, self.board.get_tags(), pos);
            proof {
                crate::rotated::lemma_same_log_shape_flat(
                    pre.spec_logs()[k as int],
                    self.spec_logs()[k as int],
                );
                assert(data_seq(v@) == views[k as int]);
                assert(forall|j: int|
                    0 <= j < n && j != k ==> (#[trigger] self.spec_logs()[j]) == pre.spec_logs()[
                        j
                    ]);
                crate::rotated::lemma_same_log_shape_trans(
                    old(self).spec_logs()[k as int],
                    pre.spec_logs()[k as int],
                    self.spec_logs()[k as int],
                );
            }
            collected.push(v);
            k += 1;
        }
        let merged = merge_vecs_oldest(&collected, Ghost(views));
        merged
    }

    /// Resumes the merged stream backward from a saved position; the
    /// mirror of `collect_forward_from`.
    pub fn collect_backward_from(&mut self, index: &Index) -> (r: Vec<LogLine>)
        requires
            old(self).mergeable(),
            index.spec_indexes().len() == old(self).spec_logs().len(),
        ensures
            final(self).mergeable(),
            final(self).spec_board() == old(self).spec_board(),
            final(self).spec_logs().len() == old(self).spec_logs().len(),
            forall|k: int|
                0 <= k < old(self).spec_logs().len() ==> data_seq(
                    (#[trigger] final(self).spec_logs()[k])@,
                ) == data_seq(old(self).spec_logs()[k]@),
            data_seq(r@) == merge_newest(old(self).filtered_views_back_from(*index)),
    {
        let ghost views = old(self).filtered_views_back_from(*index);
        let n = self.logs.len();
        let mut collected: Vec<Vec<LogLine>> = Vec::new();
        let mut k: usize = 0;
        while k < n
            invariant
                0 <= k <= n,
                n == self.spec_logs().len(),
                self.mergeable(),
                self.spec_board() == old(self).spec_board(),
                self.spec_logs().len() == old(self).spec_logs().len(),
                index.spec_indexes().len() == old(self).spec_logs().len(),
                forall|j: int|
                    0 <= j < old(self).spec_logs().len() ==> data_seq(
                        (#[trigger] self.spec_logs()[j])@,
                    ) == data_seq(old(self).spec_logs()[j]@),
                forall|j: int|
                    0 <= j < old(self).spec_logs().len() ==> crate::rotated::same_log_shape(
                        #[trigger] old(self).spec_logs()[j],
                        self.spec_logs()[j],
                    ),
                views == old(self).filtered_views_back_from(*index),
                views.len() == n,
                collected@.len() == k,
                forall|j: int|
                    0 <= j < k ==> data_seq((#[trigger] collected@[j])@) == views[j],
            decreases n - k,
        {
            proof {
                assert(self.spec_logs()[k as int].wf());
                assert(self.spec_logs()[k as int].files_nonempty());
                assert(self.spec_logs()[k as int]@.len() <= usize::MAX);
                assert(links_wf(self.spec_logs()[k as int]@, self.spec_board().spec_tags()));
                crate::rotated::lemma_same_log_shape_flat(
                    old(self).spec_logs()[k as int],
                    self.spec_logs()[k as int],
                );
            }
            let ghost pre = *self;
            let pos = index.index_of(k);
            let lg = vec_log_mut(&mut self.logs, k);
            let v = crate::filter::filtered_collect_backward_from(lg, self.board.get_tags(), pos);
            proof {
                crate::rotated::lemma_same_log_shape_flat(
                    pre.spec_logs()[k as int],
                    self.spec_logs()[k as int],
                );
                assert(data_seq(v@) == views[k as int]);
                assert(forall|j: int|
                    0 <= j < n && j != k ==> (#[trigger] self.spec_logs()[j]) == pre.spec_logs()[
                        j
                    ]);
                crate::rotated::lemma_same_log_shape_trans(
                    old(self).spec_logs()[k as int],
                    pre.spec_logs()[k as int],
                    self.spec_logs()[k as int],
                );
            }
            collected.push(v);
            k += 1;
        }
        let merged = merge_vecs_newest(&collected, Ghost(views));
        merged
    }

    /// The line a saved position addresses in the merged stream: the first
    /// line the forward merge resumed there would yield, if any.
    pub fn get(&mut self, index: &Index) -> (r: Option<LogLine>)
        requires
            old(self).mergeable(),
            index.spec_indexes().len() == old(self).spec_logs().len(),
        ensures
            final(self).mergeable(),
            final(self).spec_board() == old(self).spec_board(),
            final(self).spec_logs().len() == old(self).spec_logs().len(),
            forall|k: int|
                0 <= k < old(self).spec_logs().len() ==> data_seq(
                    (#[trigger] final(self).spec_logs()[k])@,
                ) == data_seq(old(self).spec_logs()[k]@),
            ({
                let merged = merge_oldest(old(self).filtered_views_from(*index));
                match r {
                    Some(l) => merged.len() > 0 && l.data() == merged[0],
                    None => merged.len() == 0,
                }
            }),
    {
        let all = self.collect_forward_from(index);
        if all.len() > 0 {
            Some(clone_line(&all[0]))
        } else {
            None
        }
    }
}

/// Merges already-filtered per-source vectors oldest first by k-way
/// selection; the executable heart of the forward merge.
fn merge_vecs_oldest(collected: &Vec<Vec<LogLine>>, Ghost(views): Ghost<Seq<Seq<LineData>>>) -> (r:
    Vec<LogLine>)
    requires
        views.len() == collected@.len(),
        forall|j: int| 0 <= j < collected@.len() ==> data_seq((#[trigger] collected@[j])@) == views[j],
    ensures
        data_seq(r@) == merge_oldest(views),
{
    let n = collected.len();
    let mut pos: Vec<usize> = Vec::new();
    let mut k: usize = 0;
    while k < n
        invariant
            0 <= k <= n,
            pos@.len() == k,
            forall|j: int| 0 <= j < k ==> pos@[j] == 0,
        decreases n - k,
    {
        pos.push(0);
        k += 1;
    }
    let mut out: Vec<LogLine> = Vec::new();
    proof {
        assert(suffixes(views, pos@) =~= views) by {
            assert forall|j: int| 0 <= j < views.len() implies suffixes(views, pos@)[j] == views[
                j
            ] by {
                assert(views[j].skip(0) =~= views[j]);
            }
        }
        assert(data_seq(out@) =~= Seq::<LineData>::empty());
    }
    loop
        invariant
            n == collected@.len(),
            n == views.len(),
            pos@.len() == n,
            forall|j: int| 0 <= j < n ==> pos@[j] <= (#[trigger] collected@[j])@.len(),
            forall|j: int| 0 <= j < n ==> data_seq((#[trigger] collected@[j])@) == views[j],
            data_seq(out@) + merge_oldest(suffixes(views, pos@)) == merge_oldest(views),
        decreases total_len(suffixes(views, pos@)),
    {
        let ghost rems = suffixes(views, pos@);
        let mut best: Option<usize> = None;
        let mut i: usize = n;
        while i > 0
            invariant
                0 <= i <= n,
                n == collected@.len(),
                n == views.len(),
                pos@.len() == n,
                rems == suffixes(views, pos@),
                forall|j: int| 0 <= j < n ==> pos@[j] <= (#[trigger] collected@[j])@.len(),
                forall|j: int| 0 <= j < n ==> data_seq((#[trigger] collected@[j])@) == views[j],
                match best {
                    None => pick_oldest(rems, i as int) is None,
                    Some(b) => 0 <= b < n && pick_oldest(rems, i as int) == Some(b as int)
                        && pos@[b as int] < collected@[b as int]@.len(),
                },
            decreases i,
        {
            i = i - 1;
            proof {
                assert(rems[i as int] == views[i as int].skip(pos@[i as int] as int));
            }
            if pos[i] < collected[i].len() {
                proof {
                    assert(rems[i as int][0] == collected@[i as int]@[pos@[i as int] as int].data());
                }
                best = match best {
                    None => Some(i),
                    Some(b) => {
                        proof {
                            assert(rems[b as int][0] == collected@[b as int]@[
                                pos@[b as int] as int
                            ].data());
                        }
                        let c = LogLine::is_older(
                            &collected[b][pos[b]],
                            &collected[i][pos[i]],
                        );
                        match c {
                            core::cmp::Ordering::Less => Some(b),
                            _ => Some(i),
                        }
                    },
                };
            }
        }
        match best {
            None => {
                proof {
                    assert(merge_oldest(rems) =~= Seq::<LineData>::empty());
                    assert(data_seq(out@) + Seq::<LineData>::empty() =~= data_seq(out@));
                }
                return out;
            },
            Some(m) => {
                proof {
                    assert(rems[m as int][0] == collected@[m as int]@[pos@[m as int] as int].data());
                    assert(merge_oldest(rems) == seq![rems[m as int][0]] + merge_oldest(
                        rems.update(m as int, rems[m as int].skip(1)),
                    ));
                    lemma_total_len_update(rems, m as int);
                }
                let line = clone_line(&collected[m][pos[m]]);
                let ghost out_ds = data_seq(out@);
                out.push(line);
                let ghost old_pos = pos@;
                let current = pos[m];
                let source_len = collected[m].len();
                proof {
                    assert(current < source_len);
                }
                let bumped = current + 1;
                pos[m] = bumped;
                proof {
                    assert(data_seq(out@) =~= out_ds.push(rems[m as int][0]));
                    assert(suffixes(views, pos@) =~= rems.update(
                        m as int,
                        rems[m as int].skip(1),
                    )) by {
                        assert forall|j: int| 0 <= j < n implies suffixes(views, pos@)[j]
                            == rems.update(m as int, rems[m as int].skip(1))[j] by {
                            if j == m {
                                assert(views[j].skip(old_pos[j] + 1) =~= views[j].skip(
                                    old_pos[j] as int,
                                ).skip(1));
                            } else {
                                assert(pos@[j] == old_pos[j]);
                            }
                        }
                    }
                    assert(data_seq(out@) + merge_oldest(suffixes(views, pos@)) =~= out_ds + (seq![
                        rems[m as int][0],
                    ] + merge_oldest(suffixes(views, pos@))));
                }
            },
        }
    }
}

/// Merges already-filtered per-source vectors newest first; the mirror of
/// `merge_vecs_oldest`.
fn merge_vecs_newest(collected: &Vec<Vec<LogLine>>, Ghost(views): Ghost<Seq<Seq<LineData>>>) -> (r:
    Vec<LogLine>)
    requires
        views.len() == collected@.len(),
        forall|j: int| 0 <= j < collected@.len() ==> data_seq((#[trigger] collected@[j])@) == views[j],
    ensures
        data_seq(r@) == merge_newest(views),
{
    let n = collected.len();
    let mut pos: Vec<usize> = Vec::new();
    let mut k: usize = 0;
    while k < n
        invariant
            0 <= k <= n,
            pos@.len() == k,
            forall|j: int| 0 <= j < k ==> pos@[j] == 0,
        decreases n - k,
    {
        pos.push(0);
        k += 1;
    }
    let mut out: Vec<LogLine> = Vec::new();
    proof {
        assert(suffixes(views, pos@) =~= views) by {
            assert forall|j: int| 0 <= j < views.len() implies suffixes(views, pos@)[j] == views[
                j
            ] by {
                assert(views[j].skip(0) =~= views[j]);
            }
        }
        assert(data_seq(out@) =~= Seq::<LineData>::empty());
    }
    loop
        invariant
            n == collected@.len(),
            n == views.len(),
            pos@.len() == n,
            forall|j: int| 0 <= j < n ==> pos@[j] <= (#[trigger] collected@[j])@.len(),
            forall|j: int| 0 <= j < n ==> data_seq((#[trigger] collected@[j])@) == views[j],
            data_seq(out@) + merge_newest(suffixes(views, pos@)) == merge_newest(views),
        decreases total_len(suffixes(views, pos@)),
    {
        let ghost rems = suffixes(views, pos@);
        let mut best: Option<usize> = None;
        let mut i: usize = n;
        while i > 0
            invariant
                0 <= i <= n,
                n == collected@.len(),
                n == views.len(),
                pos@.len() == n,
                rems == suffixes(views, pos@),
                forall|j: int| 0 <= j < n ==> pos@[j] <= (#[trigger] collected@[j])@.len(),
                forall|j: int| 0 <= j < n ==> data_seq((#[trigger] collected@[j])@) == views[j],
                match best {
                    None => pick_newest(rems, i as int) is None,
                    Some(b) => 0 <= b < n && pick_newest(rems, i as int) == Some(b as int)
                        && pos@[b as int] < collected@[b as int]@.len(),
                },
            decreases i,
        {
            i = i - 1;
            proof {
                assert(rems[i as int] == views[i as int].skip(pos@[i as int] as int));
            }
            if pos[i] < collected[i].len() {
                proof {
                    assert(rems[i as int][0] == collected@[i as int]@[pos@[i as int] as int].data());
                }
                best = match best {
                    None => Some(i),
                    Some(b) => {
                        proof {
                            assert(rems[b as int][0] == collected@[b as int]@[
                                pos@[b as int] as int
                            ].data());
                        }
                        let c = LogLine::is_newer(
                            &collected[i][pos[i]],
                            &collected[b][pos[b]],
                        );
                        match c {
                            core::cmp::Ordering::Less => Some(i),
                            _ => Some(b),
                        }
                    },
                };
            }
        }
        match best {
            None => {
                proof {
                    assert(merge_newest(rems) =~= Seq::<LineData>::empty());
                    assert(data_seq(out@) + Seq::<LineData>::empty() =~= data_seq(out@));
                }
                return out;
            },
            Some(m) => {
                proof {
                    assert(rems[m as int][0] == collected@[m as int]@[pos@[m as int] as int].data());
                    assert(merge_newest(rems) == seq![rems[m as int][0]] + merge_newest(
                        rems.update(m as int, rems[m as int].skip(1)),
                    ));
                    lemma_total_len_update(rems, m as int);
                }
                let line = clone_line(&collected[m][pos[m]]);
                let ghost out_ds = data_seq(out@);
                out.push(line);
                let ghost old_pos = pos@;
                let current = pos[m];
                let source_len = collected[m].len();
                proof {
                    assert(current < source_len);
                }
                let bumped = current + 1;
                pos[m] = bumped;
                proof {
                    assert(data_seq(out@) =~= out_ds.push(rems[m as int][0]));
                    assert(suffixes(views, pos@) =~= rems.update(
                        m as int,
                        rems[m as int].skip(1),
                    )) by {
                        assert forall|j: int| 0 <= j < n implies suffixes(views, pos@)[j]
                            == rems.update(m as int, rems[m as int].skip(1))[j] by {
                            if j == m {
                                assert(views[j].skip(old_pos[j] + 1) =~= views[j].skip(
                                    old_pos[j] as int,
                                ).skip(1));
                            } else {
                                assert(pos@[j] == old_pos[j]);
                            }
                        }
                    }
                    assert(data_seq(out@) + merge_newest(suffixes(views, pos@)) =~= out_ds + (seq![
                        rems[m as int][0],
                    ] + merge_newest(suffixes(views, pos@))));
                }
            },
        }
    }
}

/// A fresh copy of one line.
fn clone_line(l: &LogLine) -> (r: LogLine)
    ensures
        r.data() == l.data(),
{
    l.clone()
}

} // verus!
