//! The global tag registry: every tag discovered while parsing log lines is
//! recorded here together with an enabled flag used for filtering, a
//! monotonically increasing version that stamps cached skip links, and the
//! set of tags discovered since the consumer last asked.

use crate::bytes::bytes_eq;
use vstd::prelude::*;

verus! {

/// Looks a tag up in a sequence of `(tag, enabled)` pairs; first match wins.
pub open spec fn lookup(entries: Seq<(Seq<u8>, bool)>, tag: Seq<u8>) -> Option<bool>
    decreases entries.len(),
{
    if entries.len() == 0 {
        None
    } else if entries[0].0 == tag {
        Some(entries[0].1)
    } else {
        lookup(entries.skip(1), tag)
    }
}

/// The registry of tags discovered in the logs. The flag of each entry says
/// whether lines carrying that tag are currently visible.
pub struct TagsData {
    entries: Vec<(Vec<u8>, bool)>,
    updated: Vec<Vec<u8>>,
    ver: usize,
}

impl TagsData {
    /// The discovered tags, in discovery order, each with its enabled flag.
    pub closed spec fn entries_view(self) -> Seq<(Seq<u8>, bool)> {
        self.entries@.map_values(|e: (Vec<u8>, bool)| (e.0@, e.1))
    }

    /// The tags handed out by the next `take_updated`.
    pub closed spec fn updated_view(self) -> Seq<Seq<u8>> {
        self.updated@.map_values(|t: Vec<u8>| t@)
    }

    /// The current filter version.
    pub closed spec fn version(self) -> nat {
        self.ver as nat
    }

    /// Each tag occurs at most once in the registry.
    pub open spec fn wf(self) -> bool {
        forall|i: int, j: int|
            0 <= i < j < self.entries_view().len() ==> self.entries_view()[i].0
                != self.entries_view()[j].0
    }

    /// Is `tag` known to the registry?
    pub open spec fn spec_contains(self, tag: Seq<u8>) -> bool {
        lookup(self.entries_view(), tag) is Some
    }

    /// Is `tag` enabled? An unknown tag counts as disabled.
    pub open spec fn spec_get(self, tag: Seq<u8>) -> bool {
        match lookup(self.entries_view(), tag) {
            Some(v) => v,
            None => false,
        }
    }

    /// Creates an empty registry at version zero.
    pub fn new() -> (r: TagsData)
        ensures
            r.wf(),
            r.entries_view() == Seq::<(Seq<u8>, bool)>::empty(),
            r.updated_view() == Seq::<Seq<u8>>::empty(),
            r.version() == 0,
    {
        let r = TagsData { entries: Vec::new(), updated: Vec::new(), ver: 0 };
        proof {
            assert(r.entries_view() =~= Seq::<(Seq<u8>, bool)>::empty());
            assert(r.updated_view() =~= Seq::<Seq<u8>>::empty());
        }
        r
    }

    /// All discovered tags with their enabled flags, in discovery order.
    pub fn all(&self) -> (r: &Vec<(Vec<u8>, bool)>)
        ensures
            r@.map_values(|e: (Vec<u8>, bool)| (e.0@, e.1)) == self.entries_view(),
    {
        &self.entries
    }

    /// The position of `tag` in the registry, if present.
    fn find(&self, tag: &[u8]) -> (r: Option<usize>)
        ensures
            match r {
                Some(i) => {
                    &&& 0 <= i < self.entries_view().len()
                    &&& self.entries_view()[i as int].0 == tag@
                    &&& lookup(self.entries_view(), tag@) == Some(
                        self.entries_view()[i as int].1,
                    )
                },
                None => lookup(self.entries_view(), tag@) is None,
            },
    {
        let n = self.entries.len();
        let mut i: usize = 0;
        proof {
            assert(self.entries_view().skip(0) =~= self.entries_view());
        }
        while i < n
            invariant
                0 <= i <= n,
                n == self.entries_view().len(),
                forall|j: int| 0 <= j < i ==> self.entries_view()[j].0 != tag@,
                lookup(self.entries_view(), tag@) == lookup(
                    self.entries_view().skip(i as int),
                    tag@,
                ),
            decreases n - i,
        {
            proof {
                assert(self.entries_view().skip(i as int)[0] == self.entries_view()[i as int]);
                assert(self.entries_view().skip(i as int).skip(1) =~= self.entries_view().skip(
                    i + 1,
                ));
            }
            if bytes_eq(self.entries[i].0.as_slice(), tag) {
                return Some(i);
            }
            i += 1;
        }
        proof {
            assert(self.entries_view().skip(i as int).len() == 0);
        }
        None
    }

    /// Is `tag` known to the registry?
    pub fn contains(&self, tag: &[u8]) -> (r: bool)
        ensures
            r == self.spec_contains(tag@),
    {
        self.find(tag).is_some()
    }

    /// Whether lines with this tag are visible; unknown tags are not.
    pub fn get(&self, tag: &[u8]) -> (r: bool)
        ensures
            r == self.spec_get(tag@),
    {
        match self.find(tag) {
            Some(i) => self.entries[i].1,
            None => false,
        }
    }

    /// Overwrites the flag of `tag` if the tag is known; unknown tags are
    /// left unrecorded.
    fn set_value(&mut self, tag: &[u8], value: bool)
        requires
            old(self).wf(),
        ensures
            final(self).wf(),
            final(self).version() == old(self).version(),
            final(self).updated_view() == old(self).updated_view(),
            final(self).entries_view().len() == old(self).entries_view().len(),
            forall|i: int|
                0 <= i < old(self).entries_view().len() ==> final(self).entries_view()[i]
                    == if old(self).entries_view()[i].0 == tag@ {
                    (old(self).entries_view()[i].0, value)
                } else {
                    old(self).entries_view()[i]
                },
            final(self).spec_get(tag@) == if old(self).spec_contains(tag@) {
                value
            } else {
                false
            },
    {
        match self.find(tag) {
            Some(i) => {
                let ghost old_entries = self.entries_view();
                let new_key = crate::bytes::copy_bytes(self.entries[i].0.as_slice());
                self.entries[i] = (new_key, value);
                proof {
                    assert(self.entries_view() =~= old_entries.update(
                        i as int,
                        (old_entries[i as int].0, value),
                    ));
                    assert(forall|j: int|
                        0 <= j < old_entries.len() ==> self.entries_view()[j].0 == #[trigger]
                        old_entries[j].0);
                    assert(forall|j: int|
                        0 <= j < old_entries.len() && j != i ==> #[trigger] old_entries[j].0
                            != tag@);
                    lemma_lookup_unique(self.entries_view(), i as int);
                }
            },
            None => {
                proof {
                    lemma_lookup_none(self.entries_view(), tag@);
                }
            },
        }
    }

    /// Makes `tag` visible if it is known, and bumps the filter version:
    /// any change to the enabled set lazily invalidates every cached skip
    /// link.
    pub fn set(&mut self, tag: &[u8])
        requires
            old(self).wf(),
            old(self).version() < usize::MAX,
        ensures
            final(self).wf(),
            final(self).version() == old(self).version() + 1,
            final(self).updated_view() == old(self).updated_view(),
            final(self).entries_view().len() == old(self).entries_view().len(),
            forall|i: int|
                0 <= i < old(self).entries_view().len() ==> final(self).entries_view()[i]
                    == if old(self).entries_view()[i].0 == tag@ {
                    (old(self).entries_view()[i].0, true)
                } else {
                    old(self).entries_view()[i]
                },
            final(self).spec_get(tag@) == old(self).spec_contains(tag@),
    {
        self.set_value(tag, true);
        let ghost mid_entries = self.entries_view();
        let ghost mid_updated = self.updated_view();
        self.ver = self.ver + 1;
        proof {
            assert(self.entries_view() =~= mid_entries);
            assert(self.updated_view() =~= mid_updated);
        }
    }

    /// Hides `tag` if it is known, and bumps the filter version.
    pub fn unset(&mut self, tag: &[u8])
        requires
            old(self).wf(),
            old(self).version() < usize::MAX,
        ensures
            final(self).wf(),
            final(self).version() == old(self).version() + 1,
            final(self).updated_view() == old(self).updated_view(),
            final(self).entries_view().len() == old(self).entries_view().len(),
            forall|i: int|
                0 <= i < old(self).entries_view().len() ==> final(self).entries_view()[i]
                    == if old(self).entries_view()[i].0 == tag@ {
                    (old(self).entries_view()[i].0, false)
                } else {
                    old(self).entries_view()[i]
                },
            !final(self).spec_get(tag@),
    {
        self.set_value(tag, false);
        let ghost mid_entries = self.entries_view();
        let ghost mid_updated = self.updated_view();
        self.ver = self.ver + 1;
        proof {
            assert(self.entries_view() =~= mid_entries);
            assert(self.updated_view() =~= mid_updated);
        }
    }

    /// Flips the visibility of `tag` if it is known, and bumps the filter
    /// version.
    pub fn toggle(&mut self, tag: &[u8])
        requires
            old(self).wf(),
            old(self).version() < usize::MAX,
        ensures
            final(self).wf(),
            final(self).version() == old(self).version() + 1,
            final(self).updated_view() == old(self).updated_view(),
            final(self).entries_view().len() == old(self).entries_view().len(),
            forall|i: int|
                0 <= i < old(self).entries_view().len() ==> final(self).entries_view()[i]
                    == if old(self).entries_view()[i].0 == tag@ {
                    (old(self).entries_view()[i].0, !old(self).spec_get(tag@))
                } else {
                    old(self).entries_view()[i]
                },
            final(self).spec_get(tag@) == (old(self).spec_contains(tag@) && !old(self).spec_get(
                tag@,
            )),
    {
        let v = self.get(tag);
        self.set_value(tag, !v);
        let ghost mid_entries = self.entries_view();
        let ghost mid_updated = self.updated_view();
        self.ver = self.ver + 1;
        proof {
            assert(self.entries_view() =~= mid_entries);
            assert(self.updated_view() =~= mid_updated);
        }
    }

    /// Records `tag`, visible, and remembers it for `take_updated`. A tag
    /// already known is merely made visible again (and re-announced if it is
    /// not already pending).
    pub fn insert_new(&mut self, tag: &[u8])
        requires
            old(self).wf(),
        ensures
            final(self).wf(),
            final(self).version() == old(self).version(),
            final(self).spec_contains(tag@),
            final(self).spec_get(tag@),
            if old(self).spec_contains(tag@) {
                final(self).entries_view().len() == old(self).entries_view().len()
            } else {
                final(self).entries_view() == old(self).entries_view().push((tag@, true))
            },
            forall|i: int|
                0 <= i < old(self).entries_view().len() ==> final(self).entries_view()[i]
                    == if old(self).entries_view()[i].0 == tag@ {
                    (old(self).entries_view()[i].0, true)
                } else {
                    old(self).entries_view()[i]
                },
            final(self).updated_view() == old(self).updated_view() || final(self).updated_view()
                == old(self).updated_view().push(tag@),
            final(self).updated_view().contains(tag@),
    {
        match self.find(tag) {
            Some(_) => {
                self.set_value(tag, true);
            },
            None => {
                let ghost old_entries = self.entries_view();
                self.entries.push((crate::bytes::copy_bytes(tag), true));
                proof {
                    assert(self.entries_view() =~= old_entries.push((tag@, true)));
                    lemma_lookup_none(old_entries, tag@);
                    assert(forall|j: int|
                        0 <= j < old_entries.len() ==> #[trigger] old_entries[j].0 != tag@);
                    lemma_lookup_found(self.entries_view(), old_entries.len() as int);
                }
            },
        }
        let pending = self.updated_pending(tag);
        if !pending {
            let ghost old_updated = self.updated_view();
            self.updated.push(crate::bytes::copy_bytes(tag));
            proof {
                assert(self.updated_view() =~= old_updated.push(tag@));
                assert(self.updated_view()[old_updated.len() as int] == tag@);
            }
        }
    }

    /// Rewrites every flag at once: to `!old` when `negate`, else to
    /// `value`.
    fn apply_all(&mut self, negate: bool, value: bool)
        requires
            old(self).wf(),
        ensures
            final(self).wf(),
            final(self).version() == old(self).version(),
            final(self).updated_view() == old(self).updated_view(),
            final(self).entries_view().len() == old(self).entries_view().len(),
            forall|i: int|
                0 <= i < old(self).entries_view().len() ==> final(self).entries_view()[i] == (
                old(self).entries_view()[i].0,
                if negate {
                    !old(self).entries_view()[i].1
                } else {
                    value
                }),
    {
        let n = self.entries.len();
        let mut i: usize = 0;
        while i < n
            invariant
                0 <= i <= n,
                n == self.entries_view().len(),
                self.entries_view().len() == old(self).entries_view().len(),
                self.updated_view() == old(self).updated_view(),
                self.version() == old(self).version(),
                forall|j: int|
                    0 <= j < i ==> self.entries_view()[j] == (
                    old(self).entries_view()[j].0,
                    if negate {
                        !old(self).entries_view()[j].1
                    } else {
                        value
                    }),
                forall|j: int|
                    i <= j < n ==> self.entries_view()[j] == old(self).entries_view()[j],
            decreases n - i,
        {
            let ghost pre = self.entries_view();
            let ghost pre_updated = self.updated_view();
            let key = crate::bytes::copy_bytes(self.entries[i].0.as_slice());
            let flag = if negate {
                !self.entries[i].1
            } else {
                value
            };
            self.entries[i] = (key, flag);
            proof {
                assert(self.entries_view() =~= pre.update(i as int, (pre[i as int].0, flag)));
                assert(self.updated_view() =~= pre_updated);
            }
            i += 1;
        }
        proof {
            assert forall|a: int, b: int|
                0 <= a < b < self.entries_view().len() implies self.entries_view()[a].0
                != self.entries_view()[b].0 by {
                assert(self.entries_view()[a].0 == old(self).entries_view()[a].0);
                assert(self.entries_view()[b].0 == old(self).entries_view()[b].0);
            }
        }
    }

    /// Makes every known tag visible, in one stroke, and bumps the filter
    /// version once.
    pub fn set_all(&mut self)
        requires
            old(self).wf(),
            old(self).version() < usize::MAX,
        ensures
            final(self).wf(),
            final(self).version() == old(self).version() + 1,
            final(self).updated_view() == old(self).updated_view(),
            final(self).entries_view().len() == old(self).entries_view().len(),
            forall|i: int|
                0 <= i < old(self).entries_view().len() ==> final(self).entries_view()[i] == (
                old(self).entries_view()[i].0,
                true,
                ),
    {
        self.apply_all(false, true);
        let ghost mid_entries = self.entries_view();
        let ghost mid_updated = self.updated_view();
        self.ver = self.ver + 1;
        proof {
            assert(self.entries_view() =~= mid_entries);
            assert(self.updated_view() =~= mid_updated);
        }
    }

    /// Hides every known tag, in one stroke, and bumps the filter version
    /// once.
    pub fn unset_all(&mut self)
        requires
            old(self).wf(),
            old(self).version() < usize::MAX,
        ensures
            final(self).wf(),
            final(self).version() == old(self).version() + 1,
            final(self).updated_view() == old(self).updated_view(),
            final(self).entries_view().len() == old(self).entries_view().len(),
            forall|i: int|
                0 <= i < old(self).entries_view().len() ==> final(self).entries_view()[i] == (
                old(self).entries_view()[i].0,
                false,
                ),
    {
        self.apply_all(false, false);
        let ghost mid_entries = self.entries_view();
        let ghost mid_updated = self.updated_view();
        self.ver = self.ver + 1;
        proof {
            assert(self.entries_view() =~= mid_entries);
            assert(self.updated_view() =~= mid_updated);
        }
    }

    /// Flips every known tag's visibility, in one stroke, and bumps the
    /// filter version once.
    pub fn toggle_all(&mut self)
        requires
            old(self).wf(),
            old(self).version() < usize::MAX,
        ensures
            final(self).wf(),
            final(self).version() == old(self).version() + 1,
            final(self).updated_view() == old(self).updated_view(),
            final(self).entries_view().len() == old(self).entries_view().len(),
            forall|i: int|
                0 <= i < old(self).entries_view().len() ==> final(self).entries_view()[i] == (
                old(self).entries_view()[i].0,
                !old(self).entries_view()[i].1,
                ),
    {
        self.apply_all(true, false);
        let ghost mid_entries = self.entries_view();
        let ghost mid_updated = self.updated_view();
        self.ver = self.ver + 1;
        proof {
            assert(self.entries_view() =~= mid_entries);
            assert(self.updated_view() =~= mid_updated);
        }
    }

    /// Is `tag` already waiting to be handed out by `take_updated`?
    fn updated_pending(&self, tag: &[u8]) -> (r: bool)
        ensures
            r == self.updated_view().contains(tag@),
    {
        let n = self.updated.len();
        let mut i: usize = 0;
        while i < n
            invariant
                0 <= i <= n,
                n == self.updated_view().len(),
                forall|j: int| 0 <= j < i ==> self.updated_view()[j] != tag@,
            decreases n - i,
        {
            if bytes_eq(self.updated[i].as_slice(), tag) {
                proof {
                    assert(self.updated_view()[i as int] == tag@);
                }
                return true;
            }
            i += 1;
        }
        proof {
            assert(forall|j: int| 0 <= j < self.updated_view().len() ==> self.updated_view()[j]
                != tag@);
        }
        false
    }

    /// The version that stamps cached skip links.
    pub fn get_version(&self) -> (r: usize)
        ensures
            r == self.version(),
    {
        self.ver
    }

    /// Bumps the version, lazily invalidating every cached skip link.
    pub fn update_version(&mut self)
        requires
            old(self).wf(),
            old(self).version() < usize::MAX,
        ensures
            final(self).wf(),
            final(self).version() == old(self).version() + 1,
            final(self).entries_view() == old(self).entries_view(),
            final(self).updated_view() == old(self).updated_view(),
    {
        let ghost old_entries = self.entries_view();
        self.ver = self.ver + 1;
        proof {
            assert(self.entries_view() =~= old_entries);
            assert(self.updated_view() =~= old(self).updated_view());
        }
    }

    /// Hands out the tags discovered since the previous call and forgets
    /// them.
    pub fn take_updated(&mut self) -> (r: Vec<Vec<u8>>)
        requires
            old(self).wf(),
        ensures
            final(self).wf(),
            r@.map_values(|t: Vec<u8>| t@) == old(self).updated_view(),
            final(self).updated_view() == Seq::<Seq<u8>>::empty(),
            final(self).entries_view() == old(self).entries_view(),
            final(self).version() == old(self).version(),
    {
        let mut taken: Vec<Vec<u8>> = Vec::new();
        core::mem::swap(&mut taken, &mut self.updated);
        proof {
            assert(self.updated_view() =~= Seq::<Seq<u8>>::empty());
            assert(self.entries_view() =~= old(self).entries_view());
        }
        taken
    }
}

/// Statistics shared by every background tailing task: the tag registry and
/// the directory the log files live in.
pub struct DataBoard {
    tags: TagsData,
    log_files_root: Vec<u8>,
}

impl DataBoard {
    /// The tag registry held by the board.
    pub closed spec fn spec_tags(self) -> TagsData {
        self.tags
    }

    /// The directory the log files live in.
    pub closed spec fn spec_root(self) -> Seq<u8> {
        self.log_files_root@
    }

    /// Creates a board rooted at the given log directory.
    pub fn new(log_files_root: Vec<u8>) -> (r: DataBoard)
        ensures
            r.spec_tags().wf(),
            r.spec_tags().entries_view() == Seq::<(Seq<u8>, bool)>::empty(),
            r.spec_tags().updated_view() == Seq::<Seq<u8>>::empty(),
            r.spec_tags().version() == 0,
            r.spec_root() == log_files_root@,
    {
        DataBoard { tags: TagsData::new(), log_files_root }
    }

    /// Records a tag the moment it is first seen in a parsed line; a known
    /// tag leaves the board untouched.
    pub fn update_tag(&mut self, new_tag: &[u8])
        requires
            old(self).spec_tags().wf(),
        ensures
            final(self).spec_tags().wf(),
            final(self).spec_root() == old(self).spec_root(),
            final(self).spec_tags().version() == old(self).spec_tags().version(),
            final(self).spec_tags().spec_contains(new_tag@),
            if old(self).spec_tags().spec_contains(new_tag@) {
                final(self).spec_tags() == old(self).spec_tags()
            } else {
                final(self).spec_tags().entries_view() == old(
                    self,
                ).spec_tags().entries_view().push((new_tag@, true))
            },
            forall|t: Seq<u8>|
                t != new_tag@ ==> final(self).spec_tags().spec_get(t) == old(
                    self,
                ).spec_tags().spec_get(t),
    {
        if !self.tags.contains(new_tag) {
            let ghost old_tags = self.tags;
            self.tags.insert_new(new_tag);
            proof {
                lemma_lookup_none(old_tags.entries_view(), new_tag@);
                assert forall|t: Seq<u8>| t != new_tag@ implies self.tags.spec_get(t)
                    == old_tags.spec_get(t) by {
                    lemma_lookup_push_other(old_tags.entries_view(), (new_tag@, true), t);
                }
            }
        }
    }

    /// Read access to the tag registry.
    pub fn get_tags(&self) -> (r: &TagsData)
        ensures
            *r == self.spec_tags(),
    {
        &self.tags
    }

    /// Write access to the tag registry.
    pub fn get_tags_mut(&mut self) -> (r: &mut TagsData)
        ensures
            *r == old(self).spec_tags(),
            final(self).spec_tags() == *final(r),
            final(self).spec_root() == old(self).spec_root(),
    {
        &mut self.tags
    }

    /// The directory the log files live in.
    pub fn get_root_path(&self) -> (r: Vec<u8>)
        ensures
            r@ == self.spec_root(),
    {
        crate::bytes::copy_bytes(self.log_files_root.as_slice())
    }
}

impl Default for DataBoard {
    /// An empty board with no root directory recorded.
    fn default() -> (r: DataBoard)
        ensures
            r.spec_tags().wf(),
            r.spec_tags().entries_view() == Seq::<(Seq<u8>, bool)>::empty(),
            r.spec_tags().updated_view() == Seq::<Seq<u8>>::empty(),
            r.spec_tags().version() == 0,
            r.spec_root() == Seq::<u8>::empty(),
    {
        let r = DataBoard { tags: TagsData::new(), log_files_root: Vec::new() };
        proof {
            assert(r.spec_root() =~= Seq::<u8>::empty());
        }
        r
    }
}

/// Appending an entry with a different key leaves a lookup unchanged.
proof fn lemma_lookup_push_other(entries: Seq<(Seq<u8>, bool)>, e: (Seq<u8>, bool), tag: Seq<u8>)
    requires
        e.0 != tag,
    ensures
        lookup(entries.push(e), tag) == lookup(entries, tag),
    decreases entries.len(),
{
    if entries.len() == 0 {
        assert(entries.push(e)[0] == e);
        assert(entries.push(e).skip(1) =~= entries);
        assert(lookup(entries.push(e), tag) == lookup(entries.push(e).skip(1), tag));
        assert(lookup(entries, tag) is None);
    } else {
        assert(entries.push(e)[0] == entries[0]);
        assert(entries.push(e).skip(1) =~= entries.skip(1).push(e));
        lemma_lookup_push_other(entries.skip(1), e, tag);
    }
}

/// A failed lookup means no entry carries the key.
proof fn lemma_lookup_none(entries: Seq<(Seq<u8>, bool)>, tag: Seq<u8>)
    requires
        lookup(entries, tag) is None,
    ensures
        forall|j: int| 0 <= j < entries.len() ==> entries[j].0 != tag,
    decreases entries.len(),
{
    if entries.len() > 0 {
        assert(entries[0].0 != tag);
        lemma_lookup_none(entries.skip(1), tag);
        assert forall|j: int| 0 <= j < entries.len() implies entries[j].0 != tag by {
            if j > 0 {
                assert(entries.skip(1)[j - 1] == entries[j]);
            }
        }
    }
}

/// With unique keys, a successful lookup lands on the unique entry that
/// carries the key.
proof fn lemma_lookup_found(entries: Seq<(Seq<u8>, bool)>, i: int)
    requires
        0 <= i < entries.len(),
        forall|a: int, b: int| 0 <= a < b < entries.len() ==> entries[a].0 != entries[b].0,
    ensures
        lookup(entries, entries[i].0) == Some(entries[i].1),
    decreases entries.len(),
{
    if i == 0 {
    } else {
        assert(entries[0].0 != entries[i].0);
        assert(entries.skip(1)[i - 1] == entries[i]);
        lemma_lookup_found(entries.skip(1), i - 1);
    }
}

/// With unique keys, the lookup result for the key at position `i` is that
/// entry's flag.
proof fn lemma_lookup_unique(entries: Seq<(Seq<u8>, bool)>, i: int)
    requires
        0 <= i < entries.len(),
        forall|a: int, b: int| 0 <= a < b < entries.len() ==> entries[a].0 != entries[b].0,
    ensures
        lookup(entries, entries[i].0) == Some(entries[i].1),
{
    lemma_lookup_found(entries, i);
}

} // verus!
