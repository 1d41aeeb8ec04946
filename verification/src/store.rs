//! The store: wraps the index engine with the draft overlay ("stash",
//! one pending edit per id with commit/discard), replay-based boot,
//! and a write journal. Every mutation appends the rows it made
//! durable-worthy to the journal; the caller drains it and writes each
//! row to the persistent log under its id, so durability follows the
//! in-memory mutation exactly as the engine computed it.

use vstd::prelude::*;
use crate::entry::Availability;
use crate::entry::Entry;
use crate::entry::EntryModel;
use crate::entry::PullEntry;
use crate::entry::PullModel;
use crate::entry::StashedEntry;
use crate::entry::StashedModel;
use crate::entry::StoreError;
use crate::index::InternalStore;
use crate::index::avail_match;
use crate::index::entry_of;
use crate::index::has_id;
use crate::index::idx_of;
use crate::index::lemma_idx_of;
use crate::index::normalized;
use crate::index::query_score;
use crate::index::ranked;
use crate::index::table_put;
use crate::index::del_marked;
use crate::segment::Segmenter;
use crate::text::chars_le;
use crate::text::has_nul;

verus! {

/// The entry as the new-id branch of `stash` persists it: hidden, so
/// it is reserved but kept out of listings until committed.
pub open spec fn hidden_of(e: EntryModel) -> EntryModel {
    EntryModel { hidden: true, ..e }
}

pub open spec fn stash_has(s: Seq<StashedModel>, id: i32) -> bool {
    exists|i: int| 0 <= i < s.len() && (#[trigger] s[i].entry.id) == id
}

pub open spec fn stash_idx(s: Seq<StashedModel>, id: i32) -> int {
    choose|i: int| 0 <= i < s.len() && (#[trigger] s[i].entry.id) == id
}

/// The pending draft for an id; meaningful only when `stash_has`.
pub open spec fn stash_of(s: Seq<StashedModel>, id: i32) -> StashedModel {
    s[stash_idx(s, id)]
}

/// At most one pending draft per id.
pub open spec fn stash_unique(s: Seq<StashedModel>) -> bool {
    forall|i: int, j: int|
        0 <= i < j < s.len() ==> (#[trigger] s[i].entry.id) != (#[trigger] s[j].entry.id)
}

pub proof fn lemma_stash_idx(s: Seq<StashedModel>, id: i32)
    requires
        stash_unique(s),
        stash_has(s, id),
    ensures
        0 <= stash_idx(s, id) < s.len(),
        s[stash_idx(s, id)].entry.id == id,
        forall|i: int| 0 <= i < s.len() && (#[trigger] s[i].entry.id) == id ==> i == stash_idx(
            s,
            id,
        ),
{
    let w = stash_idx(s, id);
    assert(0 <= w < s.len() && s[w].entry.id == id);
    assert forall|i: int| 0 <= i < s.len() && (#[trigger] s[i].entry.id) == id implies i == w by {
        if i != w {
            if i < w {
                assert(s[i].entry.id != s[w].entry.id);
            } else {
                assert(s[w].entry.id != s[i].entry.id);
            }
        }
    }
}

/// Relies on `std::time::SystemTime::now` and
/// `Duration::as_millis`: the wall clock as milliseconds since the
/// Unix epoch, or 0 for a clock before it. Nothing is assumed of the
/// value.
#[verifier::external_body]
fn now_millis() -> u64 {
    std::time::SystemTime::now().duration_since(std::time::UNIX_EPOCH).map(
        |d| d.as_millis() as u64,
    ).unwrap_or(0)
}

/// The store: index engine, draft overlay, and write journal.
pub struct Store {
    pub internal: InternalStore,
    pub stash: Vec<StashedEntry>,
    pub journal: Vec<Entry>,
}

impl Store {
    pub open spec fn entries_dv(self) -> Seq<EntryModel> {
        self.internal.entries_dv()
    }

    pub open spec fn stash_dv(self) -> Seq<StashedModel> {
        self.stash.deep_view()
    }

    pub open spec fn journal_dv(self) -> Seq<EntryModel> {
        self.journal.deep_view()
    }

    pub open spec fn wf(self) -> bool {
        &&& self.internal.wf()
        &&& stash_unique(self.stash_dv())
    }

    /// An empty store around a segmenter; rows arrive through `replay`
    /// and the mutating operations.
    pub fn new(seg: Segmenter) -> (r: Store)
        ensures
            r.wf(),
            r.entries_dv() == Seq::<EntryModel>::empty(),
            r.stash_dv() == Seq::<StashedModel>::empty(),
            r.journal_dv() == Seq::<EntryModel>::empty(),
    {
        let r = Store { internal: InternalStore::new(seg), stash: Vec::new(), journal: Vec::new() };
        proof {
            assert(r.stash_dv() =~= Seq::<StashedModel>::empty());
            assert(r.journal_dv() =~= Seq::<EntryModel>::empty());
        }
        r
    }

    fn stash_find(&self, id: i32) -> (r: Option<usize>)
        ensures
            match r {
                Some(i) => i < self.stash_dv().len() && self.stash_dv()[i as int].entry.id == id,
                None => !stash_has(self.stash_dv(), id),
            },
    {
        let n = self.stash.len();
        let mut i: usize = 0;
        while i < n
            invariant
                n == self.stash@.len(),
                0 <= i <= n,
                forall|k: int| 0 <= k < i ==> (#[trigger] self.stash_dv()[k].entry.id) != id,
            decreases n - i,
        {
            if self.stash[i].entry.id == id {
                return Some(i);
            }
            i = i + 1;
        }
        None
    }

    /// Insert or replace the draft for `se`'s id: last writer wins.
    fn stash_insert(&mut self, se: StashedEntry)
        requires
            stash_unique(old(self).stash_dv()),
        ensures
            final (self).internal == old(self).internal,
            final (self).journal == old(self).journal,
            stash_unique(final (self).stash_dv()),
            stash_has(final (self).stash_dv(), se@.entry.id),
            stash_of(final (self).stash_dv(), se@.entry.id) == se@,
            forall|id2: i32|
                id2 != se@.entry.id ==> #[trigger] stash_has(final (self).stash_dv(), id2)
                    == stash_has(old(self).stash_dv(), id2),
            forall|id2: i32|
                id2 != se@.entry.id && stash_has(old(self).stash_dv(), id2) ==> #[trigger] stash_of(
                    final (self).stash_dv(),
                    id2,
                ) == stash_of(old(self).stash_dv(), id2),
    {
        let ghost s0 = self.stash_dv();
        let ghost sm = se@;
        let found = self.stash_find(se.entry.id);
        match found {
            Some(i) => {
                self.stash.remove(i);
                self.stash.insert(i, se);
                proof {
                    let s1 = self.stash_dv();
                    assert(s1 =~= s0.update(i as int, sm));
                    assert(stash_unique(s1)) by {
                        assert(forall|a: int| 0 <= a < s0.len() && a != i ==> s1[a] == s0[a]);
                    }
                    assert(stash_has(s1, sm.entry.id)) by {
                        assert(s1[i as int].entry.id == sm.entry.id);
                    }
                    lemma_stash_idx(s1, sm.entry.id);
                    assert(stash_idx(s1, sm.entry.id) == i as int);
                    assert forall|id2: i32| id2 != sm.entry.id implies #[trigger] stash_has(
                        s1,
                        id2,
                    ) == stash_has(s0, id2) by {
                        if stash_has(s0, id2) {
                            let w = choose|w: int|
                                0 <= w < s0.len() && (#[trigger] s0[w].entry.id) == id2;
                            assert(w != i);
                            assert(s1[w].entry.id == id2);
                        }
                        if stash_has(s1, id2) {
                            let w = choose|w: int|
                                0 <= w < s1.len() && (#[trigger] s1[w].entry.id) == id2;
                            assert(w != i);
                            assert(s0[w].entry.id == id2);
                        }
                    }
                    assert forall|id2: i32|
                        id2 != sm.entry.id && stash_has(s0, id2) implies #[trigger] stash_of(
                        s1,
                        id2,
                    ) == stash_of(s0, id2) by {
                        lemma_stash_idx(s0, id2);
                        let w = stash_idx(s0, id2);
                        assert(w != i);
                        assert(s1[w] == s0[w]);
                        assert(stash_has(s1, id2)) by {
                            assert(s1[w].entry.id == id2);
                        }
                        lemma_stash_idx(s1, id2);
                        assert(stash_idx(s1, id2) == w);
                    }
                }
            },
            None => {
                self.stash.push(se);
                proof {
                    let s1 = self.stash_dv();
                    assert(s1 =~= s0.push(sm));
                    assert(stash_unique(s1)) by {
                        assert(forall|a: int| 0 <= a < s0.len() ==> s1[a] == s0[a]);
                    }
                    assert(stash_has(s1, sm.entry.id)) by {
                        assert(s1[s0.len() as int].entry.id == sm.entry.id);
                    }
                    lemma_stash_idx(s1, sm.entry.id);
                    assert(stash_idx(s1, sm.entry.id) == s0.len() as int);
                    assert forall|id2: i32| id2 != sm.entry.id implies #[trigger] stash_has(
                        s1,
                        id2,
                    ) == stash_has(s0, id2) by {
                        if stash_has(s1, id2) {
                            let w = choose|w: int|
                                0 <= w < s1.len() && (#[trigger] s1[w].entry.id) == id2;
                            assert(w != s0.len());
                            assert(s0[w].entry.id == id2);
                        }
                        if stash_has(s0, id2) {
                            let w = choose|w: int|
                                0 <= w < s0.len() && (#[trigger] s0[w].entry.id) == id2;
                            assert(s1[w].entry.id == id2);
                        }
                    }
                    assert forall|id2: i32|
                        id2 != sm.entry.id && stash_has(s0, id2) implies #[trigger] stash_of(
                        s1,
                        id2,
                    ) == stash_of(s0, id2) by {
                        lemma_stash_idx(s0, id2);
                        let w = stash_idx(s0, id2);
                        assert(s1[w] == s0[w]);
                        assert(stash_has(s1, id2)) by {
                            assert(s1[w].entry.id == id2);
                        }
                        lemma_stash_idx(s1, id2);
                        assert(stash_idx(s1, id2) == w);
                    }
                }
            },
        }
    }

    /// Drop the draft for an id, if any.
    fn stash_remove(&mut self, id: i32)
        requires
            stash_unique(old(self).stash_dv()),
        ensures
            final (self).internal == old(self).internal,
            final (self).journal == old(self).journal,
            stash_unique(final (self).stash_dv()),
            !stash_has(final (self).stash_dv(), id),
            forall|id2: i32|
                id2 != id ==> #[trigger] stash_has(final (self).stash_dv(), id2) == stash_has(
                    old(self).stash_dv(),
                    id2,
                ),
            forall|id2: i32|
                id2 != id && stash_has(old(self).stash_dv(), id2) ==> #[trigger] stash_of(
                    final (self).stash_dv(),
                    id2,
                ) == stash_of(old(self).stash_dv(), id2),
    {
        let ghost s0 = self.stash_dv();
        let found = self.stash_find(id);
        match found {
            None => {},
            Some(i) => {
                self.stash.remove(i);
                proof {
                    let s1 = self.stash_dv();
                    assert(s1 =~= s0.remove(i as int));
                    assert(forall|a: int|
                        0 <= a < s1.len() ==> s1[a] == (if a < i {
                            s0[a]
                        } else {
                            s0[a + 1]
                        }));
                    assert(stash_unique(s1));
                    assert(!stash_has(s1, id)) by {
                        if stash_has(s1, id) {
                            let w = choose|w: int|
                                0 <= w < s1.len() && (#[trigger] s1[w].entry.id) == id;
                            let wo: int = if w < i {
                                w
                            } else {
                                w + 1
                            };
                            assert(s0[wo].entry.id == id);
                            assert(wo != i);
                            assert(s0[i as int].entry.id == id);
                        }
                    }
                    assert forall|id2: i32| id2 != id implies #[trigger] stash_has(s1, id2)
                        == stash_has(s0, id2) by {
                        if stash_has(s0, id2) {
                            let w = choose|w: int|
                                0 <= w < s0.len() && (#[trigger] s0[w].entry.id) == id2;
                            assert(w != i);
                            let wn: int = if w < i {
                                w
                            } else {
                                w - 1
                            };
                            assert(s1[wn].entry.id == id2);
                        }
                        if stash_has(s1, id2) {
                            let w = choose|w: int|
                                0 <= w < s1.len() && (#[trigger] s1[w].entry.id) == id2;
                            let wo: int = if w < i {
                                w
                            } else {
                                w + 1
                            };
                            assert(s0[wo].entry.id == id2);
                        }
                    }
                    assert forall|id2: i32|
                        id2 != id && stash_has(s0, id2) implies #[trigger] stash_of(s1, id2)
                        == stash_of(s0, id2) by {
                        lemma_stash_idx(s0, id2);
                        let w = stash_idx(s0, id2);
                        assert(w != i);
                        let wn: int = if w < i {
                            w
                        } else {
                            w - 1
                        };
                        assert(s1[wn] == s0[w]);
                        assert(stash_has(s1, id2)) by {
                            assert(s1[wn].entry.id == id2);
                        }
                        lemma_stash_idx(s1, id2);
                        assert(stash_idx(s1, id2) == wn);
                    }
                }
            },
        }
    }

    /// Direct mutation: upsert through the index engine, then journal
    /// the stored row for persistence under its id.
    pub fn put(&mut self, entry: Entry) -> (r: Result<(), StoreError>)
        requires
            old(self).wf(),
        ensures
            final (self).wf(),
            final (self).stash == old(self).stash,
            entry@.deleted ==> (r matches Err(e) && e == StoreError::DeletedEntry && *final (self)
                == *old(self)),
            !entry@.deleted && has_id(old(self).entries_dv(), entry@.id) && entry_of(
                old(self).entries_dv(),
                entry@.id,
            ).deleted ==> (r matches Err(e) && e == StoreError::DeletedEntry && *final (self)
                == *old(self)),
            !entry@.deleted && !(has_id(old(self).entries_dv(), entry@.id) && entry_of(
                old(self).entries_dv(),
                entry@.id,
            ).deleted) && (has_nul(entry@.name) || has_nul(entry@.name_eng)) ==> (r matches Err(e)
                && e == StoreError::InvalidString && *final (self) == *old(self)),
            !entry@.deleted && !(has_id(old(self).entries_dv(), entry@.id) && entry_of(
                old(self).entries_dv(),
                entry@.id,
            ).deleted) && !has_nul(entry@.name) && !has_nul(entry@.name_eng) ==> (r is Ok && exists|
                st: EntryModel,
            |
                {
                    &&& #[trigger] normalized(st, entry@)
                    &&& table_put(old(self).entries_dv(), final (self).entries_dv(), st)
                    &&& final (self).journal_dv() == old(self).journal_dv().push(st)
                }),
    {
        let ghost j0 = self.journal_dv();
        let res = self.internal.mem_put(entry);
        match res {
            Err(e) => Err(e),
            Ok((_id, stored)) => {
                let ghost st = stored@;
                self.journal.push(stored);
                proof {
                    assert(self.journal_dv() =~= j0.push(st));
                }
                Ok(())
            },
        }
    }

    /// Soft delete: tombstone through the index engine, journal the
    /// tombstone row, and drop any pending draft for the id.
    pub fn del(&mut self, id: i32) -> (r: Result<(), StoreError>)
        requires
            old(self).wf(),
        ensures
            final (self).wf(),
            !has_id(old(self).entries_dv(), id) ==> (r matches Err(e) && e == StoreError::NotFound
                && *final (self) == *old(self)),
            has_id(old(self).entries_dv(), id) ==> {
                &&& r is Ok
                &&& table_put(
                    old(self).entries_dv(),
                    final (self).entries_dv(),
                    del_marked(entry_of(old(self).entries_dv(), id)),
                )
                &&& final (self).journal_dv() == old(self).journal_dv().push(
                    del_marked(entry_of(old(self).entries_dv(), id)),
                )
                &&& !stash_has(final (self).stash_dv(), id)
                &&& forall|id2: i32|
                    id2 != id ==> #[trigger] stash_has(final (self).stash_dv(), id2) == stash_has(
                        old(self).stash_dv(),
                        id2,
                    )
                &&& forall|id2: i32|
                    id2 != id && stash_has(old(self).stash_dv(), id2) ==> #[trigger] stash_of(
                        final (self).stash_dv(),
                        id2,
                    ) == stash_of(old(self).stash_dv(), id2)
            },
    {
        let ghost j0 = self.journal_dv();
        let res = self.internal.mem_del(id);
        match res {
            Err(e) => Err(e),
            Ok(row) => {
                let ghost st = row@;
                self.journal.push(row);
                self.stash_remove(id);
                proof {
                    assert(self.journal_dv() =~= j0.push(st));
                }
                Ok(())
            },
        }
    }

    /// Boot-time replay of one durable row: tombstones are loaded
    /// around the index, live rows rebuild it. A second tombstone for
    /// an id the table already holds marks a corrupt log.
    pub fn replay(&mut self, entry: Entry) -> (r: Result<(), StoreError>)
        requires
            old(self).wf(),
        ensures
            final (self).wf(),
            entry@.deleted && !has_id(old(self).entries_dv(), entry@.id) ==> (r is Ok && table_put(
                old(self).entries_dv(),
                final (self).entries_dv(),
                entry@,
            )),
            entry@.deleted && has_id(old(self).entries_dv(), entry@.id) ==> (r matches Err(e) && e
                == StoreError::SystemError && *final (self) == *old(self)),
            !entry@.deleted && !(has_id(old(self).entries_dv(), entry@.id) && entry_of(
                old(self).entries_dv(),
                entry@.id,
            ).deleted) && !has_nul(entry@.name) && !has_nul(entry@.name_eng) ==> (r is Ok && exists|
                st: EntryModel,
            |
                {
                    &&& #[trigger] normalized(st, entry@)
                    &&& table_put(old(self).entries_dv(), final (self).entries_dv(), st)
                }),
    {
        if entry.deleted {
            let found = self.internal.fetch(entry.id);
            match found {
                Some(_) => Err(StoreError::SystemError),
                None => {
                    self.internal.mem_load(entry);
                    Ok(())
                },
            }
        } else {
            let res = self.internal.mem_put(entry);
            match res {
                Err(e) => Err(e),
                Ok(_) => Ok(()),
            }
        }
    }

    /// Boot-time restore of the draft overlay, last writer per id
    /// winning: each snapshot id ends up holding the last snapshot
    /// draft bearing it, and ids the snapshot does not mention keep
    /// whatever slot they had. Over an empty overlay the result is
    /// exactly the snapshot's map.
    pub fn restore_stash(&mut self, drafts: Vec<StashedEntry>)
        requires
            old(self).wf(),
        ensures
            final (self).wf(),
            final (self).internal == old(self).internal,
            final (self).journal == old(self).journal,
            forall|k: int|
                0 <= k < drafts.deep_view().len() ==> stash_has(
                    final (self).stash_dv(),
                    (#[trigger] drafts.deep_view()[k]).entry.id,
                ),
            forall|k: int|
                0 <= k < drafts.deep_view().len() && (forall|k2: int|
                    k < k2 < drafts.deep_view().len() ==> (
                    #[trigger] drafts.deep_view()[k2]).entry.id
                        != drafts.deep_view()[k].entry.id) ==> stash_of(
                    final (self).stash_dv(),
                    (#[trigger] drafts.deep_view()[k]).entry.id,
                ) == drafts.deep_view()[k],
            forall|id2: i32|
                (forall|k: int|
                    0 <= k < drafts.deep_view().len() ==> (
                    #[trigger] drafts.deep_view()[k]).entry.id != id2) ==> #[trigger] stash_has(
                    final (self).stash_dv(),
                    id2,
                ) == stash_has(old(self).stash_dv(), id2),
            forall|id2: i32|
                (forall|k: int|
                    0 <= k < drafts.deep_view().len() ==> (
                    #[trigger] drafts.deep_view()[k]).entry.id != id2) && stash_has(
                    old(self).stash_dv(),
                    id2,
                ) ==> #[trigger] stash_of(final (self).stash_dv(), id2) == stash_of(
                    old(self).stash_dv(),
                    id2,
                ),
    {
        let n = drafts.len();
        let mut drafts = drafts;
        let ghost ddv = drafts.deep_view();
        let ghost s0 = self.stash_dv();
        let mut k: usize = 0;
        while k < n
            invariant
                n == drafts@.len(),
                ddv == drafts.deep_view(),
                s0 == old(self).stash_dv(),
                0 <= k <= n,
                self.internal == old(self).internal,
                self.journal == old(self).journal,
                self.internal.wf(),
                stash_unique(self.stash_dv()),
                forall|m: int|
                    0 <= m < k ==> stash_has(self.stash_dv(), (#[trigger] ddv[m]).entry.id),
                forall|m: int|
                    0 <= m < k && (forall|m2: int|
                        m < m2 < k ==> (#[trigger] ddv[m2]).entry.id != ddv[m].entry.id)
                        ==> stash_of(self.stash_dv(), (#[trigger] ddv[m]).entry.id) == ddv[m],
                forall|id2: i32|
                    (forall|m: int| 0 <= m < k ==> (#[trigger] ddv[m]).entry.id != id2)
                        ==> #[trigger] stash_has(self.stash_dv(), id2) == stash_has(s0, id2),
                forall|id2: i32|
                    (forall|m: int| 0 <= m < k ==> (#[trigger] ddv[m]).entry.id != id2)
                        && stash_has(s0, id2) ==> #[trigger] stash_of(self.stash_dv(), id2)
                        == stash_of(s0, id2),
            decreases n - k,
        {
            let se = drafts[k].clone();
            proof {
                assert(se@ == ddv[k as int]);
            }
            let ghost before = self.stash_dv();
            self.stash_insert(se);
            proof {
                assert forall|m: int| 0 <= m < k + 1 implies stash_has(
                    self.stash_dv(),
                    (#[trigger] ddv[m]).entry.id,
                ) by {
                    if m < k {
                        if ddv[m].entry.id != ddv[k as int].entry.id {
                        }
                    }
                }
                assert forall|m: int|
                    0 <= m < k + 1 && (forall|m2: int|
                        m < m2 < k + 1 ==> (#[trigger] ddv[m2]).entry.id
                            != ddv[m].entry.id) implies stash_of(
                    self.stash_dv(),
                    (#[trigger] ddv[m]).entry.id,
                ) == ddv[m] by {
                    if m == k {
                    } else {
                        assert(ddv[k as int].entry.id != ddv[m].entry.id);
                        assert(stash_of(before, ddv[m].entry.id) == ddv[m]);
                    }
                }
                assert forall|id2: i32|
                    (forall|m: int|
                        0 <= m < k + 1 ==> (#[trigger] ddv[m]).entry.id != id2) implies
                #[trigger] stash_has(self.stash_dv(), id2) == stash_has(s0, id2) by {
                    assert(ddv[k as int].entry.id != id2);
                    assert(stash_has(before, id2) == stash_has(s0, id2));
                }
                assert forall|id2: i32|
                    (forall|m: int| 0 <= m < k + 1 ==> (#[trigger] ddv[m]).entry.id != id2)
                        && stash_has(s0, id2) implies #[trigger] stash_of(self.stash_dv(), id2)
                    == stash_of(s0, id2) by {
                    assert(ddv[k as int].entry.id != id2);
                    assert(stash_has(before, id2) == stash_has(s0, id2));
                    assert(stash_of(before, id2) == stash_of(s0, id2));
                }
            }
            k = k + 1;
        }
    }

    pub fn len(&self) -> (r: u64)
        ensures
            r as int == self.entries_dv().len(),
    {
        self.internal.len()
    }

    pub fn highest_id(&self) -> (r: i32)
        requires
            self.wf(),
        ensures
            self.entries_dv().len() == 0 ==> r == 0,
            self.entries_dv().len() > 0 ==> r == self.entries_dv().last().id,
            forall|k: int|
                0 <= k < self.entries_dv().len() ==> (#[trigger] self.entries_dv()[k].id) <= r,
    {
        self.internal.highest_id()
    }

    pub fn fetch(&self, id: i32) -> (r: Option<Entry>)
        requires
            self.wf(),
        ensures
            match r {
                Some(e) => has_id(self.entries_dv(), id) && e@ == entry_of(self.entries_dv(), id),
                None => !has_id(self.entries_dv(), id),
            },
    {
        self.internal.fetch(id)
    }

    pub fn filter(&self, avail: Option<Availability>, keywords: Option<&Vec<String>>) -> (r: Vec<
        Entry,
    >)
        requires
            self.wf(),
        ensures
            keywords is None ==> {
                &&& forall|j: int|
                    0 <= j < r.deep_view().len() ==> {
                        let e = #[trigger] r.deep_view()[j];
                        &&& has_id(self.entries_dv(), e.id)
                        &&& e == entry_of(self.entries_dv(), e.id)
                        &&& !e.deleted
                        &&& !e.hidden
                        &&& avail_match(e, avail)
                    }
                &&& forall|k: int|
                    0 <= k < self.entries_dv().len() && !(#[trigger] self.entries_dv()[k]).deleted
                        && !self.entries_dv()[k].hidden && avail_match(
                        self.entries_dv()[k],
                        avail,
                    ) ==> exists|j: int|
                        0 <= j < r.deep_view().len() && r.deep_view()[j].id
                            == self.entries_dv()[k].id
                &&& forall|j1: int, j2: int|
                    0 <= j1 < j2 < r.deep_view().len() ==> (#[trigger] r.deep_view()[j1].id) != (
                    #[trigger] r.deep_view()[j2].id)
                &&& forall|j1: int, j2: int|
                    0 <= j1 < j2 < r.deep_view().len() ==> chars_le(
                        (#[trigger] r.deep_view()[j1]).name,
                        (#[trigger] r.deep_view()[j2]).name,
                    )
            },
            keywords matches Some(q) ==> {
                &&& forall|j: int|
                    0 <= j < r.deep_view().len() ==> {
                        let e = #[trigger] r.deep_view()[j];
                        &&& has_id(self.entries_dv(), e.id)
                        &&& e == entry_of(self.entries_dv(), e.id)
                        &&& !e.deleted
                        &&& query_score(e, q.deep_view()) > 0
                        &&& avail_match(e, avail)
                    }
                &&& forall|k: int|
                    0 <= k < self.entries_dv().len() && !(#[trigger] self.entries_dv()[k]).deleted
                        && query_score(self.entries_dv()[k], q.deep_view()) > 0 && avail_match(
                        self.entries_dv()[k],
                        avail,
                    ) ==> exists|j: int|
                        0 <= j < r.deep_view().len() && r.deep_view()[j].id
                            == self.entries_dv()[k].id
                &&& forall|j1: int, j2: int|
                    0 <= j1 < j2 < r.deep_view().len() ==> (#[trigger] r.deep_view()[j1].id) != (
                    #[trigger] r.deep_view()[j2].id)
                &&& forall|j1: int, j2: int|
                    0 <= j1 < j2 < r.deep_view().len() ==> ranked(
                        #[trigger] r.deep_view()[j1],
                        #[trigger] r.deep_view()[j2],
                        q.deep_view(),
                    )
            },
    {
        self.internal.filter(avail, keywords)
    }

    /// Drain the rows that mutations made durable-worthy, in the
    /// order they were produced; the caller persists each under its
    /// id.
    pub fn take_writes(&mut self) -> (r: Vec<Entry>)
        ensures
            r.deep_view() == old(self).journal_dv(),
            final (self).journal_dv() == Seq::<EntryModel>::empty(),
            final (self).internal == old(self).internal,
            final (self).stash == old(self).stash,
    {
        let mut out: Vec<Entry> = Vec::new();
        core::mem::swap(&mut out, &mut self.journal);
        proof {
            assert(self.journal_dv() =~= Seq::<EntryModel>::empty());
        }
        out
    }

    /// Two-phase edit, step one. A proposed id beyond the current row
    /// count is new: it is rejected for restricted callers, and
    /// otherwise reserved at once by persisting a hidden placeholder
    /// while the full content waits in the draft overlay. An edit
    /// identical to the committed row is a no-op that clears the
    /// draft; anything else replaces the draft, touching neither the
    /// index nor the journal.
    pub fn stash(&mut self, entry: Entry, restricted: bool) -> (r: Result<(), StoreError>)
        requires
            old(self).wf(),
        ensures
            final (self).wf(),
            entry@.id as int > old(self).entries_dv().len() as int && restricted ==> (r matches Err(
                e,
            ) && e == StoreError::Denied && *final (self) == *old(self)),
            entry@.id as int > old(self).entries_dv().len() as int && !restricted ==> {
                &&& stash_has(final (self).stash_dv(), entry@.id)
                &&& stash_of(final (self).stash_dv(), entry@.id).entry == entry@
                &&& forall|id2: i32|
                    id2 != entry@.id ==> #[trigger] stash_has(final (self).stash_dv(), id2)
                        == stash_has(old(self).stash_dv(), id2)
                &&& (!entry@.deleted && !(has_id(old(self).entries_dv(), entry@.id) && entry_of(
                    old(self).entries_dv(),
                    entry@.id,
                ).deleted) && !has_nul(entry@.name) && !has_nul(entry@.name_eng) ==> (r is Ok
                    && has_id(final (self).entries_dv(), entry@.id) && entry_of(
                    final (self).entries_dv(),
                    entry@.id,
                ).hidden && !entry_of(final (self).entries_dv(), entry@.id).deleted && (!has_id(
                    old(self).entries_dv(),
                    entry@.id,
                ) ==> final (self).entries_dv().len() == old(self).entries_dv().len() + 1)
                    && exists|st: EntryModel|
                    {
                        &&& #[trigger] normalized(st, hidden_of(entry@))
                        &&& table_put(old(self).entries_dv(), final (self).entries_dv(), st)
                        &&& final (self).journal_dv() == old(self).journal_dv().push(st)
                    }))
                &&& (entry@.deleted ==> (r matches Err(e) && e == StoreError::DeletedEntry))
                &&& (!entry@.deleted && has_id(old(self).entries_dv(), entry@.id) && entry_of(
                    old(self).entries_dv(),
                    entry@.id,
                ).deleted ==> (r matches Err(e) && e == StoreError::DeletedEntry))
                &&& (!entry@.deleted && !(has_id(old(self).entries_dv(), entry@.id) && entry_of(
                    old(self).entries_dv(),
                    entry@.id,
                ).deleted) && (has_nul(entry@.name) || has_nul(entry@.name_eng)) ==> (r matches Err(
                    e,
                ) && e == StoreError::InvalidString))
                &&& (r is Err ==> final (self).internal == old(self).internal && final (
                self).journal == old(self).journal)
            },
            entry@.id as int <= old(self).entries_dv().len() as int && has_id(
                old(self).entries_dv(),
                entry@.id,
            ) && entry_of(old(self).entries_dv(), entry@.id) == entry@ ==> {
                &&& r is Ok
                &&& !stash_has(final (self).stash_dv(), entry@.id)
                &&& forall|id2: i32|
                    id2 != entry@.id ==> #[trigger] stash_has(final (self).stash_dv(), id2)
                        == stash_has(old(self).stash_dv(), id2)
                &&& final (self).internal == old(self).internal
                &&& final (self).journal == old(self).journal
            },
            entry@.id as int <= old(self).entries_dv().len() as int && !(has_id(
                old(self).entries_dv(),
                entry@.id,
            ) && entry_of(old(self).entries_dv(), entry@.id) == entry@) ==> {
                &&& r is Ok
                &&& stash_has(final (self).stash_dv(), entry@.id)
                &&& stash_of(final (self).stash_dv(), entry@.id).entry == entry@
                &&& forall|id2: i32|
                    id2 != entry@.id ==> #[trigger] stash_has(final (self).stash_dv(), id2)
                        == stash_has(old(self).stash_dv(), id2)
                &&& final (self).internal == old(self).internal
                &&& final (self).journal == old(self).journal
            },
    {
        let ghost em0 = entry@;
        let ghost dv0 = self.entries_dv();
        let n = self.internal.len();
        let is_new = entry.id > 0 && (entry.id as u64) > n;
        proof {
            assert(is_new == (entry@.id as int > self.entries_dv().len() as int));
        }
        if is_new {
            if restricted {
                return Err(StoreError::Denied);
            }
            let ts = now_millis();
            let se = StashedEntry { entry: entry.clone(), timestamp: ts };
            self.stash_insert(se);
            let mut e2 = entry;
            e2.hidden = true;
            proof {
                assert(e2@ =~= hidden_of(em0));
            }
            let r = self.put(e2);
            proof {
                let he = hidden_of(em0);
                if !em0.deleted && !(has_id(dv0, em0.id) && entry_of(dv0, em0.id).deleted)
                    && !has_nul(em0.name) && !has_nul(em0.name_eng) {
                    let st = choose|st: EntryModel|
                        {
                            &&& #[trigger] normalized(st, he)
                            &&& table_put(dv0, self.entries_dv(), st)
                            &&& self.journal_dv() == old(self).journal_dv().push(st)
                        };
                    assert(st.id == em0.id);
                    assert(st.hidden == he.hidden && st.deleted == he.deleted);
                    assert(has_id(self.entries_dv(), em0.id));
                    assert(entry_of(self.entries_dv(), em0.id) == st);
                }
            }
            r
        } else if self.internal.cmp_entry(&entry) {
            self.stash_remove(entry.id);
            Ok(())
        } else {
            let ts = now_millis();
            self.stash_insert(StashedEntry { entry, timestamp: ts });
            Ok(())
        }
    }

    /// Two-phase edit, step two: apply the pending draft for an id
    /// through `put`; with no draft the commit is a harmless no-op.
    pub fn commit(&mut self, id: i32) -> (r: Result<(), StoreError>)
        requires
            old(self).wf(),
        ensures
            final (self).wf(),
            !stash_has(old(self).stash_dv(), id) ==> (r is Ok && *final (self) == *old(self)),
            stash_has(old(self).stash_dv(), id) ==> {
                let c = stash_of(old(self).stash_dv(), id).entry;
                &&& !stash_has(final (self).stash_dv(), id)
                &&& forall|id2: i32|
                    id2 != id ==> #[trigger] stash_has(final (self).stash_dv(), id2) == stash_has(
                        old(self).stash_dv(),
                        id2,
                    )
                &&& (!c.deleted && !(has_id(old(self).entries_dv(), c.id) && entry_of(
                    old(self).entries_dv(),
                    c.id,
                ).deleted) && !has_nul(c.name) && !has_nul(c.name_eng) ==> (r is Ok && has_id(
                    final (self).entries_dv(),
                    c.id,
                ) && entry_of(final (self).entries_dv(), c.id).hidden == c.hidden && !entry_of(
                    final (self).entries_dv(),
                    c.id,
                ).deleted && (!has_id(old(self).entries_dv(), c.id) ==> final (
                self).entries_dv().len() == old(self).entries_dv().len() + 1) && exists|
                    st: EntryModel,
                |
                    {
                        &&& #[trigger] normalized(st, c)
                        &&& table_put(old(self).entries_dv(), final (self).entries_dv(), st)
                        &&& final (self).journal_dv() == old(self).journal_dv().push(st)
                    }))
                &&& (r is Err ==> final (self).internal == old(self).internal && final (
                self).journal == old(self).journal)
            },
    {
        let ghost dv0 = self.entries_dv();
        let found = self.stash_find(id);
        match found {
            None => Ok(()),
            Some(i) => {
                proof {
                    assert(stash_has(self.stash_dv(), id)) by {
                        assert(self.stash_dv()[i as int].entry.id == id);
                    }
                    lemma_stash_idx(self.stash_dv(), id);
                    assert(stash_idx(self.stash_dv(), id) == i as int);
                }
                let se = self.stash[i].clone();
                let ghost cm = se@.entry;
                self.stash_remove(id);
                proof {
                    assert(se@.entry.id == id);
                    assert(cm == stash_of(old(self).stash_dv(), id).entry);
                }
                let r = self.put(se.get());
                proof {
                    if !cm.deleted && !(has_id(dv0, cm.id) && entry_of(dv0, cm.id).deleted)
                        && !has_nul(cm.name) && !has_nul(cm.name_eng) {
                        let st = choose|st: EntryModel|
                            {
                                &&& #[trigger] normalized(st, cm)
                                &&& table_put(dv0, self.entries_dv(), st)
                                &&& self.journal_dv() == old(self).journal_dv().push(st)
                            };
                        assert(st.id == cm.id);
                        assert(st.hidden == cm.hidden && st.deleted == cm.deleted);
                        assert(has_id(self.entries_dv(), cm.id));
                        assert(entry_of(self.entries_dv(), cm.id) == st);
                    }
                }
                r
            },
        }
    }

    /// Drop the pending draft for an id, applying nothing.
    pub fn discard(&mut self, id: i32)
        requires
            old(self).wf(),
        ensures
            final (self).wf(),
            final (self).internal == old(self).internal,
            final (self).journal == old(self).journal,
            !stash_has(final (self).stash_dv(), id),
            forall|id2: i32|
                id2 != id ==> #[trigger] stash_has(final (self).stash_dv(), id2) == stash_has(
                    old(self).stash_dv(),
                    id2,
                ),
            forall|id2: i32|
                id2 != id && stash_has(old(self).stash_dv(), id2) ==> #[trigger] stash_of(
                    final (self).stash_dv(),
                    id2,
                ) == stash_of(old(self).stash_dv(), id2),
    {
        self.stash_remove(id);
    }

    /// The editor-facing view of one id: its draft if one exists,
    /// else the committed record, else nothing.
    pub fn pull_fetch(&self, id: i32) -> (r: Option<PullEntry>)
        requires
            self.wf(),
        ensures
            stash_has(self.stash_dv(), id) ==> (r matches Some(p) && p@ == PullModel::Stashed(
                stash_of(self.stash_dv(), id),
            )),
            !stash_has(self.stash_dv(), id) && has_id(self.entries_dv(), id) ==> (r matches Some(p)
                && p@ == PullModel::Unmodified(entry_of(self.entries_dv(), id))),
            !stash_has(self.stash_dv(), id) && !has_id(self.entries_dv(), id) ==> r is None,
    {
        let found = self.stash_find(id);
        match found {
            Some(i) => {
                proof {
                    assert(stash_has(self.stash_dv(), id)) by {
                        assert(self.stash_dv()[i as int].entry.id == id);
                    }
                    lemma_stash_idx(self.stash_dv(), id);
                    assert(stash_idx(self.stash_dv(), id) == i as int);
                }
                Some(PullEntry::Stashed(self.stash[i].clone()))
            },
            None => {
                let fetched = self.internal.fetch(id);
                match fetched {
                    Some(e) => Some(PullEntry::Unmodified(e)),
                    None => None,
                }
            },
        }
    }

    /// The editor-facing view of every non-deleted id, sorted by id.
    pub fn pull(&self) -> (r: Vec<PullEntry>)
        requires
            self.wf(),
        ensures
            forall|j: int|
                0 <= j < r.deep_view().len() ==> {
                    let p = #[trigger] r.deep_view()[j];
                    &&& has_id(self.entries_dv(), p.id())
                    &&& !entry_of(self.entries_dv(), p.id()).deleted
                    &&& (stash_has(self.stash_dv(), p.id()) ==> p == PullModel::Stashed(
                        stash_of(self.stash_dv(), p.id()),
                    ))
                    &&& (!stash_has(self.stash_dv(), p.id()) ==> p == PullModel::Unmodified(
                        entry_of(self.entries_dv(), p.id()),
                    ))
                },
            forall|k: int|
                0 <= k < self.entries_dv().len() && !(#[trigger] self.entries_dv()[k]).deleted
                    ==> exists|j: int|
                    0 <= j < r.deep_view().len() && r.deep_view()[j].id()
                        == self.entries_dv()[k].id,
            forall|j1: int, j2: int|
                0 <= j1 < j2 < r.deep_view().len() ==> (#[trigger] r.deep_view()[j1].id()) < (
                #[trigger] r.deep_view()[j2].id()),
    {
        let ghost dv = self.entries_dv();
        let mut out: Vec<PullEntry> = Vec::new();
        let n = self.internal.entries.len();
        let mut i: usize = 0;
        while i < n
            invariant
                self.wf(),
                dv == self.entries_dv(),
                n == dv.len(),
                0 <= i <= n,
                forall|j: int|
                    0 <= j < out.deep_view().len() ==> {
                        let p = #[trigger] out.deep_view()[j];
                        &&& has_id(dv, p.id())
                        &&& !entry_of(dv, p.id()).deleted
                        &&& (stash_has(self.stash_dv(), p.id()) ==> p == PullModel::Stashed(
                            stash_of(self.stash_dv(), p.id()),
                        ))
                        &&& (!stash_has(self.stash_dv(), p.id()) ==> p == PullModel::Unmodified(
                            entry_of(dv, p.id()),
                        ))
                    },
                forall|k: int|
                    0 <= k < i && !(#[trigger] dv[k]).deleted ==> exists|j: int|
                        0 <= j < out.deep_view().len() && out.deep_view()[j].id() == dv[k].id,
                forall|j: int, k: int|
                    0 <= j < out.deep_view().len() && i <= k < n ==> (
                    #[trigger] out.deep_view()[j].id()) < (#[trigger] dv[k].id),
                forall|j1: int, j2: int|
                    0 <= j1 < j2 < out.deep_view().len() ==> (#[trigger] out.deep_view()[j1].id())
                        < (#[trigger] out.deep_view()[j2].id()),
            decreases n - i,
        {
            let e = &self.internal.entries[i];
            if !e.deleted {
                proof {
                    assert(has_id(dv, dv[i as int].id)) by {
                        assert(dv[i as int].id == dv[i as int].id);
                    }
                    lemma_idx_of(dv, dv[i as int].id);
                    assert(idx_of(dv, dv[i as int].id) == i as int);
                }
                let eid = e.id;
                let ghost before = out.deep_view();
                let found = self.stash_find(eid);
                match found {
                    Some(si) => {
                        proof {
                            assert(stash_has(self.stash_dv(), eid)) by {
                                assert(self.stash_dv()[si as int].entry.id == eid);
                            }
                            lemma_stash_idx(self.stash_dv(), eid);
                            assert(stash_idx(self.stash_dv(), eid) == si as int);
                        }
                        out.push(PullEntry::Stashed(self.stash[si].clone()));
                        proof {
                            assert(out.deep_view() =~= before.push(
                                PullModel::Stashed(stash_of(self.stash_dv(), eid)),
                            ));
                        }
                    },
                    None => {
                        out.push(PullEntry::Unmodified(e.clone()));
                        proof {
                            assert(out.deep_view() =~= before.push(
                                PullModel::Unmodified(dv[i as int]),
                            ));
                        }
                    },
                }
                proof {
                    assert(out.deep_view()[before.len() as int].id() == dv[i as int].id);
                    assert forall|k: int| 0 <= k < i + 1 && !(#[trigger] dv[k]).deleted implies
                    exists|j: int|
                        0 <= j < out.deep_view().len() && out.deep_view()[j].id()
                            == dv[k].id by {
                        if k == i {
                            assert(out.deep_view()[before.len() as int].id() == dv[k].id);
                        } else {
                            let j = choose|j: int|
                                0 <= j < before.len() && before[j].id() == dv[k].id;
                            assert(out.deep_view()[j].id() == dv[k].id);
                        }
                    }
                }
            }
            i = i + 1;
        }
        out
    }

    /// The reference count the index holds for one (token, id, kind)
    /// triple; a diagnostic view of the posting table.
    pub fn index_count(&self, token: &str, id: i32, ty: crate::entry::IndexType) -> (r: u128)
        requires
            self.wf(),
        ensures
            r as int == crate::index::pcount(self.internal.postings@, token@, id, ty),
    {
        self.internal.index_count(token, id, ty)
    }

    /// The draft overlay as a value, for the shutdown snapshot.
    pub fn stash_snapshot(&self) -> (r: Vec<StashedEntry>)
        ensures
            r.deep_view() == self.stash_dv(),
    {
        let n = self.stash.len();
        let mut out: Vec<StashedEntry> = Vec::new();
        let mut i: usize = 0;
        while i < n
            invariant
                n == self.stash@.len(),
                0 <= i <= n,
                out.deep_view().len() == i,
                forall|k: int|
                    0 <= k < i ==> (#[trigger] out.deep_view()[k]) == self.stash_dv()[k],
            decreases n - i,
        {
            let ghost before = out.deep_view();
            out.push(self.stash[i].clone());
            proof {
                assert(out.deep_view() =~= before.push(self.stash_dv()[i as int]));
            }
            i = i + 1;
        }
        proof {
            assert(out.deep_view() =~= self.stash_dv());
        }
        out
    }
}

} // verus!
