//! The inverted index engine: the canonical in-memory entry table and
//! the token-to-weighted-posting index, with incremental add, remove
//! and update, and scored search.
//!
//! The index is held as a flat table of postings, each a reference
//! count for one (token, entry id, field kind) triple. Its governing
//! invariant ties every count to the entry table: the count for a
//! triple equals exactly the number of times the non-deleted entry
//! with that id derives the token from that field.

use vstd::prelude::*;
use crate::entry::Availability;
use crate::entry::Entry;
use crate::entry::EntryModel;
use crate::entry::Index;
use crate::entry::IndexType;
use crate::entry::StoreError;
use crate::segment::Segmenter;
use crate::segment::segments_of;
use crate::text::chars_le;
use crate::text::has_nul;
use crate::text::occ;
use crate::text::str_contains_nul;
use crate::text::str_eq;
use crate::text::lemma_occ_take_step;
use crate::text::lemma_occ_take_all;
use crate::text::lemma_occ_take_mono;
use crate::text::lemma_occ_prefix_missing;

verus! {

/// One reference-counted posting: how many live references the entry
/// `target.id` holds on `token` through field kind `target.t`.
pub struct Posting {
    pub token: String,
    pub target: Index,
    pub count: u128,
}

/// The contribution of a single posting to the count of one triple.
pub open spec fn pc1(p: Posting, tok: Seq<char>, id: i32, ty: IndexType) -> int {
    if p.token@ == tok && p.target.id == id && p.target.t == ty {
        p.count as int
    } else {
        0
    }
}

/// The total reference count a posting table holds for one triple.
pub open spec fn pcount(ps: Seq<Posting>, tok: Seq<char>, id: i32, ty: IndexType) -> int
    decreases ps.len(),
{
    if ps.len() == 0 {
        0
    } else {
        pc1(ps.last(), tok, id, ty) + pcount(ps.drop_last(), tok, id, ty)
    }
}

/// At most one posting per (token, id, kind) triple.
pub open spec fn postings_unique(ps: Seq<Posting>) -> bool {
    forall|i: int, j: int|
        0 <= i < j < ps.len() ==> !(ps[i].token@ == ps[j].token@ && ps[i].target == ps[j].target)
}

/// Counts that dropped to zero are pruned outright.
pub open spec fn postings_positive(ps: Seq<Posting>) -> bool {
    forall|i: int| 0 <= i < ps.len() ==> (#[trigger] ps[i].count) >= 1
}

pub proof fn lemma_pcount_nonneg(ps: Seq<Posting>, tok: Seq<char>, id: i32, ty: IndexType)
    requires
        postings_positive(ps),
    ensures
        pcount(ps, tok, id, ty) >= 0,
    decreases ps.len(),
{
    if ps.len() > 0 {
        assert(postings_positive(ps.drop_last())) by {
            assert(forall|i: int|
                0 <= i < ps.drop_last().len() ==> ps.drop_last()[i] == ps[i]);
        }
        lemma_pcount_nonneg(ps.drop_last(), tok, id, ty);
        assert(ps[ps.len() - 1].count >= 1);
    }
}

pub proof fn lemma_pcount_push(ps: Seq<Posting>, p: Posting, tok: Seq<char>, id: i32, ty: IndexType)
    ensures
        pcount(ps.push(p), tok, id, ty) == pcount(ps, tok, id, ty) + pc1(p, tok, id, ty),
{
    assert(ps.push(p).drop_last() =~= ps);
    assert(ps.push(p).last() == p);
}

pub proof fn lemma_pcount_update(
    ps: Seq<Posting>,
    i: int,
    p: Posting,
    tok: Seq<char>,
    id: i32,
    ty: IndexType,
)
    requires
        0 <= i < ps.len(),
    ensures
        pcount(ps.update(i, p), tok, id, ty) == pcount(ps, tok, id, ty) - pc1(ps[i], tok, id, ty)
            + pc1(p, tok, id, ty),
    decreases ps.len(),
{
    if i == ps.len() - 1 {
        assert(ps.update(i, p).drop_last() =~= ps.drop_last());
        assert(ps.update(i, p).last() == p);
    } else {
        assert(ps.update(i, p).drop_last() =~= ps.drop_last().update(i, p));
        assert(ps.update(i, p).last() == ps.last());
        lemma_pcount_update(ps.drop_last(), i, p, tok, id, ty);
    }
}

pub proof fn lemma_pcount_remove(ps: Seq<Posting>, i: int, tok: Seq<char>, id: i32, ty: IndexType)
    requires
        0 <= i < ps.len(),
    ensures
        pcount(ps.remove(i), tok, id, ty) == pcount(ps, tok, id, ty) - pc1(ps[i], tok, id, ty),
    decreases ps.len(),
{
    if i == ps.len() - 1 {
        assert(ps.remove(i) =~= ps.drop_last());
    } else {
        assert(ps.remove(i).drop_last() =~= ps.drop_last().remove(i));
        assert(ps.remove(i).last() == ps.last());
        lemma_pcount_remove(ps.drop_last(), i, tok, id, ty);
    }
}

/// With no matching posting, the count of a triple is zero.
pub proof fn lemma_pcount_no_match(ps: Seq<Posting>, tok: Seq<char>, id: i32, ty: IndexType)
    requires
        forall|i: int|
            0 <= i < ps.len() ==> !((#[trigger] ps[i]).token@ == tok && ps[i].target == (Index {
                id,
                t: ty,
            })),
    ensures
        pcount(ps, tok, id, ty) == 0,
    decreases ps.len(),
{
    if ps.len() > 0 {
        assert(forall|i: int|
            0 <= i < ps.drop_last().len() ==> ps.drop_last()[i] == ps[i]);
        lemma_pcount_no_match(ps.drop_last(), tok, id, ty);
        assert(pc1(ps.last(), tok, id, ty) == 0) by {
            assert(ps[ps.len() - 1] == ps.last());
        }
    }
}

/// In a table without duplicate triples, the count of a triple is the
/// count of its unique posting.
pub proof fn lemma_pcount_found(ps: Seq<Posting>, i: int, tok: Seq<char>, id: i32, ty: IndexType)
    requires
        postings_unique(ps),
        0 <= i < ps.len(),
        ps[i].token@ == tok,
        ps[i].target == (Index { id, t: ty }),
    ensures
        pcount(ps, tok, id, ty) == ps[i].count as int,
    decreases ps.len(),
{
    if i == ps.len() - 1 {
        assert(forall|j: int|
            0 <= j < ps.drop_last().len() ==> !((#[trigger] ps.drop_last()[j]).token@ == tok
                && ps.drop_last()[j].target == (Index { id, t: ty }))) by {
            assert(forall|j: int|
                0 <= j < ps.drop_last().len() ==> ps.drop_last()[j] == ps[j]);
        }
        lemma_pcount_no_match(ps.drop_last(), tok, id, ty);
        assert(ps[i] == ps.last());
    } else {
        assert(postings_unique(ps.drop_last())) by {
            assert(forall|j: int|
                0 <= j < ps.drop_last().len() ==> ps.drop_last()[j] == ps[j]);
        }
        assert(ps.drop_last()[i] == ps[i]);
        lemma_pcount_found(ps.drop_last(), i, tok, id, ty);
        assert(pc1(ps.last(), tok, id, ty) == 0) by {
            assert(ps[ps.len() - 1] == ps.last());
        }
    }
}

/// The count of a triple over a scan prefix, one posting at a time.
pub proof fn lemma_pcount_take_step(
    ps: Seq<Posting>,
    i: int,
    tok: Seq<char>,
    id: i32,
    ty: IndexType,
)
    requires
        0 <= i < ps.len(),
    ensures
        pcount(ps.take(i + 1), tok, id, ty) == pcount(ps.take(i), tok, id, ty) + pc1(
            ps[i],
            tok,
            id,
            ty,
        ),
{
    assert(ps.take(i + 1).drop_last() =~= ps.take(i));
    assert(ps.take(i + 1).last() == ps[i]);
}


/// The entry table keeps its rows in strictly increasing id order,
/// which makes ids unique.
pub open spec fn ids_strictly_increasing(s: Seq<EntryModel>) -> bool {
    forall|i: int, j: int| 0 <= i < j < s.len() ==> (#[trigger] s[i].id) < (#[trigger] s[j].id)
}

pub open spec fn has_id(s: Seq<EntryModel>, id: i32) -> bool {
    exists|i: int| 0 <= i < s.len() && (#[trigger] s[i].id) == id
}

pub open spec fn idx_of(s: Seq<EntryModel>, id: i32) -> int {
    choose|i: int| 0 <= i < s.len() && (#[trigger] s[i].id) == id
}

/// The row stored under an id; meaningful only when `has_id` holds.
pub open spec fn entry_of(s: Seq<EntryModel>, id: i32) -> EntryModel {
    s[idx_of(s, id)]
}

pub proof fn lemma_idx_of(s: Seq<EntryModel>, id: i32)
    requires
        ids_strictly_increasing(s),
        has_id(s, id),
    ensures
        0 <= idx_of(s, id) < s.len(),
        s[idx_of(s, id)].id == id,
        entry_of(s, id).id == id,
        forall|i: int| 0 <= i < s.len() && (#[trigger] s[i].id) == id ==> i == idx_of(s, id),
{
    let w = idx_of(s, id);
    assert(0 <= w < s.len() && s[w].id == id);
    assert forall|i: int| 0 <= i < s.len() && (#[trigger] s[i].id) == id implies i == w by {
        if i < w {
            assert(s[i].id < s[w].id);
        } else if i > w {
            assert(s[w].id < s[i].id);
        }
    }
}

/// How many references entry `e` derives for token `tok` through field
/// kind `ty`: one per matching name field, one for a matching
/// category, one per matching tag, and one per matching segment of
/// either name.
pub open spec fn contrib_count(e: EntryModel, tok: Seq<char>, ty: IndexType) -> int {
    match ty {
        IndexType::Name => (if e.name == tok {
            1int
        } else {
            0int
        }) + (if e.name_eng == tok {
            1int
        } else {
            0int
        }),
        IndexType::Category => if e.category == tok {
            1int
        } else {
            0int
        },
        IndexType::Tag => occ(e.tags, tok) as int,
        IndexType::NameSeg => occ(segments_of(e.name), tok) as int + occ(
            segments_of(e.name_eng),
            tok,
        ) as int,
    }
}

/// What the index owes a triple: the contribution of the non-deleted
/// entry stored under that id, or nothing.
pub open spec fn live_contrib(s: Seq<EntryModel>, tok: Seq<char>, id: i32, ty: IndexType) -> int {
    if has_id(s, id) && !entry_of(s, id).deleted {
        contrib_count(entry_of(s, id), tok, ty)
    } else {
        0
    }
}

/// The governing invariant: the posting table exactly reflects the
/// non-deleted rows of the entry table, triple by triple.
pub open spec fn index_consistent(s: Seq<EntryModel>, ps: Seq<Posting>) -> bool {
    forall|tok: Seq<char>, id: i32, ty: IndexType|
        #[trigger] pcount(ps, tok, id, ty) == live_contrib(s, tok, id, ty)
}

/// Per-row well-formedness: a live row's names are NUL-free (they have
/// been through the tokenizer), and the sizes its contributions are
/// derived from fit a machine word, as they came from real vectors.
pub open spec fn entry_wf(e: EntryModel) -> bool {
    !e.deleted ==> {
        &&& !has_nul(e.name)
        &&& !has_nul(e.name_eng)
        &&& e.tags.len() <= usize::MAX as int
        &&& segments_of(e.name).len() <= usize::MAX as int
        &&& segments_of(e.name_eng).len() <= usize::MAX as int
    }
}

pub open spec fn entries_wf(s: Seq<EntryModel>) -> bool {
    forall|i: int| 0 <= i < s.len() ==> entry_wf(#[trigger] s[i])
}

/// What an upsert stores: the proposed entry with its tags brought
/// into ascending order (their multiset untouched), all other fields
/// as given.
pub open spec fn normalized(stored: EntryModel, e: EntryModel) -> bool {
    &&& stored.id == e.id
    &&& stored.name == e.name
    &&& stored.name_eng == e.name_eng
    &&& stored.category == e.category
    &&& stored.tags.to_multiset() == e.tags.to_multiset()
    &&& stored.tags.len() == e.tags.len()
    &&& crate::text::strings_sorted(stored.tags)
    &&& stored.desc == e.desc
    &&& stored.desc_eng == e.desc_eng
    &&& stored.files == e.files
    &&& stored.icon == e.icon
    &&& stored.creation == e.creation
    &&& stored.disbandment == e.disbandment
    &&& stored.deleted == e.deleted
    &&& stored.hidden == e.hidden
}

/// How the entry table changes when `m` is stored under its id: the
/// row under `m.id` becomes `m`, every other id keeps its row, and the
/// table grows by one exactly when the id is new.
pub open spec fn table_put(dv0: Seq<EntryModel>, dv1: Seq<EntryModel>, m: EntryModel) -> bool {
    &&& has_id(dv1, m.id)
    &&& entry_of(dv1, m.id) == m
    &&& forall|id2: i32| id2 != m.id ==> #[trigger] has_id(dv1, id2) == has_id(dv0, id2)
    &&& forall|id2: i32|
        id2 != m.id && has_id(dv0, id2) ==> #[trigger] entry_of(dv1, id2) == entry_of(dv0, id2)
    &&& dv1.len() == dv0.len() + (if has_id(dv0, m.id) {
        0int
    } else {
        1int
    })
}

/// A row with its tombstone flag set.
pub open spec fn del_marked(e: EntryModel) -> EntryModel {
    EntryModel { deleted: true, ..e }
}

pub proof fn lemma_insert_sorted(s: Seq<EntryModel>, pos: int, e: EntryModel)
    requires
        ids_strictly_increasing(s),
        0 <= pos <= s.len(),
        forall|k: int| 0 <= k < pos ==> (#[trigger] s[k].id) < e.id,
        forall|k: int| pos <= k < s.len() ==> (#[trigger] s[k].id) > e.id,
    ensures
        ids_strictly_increasing(s.insert(pos, e)),
{
    let s1 = s.insert(pos, e);
    assert forall|i: int, j: int| 0 <= i < j < s1.len() implies (#[trigger] s1[i].id) < (
    #[trigger] s1[j].id) by {
        if i < pos && j < pos {
            assert(s1[i] == s[i] && s1[j] == s[j]);
        } else if i < pos && j == pos {
            assert(s1[i] == s[i]);
        } else if i < pos && j > pos {
            assert(s1[i] == s[i] && s1[j] == s[j - 1]);
        } else if i == pos {
            assert(s1[j] == s[j - 1]);
        } else {
            assert(s1[i] == s[i - 1] && s1[j] == s[j - 1]);
        }
    }
}

pub proof fn lemma_insert_preserves_others(s: Seq<EntryModel>, pos: int, e: EntryModel, id2: i32)
    requires
        ids_strictly_increasing(s),
        ids_strictly_increasing(s.insert(pos, e)),
        0 <= pos <= s.len(),
        e.id != id2,
    ensures
        has_id(s.insert(pos, e), id2) == has_id(s, id2),
        has_id(s, id2) ==> entry_of(s.insert(pos, e), id2) == entry_of(s, id2),
{
    let s1 = s.insert(pos, e);
    if has_id(s, id2) {
        lemma_idx_of(s, id2);
        let w = idx_of(s, id2);
        let w1: int = if w < pos {
            w
        } else {
            w + 1
        };
        assert(s1[w1] == s[w]);
        assert(has_id(s1, id2)) by {
            assert(s1[w1].id == id2);
        }
        lemma_idx_of(s1, id2);
        assert(idx_of(s1, id2) == w1);
    }
    if has_id(s1, id2) {
        lemma_idx_of(s1, id2);
        let w1 = idx_of(s1, id2);
        assert(w1 != pos) by {
            assert(s1[pos] == e);
        }
        let w: int = if w1 < pos {
            w1
        } else {
            w1 - 1
        };
        assert(s[w] == s1[w1]);
        assert(has_id(s, id2)) by {
            assert(s[w].id == id2);
        }
    }
}

pub proof fn lemma_insert_new_id(s: Seq<EntryModel>, pos: int, e: EntryModel)
    requires
        ids_strictly_increasing(s.insert(pos, e)),
        0 <= pos <= s.len(),
    ensures
        has_id(s.insert(pos, e), e.id),
        entry_of(s.insert(pos, e), e.id) == e,
{
    let s1 = s.insert(pos, e);
    assert(s1[pos] == e);
    assert(has_id(s1, e.id)) by {
        assert(s1[pos].id == e.id);
    }
    lemma_idx_of(s1, e.id);
    assert(idx_of(s1, e.id) == pos);
}

pub proof fn lemma_update_sorted(s: Seq<EntryModel>, i: int, e: EntryModel)
    requires
        ids_strictly_increasing(s),
        0 <= i < s.len(),
        e.id == s[i].id,
    ensures
        ids_strictly_increasing(s.update(i, e)),
        has_id(s.update(i, e), e.id),
        entry_of(s.update(i, e), e.id) == e,
{
    let s1 = s.update(i, e);
    assert forall|a: int, b: int| 0 <= a < b < s1.len() implies (#[trigger] s1[a].id) < (
    #[trigger] s1[b].id) by {
        assert(s[a].id < s[b].id);
    }
    assert(has_id(s1, e.id)) by {
        assert(s1[i].id == e.id);
    }
    lemma_idx_of(s1, e.id);
    assert(idx_of(s1, e.id) == i);
}

pub proof fn lemma_update_preserves_others(s: Seq<EntryModel>, i: int, e: EntryModel, id2: i32)
    requires
        ids_strictly_increasing(s),
        0 <= i < s.len(),
        e.id == s[i].id,
        id2 != e.id,
    ensures
        has_id(s.update(i, e), id2) == has_id(s, id2),
        has_id(s, id2) ==> entry_of(s.update(i, e), id2) == entry_of(s, id2),
{
    let s1 = s.update(i, e);
    lemma_update_sorted(s, i, e);
    if has_id(s, id2) {
        lemma_idx_of(s, id2);
        let w = idx_of(s, id2);
        assert(w != i);
        assert(s1[w] == s[w]);
        assert(has_id(s1, id2)) by {
            assert(s1[w].id == id2);
        }
        lemma_idx_of(s1, id2);
        assert(idx_of(s1, id2) == w);
    }
    if has_id(s1, id2) {
        lemma_idx_of(s1, id2);
        let w1 = idx_of(s1, id2);
        assert(w1 != i);
        assert(s[w1] == s1[w1]);
        assert(has_id(s, id2)) by {
            assert(s[w1].id == id2);
        }
    }
}

/// The canonical in-memory store: the entry table, the posting table,
/// and the segmenter that derives name segments.
pub struct InternalStore {
    pub entries: Vec<Entry>,
    pub postings: Vec<Posting>,
    pub seg: Segmenter,
}

impl InternalStore {
    pub open spec fn entries_dv(self) -> Seq<EntryModel> {
        self.entries.deep_view()
    }

    pub open spec fn wf(self) -> bool {
        &&& ids_strictly_increasing(self.entries_dv())
        &&& entries_wf(self.entries_dv())
        &&& postings_unique(self.postings@)
        &&& postings_positive(self.postings@)
        &&& index_consistent(self.entries_dv(), self.postings@)
    }

    pub fn new(seg: Segmenter) -> (r: InternalStore)
        ensures
            r.wf(),
            r.entries_dv() == Seq::<EntryModel>::empty(),
            r.postings@ == Seq::<Posting>::empty(),
    {
        let r = InternalStore { entries: Vec::new(), postings: Vec::new(), seg };
        proof {
            assert(r.entries_dv() =~= Seq::<EntryModel>::empty());
            assert(r.postings@ =~= Seq::<Posting>::empty());
            assert forall|tok: Seq<char>, id: i32, ty: IndexType|
                #[trigger] pcount(r.postings@, tok, id, ty) == live_contrib(
                r.entries_dv(),
                tok,
                id,
                ty,
            ) by {
                assert(pcount(r.postings@, tok, id, ty) == 0);
                assert(!has_id(r.entries_dv(), id));
            }
        }
        r
    }

    fn find_entry(&self, id: i32) -> (r: Option<usize>)
        ensures
            match r {
                Some(i) => i < self.entries@.len() && self.entries_dv()[i as int].id == id,
                None => !has_id(self.entries_dv(), id),
            },
    {
        let n = self.entries.len();
        let mut i: usize = 0;
        while i < n
            invariant
                n == self.entries@.len(),
                0 <= i <= n,
                forall|k: int| 0 <= k < i ==> (#[trigger] self.entries_dv()[k].id) != id,
            decreases n - i,
        {
            if self.entries[i].id == id {
                return Some(i);
            }
            i = i + 1;
        }
        None
    }

    fn find_posting(&self, key: &str, target: Index) -> (r: Option<usize>)
        ensures
            match r {
                Some(i) => i < self.postings@.len() && self.postings@[i as int].token@ == key@
                    && self.postings@[i as int].target == target,
                None => forall|i: int|
                    0 <= i < self.postings@.len() ==> !((#[trigger] self.postings@[i]).token@
                        == key@ && self.postings@[i].target == target),
            },
    {
        let n = self.postings.len();
        let mut i: usize = 0;
        while i < n
            invariant
                n == self.postings@.len(),
                0 <= i <= n,
                forall|k: int|
                    0 <= k < i ==> !((#[trigger] self.postings@[k]).token@ == key@
                        && self.postings@[k].target == target),
            decreases n - i,
        {
            let hit = str_eq(self.postings[i].token.as_str(), key) && self.postings[i].target
                == target;
            if hit {
                return Some(i);
            }
            i = i + 1;
        }
        None
    }

    /// Raise the reference count of one triple by one, creating the
    /// posting if it is absent.
    fn add_index(&mut self, key: String, target: Index)
        requires
            postings_unique(old(self).postings@),
            postings_positive(old(self).postings@),
            pcount(old(self).postings@, key@, target.id, target.t) < u128::MAX as int,
        ensures
            final (self).entries == old(self).entries,
            final (self).seg == old(self).seg,
            postings_unique(final (self).postings@),
            postings_positive(final (self).postings@),
            pcount(final (self).postings@, key@, target.id, target.t) == pcount(
                old(self).postings@,
                key@,
                target.id,
                target.t,
            ) + 1,
            forall|tok: Seq<char>, id2: i32, ty2: IndexType|
                !(tok == key@ && id2 == target.id && ty2 == target.t) ==> #[trigger] pcount(
                    final (self).postings@,
                    tok,
                    id2,
                    ty2,
                ) == pcount(old(self).postings@, tok, id2, ty2),
    {
        let ghost ps0 = self.postings@;
        let found = self.find_posting(key.as_str(), target);
        match found {
            Some(i) => {
                proof {
                    lemma_pcount_found(ps0, i as int, key@, target.id, target.t);
                }
                let mut p = self.postings.remove(i);
                p.count = p.count + 1;
                self.postings.insert(i, p);
                proof {
                    let pnew = self.postings@[i as int];
                    assert(self.postings@ =~= ps0.update(i as int, pnew));
                    assert forall|tok: Seq<char>, id2: i32, ty2: IndexType| true implies #[trigger]
                    pcount(self.postings@, tok, id2, ty2) == pcount(ps0, tok, id2, ty2) - pc1(
                        ps0[i as int],
                        tok,
                        id2,
                        ty2,
                    ) + pc1(pnew, tok, id2, ty2) by {
                        lemma_pcount_update(ps0, i as int, pnew, tok, id2, ty2);
                    }
                    assert(postings_unique(self.postings@)) by {
                        assert(forall|a: int|
                            0 <= a < ps0.len() && a != i ==> self.postings@[a] == ps0[a]);
                    }
                }
            },
            None => {
                let p = Posting { token: key, target, count: 1 };
                self.postings.push(p);
                proof {
                    let pnew = self.postings@[self.postings@.len() - 1];
                    assert(self.postings@ =~= ps0.push(pnew));
                    assert forall|tok: Seq<char>, id2: i32, ty2: IndexType| true implies #[trigger]
                    pcount(self.postings@, tok, id2, ty2) == pcount(ps0, tok, id2, ty2) + pc1(
                        pnew,
                        tok,
                        id2,
                        ty2,
                    ) by {
                        lemma_pcount_push(ps0, pnew, tok, id2, ty2);
                    }
                    lemma_pcount_no_match(ps0, key@, target.id, target.t);
                    assert(postings_unique(self.postings@)) by {
                        assert(forall|a: int| 0 <= a < ps0.len() ==> self.postings@[a] == ps0[a]);
                    }
                }
            },
        }
    }

    /// Lower the reference count of one triple by one, pruning the
    /// posting when it reaches zero; a no-op on an absent triple.
    fn del_index(&mut self, key: &str, target: Index) -> (r: bool)
        requires
            postings_unique(old(self).postings@),
            postings_positive(old(self).postings@),
        ensures
            final (self).entries == old(self).entries,
            final (self).seg == old(self).seg,
            postings_unique(final (self).postings@),
            postings_positive(final (self).postings@),
            r == (pcount(old(self).postings@, key@, target.id, target.t) > 0),
            pcount(final (self).postings@, key@, target.id, target.t) == (if pcount(
                old(self).postings@,
                key@,
                target.id,
                target.t,
            ) > 0 {
                pcount(old(self).postings@, key@, target.id, target.t) - 1
            } else {
                0
            }),
            forall|tok: Seq<char>, id2: i32, ty2: IndexType|
                !(tok == key@ && id2 == target.id && ty2 == target.t) ==> #[trigger] pcount(
                    final (self).postings@,
                    tok,
                    id2,
                    ty2,
                ) == pcount(old(self).postings@, tok, id2, ty2),
    {
        let ghost ps0 = self.postings@;
        let found = self.find_posting(key, target);
        match found {
            None => {
                proof {
                    lemma_pcount_no_match(ps0, key@, target.id, target.t);
                }
                false
            },
            Some(i) => {
                proof {
                    lemma_pcount_found(ps0, i as int, key@, target.id, target.t);
                }
                let c = self.postings[i].count;
                if c == 1 {
                    self.postings.remove(i);
                    proof {
                        assert(self.postings@ =~= ps0.remove(i as int));
                        assert forall|tok: Seq<char>, id2: i32, ty2: IndexType| true implies
                        #[trigger] pcount(self.postings@, tok, id2, ty2) == pcount(
                            ps0,
                            tok,
                            id2,
                            ty2,
                        ) - pc1(ps0[i as int], tok, id2, ty2) by {
                            lemma_pcount_remove(ps0, i as int, tok, id2, ty2);
                        }
                        assert(postings_unique(self.postings@)) by {
                            assert(forall|a: int|
                                0 <= a < self.postings@.len() ==> self.postings@[a] == (if a < i {
                                    ps0[a]
                                } else {
                                    ps0[a + 1]
                                }));
                        }
                        assert(postings_positive(self.postings@)) by {
                            assert(forall|a: int|
                                0 <= a < self.postings@.len() ==> self.postings@[a] == (if a < i {
                                    ps0[a]
                                } else {
                                    ps0[a + 1]
                                }));
                        }
                    }
                } else {
                    let mut p = self.postings.remove(i);
                    p.count = p.count - 1;
                    self.postings.insert(i, p);
                    proof {
                        let pnew = self.postings@[i as int];
                        assert(self.postings@ =~= ps0.update(i as int, pnew));
                        assert forall|tok: Seq<char>, id2: i32, ty2: IndexType| true implies
                        #[trigger] pcount(self.postings@, tok, id2, ty2) == pcount(
                            ps0,
                            tok,
                            id2,
                            ty2,
                        ) - pc1(ps0[i as int], tok, id2, ty2) + pc1(pnew, tok, id2, ty2) by {
                            lemma_pcount_update(ps0, i as int, pnew, tok, id2, ty2);
                        }
                        assert(postings_unique(self.postings@)) by {
                            assert(forall|a: int|
                                0 <= a < ps0.len() && a != i ==> self.postings@[a] == ps0[a]);
                        }
                    }
                }
                true
            },
        }
    }

    /// Add one NameSeg reference for every segment of `name`.
    fn add_name_seg(&mut self, name: &str, id: i32) -> (r: Result<(), StoreError>)
        requires
            postings_unique(old(self).postings@),
            postings_positive(old(self).postings@),
            forall|tok: Seq<char>|
                #[trigger] pcount(old(self).postings@, tok, id, IndexType::NameSeg) <= u128::MAX
                    as int - usize::MAX as int,
            forall|tok: Seq<char>|
                pcount(old(self).postings@, tok, id, IndexType::NameSeg) >= 0,
        ensures
            final (self).entries == old(self).entries,
            final (self).seg == old(self).seg,
            postings_unique(final (self).postings@),
            postings_positive(final (self).postings@),
            r is Err <==> has_nul(name@),
            r is Err ==> final (self).postings == old(self).postings,
            r is Ok ==> {
                &&& segments_of(name@).len() <= usize::MAX as int
                &&& forall|tok: Seq<char>|
                    #[trigger] pcount(final (self).postings@, tok, id, IndexType::NameSeg)
                        == pcount(old(self).postings@, tok, id, IndexType::NameSeg) + occ(
                        segments_of(name@),
                        tok,
                    )
                &&& forall|tok: Seq<char>, id2: i32, ty2: IndexType|
                    (id2 != id || ty2 != IndexType::NameSeg) ==> #[trigger] pcount(
                        final (self).postings@,
                        tok,
                        id2,
                        ty2,
                    ) == pcount(old(self).postings@, tok, id2, ty2)
            },
    {
        let segs = match self.seg.cut_for_search(name) {
            Err(_) => {
                return Err(StoreError::InvalidString);
            },
            Ok(s) => s,
        };
        let ghost sv = segments_of(name@);
        let ghost ps0 = self.postings@;
        let ghost ent0 = self.entries;
        let ghost sg0 = self.seg;
        let m = segs.words.len();
        proof {
            assert forall|tok: Seq<char>| true implies occ(sv.take(0), tok) == 0 by {
                assert(sv.take(0) =~= Seq::<Seq<char>>::empty());
                crate::text::lemma_occ_empty(tok);
            }
        }
        let mut i: usize = 0;
        while i < m
            invariant
                m == segs.words@.len(),
                segs@ == sv,
                0 <= i <= m,
                sv.len() == m,
                self.entries == ent0,
                self.seg == sg0,
                postings_unique(self.postings@),
                postings_positive(self.postings@),
                forall|tok: Seq<char>|
                    #[trigger] pcount(ps0, tok, id, IndexType::NameSeg) <= u128::MAX as int
                        - usize::MAX as int,
                forall|tok: Seq<char>| pcount(ps0, tok, id, IndexType::NameSeg) >= 0,
                forall|tok: Seq<char>|
                    #[trigger] pcount(self.postings@, tok, id, IndexType::NameSeg) == pcount(
                        ps0,
                        tok,
                        id,
                        IndexType::NameSeg,
                    ) + occ(sv.take(i as int), tok),
                forall|tok: Seq<char>, id2: i32, ty2: IndexType|
                    (id2 != id || ty2 != IndexType::NameSeg) ==> #[trigger] pcount(
                        self.postings@,
                        tok,
                        id2,
                        ty2,
                    ) == pcount(ps0, tok, id2, ty2),
            decreases m - i,
        {
            let w = segs.words[i].clone();
            proof {
                assert(w@ == sv[i as int]);
                lemma_occ_prefix_missing(sv, i as int, w@);
                crate::text::lemma_occ_le_len(sv, w@);
                assert(pcount(self.postings@, w@, id, IndexType::NameSeg) < u128::MAX as int);
            }
            let ghost before = self.postings@;
            self.add_index(w, Index::new(id, IndexType::NameSeg));
            proof {
                assert forall|tok: Seq<char>| true implies #[trigger] pcount(
                    self.postings@,
                    tok,
                    id,
                    IndexType::NameSeg,
                ) == pcount(ps0, tok, id, IndexType::NameSeg) + occ(sv.take(i + 1), tok) by {
                    lemma_occ_take_step(sv, i as int, tok);
                    if tok == sv[i as int] {
                        assert(pcount(self.postings@, tok, id, IndexType::NameSeg) == pcount(
                            before,
                            tok,
                            id,
                            IndexType::NameSeg,
                        ) + 1);
                    } else {
                        assert(pcount(self.postings@, tok, id, IndexType::NameSeg) == pcount(
                            before,
                            tok,
                            id,
                            IndexType::NameSeg,
                        ));
                    }
                }
            }
            i = i + 1;
        }
        proof {
            assert forall|tok: Seq<char>| true implies #[trigger] pcount(
                self.postings@,
                tok,
                id,
                IndexType::NameSeg,
            ) == pcount(ps0, tok, id, IndexType::NameSeg) + occ(sv, tok) by {
                assert(sv.take(m as int) =~= sv);
            }
        }
        Ok(())
    }

    /// Remove one NameSeg reference for every segment of `name`.
    fn del_name_seg(&mut self, name: &str, id: i32) -> (r: Result<(), StoreError>)
        requires
            postings_unique(old(self).postings@),
            postings_positive(old(self).postings@),
            forall|tok: Seq<char>|
                occ(segments_of(name@), tok) <= #[trigger] pcount(
                    old(self).postings@,
                    tok,
                    id,
                    IndexType::NameSeg,
                ),
        ensures
            final (self).entries == old(self).entries,
            final (self).seg == old(self).seg,
            postings_unique(final (self).postings@),
            postings_positive(final (self).postings@),
            r is Err <==> has_nul(name@),
            r is Err ==> final (self).postings == old(self).postings,
            r is Ok ==> {
                &&& forall|tok: Seq<char>|
                    #[trigger] pcount(final (self).postings@, tok, id, IndexType::NameSeg)
                        == pcount(old(self).postings@, tok, id, IndexType::NameSeg) - occ(
                        segments_of(name@),
                        tok,
                    )
                &&& forall|tok: Seq<char>, id2: i32, ty2: IndexType|
                    (id2 != id || ty2 != IndexType::NameSeg) ==> #[trigger] pcount(
                        final (self).postings@,
                        tok,
                        id2,
                        ty2,
                    ) == pcount(old(self).postings@, tok, id2, ty2)
            },
    {
        let segs = match self.seg.cut_for_search(name) {
            Err(_) => {
                return Err(StoreError::InvalidString);
            },
            Ok(s) => s,
        };
        let ghost sv = segments_of(name@);
        let ghost ps0 = self.postings@;
        let ghost ent0 = self.entries;
        let ghost sg0 = self.seg;
        let m = segs.words.len();
        proof {
            assert forall|tok: Seq<char>| true implies occ(sv.take(0), tok) == 0 by {
                assert(sv.take(0) =~= Seq::<Seq<char>>::empty());
                crate::text::lemma_occ_empty(tok);
            }
        }
        let mut i: usize = 0;
        while i < m
            invariant
                m == segs.words@.len(),
                segs@ == sv,
                0 <= i <= m,
                sv.len() == m,
                self.entries == ent0,
                self.seg == sg0,
                postings_unique(self.postings@),
                postings_positive(self.postings@),
                forall|tok: Seq<char>|
                    occ(sv, tok) <= #[trigger] pcount(ps0, tok, id, IndexType::NameSeg),
                forall|tok: Seq<char>|
                    #[trigger] pcount(self.postings@, tok, id, IndexType::NameSeg) == pcount(
                        ps0,
                        tok,
                        id,
                        IndexType::NameSeg,
                    ) - occ(sv.take(i as int), tok),
                forall|tok: Seq<char>, id2: i32, ty2: IndexType|
                    (id2 != id || ty2 != IndexType::NameSeg) ==> #[trigger] pcount(
                        self.postings@,
                        tok,
                        id2,
                        ty2,
                    ) == pcount(ps0, tok, id2, ty2),
            decreases m - i,
        {
            let w = segs.words[i].clone();
            proof {
                assert(w@ == sv[i as int]);
                lemma_occ_prefix_missing(sv, i as int, w@);
                lemma_occ_take_mono(sv, i as int, sv.len() as int, w@);
                assert(pcount(self.postings@, w@, id, IndexType::NameSeg) >= 1);
            }
            let ghost before = self.postings@;
            self.del_index(w.as_str(), Index::new(id, IndexType::NameSeg));
            proof {
                assert forall|tok: Seq<char>| true implies #[trigger] pcount(
                    self.postings@,
                    tok,
                    id,
                    IndexType::NameSeg,
                ) == pcount(ps0, tok, id, IndexType::NameSeg) - occ(sv.take(i + 1), tok) by {
                    lemma_occ_take_step(sv, i as int, tok);
                    if tok == sv[i as int] {
                        assert(pcount(self.postings@, tok, id, IndexType::NameSeg) == pcount(
                            before,
                            tok,
                            id,
                            IndexType::NameSeg,
                        ) - 1);
                    } else {
                        assert(pcount(self.postings@, tok, id, IndexType::NameSeg) == pcount(
                            before,
                            tok,
                            id,
                            IndexType::NameSeg,
                        ));
                    }
                }
            }
            i = i + 1;
        }
        proof {
            assert forall|tok: Seq<char>| true implies #[trigger] pcount(
                self.postings@,
                tok,
                id,
                IndexType::NameSeg,
            ) == pcount(ps0, tok, id, IndexType::NameSeg) - occ(sv, tok) by {
                assert(sv.take(m as int) =~= sv);
            }
        }
        Ok(())
    }

    fn lower_bound(&self, id: i32) -> (r: usize)
        ensures
            0 <= r <= self.entries@.len(),
            forall|k: int| 0 <= k < r ==> (#[trigger] self.entries_dv()[k].id) < id,
            r < self.entries@.len() ==> self.entries_dv()[r as int].id >= id,
    {
        let n = self.entries.len();
        let mut i: usize = 0;
        while i < n
            invariant
                n == self.entries@.len(),
                0 <= i <= n,
                forall|k: int| 0 <= k < i ==> (#[trigger] self.entries_dv()[k].id) < id,
            decreases n - i,
        {
            if self.entries[i].id >= id {
                return i;
            }
            i = i + 1;
        }
        n
    }

    /// Incremental upsert: insert a new entry with all its derived
    /// keys, or diff an existing one field by field, touching only the
    /// postings of fields that changed. Tombstones are immutable, and
    /// a name the tokenizer rejects aborts the call with no mutation.
    #[verifier::rlimit(80)]
    pub fn mem_put(&mut self, entry: Entry) -> (r: Result<(i32, Entry), StoreError>)
        requires
            old(self).wf(),
        ensures
            final (self).wf(),
            final (self).seg == old(self).seg,
            entry@.deleted ==> (r matches Err(e) && e == StoreError::DeletedEntry && *final (self)
                == *old(self)),
            !entry@.deleted && has_id(old(self).entries_dv(), entry@.id) && entry_of(
                old(self).entries_dv(),
                entry@.id,
            ).deleted ==> (r matches Err(e) && e == StoreError::DeletedEntry && *final (self) == *old(
            self)),
            !entry@.deleted && !(has_id(old(self).entries_dv(), entry@.id) && entry_of(
                old(self).entries_dv(),
                entry@.id,
            ).deleted) && (has_nul(entry@.name) || has_nul(entry@.name_eng)) ==> (r matches Err(e)
                && e == StoreError::InvalidString && *final (self) == *old(self)),
            !entry@.deleted && !(has_id(old(self).entries_dv(), entry@.id) && entry_of(
                old(self).entries_dv(),
                entry@.id,
            ).deleted) && !has_nul(entry@.name) && !has_nul(entry@.name_eng) ==> (r matches Ok(p)
                && p.0 == entry@.id && normalized(p.1@, entry@) && table_put(
                old(self).entries_dv(),
                final (self).entries_dv(),
                p.1@,
            )),
    {
        let ghost dv0 = self.entries_dv();
        let ghost ps0 = self.postings@;
        if entry.deleted {
            return Err(StoreError::DeletedEntry);
        }
        let found = self.find_entry(entry.id);
        match found {
            None => {
                if str_contains_nul(entry.name.as_str()) {
                    return Err(StoreError::InvalidString);
                }
                if str_contains_nul(entry.name_eng.as_str()) {
                    return Err(StoreError::InvalidString);
                }
                let mut entry = entry;
                crate::text::sort_strings(&mut entry.tags);
                let ghost em = entry@;
                let id = entry.id;
                proof {
                    assert forall|tok: Seq<char>, ty: IndexType| true implies #[trigger] pcount(
                        ps0,
                        tok,
                        id,
                        ty,
                    ) == 0 by {
                        assert(pcount(ps0, tok, id, ty) == live_contrib(dv0, tok, id, ty));
                        assert(!has_id(dv0, id));
                    }
                }
                self.add_index(entry.name.clone(), Index::new(id, IndexType::Name));
                self.add_index(entry.name_eng.clone(), Index::new(id, IndexType::Name));
                proof {
                    assert forall|tok: Seq<char>| true implies #[trigger] pcount(
                        self.postings@,
                        tok,
                        id,
                        IndexType::Name,
                    ) == contrib_count(em, tok, IndexType::Name) by {
                        assert(pcount(ps0, tok, id, IndexType::Name) == 0);
                    }
                }
                let r1 = self.add_name_seg(entry.name.as_str(), id);
                proof {
                    assert(r1 is Ok);
                }
                proof {
                    assert forall|tok: Seq<char>| true implies #[trigger] pcount(
                        self.postings@,
                        tok,
                        id,
                        IndexType::NameSeg,
                    ) <= u128::MAX as int - usize::MAX as int by {
                        crate::text::lemma_occ_le_len(segments_of(em.name), tok);
                        assert(pcount(ps0, tok, id, IndexType::NameSeg) == 0);
                    }
                }
                let r2 = self.add_name_seg(entry.name_eng.as_str(), id);
                proof {
                    assert(r2 is Ok);
                }
                self.add_index(entry.category.clone(), Index::new(id, IndexType::Category));
                proof {
                    assert forall|tok: Seq<char>| true implies #[trigger] pcount(
                        self.postings@,
                        tok,
                        id,
                        IndexType::NameSeg,
                    ) == contrib_count(em, tok, IndexType::NameSeg) by {
                        assert(pcount(ps0, tok, id, IndexType::NameSeg) == 0);
                    }
                    assert forall|tok: Seq<char>| true implies #[trigger] pcount(
                        self.postings@,
                        tok,
                        id,
                        IndexType::Category,
                    ) == contrib_count(em, tok, IndexType::Category) by {
                        assert(pcount(ps0, tok, id, IndexType::Category) == 0);
                    }
                    assert forall|tok: Seq<char>| true implies occ(em.tags.take(0), tok) == 0 by {
                        assert(em.tags.take(0) =~= Seq::<Seq<char>>::empty());
                        crate::text::lemma_occ_empty(tok);
                    }
                }
                let ghost ps_pre_tags = self.postings@;
                let tn = entry.tags.len();
                let mut ti: usize = 0;
                while ti < tn
                    invariant
                        tn == entry.tags@.len(),
                        em.tags.len() == tn,
                        em == entry@,
                        0 <= ti <= tn,
                        postings_unique(self.postings@),
                        postings_positive(self.postings@),
                        self.entries == old(self).entries,
                        self.seg == old(self).seg,
                        forall|tok: Seq<char>|
                            #[trigger] pcount(self.postings@, tok, id, IndexType::Tag) == occ(
                                em.tags.take(ti as int),
                                tok,
                            ),
                        forall|tok: Seq<char>, id2: i32, ty2: IndexType|
                            !(id2 == id && ty2 == IndexType::Tag) ==> #[trigger] pcount(
                                self.postings@,
                                tok,
                                id2,
                                ty2,
                            ) == pcount(ps_pre_tags, tok, id2, ty2),
                    decreases tn - ti,
                {
                    let tg = entry.tags[ti].clone();
                    proof {
                        assert(tg@ == em.tags[ti as int]);
                        crate::text::lemma_occ_le_take(em.tags, ti as int, tg@);
                    }
                    let ghost before = self.postings@;
                    self.add_index(tg, Index::new(id, IndexType::Tag));
                    proof {
                        assert forall|tok: Seq<char>| true implies #[trigger] pcount(
                            self.postings@,
                            tok,
                            id,
                            IndexType::Tag,
                        ) == occ(em.tags.take(ti + 1), tok) by {
                            lemma_occ_take_step(em.tags, ti as int, tok);
                            if tok == em.tags[ti as int] {
                                assert(pcount(self.postings@, tok, id, IndexType::Tag) == pcount(
                                    before,
                                    tok,
                                    id,
                                    IndexType::Tag,
                                ) + 1);
                            } else {
                                assert(pcount(self.postings@, tok, id, IndexType::Tag) == pcount(
                                    before,
                                    tok,
                                    id,
                                    IndexType::Tag,
                                ));
                            }
                        }
                    }
                    ti = ti + 1;
                }
                proof {
                    assert forall|tok: Seq<char>| true implies #[trigger] pcount(
                        self.postings@,
                        tok,
                        id,
                        IndexType::Tag,
                    ) == contrib_count(em, tok, IndexType::Tag) by {
                        assert(em.tags.take(tn as int) =~= em.tags);
                    }
                }
                let pos = self.lower_bound(id);
                proof {
                    assert forall|k: int| pos <= k < dv0.len() implies (#[trigger] dv0[k].id)
                        > id by {
                        if pos < dv0.len() {
                            assert(dv0[pos as int].id >= id);
                            if k > pos {
                                assert(dv0[pos as int].id < dv0[k].id);
                            }
                            assert(dv0[k].id != id);
                        }
                    }
                    lemma_insert_sorted(dv0, pos as int, em);
                }
                let idv = entry.id;
                let stored = entry.clone();
                self.entries.insert(pos, entry);
                proof {
                    let dv1 = self.entries_dv();
                    assert(dv1 =~= dv0.insert(pos as int, em));
                    lemma_insert_new_id(dv0, pos as int, em);
                    assert(entries_wf(dv1)) by {
                        assert forall|k: int| 0 <= k < dv1.len() implies entry_wf(
                            #[trigger] dv1[k],
                        ) by {
                            if k < pos {
                                assert(dv1[k] == dv0[k]);
                            } else if k > pos {
                                assert(dv1[k] == dv0[k - 1]);
                            } else {
                                assert(dv1[k] == em);
                            }
                        }
                    }
                    assert forall|tok: Seq<char>, id2: i32, ty2: IndexType| true implies
                    #[trigger] pcount(self.postings@, tok, id2, ty2) == live_contrib(
                        dv1,
                        tok,
                        id2,
                        ty2,
                    ) by {
                        if id2 == id {
                            assert(entry_of(dv1, id) == em);
                            match ty2 {
                                IndexType::Name => {},
                                IndexType::NameSeg => {},
                                IndexType::Category => {},
                                IndexType::Tag => {},
                            }
                        } else {
                            lemma_insert_preserves_others(dv0, pos as int, em, id2);
                            assert(pcount(self.postings@, tok, id2, ty2) == pcount(
                                ps0,
                                tok,
                                id2,
                                ty2,
                            ));
                            assert(pcount(ps0, tok, id2, ty2) == live_contrib(dv0, tok, id2, ty2));
                        }
                    }
                    assert forall|id2: i32| id2 != em.id implies #[trigger] has_id(dv1, id2)
                        == has_id(dv0, id2) by {
                        lemma_insert_preserves_others(dv0, pos as int, em, id2);
                    }
                    assert forall|id2: i32|
                        id2 != em.id && has_id(dv0, id2) implies #[trigger] entry_of(dv1, id2)
                        == entry_of(dv0, id2) by {
                        lemma_insert_preserves_others(dv0, pos as int, em, id2);
                    }
                    assert(!has_id(dv0, em.id));
                    assert(table_put(dv0, dv1, em));
                }
                Ok((idv, stored))
            },
            Some(i) => {
                if self.entries[i].deleted {
                    proof {
                        lemma_idx_of(dv0, entry@.id);
                        assert(has_id(dv0, entry@.id)) by {
                            assert(dv0[i as int].id == entry@.id);
                        }
                        assert(idx_of(dv0, entry@.id) == i as int);
                    }
                    return Err(StoreError::DeletedEntry);
                }
                proof {
                    assert(has_id(dv0, entry@.id)) by {
                        assert(dv0[i as int].id == entry@.id);
                    }
                    lemma_idx_of(dv0, entry@.id);
                    assert(idx_of(dv0, entry@.id) == i as int);
                }
                if str_contains_nul(entry.name.as_str()) {
                    return Err(StoreError::InvalidString);
                }
                if str_contains_nul(entry.name_eng.as_str()) {
                    return Err(StoreError::InvalidString);
                }
                let mut entry = entry;
                crate::text::sort_strings(&mut entry.tags);
                let ghost em = entry@;
                let id = entry.id;
                let original = self.entries[i].clone();
                let ghost om = original@;
                proof {
                    assert(om == dv0[i as int]);
                    assert(om == entry_of(dv0, id));
                    assert(entry_wf(om));
                    assert forall|tok: Seq<char>, ty: IndexType| true implies #[trigger] pcount(
                        ps0,
                        tok,
                        id,
                        ty,
                    ) == contrib_count(om, tok, ty) by {
                        assert(pcount(ps0, tok, id, ty) == live_contrib(dv0, tok, id, ty));
                    }
                }
                // name field
                if !str_eq(entry.name.as_str(), original.name.as_str()) {
                    self.del_index(original.name.as_str(), Index::new(id, IndexType::Name));
                    self.add_index(entry.name.clone(), Index::new(id, IndexType::Name));
                    proof {
                        assert forall|tok: Seq<char>| true implies occ(segments_of(om.name), tok)
                            <= #[trigger] pcount(self.postings@, tok, id, IndexType::NameSeg) by {
                            assert(pcount(self.postings@, tok, id, IndexType::NameSeg) == pcount(
                                ps0,
                                tok,
                                id,
                                IndexType::NameSeg,
                            ));
                            assert(pcount(ps0, tok, id, IndexType::NameSeg) == contrib_count(
                                om,
                                tok,
                                IndexType::NameSeg,
                            ));
                        }
                    }
                    let d1 = self.del_name_seg(original.name.as_str(), id);
                    proof {
                        assert(d1 is Ok);
                        assert forall|tok: Seq<char>| true implies #[trigger] pcount(
                            self.postings@,
                            tok,
                            id,
                            IndexType::NameSeg,
                        ) <= u128::MAX as int - usize::MAX as int by {
                            crate::text::lemma_occ_le_len(segments_of(om.name_eng), tok);
                            assert(pcount(ps0, tok, id, IndexType::NameSeg) == contrib_count(
                                om,
                                tok,
                                IndexType::NameSeg,
                            ));
                        }
                    }
                    let a1 = self.add_name_seg(entry.name.as_str(), id);
                    proof {
                        assert(a1 is Ok);
                    }
                }
                proof {
                    assert forall|tok: Seq<char>| true implies #[trigger] pcount(
                        self.postings@,
                        tok,
                        id,
                        IndexType::Name,
                    ) == (if tok == em.name {
                        1int
                    } else {
                        0int
                    }) + (if tok == om.name_eng {
                        1int
                    } else {
                        0int
                    }) by {
                        assert(pcount(ps0, tok, id, IndexType::Name) == contrib_count(
                            om,
                            tok,
                            IndexType::Name,
                        ));
                    }
                    assert forall|tok: Seq<char>| true implies #[trigger] pcount(
                        self.postings@,
                        tok,
                        id,
                        IndexType::NameSeg,
                    ) == occ(segments_of(em.name), tok) + occ(segments_of(om.name_eng), tok) by {
                        assert(pcount(ps0, tok, id, IndexType::NameSeg) == contrib_count(
                            om,
                            tok,
                            IndexType::NameSeg,
                        ));
                    }
                    assert(segments_of(em.name).len() <= usize::MAX as int);
                }
                let ghost ps1 = self.postings@;
                // english name field
                if !str_eq(entry.name_eng.as_str(), original.name_eng.as_str()) {
                    self.del_index(original.name_eng.as_str(), Index::new(id, IndexType::Name));
                    self.add_index(entry.name_eng.clone(), Index::new(id, IndexType::Name));
                    proof {
                        assert forall|tok: Seq<char>| true implies occ(
                            segments_of(om.name_eng),
                            tok,
                        ) <= #[trigger] pcount(self.postings@, tok, id, IndexType::NameSeg) by {
                            assert(pcount(self.postings@, tok, id, IndexType::NameSeg) == pcount(
                                ps1,
                                tok,
                                id,
                                IndexType::NameSeg,
                            ));
                        }
                    }
                    let d2 = self.del_name_seg(original.name_eng.as_str(), id);
                    proof {
                        assert(d2 is Ok);
                        assert forall|tok: Seq<char>| true implies #[trigger] pcount(
                            self.postings@,
                            tok,
                            id,
                            IndexType::NameSeg,
                        ) <= u128::MAX as int - usize::MAX as int by {
                            crate::text::lemma_occ_le_len(segments_of(em.name), tok);
                            assert(pcount(ps1, tok, id, IndexType::NameSeg) == occ(
                                segments_of(em.name),
                                tok,
                            ) + occ(segments_of(om.name_eng), tok));
                        }
                    }
                    let a2 = self.add_name_seg(entry.name_eng.as_str(), id);
                    proof {
                        assert(a2 is Ok);
                    }
                }
                proof {
                    assert forall|tok: Seq<char>| true implies #[trigger] pcount(
                        self.postings@,
                        tok,
                        id,
                        IndexType::Name,
                    ) == contrib_count(em, tok, IndexType::Name) by {
                        assert(pcount(ps1, tok, id, IndexType::Name) == (if tok == em.name {
                            1int
                        } else {
                            0int
                        }) + (if tok == om.name_eng {
                            1int
                        } else {
                            0int
                        }));
                    }
                    assert forall|tok: Seq<char>| true implies #[trigger] pcount(
                        self.postings@,
                        tok,
                        id,
                        IndexType::NameSeg,
                    ) == contrib_count(em, tok, IndexType::NameSeg) by {
                        assert(pcount(ps1, tok, id, IndexType::NameSeg) == occ(
                            segments_of(em.name),
                            tok,
                        ) + occ(segments_of(om.name_eng), tok));
                    }
                    assert(segments_of(em.name_eng).len() <= usize::MAX as int);
                }
                let ghost ps2 = self.postings@;
                // category field
                if !str_eq(entry.category.as_str(), original.category.as_str()) {
                    self.del_index(original.category.as_str(), Index::new(id, IndexType::Category));
                    self.add_index(entry.category.clone(), Index::new(id, IndexType::Category));
                }
                proof {
                    assert forall|tok: Seq<char>| true implies #[trigger] pcount(
                        self.postings@,
                        tok,
                        id,
                        IndexType::Category,
                    ) == contrib_count(em, tok, IndexType::Category) by {
                        assert(pcount(ps2, tok, id, IndexType::Category) == contrib_count(
                            om,
                            tok,
                            IndexType::Category,
                        ));
                    }
                }
                let ghost ps3 = self.postings@;
                // tags: one linear walk over both sorted lists
                let ghost ct = em.tags;
                let ghost ot = om.tags;
                let cn = entry.tags.len();
                let on = original.tags.len();
                let mut ci: usize = 0;
                let mut oi: usize = 0;
                proof {
                    assert forall|tok: Seq<char>| true implies occ(ct.take(0), tok) == 0 && occ(
                        ot.take(0),
                        tok,
                    ) == 0 by {
                        assert(ct.take(0) =~= Seq::<Seq<char>>::empty());
                        assert(ot.take(0) =~= Seq::<Seq<char>>::empty());
                        crate::text::lemma_occ_empty(tok);
                    }
                }
                loop
                    invariant
                        cn == entry.tags@.len(),
                        on == original.tags@.len(),
                        em == entry@,
                        om == original@,
                        ct == em.tags,
                        ot == om.tags,
                        0 <= ci <= cn,
                        0 <= oi <= on,
                        postings_unique(self.postings@),
                        postings_positive(self.postings@),
                        self.entries == old(self).entries,
                        self.seg == old(self).seg,
                        forall|tok: Seq<char>|
                            #[trigger] pcount(self.postings@, tok, id, IndexType::Tag) == occ(
                                ot,
                                tok,
                            ) - occ(ot.take(oi as int), tok) + occ(ct.take(ci as int), tok),
                        forall|tok: Seq<char>, id2: i32, ty2: IndexType|
                            !(id2 == id && ty2 == IndexType::Tag) ==> #[trigger] pcount(
                                self.postings@,
                                tok,
                                id2,
                                ty2,
                            ) == pcount(ps3, tok, id2, ty2),
                        forall|tok: Seq<char>|
                            #[trigger] pcount(ps3, tok, id, IndexType::Tag) == occ(ot, tok),
                    ensures
                        ci == cn,
                        oi == on,
                        postings_unique(self.postings@),
                        postings_positive(self.postings@),
                        self.entries == old(self).entries,
                        self.seg == old(self).seg,
                        forall|tok: Seq<char>|
                            #[trigger] pcount(self.postings@, tok, id, IndexType::Tag) == occ(
                                ot,
                                tok,
                            ) - occ(ot.take(oi as int), tok) + occ(ct.take(ci as int), tok),
                        forall|tok: Seq<char>, id2: i32, ty2: IndexType|
                            !(id2 == id && ty2 == IndexType::Tag) ==> #[trigger] pcount(
                                self.postings@,
                                tok,
                                id2,
                                ty2,
                            ) == pcount(ps3, tok, id2, ty2),
                    decreases (cn - ci) + (on - oi),
                {
                    if ci >= cn && oi >= on {
                        break ;
                    }
                    if ci >= cn {
                        // only original tags remain: drop each
                        let tg = original.tags[oi].clone();
                        proof {
                            assert(tg@ == ot[oi as int]);
                            lemma_occ_prefix_missing(ot, oi as int, tg@);
                            crate::text::lemma_occ_le_take(ct, ci as int, tg@);
                        }
                        let ghost before = self.postings@;
                        self.del_index(tg.as_str(), Index::new(id, IndexType::Tag));
                        proof {
                            assert forall|tok: Seq<char>| true implies #[trigger] pcount(
                                self.postings@,
                                tok,
                                id,
                                IndexType::Tag,
                            ) == occ(ot, tok) - occ(ot.take(oi + 1), tok) + occ(
                                ct.take(ci as int),
                                tok,
                            ) by {
                                lemma_occ_take_step(ot, oi as int, tok);
                            }
                        }
                        oi = oi + 1;
                    } else if oi >= on {
                        // only new tags remain: add each
                        let tg = entry.tags[ci].clone();
                        proof {
                            assert(tg@ == ct[ci as int]);
                            crate::text::lemma_occ_le_len(ot, tg@);
                            lemma_occ_take_mono(ot, oi as int, ot.len() as int, tg@);
                            crate::text::lemma_occ_take_all(ot, tg@);
                            crate::text::lemma_occ_le_take(ct, ci as int, tg@);
                        }
                        let ghost before = self.postings@;
                        self.add_index(tg, Index::new(id, IndexType::Tag));
                        proof {
                            assert forall|tok: Seq<char>| true implies #[trigger] pcount(
                                self.postings@,
                                tok,
                                id,
                                IndexType::Tag,
                            ) == occ(ot, tok) - occ(ot.take(oi as int), tok) + occ(
                                ct.take(ci + 1),
                                tok,
                            ) by {
                                lemma_occ_take_step(ct, ci as int, tok);
                            }
                        }
                        ci = ci + 1;
                    } else {
                        let ctag = &entry.tags[ci];
                        let otag = &original.tags[oi];
                        if str_eq(ctag.as_str(), otag.as_str()) {
                            proof {
                                assert(ct[ci as int] == ot[oi as int]);
                                assert forall|tok: Seq<char>| true implies #[trigger] pcount(
                                    self.postings@,
                                    tok,
                                    id,
                                    IndexType::Tag,
                                ) == occ(ot, tok) - occ(ot.take(oi + 1), tok) + occ(
                                    ct.take(ci + 1),
                                    tok,
                                ) by {
                                    lemma_occ_take_step(ot, oi as int, tok);
                                    lemma_occ_take_step(ct, ci as int, tok);
                                }
                            }
                            ci = ci + 1;
                            oi = oi + 1;
                        } else if crate::text::str_lt(otag.as_str(), ctag.as_str()) {
                            let tg = original.tags[oi].clone();
                            proof {
                                assert(tg@ == ot[oi as int]);
                                lemma_occ_prefix_missing(ot, oi as int, tg@);
                                crate::text::lemma_occ_le_take(ct, ci as int, tg@);
                            }
                            self.del_index(tg.as_str(), Index::new(id, IndexType::Tag));
                            proof {
                                assert forall|tok: Seq<char>| true implies #[trigger] pcount(
                                    self.postings@,
                                    tok,
                                    id,
                                    IndexType::Tag,
                                ) == occ(ot, tok) - occ(ot.take(oi + 1), tok) + occ(
                                    ct.take(ci as int),
                                    tok,
                                ) by {
                                    lemma_occ_take_step(ot, oi as int, tok);
                                }
                            }
                            oi = oi + 1;
                        } else {
                            let tg = entry.tags[ci].clone();
                            proof {
                                assert(tg@ == ct[ci as int]);
                                crate::text::lemma_occ_le_len(ot, tg@);
                                lemma_occ_take_mono(ot, oi as int, ot.len() as int, tg@);
                                crate::text::lemma_occ_take_all(ot, tg@);
                                crate::text::lemma_occ_le_take(ct, ci as int, tg@);
                            }
                            self.add_index(tg, Index::new(id, IndexType::Tag));
                            proof {
                                assert forall|tok: Seq<char>| true implies #[trigger] pcount(
                                    self.postings@,
                                    tok,
                                    id,
                                    IndexType::Tag,
                                ) == occ(ot, tok) - occ(ot.take(oi as int), tok) + occ(
                                    ct.take(ci + 1),
                                    tok,
                                ) by {
                                    lemma_occ_take_step(ct, ci as int, tok);
                                }
                            }
                            ci = ci + 1;
                        }
                    }
                }
                proof {
                    assert forall|tok: Seq<char>| true implies #[trigger] pcount(
                        self.postings@,
                        tok,
                        id,
                        IndexType::Tag,
                    ) == contrib_count(em, tok, IndexType::Tag) by {
                        assert(ot.take(on as int) =~= ot);
                        assert(ct.take(cn as int) =~= ct);
                    }
                }
                // store the row
                let idv = entry.id;
                let stored = entry.clone();
                let _old_row = self.entries.remove(i);
                self.entries.insert(i, entry);
                proof {
                    let dv1 = self.entries_dv();
                    assert(dv1 =~= dv0.update(i as int, em));
                    lemma_update_sorted(dv0, i as int, em);
                    assert(entries_wf(dv1)) by {
                        assert forall|k: int| 0 <= k < dv1.len() implies entry_wf(
                            #[trigger] dv1[k],
                        ) by {
                            if k != i {
                                assert(dv1[k] == dv0[k]);
                            } else {
                                assert(dv1[k] == em);
                            }
                        }
                    }
                    assert forall|tok: Seq<char>, id2: i32, ty2: IndexType| true implies
                    #[trigger] pcount(self.postings@, tok, id2, ty2) == live_contrib(
                        dv1,
                        tok,
                        id2,
                        ty2,
                    ) by {
                        if id2 == id {
                            assert(entry_of(dv1, id) == em);
                            match ty2 {
                                IndexType::Name => {},
                                IndexType::NameSeg => {},
                                IndexType::Category => {},
                                IndexType::Tag => {},
                            }
                        } else {
                            lemma_update_preserves_others(dv0, i as int, em, id2);
                            assert(pcount(self.postings@, tok, id2, ty2) == pcount(
                                ps0,
                                tok,
                                id2,
                                ty2,
                            ));
                            assert(pcount(ps0, tok, id2, ty2) == live_contrib(dv0, tok, id2, ty2));
                        }
                    }
                    assert forall|id2: i32| id2 != em.id implies #[trigger] has_id(dv1, id2)
                        == has_id(dv0, id2) by {
                        lemma_update_preserves_others(dv0, i as int, em, id2);
                    }
                    assert forall|id2: i32|
                        id2 != em.id && has_id(dv0, id2) implies #[trigger] entry_of(dv1, id2)
                        == entry_of(dv0, id2) by {
                        lemma_update_preserves_others(dv0, i as int, em, id2);
                    }
                    assert(has_id(dv0, em.id));
                    assert(dv1.len() == dv0.len());
                    assert(table_put(dv0, dv1, em));
                }
                Ok((idv, stored))
            },
        }
    }

    /// Soft delete: remove every key the stored row contributes, then
    /// mark it as a tombstone. The id and row are retained forever.
    #[verifier::rlimit(60)]
    pub fn mem_del(&mut self, id: i32) -> (r: Result<Entry, StoreError>)
        requires
            old(self).wf(),
        ensures
            final (self).wf(),
            final (self).seg == old(self).seg,
            !has_id(old(self).entries_dv(), id) ==> (r matches Err(e) && e == StoreError::NotFound
                && *final (self) == *old(self)),
            has_id(old(self).entries_dv(), id) ==> (r matches Ok(row) && row@ == del_marked(
                entry_of(old(self).entries_dv(), id),
            ) && table_put(
                old(self).entries_dv(),
                final (self).entries_dv(),
                del_marked(entry_of(old(self).entries_dv(), id)),
            )),
    {
        let ghost dv0 = self.entries_dv();
        let ghost ps0 = self.postings@;
        let found = self.find_entry(id);
        match found {
            None => Err(StoreError::NotFound),
            Some(i) => {
                proof {
                    assert(has_id(dv0, id)) by {
                        assert(dv0[i as int].id == id);
                    }
                    lemma_idx_of(dv0, id);
                    assert(idx_of(dv0, id) == i as int);
                }
                let original = self.entries[i].clone();
                let ghost om = original@;
                proof {
                    assert(om == entry_of(dv0, id));
                    assert(entry_wf(om));
                    assert forall|tok: Seq<char>, ty: IndexType| true implies #[trigger] pcount(
                        ps0,
                        tok,
                        id,
                        ty,
                    ) == live_contrib(dv0, tok, id, ty) by {}
                }
                if !original.deleted {
                    self.del_index(original.name.as_str(), Index::new(id, IndexType::Name));
                    self.del_index(original.name_eng.as_str(), Index::new(id, IndexType::Name));
                    proof {
                        assert forall|tok: Seq<char>| true implies #[trigger] pcount(
                            self.postings@,
                            tok,
                            id,
                            IndexType::Name,
                        ) == 0 by {
                            assert(pcount(ps0, tok, id, IndexType::Name) == contrib_count(
                                om,
                                tok,
                                IndexType::Name,
                            ));
                        }
                        assert forall|tok: Seq<char>| true implies occ(segments_of(om.name), tok)
                            <= #[trigger] pcount(self.postings@, tok, id, IndexType::NameSeg) by {
                            assert(pcount(self.postings@, tok, id, IndexType::NameSeg) == pcount(
                                ps0,
                                tok,
                                id,
                                IndexType::NameSeg,
                            ));
                            assert(pcount(ps0, tok, id, IndexType::NameSeg) == contrib_count(
                                om,
                                tok,
                                IndexType::NameSeg,
                            ));
                        }
                    }
                    let d1 = self.del_name_seg(original.name.as_str(), id);
                    proof {
                        assert(d1 is Ok);
                        assert forall|tok: Seq<char>| true implies occ(
                            segments_of(om.name_eng),
                            tok,
                        ) <= #[trigger] pcount(self.postings@, tok, id, IndexType::NameSeg) by {
                            assert(pcount(ps0, tok, id, IndexType::NameSeg) == contrib_count(
                                om,
                                tok,
                                IndexType::NameSeg,
                            ));
                        }
                    }
                    let d2 = self.del_name_seg(original.name_eng.as_str(), id);
                    proof {
                        assert(d2 is Ok);
                        assert forall|tok: Seq<char>| true implies #[trigger] pcount(
                            self.postings@,
                            tok,
                            id,
                            IndexType::NameSeg,
                        ) == 0 by {
                            assert(pcount(ps0, tok, id, IndexType::NameSeg) == contrib_count(
                                om,
                                tok,
                                IndexType::NameSeg,
                            ));
                        }
                    }
                    self.del_index(original.category.as_str(), Index::new(id, IndexType::Category));
                    proof {
                        assert forall|tok: Seq<char>| true implies #[trigger] pcount(
                            self.postings@,
                            tok,
                            id,
                            IndexType::Category,
                        ) == 0 by {
                            assert(pcount(ps0, tok, id, IndexType::Category) == contrib_count(
                                om,
                                tok,
                                IndexType::Category,
                            ));
                        }
                        assert forall|tok: Seq<char>| true implies occ(om.tags.take(0), tok)
                            == 0 by {
                            assert(om.tags.take(0) =~= Seq::<Seq<char>>::empty());
                            crate::text::lemma_occ_empty(tok);
                        }
                    }
                    let ghost ps_pre = self.postings@;
                    let on = original.tags.len();
                    let mut oi: usize = 0;
                    while oi < on
                        invariant
                            on == original.tags@.len(),
                            om == original@,
                            om.tags.len() == on,
                            0 <= oi <= on,
                            postings_unique(self.postings@),
                            postings_positive(self.postings@),
                            self.entries == old(self).entries,
                            self.seg == old(self).seg,
                            forall|tok: Seq<char>|
                                #[trigger] pcount(self.postings@, tok, id, IndexType::Tag) == occ(
                                    om.tags,
                                    tok,
                                ) - occ(om.tags.take(oi as int), tok),
                            forall|tok: Seq<char>|
                                #[trigger] pcount(ps_pre, tok, id, IndexType::Tag) == occ(
                                    om.tags,
                                    tok,
                                ),
                            forall|tok: Seq<char>, id2: i32, ty2: IndexType|
                                !(id2 == id && ty2 == IndexType::Tag) ==> #[trigger] pcount(
                                    self.postings@,
                                    tok,
                                    id2,
                                    ty2,
                                ) == pcount(ps_pre, tok, id2, ty2),
                        decreases on - oi,
                    {
                        let tg = original.tags[oi].clone();
                        proof {
                            assert(tg@ == om.tags[oi as int]);
                            lemma_occ_prefix_missing(om.tags, oi as int, tg@);
                        }
                        self.del_index(tg.as_str(), Index::new(id, IndexType::Tag));
                        proof {
                            assert forall|tok: Seq<char>| true implies #[trigger] pcount(
                                self.postings@,
                                tok,
                                id,
                                IndexType::Tag,
                            ) == occ(om.tags, tok) - occ(om.tags.take(oi + 1), tok) by {
                                lemma_occ_take_step(om.tags, oi as int, tok);
                            }
                        }
                        oi = oi + 1;
                    }
                    proof {
                        assert forall|tok: Seq<char>| true implies #[trigger] pcount(
                            self.postings@,
                            tok,
                            id,
                            IndexType::Tag,
                        ) == 0 by {
                            assert(om.tags.take(on as int) =~= om.tags);
                        }
                    }
                } else {
                    proof {
                        assert forall|tok: Seq<char>, ty: IndexType| true implies #[trigger]
                        pcount(self.postings@, tok, id, ty) == 0 by {
                            assert(pcount(ps0, tok, id, ty) == live_contrib(dv0, tok, id, ty));
                        }
                    }
                }
                let mut e = self.entries.remove(i);
                e.deleted = true;
                let row = e.clone();
                self.entries.insert(i, e);
                proof {
                    let dv1 = self.entries_dv();
                    let dm = del_marked(om);
                    assert(row@ =~= dm);
                    assert(dv1 =~= dv0.update(i as int, dm));
                    lemma_update_sorted(dv0, i as int, dm);
                    assert(entries_wf(dv1)) by {
                        assert forall|k: int| 0 <= k < dv1.len() implies entry_wf(
                            #[trigger] dv1[k],
                        ) by {
                            if k != i {
                                assert(dv1[k] == dv0[k]);
                            } else {
                                assert(dv1[k] == dm);
                            }
                        }
                    }
                    assert forall|tok: Seq<char>, id2: i32, ty2: IndexType| true implies
                    #[trigger] pcount(self.postings@, tok, id2, ty2) == live_contrib(
                        dv1,
                        tok,
                        id2,
                        ty2,
                    ) by {
                        if id2 == id {
                            assert(entry_of(dv1, id) == dm);
                            assert(dm.deleted);
                            assert(pcount(self.postings@, tok, id, ty2) == 0);
                        } else {
                            lemma_update_preserves_others(dv0, i as int, dm, id2);
                            assert(pcount(self.postings@, tok, id2, ty2) == pcount(
                                ps0,
                                tok,
                                id2,
                                ty2,
                            ));
                            assert(pcount(ps0, tok, id2, ty2) == live_contrib(dv0, tok, id2, ty2));
                        }
                    }
                    assert forall|id2: i32| id2 != dm.id implies #[trigger] has_id(dv1, id2)
                        == has_id(dv0, id2) by {
                        lemma_update_preserves_others(dv0, i as int, dm, id2);
                    }
                    assert forall|id2: i32|
                        id2 != dm.id && has_id(dv0, id2) implies #[trigger] entry_of(dv1, id2)
                        == entry_of(dv0, id2) by {
                        lemma_update_preserves_others(dv0, i as int, dm, id2);
                    }
                    assert(table_put(dv0, dv1, dm));
                }
                Ok(row)
            },
        }
    }

    /// Boot-time load of a tombstone row, bypassing index insertion.
    pub fn mem_load(&mut self, entry: Entry)
        requires
            old(self).wf(),
            entry@.deleted,
            !has_id(old(self).entries_dv(), entry@.id),
        ensures
            final (self).wf(),
            final (self).seg == old(self).seg,
            final (self).postings == old(self).postings,
            table_put(old(self).entries_dv(), final (self).entries_dv(), entry@),
    {
        let ghost dv0 = self.entries_dv();
        let ghost ps0 = self.postings@;
        let ghost em = entry@;
        let pos = self.lower_bound(entry.id);
        proof {
            assert forall|k: int| pos <= k < dv0.len() implies (#[trigger] dv0[k].id) > em.id by {
                if pos < dv0.len() {
                    assert(dv0[pos as int].id >= em.id);
                    if k > pos {
                        assert(dv0[pos as int].id < dv0[k].id);
                    }
                    assert(dv0[k].id != em.id);
                }
            }
            lemma_insert_sorted(dv0, pos as int, em);
        }
        self.entries.insert(pos, entry);
        proof {
            let dv1 = self.entries_dv();
            assert(dv1 =~= dv0.insert(pos as int, em));
            lemma_insert_new_id(dv0, pos as int, em);
            assert(entries_wf(dv1)) by {
                assert forall|k: int| 0 <= k < dv1.len() implies entry_wf(#[trigger] dv1[k]) by {
                    if k < pos {
                        assert(dv1[k] == dv0[k]);
                    } else if k > pos {
                        assert(dv1[k] == dv0[k - 1]);
                    } else {
                        assert(dv1[k] == em);
                    }
                }
            }
            assert forall|tok: Seq<char>, id2: i32, ty2: IndexType| true implies #[trigger] pcount(
                self.postings@,
                tok,
                id2,
                ty2,
            ) == live_contrib(dv1, tok, id2, ty2) by {
                if id2 == em.id {
                    assert(entry_of(dv1, id2) == em);
                    assert(pcount(ps0, tok, id2, ty2) == live_contrib(dv0, tok, id2, ty2));
                    assert(!has_id(dv0, id2));
                } else {
                    lemma_insert_preserves_others(dv0, pos as int, em, id2);
                    assert(pcount(ps0, tok, id2, ty2) == live_contrib(dv0, tok, id2, ty2));
                }
            }
            assert forall|id2: i32| id2 != em.id implies #[trigger] has_id(dv1, id2) == has_id(
                dv0,
                id2,
            ) by {
                lemma_insert_preserves_others(dv0, pos as int, em, id2);
            }
            assert forall|id2: i32|
                id2 != em.id && has_id(dv0, id2) implies #[trigger] entry_of(dv1, id2) == entry_of(
                dv0,
                id2,
            ) by {
                lemma_insert_preserves_others(dv0, pos as int, em, id2);
            }
            assert(!has_id(dv0, em.id));
            assert(table_put(dv0, dv1, em));
        }
    }

    /// Number of rows, hidden placeholders and tombstones included.
    pub fn len(&self) -> (r: u64)
        ensures
            r as int == self.entries_dv().len(),
    {
        self.entries.len() as u64
    }

    /// The stored row under an id, whatever its flags; callers apply
    /// their own visibility policy.
    pub fn fetch(&self, id: i32) -> (r: Option<Entry>)
        requires
            self.wf(),
        ensures
            match r {
                Some(e) => has_id(self.entries_dv(), id) && e@ == entry_of(self.entries_dv(), id),
                None => !has_id(self.entries_dv(), id),
            },
    {
        let found = self.find_entry(id);
        match found {
            None => None,
            Some(i) => {
                proof {
                    assert(has_id(self.entries_dv(), id)) by {
                        assert(self.entries_dv()[i as int].id == id);
                    }
                    lemma_idx_of(self.entries_dv(), id);
                    assert(idx_of(self.entries_dv(), id) == i as int);
                }
                Some(self.entries[i].clone())
            },
        }
    }

    /// Whether the proposed entry is field-for-field identical to the
    /// currently stored row under its id.
    pub fn cmp_entry(&self, entry: &Entry) -> (r: bool)
        requires
            self.wf(),
        ensures
            r == (has_id(self.entries_dv(), entry@.id) && entry_of(self.entries_dv(), entry@.id)
                == entry@),
    {
        let found = self.find_entry(entry.id);
        match found {
            None => false,
            Some(i) => {
                proof {
                    assert(has_id(self.entries_dv(), entry@.id)) by {
                        assert(self.entries_dv()[i as int].id == entry@.id);
                    }
                    lemma_idx_of(self.entries_dv(), entry@.id);
                    assert(idx_of(self.entries_dv(), entry@.id) == i as int);
                }
                self.entries[i].same_as(entry)
            },
        }
    }

    /// The largest stored id, or 0 while the table is empty.
    pub fn highest_id(&self) -> (r: i32)
        requires
            self.wf(),
        ensures
            self.entries_dv().len() == 0 ==> r == 0,
            self.entries_dv().len() > 0 ==> r == self.entries_dv().last().id,
            forall|k: int| 0 <= k < self.entries_dv().len() ==> (#[trigger] self.entries_dv()[k].id) <= r,
    {
        let n = self.entries.len();
        if n == 0 {
            0
        } else {
            let r = self.entries[n - 1].id;
            proof {
                assert forall|k: int| 0 <= k < self.entries_dv().len() implies (
                #[trigger] self.entries_dv()[k].id) <= r by {
                    if k < n - 1 {
                        assert(self.entries_dv()[k].id < self.entries_dv()[n - 1].id);
                    }
                }
            }
            r
        }
    }
}

/// The presentation order of scored search on two entries: a higher
/// saturated query score comes first, ties are broken by name.
pub open spec fn ranked(a: EntryModel, b: EntryModel, kws: Seq<Seq<char>>) -> bool {
    clamp128(query_score(a, kws)) > clamp128(query_score(b, kws)) || (clamp128(query_score(a, kws))
        == clamp128(query_score(b, kws)) && chars_le(a.name, b.name))
}

/// Availability filtering: an entry is available while its
/// disbandment date is unset.
pub open spec fn avail_match(e: EntryModel, avail: Option<Availability>) -> bool {
    match avail {
        None => true,
        Some(Availability::Available) => e.disbandment is None,
        Some(Availability::Disbanded) => e.disbandment is Some,
    }
}

/// The weighted score one token earns against one entry, summed over
/// the four field kinds.
pub open spec fn token_score(e: EntryModel, tok: Seq<char>) -> int {
    10 * contrib_count(e, tok, IndexType::Name) + 1 * contrib_count(e, tok, IndexType::NameSeg) + 5
        * contrib_count(e, tok, IndexType::Category) + 2 * contrib_count(e, tok, IndexType::Tag)
}

/// The score a sequence of sub-tokens earns against one entry.
pub open spec fn segs_score(e: EntryModel, segs: Seq<Seq<char>>) -> int
    decreases segs.len(),
{
    if segs.len() == 0 {
        0
    } else {
        segs_score(e, segs.drop_last()) + token_score(e, segs.last())
    }
}

/// The total score of a keyword query against one entry: each keyword
/// is expanded by the segmenter, and keywords it rejects contribute
/// nothing.
pub open spec fn query_score(e: EntryModel, kws: Seq<Seq<char>>) -> int
    decreases kws.len(),
{
    if kws.len() == 0 {
        0
    } else {
        query_score(e, kws.drop_last()) + (if has_nul(kws.last()) {
            0int
        } else {
            segs_score(e, segments_of(kws.last()))
        })
    }
}

/// Saturation at the machine word the accumulator is kept in.
pub open spec fn clamp128(x: int) -> int {
    if x > u128::MAX as int {
        u128::MAX as int
    } else {
        x
    }
}

/// The ranking of scored search results: higher saturated score first,
/// ties broken by name ascending.
pub open spec fn rank_le(a: ScoredModel, b: ScoredModel) -> bool {
    a.score > b.score || (a.score == b.score && chars_le(a.entry.name, b.entry.name))
}

pub open spec fn rank_lt(a: ScoredModel, b: ScoredModel) -> bool {
    a.score > b.score || (a.score == b.score && crate::text::chars_lt(a.entry.name, b.entry.name))
}


pub proof fn lemma_token_score_nonneg(e: EntryModel, tok: Seq<char>)
    ensures
        token_score(e, tok) >= 0,
{
}

pub proof fn lemma_segs_score_nonneg(e: EntryModel, segs: Seq<Seq<char>>)
    ensures
        segs_score(e, segs) >= 0,
    decreases segs.len(),
{
    if segs.len() > 0 {
        lemma_segs_score_nonneg(e, segs.drop_last());
    }
}

pub proof fn lemma_query_score_nonneg(e: EntryModel, kws: Seq<Seq<char>>)
    ensures
        query_score(e, kws) >= 0,
    decreases kws.len(),
{
    if kws.len() > 0 {
        lemma_query_score_nonneg(e, kws.drop_last());
        if !has_nul(kws.last()) {
            lemma_segs_score_nonneg(e, segments_of(kws.last()));
        }
    }
}



/// The weighted score the posting table yields for one token and one
/// id, over the four field kinds.
pub open spec fn pscore(ps: Seq<Posting>, tok: Seq<char>, id: i32) -> int {
    10 * pcount(ps, tok, id, IndexType::Name) + 1 * pcount(ps, tok, id, IndexType::NameSeg) + 5
        * pcount(ps, tok, id, IndexType::Category) + 2 * pcount(ps, tok, id, IndexType::Tag)
}

/// The contribution one posting makes to `pscore`.
pub open spec fn pdelta(p: Posting, tok: Seq<char>, id: i32) -> int {
    if p.token@ == tok && p.target.id == id {
        p.target.t.weight() * p.count as int
    } else {
        0
    }
}

pub open spec fn iscore_segs(ps: Seq<Posting>, segs: Seq<Seq<char>>, id: i32) -> int
    decreases segs.len(),
{
    if segs.len() == 0 {
        0
    } else {
        iscore_segs(ps, segs.drop_last(), id) + pscore(ps, segs.last(), id)
    }
}

pub open spec fn iscore_q(ps: Seq<Posting>, kws: Seq<Seq<char>>, id: i32) -> int
    decreases kws.len(),
{
    if kws.len() == 0 {
        0
    } else {
        iscore_q(ps, kws.drop_last(), id) + (if has_nul(kws.last()) {
            0int
        } else {
            iscore_segs(ps, segments_of(kws.last()), id)
        })
    }
}

pub proof fn lemma_pscore_take_step(ps: Seq<Posting>, i: int, tok: Seq<char>, id: i32)
    requires
        0 <= i < ps.len(),
    ensures
        pscore(ps.take(i + 1), tok, id) == pscore(ps.take(i), tok, id) + pdelta(ps[i], tok, id),
{
    lemma_pcount_take_step(ps, i, tok, id, IndexType::Name);
    lemma_pcount_take_step(ps, i, tok, id, IndexType::NameSeg);
    lemma_pcount_take_step(ps, i, tok, id, IndexType::Category);
    lemma_pcount_take_step(ps, i, tok, id, IndexType::Tag);
    if ps[i].token@ == tok && ps[i].target.id == id {
        match ps[i].target.t {
            IndexType::Name => {},
            IndexType::NameSeg => {},
            IndexType::Category => {},
            IndexType::Tag => {},
        }
    }
}

pub proof fn lemma_pscore_empty_prefix(ps: Seq<Posting>, tok: Seq<char>, id: i32)
    ensures
        pscore(ps.take(0), tok, id) == 0,
{
    assert(ps.take(0) =~= Seq::<Posting>::empty());
}


pub proof fn lemma_iscore_segs_take_step(ps: Seq<Posting>, segs: Seq<Seq<char>>, i: int, id: i32)
    requires
        0 <= i < segs.len(),
    ensures
        iscore_segs(ps, segs.take(i + 1), id) == iscore_segs(ps, segs.take(i), id) + pscore(
            ps,
            segs[i],
            id,
        ),
{
    assert(segs.take(i + 1).drop_last() =~= segs.take(i));
    assert(segs.take(i + 1).last() == segs[i]);
}

pub proof fn lemma_iscore_q_take_step(ps: Seq<Posting>, kws: Seq<Seq<char>>, i: int, id: i32)
    requires
        0 <= i < kws.len(),
    ensures
        iscore_q(ps, kws.take(i + 1), id) == iscore_q(ps, kws.take(i), id) + (if has_nul(kws[i]) {
            0int
        } else {
            iscore_segs(ps, segments_of(kws[i]), id)
        }),
{
    assert(kws.take(i + 1).drop_last() =~= kws.take(i));
    assert(kws.take(i + 1).last() == kws[i]);
}

/// Under the index invariant, the posting table's score for a token
/// and id is exactly the entry-level token score of the live row, or
/// nothing.
pub proof fn lemma_pscore_entry(
    dv: Seq<EntryModel>,
    ps: Seq<Posting>,
    tok: Seq<char>,
    id: i32,
)
    requires
        index_consistent(dv, ps),
    ensures
        pscore(ps, tok, id) == (if has_id(dv, id) && !entry_of(dv, id).deleted {
            token_score(entry_of(dv, id), tok)
        } else {
            0int
        }),
{
    assert(pcount(ps, tok, id, IndexType::Name) == live_contrib(dv, tok, id, IndexType::Name));
    assert(pcount(ps, tok, id, IndexType::NameSeg) == live_contrib(
        dv,
        tok,
        id,
        IndexType::NameSeg,
    ));
    assert(pcount(ps, tok, id, IndexType::Category) == live_contrib(
        dv,
        tok,
        id,
        IndexType::Category,
    ));
    assert(pcount(ps, tok, id, IndexType::Tag) == live_contrib(dv, tok, id, IndexType::Tag));
}

pub proof fn lemma_iscore_segs_entry(
    dv: Seq<EntryModel>,
    ps: Seq<Posting>,
    segs: Seq<Seq<char>>,
    id: i32,
)
    requires
        index_consistent(dv, ps),
    ensures
        iscore_segs(ps, segs, id) == (if has_id(dv, id) && !entry_of(dv, id).deleted {
            segs_score(entry_of(dv, id), segs)
        } else {
            0int
        }),
    decreases segs.len(),
{
    if segs.len() > 0 {
        lemma_iscore_segs_entry(dv, ps, segs.drop_last(), id);
        lemma_pscore_entry(dv, ps, segs.last(), id);
    }
}

pub proof fn lemma_iscore_q_entry(
    dv: Seq<EntryModel>,
    ps: Seq<Posting>,
    kws: Seq<Seq<char>>,
    id: i32,
)
    requires
        index_consistent(dv, ps),
    ensures
        iscore_q(ps, kws, id) == (if has_id(dv, id) && !entry_of(dv, id).deleted {
            query_score(entry_of(dv, id), kws)
        } else {
            0int
        }),
    decreases kws.len(),
{
    if kws.len() > 0 {
        lemma_iscore_q_entry(dv, ps, kws.drop_last(), id);
        if !has_nul(kws.last()) {
            lemma_iscore_segs_entry(dv, ps, segments_of(kws.last()), id);
        }
    }
}

/// A live, well-formed row derives only boundedly many references for
/// any one triple.
pub proof fn lemma_contrib_bound(e: EntryModel, tok: Seq<char>, ty: IndexType)
    requires
        entry_wf(e),
        !e.deleted,
    ensures
        contrib_count(e, tok, ty) <= 2 * (usize::MAX as int) + 2,
{
    match ty {
        IndexType::Name => {},
        IndexType::Category => {},
        IndexType::Tag => {
            crate::text::lemma_occ_le_len(e.tags, tok);
        },
        IndexType::NameSeg => {
            crate::text::lemma_occ_le_len(segments_of(e.name), tok);
            crate::text::lemma_occ_le_len(segments_of(e.name_eng), tok);
        },
    }
}

pub proof fn lemma_clamp_add(x: int, d: int)
    requires
        d >= 0,
    ensures
        clamp128(clamp128(x) + d) == clamp128(x + d),
{
}

/// One accumulator cell of scored search.
pub struct ScoreCell {
    pub id: i32,
    pub score: u128,
}

/// The accumulated score a cell table holds for an id.
pub open spec fn accval(s: Seq<ScoreCell>, id: i32) -> int
    decreases s.len(),
{
    if s.len() == 0 {
        0
    } else {
        (if s.last().id == id {
            s.last().score as int
        } else {
            0
        }) + accval(s.drop_last(), id)
    }
}

pub open spec fn acc_unique(s: Seq<ScoreCell>) -> bool {
    forall|i: int, j: int| 0 <= i < j < s.len() ==> (#[trigger] s[i].id) != (#[trigger] s[j].id)
}

pub proof fn lemma_accval_no_match(s: Seq<ScoreCell>, id: i32)
    requires
        forall|i: int| 0 <= i < s.len() ==> (#[trigger] s[i].id) != id,
    ensures
        accval(s, id) == 0,
    decreases s.len(),
{
    if s.len() > 0 {
        assert(forall|i: int| 0 <= i < s.drop_last().len() ==> s.drop_last()[i] == s[i]);
        lemma_accval_no_match(s.drop_last(), id);
        assert(s[s.len() - 1] == s.last());
    }
}

pub proof fn lemma_accval_found(s: Seq<ScoreCell>, i: int, id: i32)
    requires
        acc_unique(s),
        0 <= i < s.len(),
        s[i].id == id,
    ensures
        accval(s, id) == s[i].score as int,
    decreases s.len(),
{
    if i == s.len() - 1 {
        assert(forall|j: int|
            0 <= j < s.drop_last().len() ==> (#[trigger] s.drop_last()[j].id) != id) by {
            assert(forall|j: int| 0 <= j < s.drop_last().len() ==> s.drop_last()[j] == s[j]);
        }
        lemma_accval_no_match(s.drop_last(), id);
        assert(s[i] == s.last());
    } else {
        assert(acc_unique(s.drop_last())) by {
            assert(forall|j: int| 0 <= j < s.drop_last().len() ==> s.drop_last()[j] == s[j]);
        }
        assert(s.drop_last()[i] == s[i]);
        lemma_accval_found(s.drop_last(), i, id);
        assert(s[s.len() - 1] == s.last());
    }
}

pub proof fn lemma_accval_push(s: Seq<ScoreCell>, c: ScoreCell, id: i32)
    ensures
        accval(s.push(c), id) == accval(s, id) + (if c.id == id {
            c.score as int
        } else {
            0int
        }),
{
    assert(s.push(c).drop_last() =~= s);
    assert(s.push(c).last() == c);
}

pub proof fn lemma_accval_update(s: Seq<ScoreCell>, i: int, c: ScoreCell, id: i32)
    requires
        0 <= i < s.len(),
    ensures
        accval(s.update(i, c), id) == accval(s, id) - (if s[i].id == id {
            s[i].score as int
        } else {
            0int
        }) + (if c.id == id {
            c.score as int
        } else {
            0int
        }),
    decreases s.len(),
{
    if i == s.len() - 1 {
        assert(s.update(i, c).drop_last() =~= s.drop_last());
        assert(s.update(i, c).last() == c);
    } else {
        assert(s.update(i, c).drop_last() =~= s.drop_last().update(i, c));
        assert(s.update(i, c).last() == s.last());
        lemma_accval_update(s.drop_last(), i, c, id);
    }
}

fn sat_add(a: u128, b: u128) -> (r: u128)
    ensures
        r as int == clamp128(a as int + b as int),
{
    if a <= u128::MAX - b {
        a + b
    } else {
        u128::MAX
    }
}

/// Raise the accumulated score of one id, saturating at the top of
/// the accumulator's range.
fn bump(acc: &mut Vec<ScoreCell>, id: i32, delta: u128)
    requires
        acc_unique(old(acc)@),
        forall|i: int| 0 <= i < old(acc)@.len() ==> (#[trigger] old(acc)@[i].score) >= 1,
        delta >= 1,
    ensures
        acc_unique(final (acc)@),
        forall|i: int| 0 <= i < final (acc)@.len() ==> (#[trigger] final (acc)@[i].score) >= 1,
        accval(final (acc)@, id) == clamp128(accval(old(acc)@, id) + delta),
        forall|id2: i32| id2 != id ==> #[trigger] accval(final (acc)@, id2) == accval(
            old(acc)@,
            id2,
        ),
        forall|k: int|
            0 <= k < final (acc)@.len() ==> (#[trigger] final (acc)@[k].id) == id || exists|m: int|
                0 <= m < old(acc)@.len() && old(acc)@[m].id == final (acc)@[k].id,
{
    let ghost a0 = acc@;
    let n = acc.len();
    let mut i: usize = 0;
    while i < n
        invariant
            n == acc@.len(),
            acc@ == a0,
            a0 == old(acc)@,
            acc_unique(a0),
            forall|k: int| 0 <= k < a0.len() ==> (#[trigger] a0[k].score) >= 1,
            0 <= i <= n,
            forall|k: int| 0 <= k < i ==> (#[trigger] acc@[k].id) != id,
        decreases n - i,
    {
        if acc[i].id == id {
            proof {
                lemma_accval_found(a0, i as int, id);
            }
            let cur = acc[i].score;
            let ns = sat_add(cur, delta);
            let mut c = acc.remove(i);
            c.score = ns;
            acc.insert(i, c);
            proof {
                let cnew = acc@[i as int];
                assert(acc@ =~= a0.update(i as int, cnew));
                assert forall|id2: i32| true implies #[trigger] accval(acc@, id2) == accval(
                    a0,
                    id2,
                ) - (if a0[i as int].id == id2 {
                    a0[i as int].score as int
                } else {
                    0int
                }) + (if cnew.id == id2 {
                    cnew.score as int
                } else {
                    0int
                }) by {
                    lemma_accval_update(a0, i as int, cnew, id2);
                }
                assert(acc_unique(acc@)) by {
                    assert(forall|a: int| 0 <= a < a0.len() && a != i ==> acc@[a] == a0[a]);
                }
                assert(accval(acc@, id) == clamp128(accval(a0, id) + delta));
                assert forall|k: int| 0 <= k < acc@.len() implies (#[trigger] acc@[k].id) == id
                    || exists|m: int| 0 <= m < a0.len() && a0[m].id == acc@[k].id by {
                    if k != i {
                        assert(a0[k].id == acc@[k].id);
                    }
                }
            }
            return ;
        }
        i = i + 1;
    }
    proof {
        lemma_accval_no_match(a0, id);
    }
    let c = ScoreCell { id, score: delta };
    acc.push(c);
    proof {
        let cnew = acc@[acc@.len() - 1];
        assert(acc@ =~= a0.push(cnew));
        assert forall|id2: i32| true implies #[trigger] accval(acc@, id2) == accval(a0, id2) + (
        if cnew.id == id2 {
            cnew.score as int
        } else {
            0int
        }) by {
            lemma_accval_push(a0, cnew, id2);
        }
        assert(acc_unique(acc@)) by {
            assert(forall|a: int| 0 <= a < a0.len() ==> acc@[a] == a0[a]);
        }
        assert(accval(acc@, id) == clamp128(accval(a0, id) + delta));
        assert forall|k: int| 0 <= k < acc@.len() implies (#[trigger] acc@[k].id) == id || exists|
            m: int,
        | 0 <= m < a0.len() && a0[m].id == acc@[k].id by {
            if k < a0.len() {
                assert(a0[k].id == acc@[k].id);
            }
        }
    }
}

/// The mathematical shape of one scored result row.
#[verifier::ext_equal]
pub struct ScoredModel {
    pub score: u128,
    pub entry: EntryModel,
}

/// One scored result row, before ranking.
pub struct Scored {
    pub score: u128,
    pub entry: Entry,
}

impl View for Scored {
    type V = ScoredModel;

    open spec fn view(&self) -> ScoredModel {
        ScoredModel { score: self.score, entry: self.entry@ }
    }
}

impl DeepView for Scored {
    type V = ScoredModel;

    open spec fn deep_view(&self) -> ScoredModel {
        self@
    }
}

pub proof fn lemma_rank_le_transitive(a: ScoredModel, b: ScoredModel, c: ScoredModel)
    requires
        rank_le(a, b),
        rank_le(b, c),
    ensures
        rank_le(a, c),
{
    if a.score == b.score && b.score == c.score {
        crate::text::lemma_chars_le_transitive(a.entry.name, b.entry.name, c.entry.name);
    }
}

pub proof fn lemma_rank_connected(a: ScoredModel, b: ScoredModel)
    requires
        !rank_lt(a, b),
    ensures
        rank_le(b, a),
{
    if a.score == b.score {
        if a.entry.name != b.entry.name {
            crate::text::lemma_chars_lt_connected(a.entry.name, b.entry.name);
        }
    }
}

pub proof fn lemma_rank_lt_le(a: ScoredModel, b: ScoredModel)
    requires
        rank_lt(a, b),
    ensures
        rank_le(a, b),
{
}

/// Sorted for presentation: higher score first, names ascending
/// within a score.
pub open spec fn scored_sorted(s: Seq<ScoredModel>) -> bool {
    forall|i: int, j: int| 0 <= i < j < s.len() ==> rank_le(#[trigger] s[i], #[trigger] s[j])
}

/// Insertion sort for scored rows.
fn sort_scored(v: &mut Vec<Scored>)
    ensures
        scored_sorted(final (v).deep_view()),
        final (v).deep_view().to_multiset() == old(v).deep_view().to_multiset(),
        final (v).len() == old(v).len(),
{
    let ghost orig = v.deep_view();
    let n = v.len();
    if n <= 1 {
        return ;
    }
    let mut k: usize = 1;
    while k < n
        invariant
            n == v.len(),
            n >= 2,
            1 <= k <= n,
            scored_sorted(v.deep_view().take(k as int)),
            v.deep_view().to_multiset() == orig.to_multiset(),
        decreases n - k,
    {
        proof {
            assert forall|a: int, b: int| 0 <= a < b <= k && a != k && b != k implies rank_le(
                #[trigger] v.deep_view()[a],
                #[trigger] v.deep_view()[b],
            ) by {
                assert(v.deep_view().take(k as int)[a] == v.deep_view()[a]);
                assert(v.deep_view().take(k as int)[b] == v.deep_view()[b]);
            }
        }
        let mut j: usize = k;
        loop
            invariant
                n == v.len(),
                0 <= j <= k < n,
                forall|a: int, b: int|
                    0 <= a < b <= k && a != j && b != j ==> rank_le(
                        #[trigger] v.deep_view()[a],
                        #[trigger] v.deep_view()[b],
                    ),
                forall|b: int|
                    j < b <= k ==> rank_lt(v.deep_view()[j as int], #[trigger] v.deep_view()[b]),
                v.deep_view().to_multiset() == orig.to_multiset(),
            ensures
                n == v.len(),
                0 <= j <= k < n,
                forall|a: int, b: int|
                    0 <= a < b <= k && a != j && b != j ==> rank_le(
                        #[trigger] v.deep_view()[a],
                        #[trigger] v.deep_view()[b],
                    ),
                forall|b: int|
                    j < b <= k ==> rank_lt(v.deep_view()[j as int], #[trigger] v.deep_view()[b]),
                v.deep_view().to_multiset() == orig.to_multiset(),
                j == 0 || rank_le(v.deep_view()[j - 1], v.deep_view()[j as int]),
            decreases j,
        {
            if j == 0 {
                break ;
            }
            let moving = v[j].score > v[j - 1].score || (v[j].score == v[j - 1].score
                && crate::text::str_lt(v[j].entry.name.as_str(), v[j - 1].entry.name.as_str()));
            if !moving {
                proof {
                    lemma_rank_connected(v.deep_view()[j as int], v.deep_view()[j - 1]);
                }
                break ;
            }
            let ghost before = v.deep_view();
            let x = v.remove(j);
            v.insert(j - 1, x);
            proof {
                broadcast use vstd::seq_lib::group_to_multiset_ensures;

                let e = before[j as int];
                assert(v.deep_view() =~= before.remove(j as int).insert(j - 1, e));
                assert(before.remove(j as int).to_multiset() == before.to_multiset().remove(e));
                assert(before.remove(j as int).insert(j - 1, e).to_multiset() == before.remove(
                    j as int,
                ).to_multiset().insert(e));
                assert(before.contains(e)) by {
                    assert(before[j as int] == e);
                }
                assert(before.to_multiset().count(e) > 0);
                assert(before.to_multiset().remove(e).insert(e) =~= before.to_multiset());
                assert(v.deep_view().to_multiset() == before.to_multiset());
                assert forall|b: int| j - 1 < b <= k implies rank_lt(
                    v.deep_view()[j - 1],
                    #[trigger] v.deep_view()[b],
                ) by {
                    if b == j {
                        assert(v.deep_view()[b] == before[j - 1]);
                    } else {
                        assert(v.deep_view()[b] == before[b]);
                    }
                }
                assert forall|a: int, b: int|
                    0 <= a < b <= k && a != j - 1 && b != j - 1 implies rank_le(
                    #[trigger] v.deep_view()[a],
                    #[trigger] v.deep_view()[b],
                ) by {
                    if a == j {
                        assert(v.deep_view()[a] == before[j - 1]);
                        assert(v.deep_view()[b] == before[b]);
                    } else if b == j {
                        assert(v.deep_view()[a] == before[a]);
                        assert(v.deep_view()[b] == before[j - 1]);
                    } else {
                        assert(v.deep_view()[a] == before[a]);
                        assert(v.deep_view()[b] == before[b]);
                    }
                }
            }
            j = j - 1;
        }
        proof {
            let dv = v.deep_view();
            assert forall|a: int, b: int| 0 <= a < b <= k implies rank_le(
                #[trigger] dv[a],
                #[trigger] dv[b],
            ) by {
                if a == j {
                    lemma_rank_lt_le(dv[a], dv[b]);
                } else if b == j {
                    if j > 0 {
                        assert(rank_le(dv[j - 1], dv[j as int]));
                        if a < j - 1 {
                            assert(rank_le(dv[a], dv[j - 1]));
                            lemma_rank_le_transitive(dv[a], dv[j - 1], dv[j as int]);
                        }
                    }
                }
            }
            assert(scored_sorted(dv.take(k + 1))) by {
                assert(forall|a: int, b: int|
                    0 <= a < b < k + 1 ==> rank_le(
                        #[trigger] dv.take(k + 1)[a],
                        #[trigger] dv.take(k + 1)[b],
                    ));
            }
        }
        k = k + 1;
    }
    proof {
        assert(v.deep_view().take(n as int) =~= v.deep_view());
    }
}

/// Two sequences with equal multisets hold the same ids, and if one
/// has pairwise distinct ids so does the other.
/// Whether a row occurs in a sequence of scored rows.
pub open spec fn row_in(s: Seq<ScoredModel>, x: ScoredModel) -> bool {
    exists|i: int| 0 <= i < s.len() && s[i] == x
}

proof fn lemma_ms_count_from_two(s: Seq<ScoredModel>, i: int, j: int)
    requires
        0 <= i < j < s.len(),
        s[i] == s[j],
    ensures
        s.to_multiset().count(s[i]) >= 2,
{
    broadcast use vstd::multiset::group_multiset_axioms;

    vstd::seq_lib::to_multiset_remove(s, i);
    vstd::seq_lib::to_multiset_contains(s.remove(i), s[i]);
    assert(s.remove(i).contains(s[i])) by {
        assert(s.remove(i)[j - 1] == s[i]);
    }
    assert(s.to_multiset().remove(s[i]).count(s[i]) >= 1);
}

proof fn lemma_row_count_pos(s: Seq<ScoredModel>, j: int)
    requires
        0 <= j < s.len(),
    ensures
        s.to_multiset().count(s[j]) > 0,
{
    vstd::seq_lib::to_multiset_contains(s, s[j]);
    assert(s.contains(s[j])) by {
        assert(0 <= j < s.len() && s[j] == s[j]);
    }
}

proof fn index_of_row(s: Seq<ScoredModel>, x: ScoredModel) -> (i: int)
    requires
        s.to_multiset().count(x) > 0,
    ensures
        0 <= i < s.len(),
        s[i] == x,
{
    vstd::seq_lib::to_multiset_contains(s, x);
    assert(s.contains(x));
    choose|i: int| 0 <= i < s.len() && s[i] == x
}

proof fn lemma_ms_two_indices(s: Seq<ScoredModel>, x: ScoredModel) -> (r: (int, int))
    requires
        s.to_multiset().count(x) >= 2,
    ensures
        0 <= r.0 < r.1 < s.len(),
        s[r.0] == x,
        s[r.1] == x,
{
    broadcast use vstd::multiset::group_multiset_axioms;

    let i1 = index_of_row(s, x);
    vstd::seq_lib::to_multiset_remove(s, i1);
    assert(s.remove(i1).to_multiset().count(x) >= 1);
    let i2 = index_of_row(s.remove(i1), x);
    let i2o: int = if i2 < i1 {
        i2
    } else {
        i2 + 1
    };
    assert(s[i2o] == x);
    assert(i2o != i1);
    if i1 < i2o {
        (i1, i2o)
    } else {
        (i2o, i1)
    }
}

/// Every row of one sequence occurs in the other.
proof fn lemma_perm_scored_members(a: Seq<ScoredModel>, b: Seq<ScoredModel>)
    requires
        a.to_multiset() == b.to_multiset(),
    ensures
        forall|j: int| 0 <= j < b.len() ==> row_in(a, #[trigger] b[j]),
        forall|i: int| 0 <= i < a.len() ==> row_in(b, #[trigger] a[i]),
{
    assert forall|j: int| 0 <= j < b.len() implies row_in(a, #[trigger] b[j]) by {
        lemma_row_count_pos(b, j);
        let i = index_of_row(a, b[j]);
        assert(0 <= i < a.len() && a[i] == b[j]);
    }
    assert forall|i: int| 0 <= i < a.len() implies row_in(b, #[trigger] a[i]) by {
        lemma_row_count_pos(a, i);
        let j = index_of_row(b, a[i]);
        assert(0 <= j < b.len() && b[j] == a[i]);
    }
}

/// Pairwise distinct ids survive a permutation.
proof fn lemma_perm_scored_distinct(a: Seq<ScoredModel>, b: Seq<ScoredModel>)
    requires
        a.to_multiset() == b.to_multiset(),
        forall|i: int, j: int|
            0 <= i < j < a.len() ==> (#[trigger] a[i].entry.id) != (#[trigger] a[j].entry.id),
    ensures
        forall|i: int, j: int|
            0 <= i < j < b.len() ==> (#[trigger] b[i].entry.id) != (#[trigger] b[j].entry.id),
{
    assert forall|i: int, j: int| 0 <= i < j < b.len() implies (#[trigger] b[i].entry.id) != (
    #[trigger] b[j].entry.id) by {
        if b[i].entry.id == b[j].entry.id {
            lemma_row_count_pos(b, i);
            lemma_row_count_pos(b, j);
            if b[i] == b[j] {
                lemma_ms_count_from_two(b, i, j);
                let (i1, j1) = lemma_ms_two_indices(a, b[i]);
                assert(a[i1].entry.id == a[j1].entry.id);
                assert(false);
            } else {
                let i1 = index_of_row(a, b[i]);
                let i2 = index_of_row(a, b[j]);
                assert(i1 != i2);
                assert(a[i1].entry.id == a[i2].entry.id);
                assert(false);
            }
        }
    }
}

/// Two sequences with equal multisets hold the same rows, and if one
/// has pairwise distinct ids so does the other.
pub proof fn lemma_perm_scored(a: Seq<ScoredModel>, b: Seq<ScoredModel>)
    requires
        a.to_multiset() == b.to_multiset(),
        forall|i: int, j: int|
            0 <= i < j < a.len() ==> (#[trigger] a[i].entry.id) != (#[trigger] a[j].entry.id),
    ensures
        forall|j: int| 0 <= j < b.len() ==> row_in(a, #[trigger] b[j]),
        forall|i: int| 0 <= i < a.len() ==> row_in(b, #[trigger] a[i]),
        forall|i: int, j: int|
            0 <= i < j < b.len() ==> (#[trigger] b[i].entry.id) != (#[trigger] b[j].entry.id),
{
    lemma_perm_scored_members(a, b);
    lemma_perm_scored_distinct(a, b);
}

impl InternalStore {
    /// Listing: the non-deleted, non-hidden rows that pass the
    /// availability filter, sorted by name ascending.
    #[verifier::rlimit(60)]
    fn filter_listing(&self, avail: Option<Availability>) -> (r: Vec<Entry>)
        requires
            self.wf(),
        ensures
            forall|j: int|
                0 <= j < r.deep_view().len() ==> {
                    let e = #[trigger] r.deep_view()[j];
                    &&& has_id(self.entries_dv(), e.id)
                    &&& e == entry_of(self.entries_dv(), e.id)
                    &&& !e.deleted
                    &&& !e.hidden
                    &&& avail_match(e, avail)
                },
            forall|k: int|
                0 <= k < self.entries_dv().len() && !(#[trigger] self.entries_dv()[k]).deleted
                    && !self.entries_dv()[k].hidden && avail_match(self.entries_dv()[k], avail)
                    ==> exists|j: int|
                    0 <= j < r.deep_view().len() && r.deep_view()[j].id == self.entries_dv()[k].id,
            forall|j1: int, j2: int|
                0 <= j1 < j2 < r.deep_view().len() ==> (#[trigger] r.deep_view()[j1].id) != (
                #[trigger] r.deep_view()[j2].id),
            forall|j1: int, j2: int|
                0 <= j1 < j2 < r.deep_view().len() ==> chars_le(
                    (#[trigger] r.deep_view()[j1]).name,
                    (#[trigger] r.deep_view()[j2]).name,
                ),
    {
        let ghost dv = self.entries_dv();
        let mut rows: Vec<Scored> = Vec::new();
        let n = self.entries.len();
        let mut i: usize = 0;
        while i < n
            invariant
                self.wf(),
                dv == self.entries_dv(),
                n == dv.len(),
                0 <= i <= n,
                forall|j: int|
                    0 <= j < rows.deep_view().len() ==> {
                        let x = #[trigger] rows.deep_view()[j];
                        &&& x.score == 0
                        &&& has_id(dv, x.entry.id)
                        &&& x.entry == entry_of(dv, x.entry.id)
                        &&& !x.entry.deleted
                        &&& !x.entry.hidden
                        &&& avail_match(x.entry, avail)
                    },
                forall|k: int|
                    0 <= k < i && !(#[trigger] dv[k]).deleted && !dv[k].hidden && avail_match(
                        dv[k],
                        avail,
                    ) ==> exists|j: int|
                        0 <= j < rows.deep_view().len() && rows.deep_view()[j].entry.id
                            == dv[k].id,
                forall|j: int, k: int|
                    0 <= j < rows.deep_view().len() && i <= k < n ==> (
                    #[trigger] rows.deep_view()[j].entry.id) < (#[trigger] dv[k].id),
                forall|j1: int, j2: int|
                    0 <= j1 < j2 < rows.deep_view().len() ==> (
                    #[trigger] rows.deep_view()[j1].entry.id) < (
                    #[trigger] rows.deep_view()[j2].entry.id),
            decreases n - i,
        {
            let e = &self.entries[i];
            let keep = !e.deleted && !e.hidden && (match avail {
                None => true,
                Some(Availability::Available) => e.disbandment.is_none(),
                Some(Availability::Disbanded) => e.disbandment.is_some(),
            });
            if keep {
                let ghost before = rows.deep_view();
                rows.push(Scored { score: 0, entry: e.clone() });
                proof {
                    assert(rows.deep_view() =~= before.push(
                        ScoredModel { score: 0, entry: dv[i as int] },
                    ));
                    assert(has_id(dv, dv[i as int].id)) by {
                        assert(dv[i as int].id == dv[i as int].id);
                    }
                    lemma_idx_of(dv, dv[i as int].id);
                    assert(idx_of(dv, dv[i as int].id) == i as int);
                    assert forall|k: int|
                        0 <= k < i + 1 && !(#[trigger] dv[k]).deleted && !dv[k].hidden
                            && avail_match(dv[k], avail) implies exists|j: int|
                        0 <= j < rows.deep_view().len() && rows.deep_view()[j].entry.id
                            == dv[k].id by {
                        if k == i {
                            assert(rows.deep_view()[before.len() as int].entry.id == dv[k].id);
                        } else {
                            let j = choose|j: int|
                                0 <= j < before.len() && before[j].entry.id == dv[k].id;
                            assert(rows.deep_view()[j].entry.id == dv[k].id);
                        }
                    }
                }
            }
            i = i + 1;
        }
        proof {
            assert forall|k: int|
                0 <= k < n && !(#[trigger] dv[k]).deleted && !dv[k].hidden && avail_match(
                    dv[k],
                    avail,
                ) implies exists|j: int|
                0 <= j < rows.deep_view().len() && rows.deep_view()[j].entry.id == dv[k].id by {}
        }
        let ghost pre = rows.deep_view();
        sort_scored(&mut rows);
        proof {
            lemma_perm_scored(pre, rows.deep_view());
        }
        let ghost post = rows.deep_view();
        let m = rows.len();
        let mut out: Vec<Entry> = Vec::new();
        let mut j: usize = 0;
        while j < m
            invariant
                m == rows@.len(),
                post == rows.deep_view(),
                0 <= j <= m,
                out.deep_view().len() == j,
                forall|a: int| 0 <= a < j ==> (#[trigger] out.deep_view()[a]) == post[a].entry,
            decreases m - j,
        {
            let ghost before = out.deep_view();
            out.push(rows[j].entry.clone());
            proof {
                assert(out.deep_view() =~= before.push(post[j as int].entry));
            }
            j = j + 1;
        }
        proof {
            // every output row satisfies the listing conditions
            assert forall|a: int| 0 <= a < out.deep_view().len() implies {
                let e = #[trigger] out.deep_view()[a];
                &&& has_id(dv, e.id)
                &&& e == entry_of(dv, e.id)
                &&& !e.deleted
                &&& !e.hidden
                &&& avail_match(e, avail)
            } by {
                assert(out.deep_view()[a] == post[a].entry);
                assert(row_in(pre, post[a]));
                let ii = choose|ii: int| 0 <= ii < pre.len() && pre[ii] == post[a];
                assert(pre[ii].entry == post[a].entry);
            }
            // completeness carries over the permutation
            assert forall|k: int|
                0 <= k < dv.len() && !(#[trigger] dv[k]).deleted && !dv[k].hidden && avail_match(
                    dv[k],
                    avail,
                ) implies exists|a: int|
                0 <= a < out.deep_view().len() && out.deep_view()[a].id == dv[k].id by {
                let jj = choose|jj: int| 0 <= jj < pre.len() && pre[jj].entry.id == dv[k].id;
                assert(row_in(post, pre[jj]));
                let aa = choose|aa: int| 0 <= aa < post.len() && post[aa] == pre[jj];
                assert(out.deep_view()[aa].id == dv[k].id);
            }
            // names ascending: the sort placed equal scores by name
            assert forall|j1: int, j2: int|
                0 <= j1 < j2 < out.deep_view().len() implies chars_le(
                (#[trigger] out.deep_view()[j1]).name,
                (#[trigger] out.deep_view()[j2]).name,
            ) by {
                assert(rank_le(post[j1], post[j2]));
                assert(row_in(pre, post[j1]));
                assert(row_in(pre, post[j2]));
                let i1 = choose|i1: int| 0 <= i1 < pre.len() && pre[i1] == post[j1];
                let i2 = choose|i2: int| 0 <= i2 < pre.len() && pre[i2] == post[j2];
                assert(post[j1].score == 0 && post[j2].score == 0);
            }
            assert forall|j1: int, j2: int| 0 <= j1 < j2 < out.deep_view().len() implies (
            #[trigger] out.deep_view()[j1].id) != (#[trigger] out.deep_view()[j2].id) by {
                assert(post[j1].entry.id != post[j2].entry.id);
            }
        }
        out
    }
}

/// The conditions every scored result row meets before the
/// availability pass.
pub open spec fn scored_row_ok(dv: Seq<EntryModel>, qv: Seq<Seq<char>>, x: ScoredModel) -> bool {
    &&& has_id(dv, x.entry.id)
    &&& x.entry == entry_of(dv, x.entry.id)
    &&& !x.entry.deleted
    &&& x.score as int == clamp128(query_score(x.entry, qv))
    &&& query_score(x.entry, qv) > 0
}

impl InternalStore {
    /// Scored search: expand every keyword through the segmenter, walk
    /// the postings of every sub-token accumulating weighted counts,
    /// and hand the hits back ranked by score then name, availability
    /// applied last. Keywords the segmenter rejects contribute
    /// nothing; ids with no match never appear.
    #[verifier::rlimit(100)]
    fn filter_scored(&self, avail: Option<Availability>, q: &Vec<String>) -> (r: Vec<Entry>)
        requires
            self.wf(),
        ensures
            forall|j: int|
                0 <= j < r.deep_view().len() ==> {
                    let e = #[trigger] r.deep_view()[j];
                    &&& has_id(self.entries_dv(), e.id)
                    &&& e == entry_of(self.entries_dv(), e.id)
                    &&& !e.deleted
                    &&& query_score(e, q.deep_view()) > 0
                    &&& avail_match(e, avail)
                },
            forall|k: int|
                0 <= k < self.entries_dv().len() && !(#[trigger] self.entries_dv()[k]).deleted
                    && query_score(self.entries_dv()[k], q.deep_view()) > 0 && avail_match(
                    self.entries_dv()[k],
                    avail,
                ) ==> exists|j: int|
                    0 <= j < r.deep_view().len() && r.deep_view()[j].id == self.entries_dv()[k].id,
            forall|j1: int, j2: int|
                0 <= j1 < j2 < r.deep_view().len() ==> (#[trigger] r.deep_view()[j1].id) != (
                #[trigger] r.deep_view()[j2].id),
            forall|j1: int, j2: int|
                0 <= j1 < j2 < r.deep_view().len() ==> ranked(
                    #[trigger] r.deep_view()[j1],
                    #[trigger] r.deep_view()[j2],
                    q.deep_view(),
                ),
    {
        let ghost dv = self.entries_dv();
        let ghost ps = self.postings@;
        let ghost qv = q.deep_view();
        let mut acc: Vec<ScoreCell> = Vec::new();
        let nq = q.len();
        proof {
            assert forall|idq: i32| true implies #[trigger] accval(acc@, idq) == clamp128(
                iscore_q(ps, qv.take(0), idq),
            ) by {
                assert(acc@ =~= Seq::<ScoreCell>::empty());
                assert(qv.take(0) =~= Seq::<Seq<char>>::empty());
            }
        }
        let mut ki: usize = 0;
        while ki < nq
            invariant
                self.wf(),
                dv == self.entries_dv(),
                ps == self.postings@,
                qv == q.deep_view(),
                nq == qv.len(),
                0 <= ki <= nq,
                acc_unique(acc@),
                forall|k: int| 0 <= k < acc@.len() ==> (#[trigger] acc@[k].score) >= 1,
                forall|k: int|
                    0 <= k < acc@.len() ==> has_id(dv, (#[trigger] acc@[k]).id) && !entry_of(
                        dv,
                        acc@[k].id,
                    ).deleted,
                forall|idq: i32|
                    #[trigger] accval(acc@, idq) == clamp128(iscore_q(ps, qv.take(ki as int), idq)),
            decreases nq - ki,
        {
            let kw = &q[ki];
            let cut = self.seg.cut_for_search(kw.as_str());
            match cut {
                Err(_) => {
                    proof {
                        assert(has_nul(qv[ki as int]));
                        assert forall|idq: i32| true implies #[trigger] accval(acc@, idq)
                            == clamp128(iscore_q(ps, qv.take(ki + 1), idq)) by {
                            lemma_iscore_q_take_step(ps, qv, ki as int, idq);
                        }
                    }
                },
                Ok(words) => {
                    let ghost sv = segments_of(qv[ki as int]);
                    proof {
                        assert(!has_nul(qv[ki as int]));
                        assert(words@ == sv);
                        assert forall|idq: i32| true implies iscore_segs(ps, sv.take(0), idq)
                            == 0 by {
                            assert(sv.take(0) =~= Seq::<Seq<char>>::empty());
                        }
                    }
                    let ns = words.words.len();
                    let mut si: usize = 0;
                    while si < ns
                        invariant
                            self.wf(),
                            dv == self.entries_dv(),
                            ps == self.postings@,
                            qv == q.deep_view(),
                            nq == qv.len(),
                            0 <= ki < nq,
                            words@ == sv,
                            ns == words.words@.len(),
                            ns == sv.len(),
                            0 <= si <= ns,
                            acc_unique(acc@),
                            forall|k: int| 0 <= k < acc@.len() ==> (#[trigger] acc@[k].score) >= 1,
                            forall|k: int|
                                0 <= k < acc@.len() ==> has_id(dv, (#[trigger] acc@[k]).id)
                                    && !entry_of(dv, acc@[k].id).deleted,
                            forall|idq: i32|
                                #[trigger] accval(acc@, idq) == clamp128(
                                    iscore_q(ps, qv.take(ki as int), idq) + iscore_segs(
                                        ps,
                                        sv.take(si as int),
                                        idq,
                                    ),
                                ),
                        decreases ns - si,
                    {
                        let s = words.words[si].clone();
                        proof {
                            assert(s@ == sv[si as int]);
                            assert forall|idq: i32| true implies pscore(ps.take(0), sv[si as int], idq)
                                == 0 by {
                                lemma_pscore_empty_prefix(ps, sv[si as int], idq);
                            }
                        }
                        let np = self.postings.len();
                        let mut pi: usize = 0;
                        while pi < np
                            invariant
                                self.wf(),
                                dv == self.entries_dv(),
                                ps == self.postings@,
                                qv == q.deep_view(),
                                nq == qv.len(),
                                0 <= ki < nq,
                                0 <= si < ns,
                                ns == sv.len(),
                                s@ == sv[si as int],
                                np == ps.len(),
                                0 <= pi <= np,
                                acc_unique(acc@),
                                forall|k: int|
                                    0 <= k < acc@.len() ==> (#[trigger] acc@[k].score) >= 1,
                                forall|k: int|
                                    0 <= k < acc@.len() ==> has_id(dv, (#[trigger] acc@[k]).id)
                                        && !entry_of(dv, acc@[k].id).deleted,
                                forall|idq: i32|
                                    #[trigger] accval(acc@, idq) == clamp128(
                                        iscore_q(ps, qv.take(ki as int), idq) + iscore_segs(
                                            ps,
                                            sv.take(si as int),
                                            idq,
                                        ) + pscore(ps.take(pi as int), sv[si as int], idq),
                                    ),
                            decreases np - pi,
                        {
                            let hit = str_eq(self.postings[pi].token.as_str(), s.as_str());
                            if hit {
                                let target = self.postings[pi].target;
                                let w = target.t.score();
                                let cnt = self.postings[pi].count;
                                proof {
                                    lemma_pcount_found(ps, pi as int, s@, target.id, target.t);
                                    assert(pcount(ps, s@, target.id, target.t) == cnt as int);
                                    assert(pcount(ps, s@, target.id, target.t) == live_contrib(
                                        dv,
                                        s@,
                                        target.id,
                                        target.t,
                                    ));
                                    assert(cnt >= 1);
                                    assert(has_id(dv, target.id) && !entry_of(
                                        dv,
                                        target.id,
                                    ).deleted);
                                    assert(entry_wf(entry_of(dv, target.id))) by {
                                        lemma_idx_of(dv, target.id);
                                    }
                                    lemma_contrib_bound(entry_of(dv, target.id), s@, target.t);
                                    assert(cnt as int <= 2 * (usize::MAX as int) + 2);
                                    assert((w as int) * (cnt as int) <= 10 * (2 * (
                                    usize::MAX as int) + 2)) by (nonlinear_arith)
                                        requires
                                            w as int <= 10,
                                            1 <= cnt as int,
                                            cnt as int <= 2 * (usize::MAX as int) + 2,
                                    {}
                                    assert((w as int) * (cnt as int) >= 1) by (nonlinear_arith)
                                        requires
                                            w as int >= 1,
                                            cnt as int >= 1,
                                    {}
                                }
                                let delta: u128 = (w as u128) * cnt;
                                let ghost acc0 = acc@;
                                bump(&mut acc, target.id, delta);
                                proof {
                                    assert forall|idq: i32| true implies #[trigger] accval(
                                        acc@,
                                        idq,
                                    ) == clamp128(
                                        iscore_q(ps, qv.take(ki as int), idq) + iscore_segs(
                                            ps,
                                            sv.take(si as int),
                                            idq,
                                        ) + pscore(ps.take(pi + 1), sv[si as int], idq),
                                    ) by {
                                        lemma_pscore_take_step(ps, pi as int, sv[si as int], idq);
                                        if idq == target.id {
                                            assert(pdelta(ps[pi as int], sv[si as int], idq) == (
                                            w as int) * (cnt as int));
                                            lemma_clamp_add(
                                                iscore_q(ps, qv.take(ki as int), idq)
                                                    + iscore_segs(ps, sv.take(si as int), idq)
                                                    + pscore(ps.take(pi as int), sv[si as int], idq),
                                                delta as int,
                                            );
                                        } else {
                                            assert(pdelta(ps[pi as int], sv[si as int], idq) == 0);
                                            assert(accval(acc@, idq) == accval(acc0, idq));
                                        }
                                    }
                                    assert forall|k: int| 0 <= k < acc@.len() implies has_id(
                                        dv,
                                        (#[trigger] acc@[k]).id,
                                    ) && !entry_of(dv, acc@[k].id).deleted by {
                                        if acc@[k].id != target.id {
                                            let m = choose|m: int|
                                                0 <= m < acc0.len() && acc0[m].id == acc@[k].id;
                                            assert(has_id(dv, acc0[m].id));
                                        }
                                    }
                                }
                            } else {
                                proof {
                                    assert forall|idq: i32| true implies pscore(
                                        ps.take(pi + 1),
                                        sv[si as int],
                                        idq,
                                    ) == pscore(ps.take(pi as int), sv[si as int], idq) by {
                                        lemma_pscore_take_step(ps, pi as int, sv[si as int], idq);
                                        assert(pdelta(ps[pi as int], sv[si as int], idq) == 0);
                                    }
                                }
                            }
                            pi = pi + 1;
                        }
                        proof {
                            assert forall|idq: i32| true implies #[trigger] accval(acc@, idq)
                                == clamp128(
                                iscore_q(ps, qv.take(ki as int), idq) + iscore_segs(
                                    ps,
                                    sv.take(si + 1),
                                    idq,
                                ),
                            ) by {
                                assert(ps.take(np as int) =~= ps);
                                lemma_iscore_segs_take_step(ps, sv, si as int, idq);
                            }
                        }
                        si = si + 1;
                    }
                    proof {
                        assert forall|idq: i32| true implies #[trigger] accval(acc@, idq)
                            == clamp128(iscore_q(ps, qv.take(ki + 1), idq)) by {
                            assert(sv.take(ns as int) =~= sv);
                            lemma_iscore_q_take_step(ps, qv, ki as int, idq);
                        }
                    }
                },
            }
            ki = ki + 1;
        }
        proof {
            assert forall|idq: i32| true implies #[trigger] accval(acc@, idq) == clamp128(
                iscore_q(ps, qv, idq),
            ) by {
                assert(qv.take(nq as int) =~= qv);
            }
        }
        // turn accumulator cells into scored rows
        let na = acc.len();
        let mut rows: Vec<Scored> = Vec::new();
        let mut ai: usize = 0;
        while ai < na
            invariant
                self.wf(),
                dv == self.entries_dv(),
                ps == self.postings@,
                qv == q.deep_view(),
                na == acc@.len(),
                0 <= ai <= na,
                acc_unique(acc@),
                forall|k: int| 0 <= k < acc@.len() ==> (#[trigger] acc@[k].score) >= 1,
                forall|k: int|
                    0 <= k < acc@.len() ==> has_id(dv, (#[trigger] acc@[k]).id) && !entry_of(
                        dv,
                        acc@[k].id,
                    ).deleted,
                forall|idq: i32|
                    #[trigger] accval(acc@, idq) == clamp128(iscore_q(ps, qv, idq)),
                rows.deep_view().len() == ai,
                forall|a: int|
                    0 <= a < ai ==> {
                        let x = #[trigger] rows.deep_view()[a];
                        x.entry == entry_of(dv, acc@[a].id) && x.entry.id == acc@[a].id && x.score
                            == acc@[a].score
                    },
            decreases na - ai,
        {
            let cid = acc[ai].id;
            let cscore = acc[ai].score;
            let found = self.find_entry(cid);
            match found {
                Some(ei) => {
                    proof {
                        lemma_idx_of(dv, cid);
                        assert(idx_of(dv, cid) == ei as int);
                    }
                    let ghost before = rows.deep_view();
                    rows.push(Scored { score: cscore, entry: self.entries[ei].clone() });
                    proof {
                        assert(rows.deep_view() =~= before.push(
                            ScoredModel { score: cscore, entry: dv[ei as int] },
                        ));
                    }
                },
                None => {
                    proof {
                        assert(false);
                    }
                },
            }
            ai = ai + 1;
        }
        let ghost pre = rows.deep_view();
        proof {
            assert forall|a: int| 0 <= a < pre.len() implies scored_row_ok(
                dv,
                qv,
                #[trigger] pre[a],
            ) by {
                assert(pre[a].entry.id == acc@[a].id);
                lemma_iscore_q_entry(dv, ps, qv, acc@[a].id);
                assert(accval(acc@, acc@[a].id) == clamp128(query_score(pre[a].entry, qv)));
                lemma_accval_found(acc@, a, acc@[a].id);
                lemma_query_score_nonneg(pre[a].entry, qv);
            }
            assert forall|a1: int, a2: int| 0 <= a1 < a2 < pre.len() implies (
            #[trigger] pre[a1].entry.id) != (#[trigger] pre[a2].entry.id) by {
                assert(pre[a1].entry.id == acc@[a1].id);
                assert(pre[a2].entry.id == acc@[a2].id);
            }
            // every live id with a positive score has a row
            assert forall|k: int|
                0 <= k < dv.len() && !(#[trigger] dv[k]).deleted && query_score(dv[k], qv)
                    > 0 implies exists|a: int|
                0 <= a < pre.len() && pre[a].entry.id == dv[k].id by {
                assert(has_id(dv, dv[k].id)) by {
                    assert(dv[k].id == dv[k].id);
                }
                lemma_idx_of(dv, dv[k].id);
                assert(entry_of(dv, dv[k].id) == dv[k]);
                lemma_iscore_q_entry(dv, ps, qv, dv[k].id);
                assert(accval(acc@, dv[k].id) == clamp128(query_score(dv[k], qv)));
                assert(accval(acc@, dv[k].id) >= 1);
                if forall|m: int| 0 <= m < acc@.len() ==> (#[trigger] acc@[m].id) != dv[k].id {
                    lemma_accval_no_match(acc@, dv[k].id);
                    assert(false);
                }
                let m = choose|m: int| 0 <= m < acc@.len() && acc@[m].id == dv[k].id;
                assert(pre[m].entry.id == dv[k].id);
            }
        }
        sort_scored(&mut rows);
        let ghost post = rows.deep_view();
        proof {
            lemma_perm_scored(pre, post);
            assert forall|a: int| 0 <= a < post.len() implies scored_row_ok(
                dv,
                qv,
                #[trigger] post[a],
            ) by {
                assert(row_in(pre, post[a]));
                let ii = choose|ii: int| 0 <= ii < pre.len() && pre[ii] == post[a];
                assert(scored_row_ok(dv, qv, pre[ii]));
            }
        }
        // availability, applied as a final pass
        let m = rows.len();
        let mut out: Vec<Entry> = Vec::new();
        let mut j: usize = 0;
        while j < m
            invariant
                self.wf(),
                dv == self.entries_dv(),
                qv == q.deep_view(),
                m == rows@.len(),
                post == rows.deep_view(),
                0 <= j <= m,
                scored_sorted(post),
                forall|a: int| 0 <= a < post.len() ==> scored_row_ok(dv, qv, #[trigger] post[a]),
                forall|a1: int, a2: int|
                    0 <= a1 < a2 < post.len() ==> (#[trigger] post[a1].entry.id) != (
                    #[trigger] post[a2].entry.id),
                forall|a: int|
                    0 <= a < out.deep_view().len() ==> scored_row_ok(
                        dv,
                        qv,
                        (ScoredModel {
                            score: clamp128(
                                query_score(#[trigger] out.deep_view()[a], qv),
                            ) as u128,
                            entry: out.deep_view()[a],
                        }),
                    ) && avail_match(out.deep_view()[a], avail),
                forall|a1: int, a2: int|
                    0 <= a1 < a2 < out.deep_view().len() ==> ranked(
                        #[trigger] out.deep_view()[a1],
                        #[trigger] out.deep_view()[a2],
                        qv,
                    ),
                forall|a: int, mm: int|
                    0 <= a < out.deep_view().len() && j <= mm < m ==> ranked(
                        #[trigger] out.deep_view()[a],
                        (#[trigger] post[mm]).entry,
                        qv,
                    ),
                forall|a: int, mm: int|
                    0 <= a < out.deep_view().len() && j <= mm < m ==> (
                    #[trigger] out.deep_view()[a].id) != (#[trigger] post[mm].entry.id),
                forall|a1: int, a2: int|
                    0 <= a1 < a2 < out.deep_view().len() ==> (#[trigger] out.deep_view()[a1].id)
                        != (#[trigger] out.deep_view()[a2].id),
                forall|mm: int|
                    0 <= mm < j && avail_match((#[trigger] post[mm]).entry, avail) ==> exists|
                        a: int,
                    | 0 <= a < out.deep_view().len() && out.deep_view()[a].id == post[mm].entry.id,
            decreases m - j,
        {
            let e = &rows[j].entry;
            let keep = match avail {
                None => true,
                Some(Availability::Available) => e.disbandment.is_none(),
                Some(Availability::Disbanded) => e.disbandment.is_some(),
            };
            if keep {
                let ghost before = out.deep_view();
                out.push(rows[j].entry.clone());
                proof {
                    assert(out.deep_view() =~= before.push(post[j as int].entry));
                    assert forall|a1: int, a2: int|
                        0 <= a1 < a2 < out.deep_view().len() implies ranked(
                        #[trigger] out.deep_view()[a1],
                        #[trigger] out.deep_view()[a2],
                        qv,
                    ) by {
                        if a2 == before.len() {
                            assert(out.deep_view()[a1] == before[a1]);
                        }
                    }
                    assert forall|a: int, mm: int|
                        0 <= a < out.deep_view().len() && j + 1 <= mm < m implies ranked(
                        #[trigger] out.deep_view()[a],
                        (#[trigger] post[mm]).entry,
                        qv,
                    ) by {
                        if a == before.len() {
                            assert(rank_le(post[j as int], post[mm]));
                            assert(scored_row_ok(dv, qv, post[j as int]));
                            assert(scored_row_ok(dv, qv, post[mm]));
                        }
                    }
                    assert forall|mm: int|
                        0 <= mm < j + 1 && avail_match(
                            (#[trigger] post[mm]).entry,
                            avail,
                        ) implies exists|a: int|
                        0 <= a < out.deep_view().len() && out.deep_view()[a].id
                            == post[mm].entry.id by {
                        if mm == j {
                            assert(out.deep_view()[before.len() as int].id == post[mm].entry.id);
                        } else {
                            let a = choose|a: int|
                                0 <= a < before.len() && before[a].id == post[mm].entry.id;
                            assert(out.deep_view()[a].id == post[mm].entry.id);
                        }
                    }
                }
            } else {
                proof {
                    assert forall|mm: int|
                        0 <= mm < j + 1 && avail_match(
                            (#[trigger] post[mm]).entry,
                            avail,
                        ) implies exists|a: int|
                        0 <= a < out.deep_view().len() && out.deep_view()[a].id
                            == post[mm].entry.id by {
                        assert(mm != j);
                    }
                }
            }
            j = j + 1;
        }
        proof {
            // soundness and ranking are the loop's invariants; derive
            // completeness from the pre-sort rows through the permutation
            assert forall|k: int|
                0 <= k < dv.len() && !(#[trigger] dv[k]).deleted && query_score(dv[k], qv) > 0
                    && avail_match(dv[k], avail) implies exists|jj: int|
                0 <= jj < out.deep_view().len() && out.deep_view()[jj].id == dv[k].id by {
                let a = choose|a: int| 0 <= a < pre.len() && pre[a].entry.id == dv[k].id;
                assert(row_in(post, pre[a]));
                let mm = choose|mm: int| 0 <= mm < post.len() && post[mm] == pre[a];
                assert(has_id(dv, dv[k].id)) by {
                    assert(dv[k].id == dv[k].id);
                }
                lemma_idx_of(dv, dv[k].id);
                assert(post[mm].entry == dv[k]);
                assert(avail_match(post[mm].entry, avail));
            }
        }
        out
    }

    /// Scored search over optional keywords, or a name-sorted listing
    /// of the visible entries when none are given; an optional
    /// availability filter applies to both.
    pub fn filter(&self, avail: Option<Availability>, keywords: Option<&Vec<String>>) -> (r: Vec<
        Entry,
    >)
        requires
            self.wf(),
        ensures
            keywords is None ==> {
                &&& forall|j: int|
                    0 <= j < r.deep_view().len() ==> {
                        let e = #[trigger] r.deep_view()[j];
                        &&& has_id(self.entries_dv(), e.id)
                        &&& e == entry_of(self.entries_dv(), e.id)
                        &&& !e.deleted
                        &&& !e.hidden
                        &&& avail_match(e, avail)
                    }
                &&& forall|k: int|
                    0 <= k < self.entries_dv().len() && !(#[trigger] self.entries_dv()[k]).deleted
                        && !self.entries_dv()[k].hidden && avail_match(
                        self.entries_dv()[k],
                        avail,
                    ) ==> exists|j: int|
                        0 <= j < r.deep_view().len() && r.deep_view()[j].id
                            == self.entries_dv()[k].id
                &&& forall|j1: int, j2: int|
                    0 <= j1 < j2 < r.deep_view().len() ==> (#[trigger] r.deep_view()[j1].id) != (
                    #[trigger] r.deep_view()[j2].id)
                &&& forall|j1: int, j2: int|
                    0 <= j1 < j2 < r.deep_view().len() ==> chars_le(
                        (#[trigger] r.deep_view()[j1]).name,
                        (#[trigger] r.deep_view()[j2]).name,
                    )
            },
            keywords matches Some(q) ==> {
                &&& forall|j: int|
                    0 <= j < r.deep_view().len() ==> {
                        let e = #[trigger] r.deep_view()[j];
                        &&& has_id(self.entries_dv(), e.id)
                        &&& e == entry_of(self.entries_dv(), e.id)
                        &&& !e.deleted
                        &&& query_score(e, q.deep_view()) > 0
                        &&& avail_match(e, avail)
                    }
                &&& forall|k: int|
                    0 <= k < self.entries_dv().len() && !(#[trigger] self.entries_dv()[k]).deleted
                        && query_score(self.entries_dv()[k], q.deep_view()) > 0 && avail_match(
                        self.entries_dv()[k],
                        avail,
                    ) ==> exists|j: int|
                        0 <= j < r.deep_view().len() && r.deep_view()[j].id
                            == self.entries_dv()[k].id
                &&& forall|j1: int, j2: int|
                    0 <= j1 < j2 < r.deep_view().len() ==> (#[trigger] r.deep_view()[j1].id) != (
                    #[trigger] r.deep_view()[j2].id)
                &&& forall|j1: int, j2: int|
                    0 <= j1 < j2 < r.deep_view().len() ==> ranked(
                        #[trigger] r.deep_view()[j1],
                        #[trigger] r.deep_view()[j2],
                        q.deep_view(),
                    )
            },
    {
        match keywords {
            None => self.filter_listing(avail),
            Some(q) => self.filter_scored(avail, q),
        }
    }
}

proof fn lemma_segs_score_lower(e: EntryModel, segs: Seq<Seq<char>>, i: int)
    requires
        0 <= i < segs.len(),
    ensures
        segs_score(e, segs) >= token_score(e, segs[i]),
    decreases segs.len(),
{
    if i == segs.len() - 1 {
        lemma_segs_score_nonneg(e, segs.drop_last());
        assert(segs.last() == segs[i]);
    } else {
        assert(segs.drop_last()[i] == segs[i]);
        lemma_segs_score_lower(e, segs.drop_last(), i);
        lemma_token_score_nonneg(e, segs.last());
    }
}

/// Index/entry consistency, search side: a query holding the full
/// text of an entry's name scores the entry positively, since every
/// segment of the name is one of the entry's own NameSeg keys. With
/// `filter`'s contract this makes scored search return every stored,
/// non-deleted entry when queried by its full name. The one input it
/// cannot hold of is a name whose segmentation is empty.
pub proof fn lemma_query_own_name_positive(e: EntryModel)
    requires
        !has_nul(e.name),
        segments_of(e.name).len() > 0,
    ensures
        query_score(e, seq![e.name]) > 0,
{
    let q = seq![e.name];
    assert(q.drop_last() =~= Seq::<Seq<char>>::empty());
    assert(q.last() == e.name);
    assert(query_score(e, Seq::<Seq<char>>::empty()) == 0);
    assert(query_score(e, q) == segs_score(e, segments_of(e.name)));
    let segs = segments_of(e.name);
    lemma_segs_score_lower(e, segs, 0);
    assert(occ(segs, segs[0]) >= 1) by {
        crate::text::lemma_occ_prefix_missing(segs, 0, segs[0]);
        assert(segs.take(0) =~= Seq::<Seq<char>>::empty());
        crate::text::lemma_occ_empty(segs[0]);
    }
    assert(token_score(e, segs[0]) >= 1) by {
        crate::text::lemma_occ_le_len(e.tags, segs[0]);
        crate::text::lemma_occ_le_len(segments_of(e.name_eng), segs[0]);
    }
}

/// Index/entry consistency, tag side: a query holding one of an
/// entry's tags scores the entry positively, provided the segmenter
/// hands the tag text itself back among its sub-tokens (as it does
/// for single-word tags). With `filter`'s contract this makes scored
/// search return every stored, non-deleted entry when queried by such
/// a tag.
pub proof fn lemma_query_own_tag_positive(e: EntryModel, i: int)
    requires
        0 <= i < e.tags.len(),
        !has_nul(e.tags[i]),
        segments_of(e.tags[i]).contains(e.tags[i]),
    ensures
        query_score(e, seq![e.tags[i]]) > 0,
{
    let t = e.tags[i];
    let q = seq![t];
    assert(q.drop_last() =~= Seq::<Seq<char>>::empty());
    assert(q.last() == t);
    assert(query_score(e, Seq::<Seq<char>>::empty()) == 0);
    assert(query_score(e, q) == segs_score(e, segments_of(t)));
    let segs = segments_of(t);
    let j = choose|j: int| 0 <= j < segs.len() && segs[j] == t;
    lemma_segs_score_lower(e, segs, j);
    assert(occ(e.tags, t) >= 1) by {
        crate::text::lemma_occ_prefix_missing(e.tags, i, t);
        crate::text::lemma_occ_take_mono(e.tags, 0, i, t);
        assert(e.tags.take(0) =~= Seq::<Seq<char>>::empty());
        crate::text::lemma_occ_empty(t);
    }
    assert(token_score(e, segs[j]) >= 2) by {
        crate::text::lemma_occ_le_len(segments_of(e.name), t);
        crate::text::lemma_occ_le_len(segments_of(e.name_eng), t);
    }
}

/// Tag-diff minimality, observed through reference counts: whatever
/// walk an upsert performs, under the governing invariant the Tag
/// count of any token before and after storing `m` over the old row
/// is exactly the token's occurrence count in the respective tag
/// sets. A tag kept by both versions therefore keeps its count
/// untouched; a dropped one loses exactly its occurrences and an
/// added one gains exactly its occurrences.
pub proof fn lemma_tag_diff_counts(
    dv0: Seq<EntryModel>,
    ps0: Seq<Posting>,
    dv1: Seq<EntryModel>,
    ps1: Seq<Posting>,
    m: EntryModel,
    t: Seq<char>,
)
    requires
        index_consistent(dv0, ps0),
        index_consistent(dv1, ps1),
        has_id(dv0, m.id),
        has_id(dv1, m.id),
        entry_of(dv1, m.id) == m,
        !m.deleted,
        !entry_of(dv0, m.id).deleted,
    ensures
        pcount(ps0, t, m.id, IndexType::Tag) == occ(entry_of(dv0, m.id).tags, t),
        pcount(ps1, t, m.id, IndexType::Tag) == occ(m.tags, t),
        occ(m.tags, t) == occ(entry_of(dv0, m.id).tags, t) ==> pcount(ps1, t, m.id, IndexType::Tag)
            == pcount(ps0, t, m.id, IndexType::Tag),
{
    assert(pcount(ps0, t, m.id, IndexType::Tag) == live_contrib(dv0, t, m.id, IndexType::Tag));
    assert(pcount(ps1, t, m.id, IndexType::Tag) == live_contrib(dv1, t, m.id, IndexType::Tag));
}

impl InternalStore {
    /// The reference count the index holds for one (token, id, kind)
    /// triple; a diagnostic view of the posting table.
    pub fn index_count(&self, token: &str, id: i32, ty: IndexType) -> (r: u128)
        requires
            self.wf(),
        ensures
            r as int == pcount(self.postings@, token@, id, ty),
    {
        let found = self.find_posting(token, Index { id, t: ty });
        match found {
            Some(i) => {
                proof {
                    lemma_pcount_found(self.postings@, i as int, token@, id, ty);
                }
                self.postings[i].count
            },
            None => {
                proof {
                    lemma_pcount_no_match(self.postings@, token@, id, ty);
                }
                0
            },
        }
    }
}

} // verus!