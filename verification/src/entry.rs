//! The data model: directory entries, their import shape, pending
//! drafts, the editor-facing view of an id, the index key types and
//! their relevance weights, and the error taxonomy.

use vstd::prelude::*;
use crate::text::is_blank;
use crate::text::split_sp;
use crate::text::split_spaces;
use crate::text::str_is_blank;

verus! {

/// Which field of an entry a posting came from; each kind carries a
/// fixed relevance weight.
#[derive(Clone, Copy, PartialEq, Eq, Structural, Debug, Hash)]
pub enum IndexType {
    Name,
    NameSeg,
    Category,
    Tag,
}

impl IndexType {
    /// The relevance weight used by scored search.
    pub open spec fn weight(self) -> int {
        match self {
            IndexType::Name => 10,
            IndexType::NameSeg => 1,
            IndexType::Category => 5,
            IndexType::Tag => 2,
        }
    }

    pub fn score(&self) -> (r: u64)
        ensures
            r as int == self.weight(),
    {
        match *self {
            IndexType::Name => 10,
            IndexType::NameSeg => 1,
            IndexType::Category => 5,
            IndexType::Tag => 2,
        }
    }
}

/// Composite key of a posting: the entry it points at and the field
/// kind it came from.
#[derive(Clone, Copy, PartialEq, Eq, Structural, Debug, Hash)]
pub struct Index {
    pub id: i32,
    pub t: IndexType,
}

impl Index {
    pub fn new(id: i32, t: IndexType) -> (r: Index)
        ensures
            r == (Index { id, t }),
    {
        Index { id, t }
    }
}

/// Availability filter for listings: an entry is available while its
/// disbandment date is unset.
#[derive(Clone, Copy, Debug)]
pub enum Availability {
    Available,
    Disbanded,
}

#[derive(Clone, Copy, PartialEq, Eq, Structural, Debug)]
pub enum StoreError {
    NotFound,
    Denied,
    InvalidString,
    DeletedEntry,
    SystemError,
}

/// The mathematical shape of an entry: every text field as a character
/// sequence.
#[verifier::ext_equal]
pub struct EntryModel {
    pub id: i32,
    pub name: Seq<char>,
    pub name_eng: Seq<char>,
    pub category: Seq<char>,
    pub tags: Seq<Seq<char>>,
    pub desc: Seq<char>,
    pub desc_eng: Seq<char>,
    pub files: Seq<Seq<char>>,
    pub icon: Option<Seq<char>>,
    pub creation: Seq<char>,
    pub disbandment: Option<Seq<char>>,
    pub deleted: bool,
    pub hidden: bool,
}

/// One directory record. The id is immutable and unique; deletion only
/// sets the tombstone flag, and hidden rows are kept out of listings.
#[derive(Debug)]
pub struct Entry {
    pub id: i32,
    pub name: String,
    pub name_eng: String,
    pub category: String,
    pub tags: Vec<String>,
    pub desc: String,
    pub desc_eng: String,
    pub files: Vec<String>,
    pub icon: Option<String>,
    pub creation: String,
    pub disbandment: Option<String>,
    pub deleted: bool,
    pub hidden: bool,
}

impl View for Entry {
    type V = EntryModel;

    open spec fn view(&self) -> EntryModel {
        EntryModel {
            id: self.id,
            name: self.name@,
            name_eng: self.name_eng@,
            category: self.category@,
            tags: self.tags.deep_view(),
            desc: self.desc@,
            desc_eng: self.desc_eng@,
            files: self.files.deep_view(),
            icon: match self.icon {
                Some(ref s) => Some(s@),
                None => None,
            },
            creation: self.creation@,
            disbandment: match self.disbandment {
                Some(ref s) => Some(s@),
                None => None,
            },
            deleted: self.deleted,
            hidden: self.hidden,
        }
    }
}

impl DeepView for Entry {
    type V = EntryModel;

    open spec fn deep_view(&self) -> EntryModel {
        self@
    }
}

fn clone_string_vec(v: &Vec<String>) -> (r: Vec<String>)
    ensures
        r.deep_view() == v.deep_view(),
{
    let mut r: Vec<String> = Vec::new();
    let n = v.len();
    let mut i: usize = 0;
    while i < n
        invariant
            n == v.len(),
            0 <= i <= n,
            r.len() == i,
            forall|k: int| 0 <= k < i ==> r.deep_view()[k] == v.deep_view()[k],
        decreases n - i,
    {
        r.push(v[i].clone());
        i = i + 1;
    }
    assert(r.deep_view() =~= v.deep_view());
    r
}

fn string_vec_eq(a: &Vec<String>, b: &Vec<String>) -> (r: bool)
    ensures
        r == (a.deep_view() == b.deep_view()),
{
    let n = a.len();
    if n != b.len() {
        assert(a.deep_view().len() != b.deep_view().len());
        return false;
    }
    let mut i: usize = 0;
    while i < n
        invariant
            n == a.len() == b.len(),
            0 <= i <= n,
            forall|k: int| 0 <= k < i ==> a.deep_view()[k] == b.deep_view()[k],
        decreases n - i,
    {
        if !(a[i] == b[i]) {
            assert(a.deep_view()[i as int] != b.deep_view()[i as int]);
            return false;
        }
        i = i + 1;
    }
    assert(a.deep_view() =~= b.deep_view());
    true
}

fn clone_opt_string(v: &Option<String>) -> (r: Option<String>)
    ensures
        match *v {
            Some(ref s) => r matches Some(t) && t@ == s@,
            None => r is None,
        },
{
    match v {
        Some(s) => Some(s.clone()),
        None => None,
    }
}

/// The view of an optional text field.
pub open spec fn opt_str_view(o: &Option<String>) -> Option<Seq<char>> {
    match o {
        Some(s) => Some(s@),
        None => None,
    }
}

fn opt_string_eq(a: &Option<String>, b: &Option<String>) -> (r: bool)
    ensures
        r == (opt_str_view(a) == opt_str_view(b)),
{
    match (a, b) {
        (Some(x), Some(y)) => crate::text::str_eq(x.as_str(), y.as_str()),
        (None, None) => true,
        _ => false,
    }
}

impl Clone for Entry {
    fn clone(&self) -> (r: Self)
        ensures
            r@ == self@,
    {
        let r = Entry {
            id: self.id,
            name: self.name.clone(),
            name_eng: self.name_eng.clone(),
            category: self.category.clone(),
            tags: clone_string_vec(&self.tags),
            desc: self.desc.clone(),
            desc_eng: self.desc_eng.clone(),
            files: clone_string_vec(&self.files),
            icon: clone_opt_string(&self.icon),
            creation: self.creation.clone(),
            disbandment: clone_opt_string(&self.disbandment),
            deleted: self.deleted,
            hidden: self.hidden,
        };
        assert(r@ =~= self@);
        r
    }
}

impl Entry {
    pub fn id(&self) -> (r: i32)
        ensures
            r == self@.id,
    {
        self.id
    }

    /// Field-for-field equality, the sense in which an idempotent edit
    /// matches the committed row.
    pub fn same_as(&self, other: &Entry) -> (r: bool)
        ensures
            r == (self@ == other@),
    {
        let r = self.id == other.id && self.name == other.name && self.name_eng
            == other.name_eng && self.category == other.category && string_vec_eq(
            &self.tags,
            &other.tags,
        ) && self.desc == other.desc && self.desc_eng == other.desc_eng && string_vec_eq(
            &self.files,
            &other.files,
        ) && opt_string_eq(&self.icon, &other.icon) && self.creation == other.creation
            && opt_string_eq(&self.disbandment, &other.disbandment) && self.deleted
            == other.deleted && self.hidden == other.hidden;
        proof {
            if r {
                assert(self@ =~= other@);
            }
        }
        r
    }
}

/// The mathematical shape of an import row.
#[verifier::ext_equal]
pub struct RawModel {
    pub name: Seq<char>,
    pub name_eng: Seq<char>,
    pub category: Seq<char>,
    pub tags: Seq<char>,
    pub desc: Seq<char>,
    pub desc_eng: Seq<char>,
    pub creation: Seq<char>,
    pub disbandment: Option<Seq<char>>,
}

/// Import-only shape: tags as one space-separated string and no id yet.
#[derive(Debug)]
pub struct RawEntry {
    pub name: String,
    pub name_eng: String,
    pub category: String,
    pub tags: String,
    pub desc: String,
    pub desc_eng: String,
    pub creation: String,
    pub disbandment: Option<String>,
}

impl View for RawEntry {
    type V = RawModel;

    open spec fn view(&self) -> RawModel {
        RawModel {
            name: self.name@,
            name_eng: self.name_eng@,
            category: self.category@,
            tags: self.tags@,
            desc: self.desc@,
            desc_eng: self.desc_eng@,
            creation: self.creation@,
            disbandment: match self.disbandment {
                Some(ref s) => Some(s@),
                None => None,
            },
        }
    }
}

/// What `RawEntry::extend` builds: the raw row under the given id, its
/// tag string split on spaces (or no tags at all if it is blank), with
/// no files, no icon, and both flags clear.
pub open spec fn extended(r: RawModel, id: i32) -> EntryModel {
    EntryModel {
        id: id,
        name: r.name,
        name_eng: r.name_eng,
        category: r.category,
        tags: if is_blank(r.tags) {
            Seq::<Seq<char>>::empty()
        } else {
            split_sp(r.tags)
        },
        desc: r.desc,
        desc_eng: r.desc_eng,
        files: Seq::<Seq<char>>::empty(),
        icon: None,
        creation: r.creation,
        disbandment: r.disbandment,
        deleted: false,
        hidden: false,
    }
}

impl RawEntry {
    /// Turn an import row into a full entry under a caller-assigned id.
    pub fn extend(self, id: i32) -> (r: Entry)
        ensures
            r@ == extended(self@, id),
    {
        let ghost sm = self@;
        let tags: Vec<String> = if str_is_blank(self.tags.as_str()) {
            Vec::new()
        } else {
            split_spaces(self.tags.as_str())
        };
        let r = Entry {
            id,
            name: self.name,
            name_eng: self.name_eng,
            category: self.category,
            tags,
            desc: self.desc,
            desc_eng: self.desc_eng,
            files: Vec::new(),
            icon: None,
            creation: self.creation,
            disbandment: self.disbandment,
            deleted: false,
            hidden: false,
        };
        proof {
            if is_blank(sm.tags) {
                assert(r@.tags =~= Seq::<Seq<char>>::empty());
            }
            assert(r@.files =~= Seq::<Seq<char>>::empty());
            assert(r@ =~= extended(sm, id));
        }
        r
    }
}

/// The mathematical shape of a pending draft.
#[verifier::ext_equal]
pub struct StashedModel {
    pub entry: EntryModel,
    pub timestamp: u64,
}

/// One pending edit for one id: the proposed entry and its creation
/// time in milliseconds since the epoch.
#[derive(Debug)]
pub struct StashedEntry {
    pub entry: Entry,
    pub timestamp: u64,
}

impl View for StashedEntry {
    type V = StashedModel;

    open spec fn view(&self) -> StashedModel {
        StashedModel { entry: self.entry@, timestamp: self.timestamp }
    }
}

impl DeepView for StashedEntry {
    type V = StashedModel;

    open spec fn deep_view(&self) -> StashedModel {
        self@
    }
}

impl Clone for StashedEntry {
    fn clone(&self) -> (r: Self)
        ensures
            r@ == self@,
    {
        let r = StashedEntry { entry: self.entry.clone(), timestamp: self.timestamp };
        assert(r@ =~= self@);
        r
    }
}

impl StashedEntry {
    pub fn content(&self) -> (r: &Entry)
        ensures
            r@ == self@.entry,
    {
        &self.entry
    }

    pub fn get(self) -> (r: Entry)
        ensures
            r@ == self@.entry,
    {
        self.entry
    }
}

/// The mathematical shape of the editor-facing view of one id.
#[verifier::ext_equal]
pub enum PullModel {
    Stashed(StashedModel),
    Unmodified(EntryModel),
}

impl PullModel {
    pub open spec fn id(self) -> i32 {
        match self {
            PullModel::Stashed(s) => s.entry.id,
            PullModel::Unmodified(e) => e.id,
        }
    }
}

/// The effective current view of an id for editing clients: the draft
/// if one exists, else the committed record.
#[derive(Debug)]
pub enum PullEntry {
    Stashed(StashedEntry),
    Unmodified(Entry),
}

impl View for PullEntry {
    type V = PullModel;

    open spec fn view(&self) -> PullModel {
        match self {
            PullEntry::Stashed(s) => PullModel::Stashed(s@),
            PullEntry::Unmodified(e) => PullModel::Unmodified(e@),
        }
    }
}

impl DeepView for PullEntry {
    type V = PullModel;

    open spec fn deep_view(&self) -> PullModel {
        self@
    }
}

impl Clone for PullEntry {
    fn clone(&self) -> (r: Self)
        ensures
            r@ == self@,
    {
        match self {
            PullEntry::Stashed(s) => PullEntry::Stashed(s.clone()),
            PullEntry::Unmodified(e) => PullEntry::Unmodified(e.clone()),
        }
    }
}

impl PullEntry {
    pub fn id(&self) -> (r: i32)
        ensures
            r == self@.id(),
    {
        match self {
            PullEntry::Stashed(s) => s.content().id,
            PullEntry::Unmodified(e) => e.id,
        }
    }
}

} // verus!
