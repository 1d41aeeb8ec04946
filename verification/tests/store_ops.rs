//! Store behaviour: index/entry consistency under put and del, the
//! draft workflow, scored search with ranking, and boot replay.

use crs::entry::{Availability, Entry, IndexType, PullEntry, RawEntry, StoreError};
use crs::segment::Segmenter;
use crs::store::Store;

fn mk_entry(id: i32, name: &str, tags: &[&str]) -> Entry {
    Entry {
        id,
        name: name.to_string(),
        name_eng: format!("{} eng", name),
        category: "club".to_string(),
        tags: tags.iter().map(|t| t.to_string()).collect(),
        desc: String::new(),
        desc_eng: String::new(),
        files: Vec::new(),
        icon: None,
        creation: "2017-09-01".to_string(),
        disbandment: None,
        deleted: false,
        hidden: false,
    }
}

fn fresh_store() -> Store {
    Store::new(Segmenter::new())
}

fn ids(found: &[Entry]) -> Vec<i32> {
    found.iter().map(|e| e.id).collect()
}

fn kw(words: &[&str]) -> Vec<String> {
    words.iter().map(|w| w.to_string()).collect()
}

#[test]
fn search_by_full_name_and_tag_then_delete() {
    let mut s = fresh_store();
    s.put(mk_entry(1, "gamma", &["rowing", "river"])).unwrap();
    s.put(mk_entry(2, "delta", &["chess"])).unwrap();

    let by_name = s.filter(None, Some(&kw(&["gamma"])));
    assert_eq!(ids(&by_name), vec![1]);
    let by_tag = s.filter(None, Some(&kw(&["rowing"])));
    assert_eq!(ids(&by_tag), vec![1]);
    let by_other_tag = s.filter(None, Some(&kw(&["chess"])));
    assert_eq!(ids(&by_other_tag), vec![2]);

    s.del(1).unwrap();
    assert!(s.filter(None, Some(&kw(&["gamma"]))).is_empty());
    assert!(s.filter(None, Some(&kw(&["rowing"]))).is_empty());
    // the row itself is retained as a tombstone
    let row = s.fetch(1).unwrap();
    assert!(row.deleted);
}

#[test]
fn listing_sorted_by_name_excludes_hidden_and_deleted() {
    let mut s = fresh_store();
    s.put(mk_entry(1, "zebra", &[])).unwrap();
    s.put(mk_entry(2, "apple", &[])).unwrap();
    let mut hidden = mk_entry(3, "middle", &[]);
    hidden.hidden = true;
    s.put(hidden).unwrap();
    s.put(mk_entry(4, "mango", &[])).unwrap();
    s.del(4).unwrap();

    let all = s.filter(None, None);
    assert_eq!(ids(&all), vec![2, 1]); // apple before zebra, no hidden, no deleted
}

#[test]
fn availability_filter_applies() {
    let mut s = fresh_store();
    let mut gone = mk_entry(1, "old guard", &[]);
    gone.disbandment = Some("2001-01-01".to_string());
    s.put(gone).unwrap();
    s.put(mk_entry(2, "new blood", &[])).unwrap();

    assert_eq!(ids(&s.filter(Some(Availability::Available), None)), vec![2]);
    assert_eq!(ids(&s.filter(Some(Availability::Disbanded), None)), vec![1]);
    assert_eq!(s.filter(None, None).len(), 2);
}

#[test]
fn scored_search_ranks_and_breaks_ties_by_name() {
    // import five entries; the first two carry the interesting tags
    let mut s = fresh_store();
    s.put(mk_entry(1, "bravo", &["x", "y"])).unwrap();
    s.put(mk_entry(2, "alpha", &["y", "z"])).unwrap();
    s.put(mk_entry(3, "charlie", &[])).unwrap();
    s.put(mk_entry(4, "dog", &[])).unwrap();
    s.put(mk_entry(5, "echo", &[])).unwrap();

    let both = s.filter(None, Some(&kw(&["y"])));
    // equal score, tie broken by name ascending
    assert_eq!(ids(&both), vec![2, 1]);

    let one = s.filter(None, Some(&kw(&["x"])));
    assert_eq!(ids(&one), vec![1]);

    // an id with no match never appears
    assert!(s.filter(None, Some(&kw(&["w"]))).is_empty());
}

#[test]
fn tag_diff_touches_only_changed_tags() {
    let mut s = fresh_store();
    s.put(mk_entry(7, "tags club", &["a", "b", "c"])).unwrap();
    assert_eq!(s.index_count("a", 7, IndexType::Tag), 1);
    assert_eq!(s.index_count("b", 7, IndexType::Tag), 1);
    assert_eq!(s.index_count("c", 7, IndexType::Tag), 1);

    s.put(mk_entry(7, "tags club", &["b", "c", "d"])).unwrap();
    assert_eq!(s.index_count("a", 7, IndexType::Tag), 0);
    assert_eq!(s.index_count("b", 7, IndexType::Tag), 1);
    assert_eq!(s.index_count("c", 7, IndexType::Tag), 1);
    assert_eq!(s.index_count("d", 7, IndexType::Tag), 1);
}

#[test]
fn name_change_swaps_name_keys() {
    let mut s = fresh_store();
    s.put(mk_entry(3, "first name", &[])).unwrap();
    assert_eq!(s.index_count("first name", 3, IndexType::Name), 1);
    let renamed = mk_entry(3, "second name", &[]);
    s.put(renamed).unwrap();
    assert_eq!(s.index_count("first name", 3, IndexType::Name), 0);
    assert_eq!(s.index_count("second name", 3, IndexType::Name), 1);
    assert_eq!(s.index_count("club", 3, IndexType::Category), 1);
}

#[test]
fn idempotent_edit_clears_draft() {
    let mut s = fresh_store();
    s.put(mk_entry(1, "steady", &["k"])).unwrap();

    // a real draft first
    let mut proposal = mk_entry(1, "steady", &["k"]);
    proposal.desc = "changed".to_string();
    s.stash(proposal, false).unwrap();
    assert!(matches!(s.pull_fetch(1), Some(PullEntry::Stashed(_))));

    // proposing exactly the committed row clears it
    let committed = s.fetch(1).unwrap();
    s.stash(committed, false).unwrap();
    assert!(matches!(s.pull_fetch(1), Some(PullEntry::Unmodified(_))));
}

#[test]
fn new_id_reservation_hides_until_commit() {
    let mut s = fresh_store();
    s.put(mk_entry(1, "one", &[])).unwrap();
    s.put(mk_entry(2, "two", &[])).unwrap();
    s.put(mk_entry(3, "three", &[])).unwrap();
    assert_eq!(s.highest_id(), 3);
    assert_eq!(s.len(), 3);

    let draft = mk_entry(4, "four", &["fresh"]);
    s.stash(draft, false).unwrap();
    // reserved right away, but excluded from listings
    assert_eq!(s.len(), 4);
    assert!(!ids(&s.filter(None, None)).contains(&4));
    assert!(matches!(s.pull_fetch(4), Some(PullEntry::Stashed(_))));

    s.commit(4).unwrap();
    assert!(ids(&s.filter(None, None)).contains(&4));
    assert!(matches!(s.pull_fetch(4), Some(PullEntry::Unmodified(_))));
}

#[test]
fn restricted_caller_cannot_reserve_new_id() {
    let mut s = fresh_store();
    s.put(mk_entry(1, "only", &[])).unwrap();

    let r = s.stash(mk_entry(2, "intruder", &[]), true);
    assert!(matches!(r, Err(StoreError::Denied)));
    // nothing changed
    assert_eq!(s.len(), 1);
    assert!(s.pull_fetch(2).is_none());
    assert_eq!(s.filter(None, None).len(), 1);
}

#[test]
fn restricted_caller_may_draft_existing_id() {
    let mut s = fresh_store();
    s.put(mk_entry(1, "editable", &[])).unwrap();
    let mut proposal = mk_entry(1, "editable", &[]);
    proposal.desc = "update".to_string();
    assert!(s.stash(proposal, true).is_ok());
    assert!(matches!(s.pull_fetch(1), Some(PullEntry::Stashed(_))));
}

#[test]
fn delete_then_put_returns_deleted_entry() {
    let mut s = fresh_store();
    s.put(mk_entry(6, "doomed", &[])).unwrap();
    s.del(6).unwrap();
    let r = s.put(mk_entry(6, "revenant", &[]));
    assert!(matches!(r, Err(StoreError::DeletedEntry)));
}

#[test]
fn delete_unknown_id_is_not_found() {
    let mut s = fresh_store();
    assert!(matches!(s.del(11), Err(StoreError::NotFound)));
}

#[test]
fn delete_drops_pending_draft() {
    let mut s = fresh_store();
    s.put(mk_entry(1, "target", &[])).unwrap();
    let mut proposal = mk_entry(1, "target", &[]);
    proposal.desc = "draft".to_string();
    s.stash(proposal, false).unwrap();
    s.del(1).unwrap();
    assert!(s.pull_fetch(1).is_none() || matches!(s.pull_fetch(1), Some(PullEntry::Unmodified(_))));
}

#[test]
fn commit_without_draft_is_noop() {
    let mut s = fresh_store();
    s.put(mk_entry(1, "calm", &[])).unwrap();
    assert!(s.commit(1).is_ok());
    assert!(s.commit(99).is_ok());
}

#[test]
fn discard_drops_draft_without_applying() {
    let mut s = fresh_store();
    s.put(mk_entry(1, "kept", &[])).unwrap();
    let mut proposal = mk_entry(1, "kept", &[]);
    proposal.name = "overwritten".to_string();
    s.stash(proposal, false).unwrap();
    s.discard(1);
    assert!(matches!(s.pull_fetch(1), Some(PullEntry::Unmodified(_))));
    let row = s.fetch(1).unwrap();
    assert_eq!(row.name, "kept");
}

#[test]
fn pull_lists_drafts_over_committed_rows_by_id() {
    let mut s = fresh_store();
    s.put(mk_entry(2, "second", &[])).unwrap();
    s.put(mk_entry(1, "first", &[])).unwrap();
    let mut proposal = mk_entry(2, "second", &[]);
    proposal.desc = "pending".to_string();
    s.stash(proposal, false).unwrap();

    let pulled = s.pull();
    assert_eq!(pulled.len(), 2);
    assert_eq!(pulled[0].id(), 1);
    assert_eq!(pulled[1].id(), 2);
    assert!(matches!(pulled[0], PullEntry::Unmodified(_)));
    assert!(matches!(pulled[1], PullEntry::Stashed(_)));
}

#[test]
fn nul_in_name_is_rejected_whole() {
    let mut s = fresh_store();
    let bad = mk_entry(1, "bad\0name", &[]);
    let r = s.put(bad);
    assert!(matches!(r, Err(StoreError::InvalidString)));
    assert_eq!(s.len(), 0);
}

#[test]
fn tags_are_stored_sorted() {
    let mut s = fresh_store();
    s.put(mk_entry(1, "sorter", &["zeta", "alpha", "mid"])).unwrap();
    let row = s.fetch(1).unwrap();
    assert_eq!(row.tags, vec!["alpha".to_string(), "mid".to_string(), "zeta".to_string()]);
}

#[test]
fn journal_carries_each_mutation_once() {
    let mut s = fresh_store();
    s.put(mk_entry(1, "persisted", &[])).unwrap();
    let writes = s.take_writes();
    assert_eq!(writes.len(), 1);
    assert_eq!(writes[0].id, 1);
    assert!(s.take_writes().is_empty());

    s.del(1).unwrap();
    let writes = s.take_writes();
    assert_eq!(writes.len(), 1);
    assert!(writes[0].deleted);
}

#[test]
fn replay_rebuilds_index_and_loads_tombstones() {
    let mut s = fresh_store();
    s.put(mk_entry(1, "alive", &["here"])).unwrap();
    s.put(mk_entry(2, "gone", &[])).unwrap();
    s.del(2).unwrap();
    let rows = s.take_writes();

    // rows keyed by id, latest wins, replayed in key order
    let mut latest: std::collections::BTreeMap<i32, Entry> = std::collections::BTreeMap::new();
    for row in rows {
        latest.insert(row.id, row);
    }
    let mut rebooted = fresh_store();
    for (_, row) in latest {
        rebooted.replay(row).unwrap();
    }
    assert_eq!(rebooted.len(), 2);
    assert_eq!(ids(&rebooted.filter(None, Some(&kw(&["here"])))), vec![1]);
    assert!(rebooted.fetch(2).unwrap().deleted);
    assert!(!ids(&rebooted.filter(None, None)).contains(&2));
}

#[test]
fn stash_snapshot_round_trip() {
    let mut s = fresh_store();
    s.put(mk_entry(1, "saved", &[])).unwrap();
    let mut proposal = mk_entry(1, "saved", &[]);
    proposal.desc = "draft content".to_string();
    s.stash(proposal, false).unwrap();
    let snapshot = s.stash_snapshot();
    assert_eq!(snapshot.len(), 1);

    let mut restored = fresh_store();
    restored.put(mk_entry(1, "saved", &[])).unwrap();
    restored.restore_stash(snapshot);
    match restored.pull_fetch(1) {
        Some(PullEntry::Stashed(se)) => assert_eq!(se.entry.desc, "draft content"),
        other => panic!("expected a draft, got {:?}", other.is_some()),
    }
}

#[test]
fn restore_stash_last_writer_wins() {
    let mut s = fresh_store();
    s.put(mk_entry(1, "twice drafted", &[])).unwrap();
    let mut first = mk_entry(1, "twice drafted", &[]);
    first.desc = "older".to_string();
    let mut second = mk_entry(1, "twice drafted", &[]);
    second.desc = "newer".to_string();
    let drafts = vec![
        crs::entry::StashedEntry { entry: first, timestamp: 1 },
        crs::entry::StashedEntry { entry: second, timestamp: 2 },
    ];
    s.restore_stash(drafts);
    match s.pull_fetch(1) {
        Some(PullEntry::Stashed(se)) => assert_eq!(se.entry.desc, "newer"),
        other => panic!("expected the later draft, got {:?}", other.is_some()),
    }
}

#[test]
fn raw_entry_extend_splits_tags() {
    let raw = RawEntry {
        name: "imported".to_string(),
        name_eng: "imported eng".to_string(),
        category: "club".to_string(),
        tags: "x y".to_string(),
        desc: String::new(),
        desc_eng: String::new(),
        creation: "2017-01-01".to_string(),
        disbandment: None,
    };
    let e = raw.extend(9);
    assert_eq!(e.id, 9);
    assert_eq!(e.tags, vec!["x".to_string(), "y".to_string()]);
    assert!(!e.deleted && !e.hidden);
    assert!(e.files.is_empty() && e.icon.is_none());
}

#[test]
fn raw_entry_blank_tags_mean_no_tags() {
    let raw = RawEntry {
        name: "bare".to_string(),
        name_eng: "bare eng".to_string(),
        category: "club".to_string(),
        tags: "   ".to_string(),
        desc: String::new(),
        desc_eng: String::new(),
        creation: "2017-01-01".to_string(),
        disbandment: None,
    };
    let e = raw.extend(1);
    assert!(e.tags.is_empty());
}

#[test]
fn entry_same_as_is_field_for_field() {
    let a = mk_entry(1, "same", &["t"]);
    let b = mk_entry(1, "same", &["t"]);
    assert!(a.same_as(&b));
    let mut c = mk_entry(1, "same", &["t"]);
    c.hidden = true;
    assert!(!a.same_as(&c));
}

#[test]
fn segmenter_words_iterate_in_order() {
    let seg = Segmenter::new();
    let words = seg.cut_for_search("hello world").unwrap();
    let mut it = words.iter();
    let mut collected: Vec<String> = Vec::new();
    while let Some(w) = it.next() {
        collected.push(w);
    }
    assert_eq!(collected, words.words);
    assert!(collected.concat().contains("hello"));
}

#[test]
fn segmenter_rejects_interior_nul() {
    let seg = Segmenter::new();
    assert!(seg.cut_for_search("bad\0text").is_err());
    assert!(seg.cut_for_search("fine text").is_ok());
}
