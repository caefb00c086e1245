use commonplace::content::{Block, Inline, ListItem};
use commonplace::id::ZettelId;
use commonplace::index::{Index, SearchError};
use commonplace::record::{DeserializeError, ZettelRecord};
use commonplace::store::{StoreError, ZettelStore, ZettelUpdate};

fn fresh_store() -> ZettelStore {
    ZettelStore::temporary(Index::create_in_ram().unwrap()).unwrap()
}

fn title_update(title: &str) -> ZettelUpdate {
    ZettelUpdate { title: Some(String::from(title)), content: None }
}

fn paragraph(text: &str) -> Block {
    Block::Paragraph {
        inlines: vec![Inline::Text { text: String::from(text), marks: vec![] }],
    }
}

#[test]
fn create_then_get_returns_empty_record() {
    let mut store = fresh_store();
    let id = store.create().unwrap().expect("fresh store cannot collide");
    let rec = store.get(id).unwrap().expect("created note must exist");
    assert_eq!(rec, ZettelRecord::new());
    assert_eq!(rec.title, "");
    assert!(rec.content.is_empty());
    assert!(rec.mentions.is_empty());
}

#[test]
fn same_second_collision_exactly_one_succeeds() {
    // Two creations within the same wall-clock second derive the same id;
    // the first wins, the second gets the retry signal, never both.
    let mut store = fresh_store();
    let id = ZettelId(120210704233224);
    let first = store.create_with_id(id).unwrap();
    let second = store.create_with_id(id).unwrap();
    assert!(first);
    assert!(!second);
    // The stored record is the first one's default, untouched.
    assert_eq!(store.get(id).unwrap().unwrap(), ZettelRecord::new());
}

#[test]
fn get_absent_id_is_none() {
    let store = fresh_store();
    assert!(store.get(ZettelId(42)).unwrap().is_none());
}

#[test]
fn update_absent_id_reports_not_found() {
    let mut store = fresh_store();
    assert_eq!(store.update(ZettelId(42), &title_update("X")), Ok(false));
}

#[test]
fn partial_update_changes_only_the_title() {
    let mut store = fresh_store();
    let id = ZettelId(7);
    assert!(store.create_with_id(id).unwrap());
    let content = vec![paragraph("the body"), Block::Divider];
    let both = ZettelUpdate {
        title: Some(String::from("First")),
        content: Some(vec![paragraph("the body"), Block::Divider]),
    };
    assert_eq!(store.update(id, &both), Ok(true));
    assert_eq!(store.update(id, &title_update("Second")), Ok(true));
    let rec = store.get(id).unwrap().unwrap();
    assert_eq!(rec.title, "Second");
    assert_eq!(rec.content, content);
    assert!(rec.mentions.is_empty());
}

#[test]
fn all_lists_in_chronological_order() {
    let mut store = fresh_store();
    for &v in &[300u64, 100, 200] {
        assert!(store.create_with_id(ZettelId(v)).unwrap());
    }
    let listed = store.all().unwrap();
    let ids: Vec<u64> = listed.iter().map(|(id, _)| id.0).collect();
    assert_eq!(ids, vec![100, 200, 300]);
}

#[test]
fn scan_skips_corrupted_entries() {
    // Build the tree directly and plant one unreadable value among
    // readable ones: the listing returns the others and omits it.
    let db = sled::Config::new().temporary(true).open().unwrap();
    let tree = db.open_tree("zettels").unwrap();
    tree.insert(ZettelId(100).encode(), ZettelRecord::new().serialize()).unwrap();
    tree.insert(ZettelId(200).encode(), vec![9u8, 9, 9]).unwrap();
    tree.insert(ZettelId(300).encode(), ZettelRecord::new().serialize()).unwrap();
    let store = ZettelStore::with_tree(tree, Index::create_in_ram().unwrap());
    let listed = store.all().unwrap();
    let ids: Vec<u64> = listed.iter().map(|(id, _)| id.0).collect();
    assert_eq!(ids, vec![100, 300]);
}

#[test]
fn get_corrupted_entry_is_a_fatal_typed_error() {
    let db = sled::Config::new().temporary(true).open().unwrap();
    let tree = db.open_tree("zettels").unwrap();
    // A malformed body behind the right version tag, and a value tagged
    // with a version this build does not understand.
    tree.insert(ZettelId(1).encode(), vec![2u8, 0, 255, 255, 255]).unwrap();
    tree.insert(ZettelId(2).encode(), vec![7u8, 0, 0, 0, 0]).unwrap();
    let store = ZettelStore::with_tree(tree, Index::create_in_ram().unwrap());
    assert_eq!(
        store.get(ZettelId(1)),
        Err(StoreError::BadRecord(DeserializeError::Malformed))
    );
    assert_eq!(
        store.get(ZettelId(2)),
        Err(StoreError::BadRecord(DeserializeError::WrongVersion))
    );
}

#[test]
fn search_is_stale_until_the_committer_runs() {
    let mut store = fresh_store();
    let id = ZettelId(11);
    assert!(store.create_with_id(id).unwrap());
    assert_eq!(store.update(id, &title_update("unmistakable phrase")), Ok(true));
    // Before the committer tick the write is buffered, not visible.
    assert_eq!(store.search("unmistakable").unwrap(), vec![]);
    assert_eq!(store.commit_index(), Ok(true));
    assert_eq!(store.search("unmistakable").unwrap(), vec![id]);
    // Nothing further is pending.
    assert_eq!(store.commit_index(), Ok(false));
}

#[test]
fn search_finds_flattened_nested_content() {
    let mut store = fresh_store();
    let id = ZettelId(21);
    assert!(store.create_with_id(id).unwrap());
    let upd = ZettelUpdate {
        title: None,
        content: Some(vec![Block::List {
            items: vec![ListItem { blocks: vec![paragraph("zebra inside a list")] }],
        }]),
    };
    assert_eq!(store.update(id, &upd), Ok(true));
    assert_eq!(store.commit_index(), Ok(true));
    assert_eq!(store.search("zebra").unwrap(), vec![id]);
}

#[test]
fn search_returns_at_most_ten_ids() {
    let mut store = fresh_store();
    for v in 1u64..=12 {
        assert!(store.create_with_id(ZettelId(v)).unwrap());
        let upd = title_update(&format!("apple note number {}", v));
        assert_eq!(store.update(ZettelId(v), &upd), Ok(true));
    }
    assert_eq!(store.commit_index(), Ok(true));
    let hits = store.search("apple").unwrap();
    assert_eq!(hits.len(), 10);
}

#[test]
fn empty_query_yields_no_results() {
    let mut store = fresh_store();
    let id = ZettelId(5);
    assert!(store.create_with_id(id).unwrap());
    assert_eq!(store.update(id, &title_update("anything")), Ok(true));
    assert_eq!(store.commit_index(), Ok(true));
    assert_eq!(store.search("").unwrap(), vec![]);
}

#[test]
fn malformed_query_is_a_recoverable_error() {
    let store = fresh_store();
    assert_eq!(store.search("AND"), Err(SearchError::BadQuery));
}

#[test]
fn updated_document_replaces_the_old_one() {
    let mut store = fresh_store();
    let id = ZettelId(31);
    assert!(store.create_with_id(id).unwrap());
    assert_eq!(store.update(id, &title_update("walrus first")), Ok(true));
    assert_eq!(store.commit_index(), Ok(true));
    assert_eq!(store.search("walrus").unwrap(), vec![id]);
    assert_eq!(store.update(id, &title_update("penguin instead")), Ok(true));
    assert_eq!(store.commit_index(), Ok(true));
    assert_eq!(store.search("walrus").unwrap(), vec![]);
    assert_eq!(store.search("penguin").unwrap(), vec![id]);
}

#[test]
fn end_to_end_scenario() {
    let mut store = fresh_store();
    let id = store.create().unwrap().expect("fresh store cannot collide");
    let rec = store.get(id).unwrap().unwrap();
    assert_eq!(rec.title, "");
    assert!(rec.content.is_empty());
    assert_eq!(store.update(id, &title_update("Hello World")), Ok(true));
    let rec = store.get(id).unwrap().unwrap();
    assert_eq!(rec.title, "Hello World");
    assert!(rec.content.is_empty());
    assert_eq!(store.search("Hello").unwrap(), vec![]);
    assert_eq!(store.commit_index(), Ok(true));
    assert_eq!(store.search("Hello").unwrap(), vec![id]);
}
