use snippy::store::{Connection, Snippet, StoreError};

fn unsaved(name: &str, content: &str) -> Snippet {
    Snippet { id: None, name: String::from(name), content: String::from(content) }
}

#[test]
fn save_round_trip() {
    let mut db = Connection::open_in_memory().unwrap();
    let id = db.save_snippet(&unsaved("A", "B")).unwrap();
    let got = db.fetch_snippet(id).unwrap();
    assert_eq!(got.id, Some(id));
    assert_eq!(got.name, "A");
    assert_eq!(got.content, "B");

    let again = db
        .save_snippet(&Snippet { id: Some(id), name: String::from("A"), content: String::from("C") })
        .unwrap();
    assert_eq!(again, id);
    let got2 = db.fetch_snippet(id).unwrap();
    assert_eq!(got2.content, "C");
    assert_eq!(got2.id, Some(id));
}

#[test]
fn ids_are_fresh_and_increasing() {
    let mut db = Connection::open_in_memory().unwrap();
    let id1 = db.save_snippet(&unsaved("one", "x")).unwrap();
    let id2 = db.save_snippet(&unsaved("two", "y")).unwrap();
    let id3 = db.save_snippet(&unsaved("three", "z")).unwrap();
    assert!(id1 < id2 && id2 < id3);
}

#[test]
fn fetch_missing_id_is_not_found() {
    let db = Connection::open_in_memory().unwrap();
    match db.fetch_snippet(42) {
        Err(e) => assert_eq!(e, StoreError::NotFound),
        Ok(_) => panic!("fetch of a missing id must fail"),
    }
}

#[test]
fn update_of_missing_id_is_a_noop() {
    let mut db = Connection::open_in_memory().unwrap();
    let r = db
        .save_snippet(&Snippet { id: Some(99), name: String::from("n"), content: String::from("c") })
        .unwrap();
    assert_eq!(r, 99);
    assert!(db.fetch_snippet(99).is_err());
    assert_eq!(db.recent(10).unwrap().len(), 0);
}

#[test]
fn recent_orders_newest_first() {
    let mut db = Connection::open_in_memory().unwrap();
    let _s1 = db.save_snippet(&unsaved("S1", "first")).unwrap();
    let s2 = db.save_snippet(&unsaved("S2", "second")).unwrap();
    let s3 = db.save_snippet(&unsaved("S3", "third")).unwrap();
    let top = db.recent(2).unwrap();
    assert_eq!(top.len(), 2);
    assert_eq!(top[0].id, s3);
    assert_eq!(top[0].name, "S3");
    assert_eq!(top[1].id, s2);
    assert_eq!(top[1].name, "S2");
}

#[test]
fn recent_respects_limit() {
    let mut db = Connection::open_in_memory().unwrap();
    for i in 0..5 {
        db.save_snippet(&unsaved(&format!("n{i}"), "body")).unwrap();
    }
    assert_eq!(db.recent(0).unwrap().len(), 0);
    assert_eq!(db.recent(3).unwrap().len(), 3);
    assert_eq!(db.recent(100).unwrap().len(), 5);
}

#[test]
fn recent_hint_is_flattened_preview() {
    let mut db = Connection::open_in_memory().unwrap();
    db.save_snippet(&unsaved("multi", "line1\nline2")).unwrap();
    let top = db.recent(1).unwrap();
    // short content: flattened, and no ellipsis marker
    assert_eq!(top[0].hint, "line1 line2");
}

#[test]
fn recent_hint_marks_only_truncated_content() {
    let mut db = Connection::open_in_memory().unwrap();
    let exactly63: String = "x".repeat(63);
    let over: String = "y".repeat(64);
    db.save_snippet(&unsaved("fits", &exactly63)).unwrap();
    db.save_snippet(&unsaved("over", &over)).unwrap();
    let top = db.recent(2).unwrap();
    let mut expected_over = "y".repeat(63);
    expected_over.push_str("..");
    assert_eq!(top[0].hint, expected_over);
    assert_eq!(top[1].hint, exactly63);
}

#[test]
fn recent_hint_truncates_long_content() {
    let mut db = Connection::open_in_memory().unwrap();
    let long: String = "abcdefghij".repeat(10);
    db.save_snippet(&unsaved("long", &long)).unwrap();
    let top = db.recent(1).unwrap();
    let mut expected = long[..63].to_string();
    expected.push_str("..");
    assert_eq!(top[0].hint, expected);
}

#[test]
fn default_snippet_is_unsaved_and_empty() {
    let s = Snippet::default();
    assert_eq!(s.id, None);
    assert_eq!(s.name, "");
    assert_eq!(s.content, "");
}

#[test]
fn snippets_enumerates_all_rows_in_creation_order() {
    let mut db = Connection::open_in_memory().unwrap();
    let id1 = db.save_snippet(&unsaved("one", "x")).unwrap();
    let id2 = db.save_snippet(&unsaved("two", "y")).unwrap();
    let all = db.snippets();
    assert_eq!(all.len(), 2);
    assert_eq!(all[0].id, Some(id1));
    assert_eq!(all[0].name, "one");
    assert_eq!(all[0].content, "x");
    assert_eq!(all[1].id, Some(id2));
    assert_eq!(all[1].name, "two");
}

#[test]
fn open_from_restores_an_enumerated_store() {
    let mut db = Connection::open_in_memory().unwrap();
    let id1 = db.save_snippet(&unsaved("one", "alpha")).unwrap();
    let id2 = db.save_snippet(&unsaved("two", "beta")).unwrap();
    let saved = db.snippets();

    let restored = Connection::open_from(&saved).unwrap();
    assert_eq!(restored.fetch_snippet(id1).unwrap().content, "alpha");
    assert_eq!(restored.fetch_snippet(id2).unwrap().content, "beta");
    let top = restored.recent(10).unwrap();
    assert_eq!(top.len(), 2);
    assert_eq!(top[0].id, id2);
    // fresh ids continue after the largest restored id
    let mut restored = restored;
    let id3 = restored.save_snippet(&unsaved("three", "gamma")).unwrap();
    assert!(id3 > id2);
    // the restored store is searchable
    assert_eq!(restored.search("beta", 10).unwrap().len(), 1);
}

#[test]
fn open_from_rejects_malformed_lists() {
    // missing id
    let r = Connection::open_from(&vec![unsaved("n", "c")]);
    assert_eq!(r.err(), Some(StoreError::Constraint));
    // id below 1
    let bad = Snippet { id: Some(0), name: String::from("n"), content: String::from("c") };
    assert_eq!(Connection::open_from(&vec![bad]).err(), Some(StoreError::Constraint));
    // ids out of order
    let a = Snippet { id: Some(2), name: String::from("a"), content: String::from("x") };
    let b = Snippet { id: Some(1), name: String::from("b"), content: String::from("y") };
    assert_eq!(Connection::open_from(&vec![a, b]).err(), Some(StoreError::Constraint));
    // duplicate ids
    let c = Snippet { id: Some(3), name: String::from("c"), content: String::from("x") };
    let d = Snippet { id: Some(3), name: String::from("d"), content: String::from("y") };
    assert_eq!(Connection::open_from(&vec![c, d]).err(), Some(StoreError::Constraint));
    // the largest representable id leaves no room for the next one
    let e = Snippet { id: Some(i64::MAX), name: String::from("e"), content: String::from("z") };
    assert_eq!(Connection::open_from(&vec![e]).err(), Some(StoreError::Constraint));
    // the empty list is a valid (fresh) store
    assert!(Connection::open_from(&Vec::new()).is_ok());
}
