use snippy::store::{Connection, Snippet};

fn unsaved(name: &str, content: &str) -> Snippet {
    Snippet { id: None, name: String::from(name), content: String::from(content) }
}

fn ffmpeg_store() -> (Connection, i64) {
    let mut db = Connection::open_in_memory().unwrap();
    let id = db.save_snippet(&unsaved("transcode", "ffmpeg -i $IN -c:v copy $OUT")).unwrap();
    (db, id)
}

#[test]
fn exact_substring_search_finds_snippet() {
    let (db, id) = ffmpeg_store();
    let hits = db.search("ffmpeg", 10).unwrap();
    assert_eq!(hits.len(), 1);
    assert_eq!(hits[0].id, id);
    assert_eq!(hits[0].name, "transcode");
}

#[test]
fn typo_is_corrected_to_nearest_vocabulary_term() {
    let (db, id) = ffmpeg_store();
    // one deletion away from "ffmpeg"
    let hits = db.search("ffmeg", 10).unwrap();
    assert_eq!(hits.len(), 1);
    assert_eq!(hits[0].id, id);
}

#[test]
fn fix_search_passes_indexed_terms_verbatim() {
    let (db, _) = ffmpeg_store();
    let fixed = db.fix_search("ffmpeg");
    assert_eq!(fixed, vec![String::from("ffmpeg")]);
}

#[test]
fn fix_search_substitutes_misspelled_terms() {
    let (db, _) = ffmpeg_store();
    let fixed = db.fix_search("ffmeg");
    assert_eq!(fixed, vec![String::from("ffmpeg")]);
}

#[test]
fn fix_search_keeps_uncorrectable_terms() {
    let (db, _) = ffmpeg_store();
    let fixed = db.fix_search("zzzzznonexistent");
    assert_eq!(fixed, vec![String::from("zzzzznonexistent")]);
}

#[test]
fn no_match_query_returns_empty_not_error() {
    let (db, _) = ffmpeg_store();
    let hits = db.search("zzzzznonexistent", 10).unwrap();
    assert_eq!(hits.len(), 0);
}

#[test]
fn empty_query_returns_no_results() {
    let (db, _) = ffmpeg_store();
    assert_eq!(db.search("", 10).unwrap().len(), 0);
    assert_eq!(db.search("   \n\t ", 10).unwrap().len(), 0);
}

#[test]
fn search_is_case_insensitive() {
    let (db, id) = ffmpeg_store();
    let hits = db.search("FFMPEG", 10).unwrap();
    assert_eq!(hits.len(), 1);
    assert_eq!(hits[0].id, id);
}

#[test]
fn all_terms_must_match() {
    let mut db = Connection::open_in_memory().unwrap();
    let both = db.save_snippet(&unsaved("a", "alpha beta")).unwrap();
    let _one = db.save_snippet(&unsaved("b", "alpha gamma")).unwrap();
    let hits = db.search("alpha beta", 10).unwrap();
    assert_eq!(hits.len(), 1);
    assert_eq!(hits[0].id, both);
}

#[test]
fn name_matches_count_too() {
    let mut db = Connection::open_in_memory().unwrap();
    let id = db.save_snippet(&unsaved("backup", "tar czf out.tgz dir")).unwrap();
    let hits = db.search("backup", 10).unwrap();
    assert_eq!(hits.len(), 1);
    assert_eq!(hits[0].id, id);
    // matched on the name: the hint falls back to the content preview,
    // which is short here and so carries no ellipsis marker
    assert_eq!(hits[0].hint, "tar czf out.tgz dir");
}

#[test]
fn results_ranked_by_term_frequency() {
    let mut db = Connection::open_in_memory().unwrap();
    let once = db.save_snippet(&unsaved("a", "tool")).unwrap();
    let twice = db.save_snippet(&unsaved("b", "tool tool")).unwrap();
    let thrice = db.save_snippet(&unsaved("c", "tool tool tool")).unwrap();
    let hits = db.search("tool", 10).unwrap();
    assert_eq!(hits.len(), 3);
    assert_eq!(hits[0].id, thrice);
    assert_eq!(hits[1].id, twice);
    assert_eq!(hits[2].id, once);
}

#[test]
fn search_limit_preserves_ranking_prefix() {
    let mut db = Connection::open_in_memory().unwrap();
    let _once = db.save_snippet(&unsaved("a", "tool")).unwrap();
    let twice = db.save_snippet(&unsaved("b", "tool tool")).unwrap();
    let thrice = db.save_snippet(&unsaved("c", "tool tool tool")).unwrap();
    let hits = db.search("tool", 2).unwrap();
    assert_eq!(hits.len(), 2);
    assert_eq!(hits[0].id, thrice);
    assert_eq!(hits[1].id, twice);
    assert_eq!(db.search("tool", 0).unwrap().len(), 0);
}

#[test]
fn equal_scores_rank_newer_snippet_first() {
    let mut db = Connection::open_in_memory().unwrap();
    let older = db.save_snippet(&unsaved("a", "tool")).unwrap();
    let newer = db.save_snippet(&unsaved("b", "tool")).unwrap();
    let hits = db.search("tool", 10).unwrap();
    assert_eq!(hits.len(), 2);
    assert_eq!(hits[0].id, newer);
    assert_eq!(hits[1].id, older);
}

#[test]
fn search_hint_excerpts_matched_term() {
    let (db, _) = ffmpeg_store();
    let hits = db.search("ffmpeg", 10).unwrap();
    // the excerpt starts at the first occurrence and keeps 24 characters
    assert_eq!(hits[0].hint, "ffmpeg -i $IN -c:v copy ");
}

#[test]
fn search_sees_saves_immediately() {
    let mut db = Connection::open_in_memory().unwrap();
    assert_eq!(db.search("kubectl", 10).unwrap().len(), 0);
    let id = db.save_snippet(&unsaved("k8s", "kubectl get pods")).unwrap();
    let hits = db.search("kubectl", 10).unwrap();
    assert_eq!(hits.len(), 1);
    assert_eq!(hits[0].id, id);
    // an update is visible to the next search as well
    db.save_snippet(&Snippet {
        id: Some(id),
        name: String::from("k8s"),
        content: String::from("helm install chart"),
    })
    .unwrap();
    assert_eq!(db.search("kubectl", 10).unwrap().len(), 0);
    assert_eq!(db.search("helm", 10).unwrap().len(), 1);
}

#[test]
fn vocabulary_lists_distinct_lowercased_terms_in_order() {
    let mut db = Connection::open_in_memory().unwrap();
    db.save_snippet(&unsaved("Greet", "Hello World hello")).unwrap();
    let vocab = db.vocabulary();
    assert_eq!(
        vocab,
        vec![String::from("greet"), String::from("hello"), String::from("world")]
    );
}

#[test]
fn query_splits_on_unicode_whitespace() {
    let mut db = Connection::open_in_memory().unwrap();
    let both = db.save_snippet(&unsaved("a", "alpha beta")).unwrap();
    db.save_snippet(&unsaved("b", "alpha gamma")).unwrap();
    // no-break space and ideographic space separate terms like a plain space
    let hits = db.search("alpha\u{A0}beta", 10).unwrap();
    assert_eq!(hits.len(), 1);
    assert_eq!(hits[0].id, both);
    let hits = db.search("alpha\u{3000}beta", 10).unwrap();
    assert_eq!(hits.len(), 1);
    assert_eq!(hits[0].id, both);
}
