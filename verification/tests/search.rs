use jjnotes::service::NoteService;

fn corpus() -> NoteService {
    let mut s = NoteService::new(String::from("/tmp/kb"));
    s.create_note_at(
        "Groceries",
        "buy Milk and bread",
        String::from("id-groc"),
        "2024-01-03T00:00:00+00:00",
    );
    s.create_note_at(
        "Project plan",
        "ship the thing",
        String::from("id-proj"),
        "2024-01-02T00:00:00+00:00",
    );
    s.create_note_at(
        "Diary",
        "nothing to report",
        String::from("id-diary"),
        "2024-01-01T00:00:00+00:00",
    );
    s.add_tag_at("id-proj", String::from("Proj"), "2024-01-02T00:00:00+00:00").unwrap();
    s.add_tag_at("id-diary", String::from("private"), "2024-01-01T00:00:00+00:00").unwrap();
    s
}

#[test]
fn search_title_substring_case_insensitive() {
    let s = corpus();
    let r = s.search_notes("groc");
    assert_eq!(r.len(), 1);
    assert_eq!(r[0].id, "id-groc");
    let r2 = s.search_notes("PROJECT");
    assert_eq!(r2.len(), 1);
    assert_eq!(r2[0].id, "id-proj");
}

#[test]
fn search_content_substring_case_insensitive() {
    let s = corpus();
    let r = s.search_notes("milk");
    assert_eq!(r.len(), 1);
    assert_eq!(r[0].id, "id-groc");
}

#[test]
fn search_without_match_is_empty() {
    let s = corpus();
    assert!(s.search_notes("zebra").is_empty());
}

#[test]
fn search_empty_query_returns_everything() {
    let s = corpus();
    assert_eq!(s.search_notes("").len(), 3);
}

#[test]
fn search_hash_alone_returns_full_corpus() {
    let s = corpus();
    let r = s.search_notes("#");
    assert_eq!(r.len(), 3);
    // in list order: most recently updated first
    assert_eq!(r[0].id, "id-groc");
    assert_eq!(r[1].id, "id-proj");
    assert_eq!(r[2].id, "id-diary");
    // whitespace after the marker is trimmed away too
    assert_eq!(s.search_notes("#  ").len(), 3);
    assert_eq!(s.search_notes("##").len(), 3);
}

#[test]
fn search_hash_tag_matches_exactly_and_case_insensitively() {
    let s = corpus();
    let r = s.search_notes("#proj");
    assert_eq!(r.len(), 1);
    assert_eq!(r[0].id, "id-proj");
    let r2 = s.search_notes("#PROJ");
    assert_eq!(r2.len(), 1);
    // the tag is an exact match, not a substring: "pro" matches nothing
    assert!(s.search_notes("#pro").is_empty());
    // tag search entry point behaves the same
    let r3 = s.search_by_tag("pRoJ");
    assert_eq!(r3.len(), 1);
    assert_eq!(r3[0].id, "id-proj");
    assert!(s.search_by_tag("pro").is_empty());
}

#[test]
fn search_results_follow_list_order() {
    let mut s = NoteService::new(String::from("/tmp/kb"));
    s.create_note_at("one fish", "x", String::from("id-1"), "2024-01-01T00:00:00+00:00");
    s.create_note_at("two fish", "x", String::from("id-2"), "2024-01-03T00:00:00+00:00");
    s.create_note_at("red fish", "x", String::from("id-3"), "2024-01-02T00:00:00+00:00");
    let ids: Vec<String> = s.search_notes("fish").into_iter().map(|n| n.id).collect();
    assert_eq!(ids, vec!["id-2", "id-3", "id-1"]);
}
