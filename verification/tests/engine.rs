use jjnotes::note::Note;
use jjnotes::service::{NoteError, NoteService, NoteStatistics};

fn service() -> NoteService {
    NoteService::new(String::from("/tmp/kb"))
}

#[test]
fn new_service_is_empty() {
    let s = service();
    assert_eq!(s.list_notes().len(), 0);
    assert_eq!(s.notes_dir(), "/tmp/kb/notes");
    assert_eq!(s.repo_path(), "/tmp/kb");
}

#[test]
fn note_new_generates_identity() {
    let n = Note::new(String::from("T"), String::from("c"));
    assert_eq!(n.id.len(), 32);
    assert_eq!(n.title, "T");
    assert_eq!(n.content, "c");
    assert_eq!(n.created_at, n.updated_at);
    assert!(n.links.is_empty() && n.tags.is_empty());
}

#[test]
fn create_note_fills_fields() {
    let mut s = service();
    let n = s.create_note(String::from("Alpha"), String::from("Alpha\nbody"));
    assert_eq!(n.title, "Alpha");
    assert_eq!(n.content, "Alpha\nbody");
    assert!(n.links.is_empty());
    assert!(n.tags.is_empty());
    assert_eq!(n.created_at, n.updated_at);
    // The id comes from an MD5 digest: 32 hex characters, not the title.
    assert_eq!(n.id.len(), 32);
    assert!(n.id.chars().all(|c| c.is_ascii_hexdigit()));
    assert_ne!(n.id, "Alpha");
}

#[test]
fn identity_immutable_under_update() {
    let mut s = service();
    let n = s.create_note_at("T", "old", String::from("id-1"), "2024-01-01T00:00:00+00:00");
    let u = s.update_note_at(n.duplicate_value(), String::from("new"), "2024-02-01T00:00:00+00:00");
    assert_eq!(u.id, n.id);
    assert_eq!(u.created_at, n.created_at);
    assert_eq!(u.content, "new");
    assert_eq!(u.updated_at, "2024-02-01T00:00:00+00:00");
    assert!(u.updated_at >= n.updated_at);
    let got = s.get_note("id-1").expect("stored");
    assert_eq!(got.content, "new");
}

#[test]
fn update_note_inserts_missing_note() {
    let mut s = service();
    let n = Note {
        id: String::from("orphan"),
        title: String::from("T"),
        content: String::from("c"),
        links: vec![],
        tags: vec![],
        created_at: String::from("2024-01-01T00:00:00+00:00"),
        updated_at: String::from("2024-01-01T00:00:00+00:00"),
    };
    s.update_note_at(n, String::from("c2"), "2024-01-02T00:00:00+00:00");
    let got = s.get_note("orphan").expect("inserted");
    assert_eq!(got.content, "c2");
}

#[test]
fn tag_add_is_idempotent_across_casing() {
    let mut s = service();
    s.create_note_at("T", "c", String::from("id-1"), "t1");
    let n1 = s.add_tag_at("id-1", String::from("Work"), "t2").expect("first add");
    assert_eq!(n1.tags, vec![String::from("Work")]);
    let n2 = s.add_tag_at("id-1", String::from("work"), "t3").expect("second add");
    assert_eq!(n2.tags, vec![String::from("Work")]);
    // the no-op did not bump the timestamp either
    assert_eq!(n2.updated_at, "t2");
    let n3 = s.add_tag_at("id-1", String::from("WORK"), "t4").expect("third add");
    assert_eq!(n3.tags, vec![String::from("Work")]);
}

#[test]
fn tag_remove_is_case_insensitive_and_always_bumps() {
    let mut s = service();
    s.create_note_at("T", "c", String::from("id-1"), "t1");
    s.add_tag_at("id-1", String::from("Work"), "t2").unwrap();
    s.add_tag_at("id-1", String::from("Play"), "t3").unwrap();
    let n = s.remove_tag_at("id-1", "wOrK", "t4").expect("remove");
    assert_eq!(n.tags, vec![String::from("Play")]);
    assert_eq!(n.updated_at, "t4");
    // removing a tag that is not there still bumps updated_at
    let n2 = s.remove_tag_at("id-1", "absent", "t5").expect("remove");
    assert_eq!(n2.tags, vec![String::from("Play")]);
    assert_eq!(n2.updated_at, "t5");
}

#[test]
fn tag_ops_on_missing_note_fail() {
    let mut s = service();
    assert!(matches!(s.add_tag("nope", String::from("x")), Err(NoteError::NotFound)));
    assert!(matches!(s.remove_tag("nope", "x"), Err(NoteError::NotFound)));
    assert_eq!(s.link_notes("nope", "other"), Err(NoteError::NotFound));
    assert_eq!(s.unlink_notes("nope", "other"), Err(NoteError::NotFound));
    assert!(matches!(s.duplicate_note("nope"), Err(NoteError::NotFound)));
}

#[test]
fn link_is_set_like_and_one_sided() {
    let mut s = service();
    s.create_note_at("A", "a", String::from("id-a"), "t1");
    s.create_note_at("B", "b", String::from("id-b"), "t1");
    s.link_notes_at("id-a", "id-b", "t2").unwrap();
    s.link_notes_at("id-a", "id-b", "t3").unwrap();
    let a = s.get_note("id-a").unwrap();
    assert_eq!(a.links, vec![String::from("id-b")]);
    // linking did not touch the target
    let b = s.get_note("id-b").unwrap();
    assert!(b.links.is_empty());
    assert_eq!(b.updated_at, "t1");
}

#[test]
fn backlink_symmetry_scenario() {
    let mut s = service();
    s.create_note_at("A", "a", String::from("id-a"), "t1");
    s.create_note_at("B", "b", String::from("id-b"), "t2");
    s.create_note_at("C", "c", String::from("id-c"), "t3");
    s.link_notes_at("id-a", "id-b", "t4").unwrap();
    s.link_notes_at("id-c", "id-b", "t5").unwrap();
    let back = s.get_backlinks("id-b");
    let ids: Vec<&str> = back.iter().map(|n| n.id.as_str()).collect();
    assert_eq!(back.len(), 2);
    assert!(ids.contains(&"id-a"));
    assert!(ids.contains(&"id-c"));
    assert!(s.get_backlinks("id-a").is_empty());
    // unlink removes the backlink again
    s.unlink_notes_at("id-a", "id-b", "t6").unwrap();
    let back2 = s.get_backlinks("id-b");
    assert_eq!(back2.len(), 1);
    assert_eq!(back2[0].id, "id-c");
}

#[test]
fn duplicate_isolates_links() {
    let mut s = service();
    s.create_note_at("Orig", "content", String::from("id-o"), "t1");
    s.create_note_at("Other", "x", String::from("id-x"), "t1");
    s.add_tag_at("id-o", String::from("Keep"), "t2").unwrap();
    s.link_notes_at("id-o", "id-x", "t3").unwrap();
    let d = s.duplicate_note_at("id-o", String::from("id-copy"), "t4").expect("duplicate");
    assert_eq!(d.title, "Copy of Orig");
    assert_eq!(d.content, "content");
    assert_eq!(d.tags, vec![String::from("Keep")]);
    assert!(d.links.is_empty());
    assert_eq!(d.id, "id-copy");
    assert_eq!(d.created_at, "t4");
    assert_eq!(d.updated_at, "t4");
    // the stored copy matches the returned one
    let stored = s.get_note("id-copy").unwrap();
    assert_eq!(stored.title, "Copy of Orig");
    // duplicate_note gives the copy a fresh digest id
    let d2 = s.duplicate_note("id-o").expect("duplicate");
    assert_eq!(d2.title, "Copy of Orig");
    assert_eq!(d2.id.len(), 32);
    assert_ne!(d2.id, "id-o");
}

#[test]
fn dangling_link_tolerated() {
    let mut s = service();
    s.create_note_at("A", "a", String::from("id-a"), "t1");
    s.create_note_at("X", "x", String::from("id-x"), "t2");
    s.link_notes_at("id-a", "id-x", "t3").unwrap();
    assert!(s.delete_note("id-x"));
    // the link is still recorded on A, but resolves to nothing
    let a = s.get_note("id-a").expect("A remains readable");
    assert_eq!(a.links, vec![String::from("id-x")]);
    assert!(s.resolve_link("id-x").is_none());
    assert!(s.get_backlinks("id-x").len() == 1);
}

#[test]
fn delete_then_list_excludes() {
    let mut s = service();
    s.create_note_at("A", "a", String::from("id-a"), "t1");
    s.create_note_at("B", "b", String::from("id-b"), "t2");
    assert!(s.delete_note("id-a"));
    let listed = s.list_notes();
    assert_eq!(listed.len(), 1);
    assert_eq!(listed[0].id, "id-b");
    assert!(s.get_note("id-a").is_none());
    // deleting again is a no-op, not an error
    assert!(!s.delete_note("id-a"));
    assert_eq!(s.list_notes().len(), 1);
}

#[test]
fn list_orders_most_recent_first_ties_by_id() {
    let mut s = service();
    s.create_note_at("Old", "x", String::from("id-z"), "2024-01-01T00:00:00+00:00");
    s.create_note_at("New", "x", String::from("id-m"), "2024-03-01T00:00:00+00:00");
    s.create_note_at("Tie2", "x", String::from("id-b"), "2024-02-01T00:00:00+00:00");
    s.create_note_at("Tie1", "x", String::from("id-a"), "2024-02-01T00:00:00+00:00");
    let ids: Vec<String> = s.list_notes().into_iter().map(|n| n.id).collect();
    assert_eq!(ids, vec!["id-m", "id-a", "id-b", "id-z"]);
}

#[test]
fn load_note_refuses_duplicate_id() {
    let mut s = service();
    let n = Note {
        id: String::from("id-1"),
        title: String::from("T"),
        content: String::from("c"),
        links: vec![],
        tags: vec![],
        created_at: String::from("t"),
        updated_at: String::from("t"),
    };
    assert!(s.load_note(n.duplicate_value()));
    assert!(!s.load_note(n));
    assert_eq!(s.list_notes().len(), 1);
}

#[test]
fn statistics_count_everything() {
    let mut s = service();
    assert_eq!(
        s.get_statistics(),
        NoteStatistics { total_notes: 0, total_links: 0, total_tags: 0, unique_tags_count: 0 },
    );
    s.create_note_at("A", "a", String::from("id-a"), "t1");
    s.create_note_at("B", "b", String::from("id-b"), "t2");
    s.add_tag_at("id-a", String::from("Work"), "t3").unwrap();
    s.add_tag_at("id-a", String::from("Play"), "t3").unwrap();
    s.add_tag_at("id-b", String::from("wOrk"), "t3").unwrap();
    s.link_notes_at("id-a", "id-b", "t4").unwrap();
    s.link_notes_at("id-b", "id-a", "t4").unwrap();
    s.link_notes_at("id-a", "ghost", "t4").unwrap();
    let stats = s.get_statistics();
    assert_eq!(stats.total_notes, 2);
    assert_eq!(stats.total_links, 3);
    assert_eq!(stats.total_tags, 3);
    // "Work" and "wOrk" fold together
    assert_eq!(stats.unique_tags_count, 2);
}

#[test]
fn scenario_alpha_beta() {
    let mut s = service();
    let alpha = s.create_note(String::from("Alpha"), String::from("Alpha\nbody"));
    let listed = s.list_notes();
    assert_eq!(listed.len(), 1);
    assert_eq!(listed[0].title, "Alpha");

    s.add_tag(&alpha.id, String::from("Work")).unwrap();
    s.add_tag(&alpha.id, String::from("work")).unwrap();
    let tagged = s.get_note(&alpha.id).unwrap();
    assert_eq!(tagged.tags, vec![String::from("Work")]);

    let beta = s.create_note(String::from("Beta"), String::from("Beta body"));
    s.link_notes(&alpha.id, &beta.id).unwrap();
    let back = s.get_backlinks(&beta.id);
    assert_eq!(back.len(), 1);
    assert_eq!(back[0].title, "Alpha");

    assert!(s.delete_note(&beta.id));
    assert!(s.resolve_link(&beta.id).is_none());
    let still = s.list_notes();
    assert_eq!(still.len(), 1);
    assert_eq!(still[0].title, "Alpha");
}
