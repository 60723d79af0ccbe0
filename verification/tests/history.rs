use jjnotes::history::Jujutsu;
use jjnotes::service::NoteService;

fn backend() -> Jujutsu {
    Jujutsu::new(String::from("/tmp/kb"))
}

#[test]
fn jujutsu_keeps_its_path() {
    let j = backend();
    assert_eq!(j.repo_path(), "/tmp/kb");
}

#[test]
fn three_records_newest_first() {
    let j = backend();
    let scoped = "a1 | Note: Alpha (t1) | ann\n\
                  b2 | Update: Alpha (t2) | ann\n\
                  c3 | Update: Alpha (t3) | ann\n";
    let entries = j.get_file_history_with_title(Some(scoped), "", "Alpha");
    assert_eq!(entries.len(), 3);
    assert_eq!(entries[0].id, "c3");
    assert_eq!(entries[1].id, "b2");
    assert_eq!(entries[2].id, "a1");
    assert_eq!(entries[0].message, "Update: Alpha (t3)");
    assert_eq!(entries[0].author, "ann");
}

#[test]
fn title_match_is_case_insensitive_substring() {
    let j = backend();
    let scoped = "a1 | Note: ALPHA plan | ann\nb2 | touched beta | bob\n";
    let entries = j.get_file_history_with_title(Some(scoped), "", "alpha");
    assert_eq!(entries.len(), 1);
    assert_eq!(entries[0].id, "a1");
}

#[test]
fn empty_marker_entries_are_dropped() {
    let j = backend();
    let scoped = "a1 | (empty) | ann\nb2 | Note: Alpha | ann\n";
    let entries = j.get_file_history_with_title(Some(scoped), "", "Alpha");
    assert_eq!(entries.len(), 1);
    assert_eq!(entries[0].id, "b2");
}

#[test]
fn continuation_lines_are_normalized() {
    let j = backend();
    // a wrapped line: the continuation fragment is stripped before parsing
    let scoped = "  | a1 | Note: Alpha | ann\n";
    let entries = j.get_file_history_with_title(Some(scoped), "", "Alpha");
    assert_eq!(entries.len(), 1);
    assert_eq!(entries[0].id, "a1");
}

#[test]
fn fields_are_trimmed_and_timestamp_read() {
    let j = backend();
    let scoped = "a1 |  Note: Alpha  | ann | 2024-01-01\n";
    let entries = j.get_file_history_with_title(Some(scoped), "", "Alpha");
    assert_eq!(entries.len(), 1);
    assert_eq!(entries[0].message, "Note: Alpha");
    assert_eq!(entries[0].author, "ann");
    assert_eq!(entries[0].timestamp, "2024-01-01");
}

#[test]
fn missing_fields_default_to_empty() {
    let j = backend();
    let scoped = "a1 | Note: Alpha\n";
    let entries = j.get_file_history_with_title(Some(scoped), "", "Alpha");
    assert_eq!(entries.len(), 1);
    assert_eq!(entries[0].author, "");
    assert_eq!(entries[0].timestamp, "");
}

#[test]
fn one_field_lines_are_skipped() {
    let j = backend();
    let scoped = "justanid\n\na1 | Note: Alpha | ann\n";
    let entries = j.get_file_history_with_title(Some(scoped), "", "Alpha");
    assert_eq!(entries.len(), 1);
    assert_eq!(entries[0].id, "a1");
}

#[test]
fn fallback_to_full_log_when_scoped_is_empty() {
    let j = backend();
    let full = "f1 | Note: Alpha (t1) | ann\nf2 | unrelated | bob\n";
    // scoped query produced nothing useful
    let entries = j.get_file_history_with_title(Some(""), full, "Alpha");
    assert_eq!(entries.len(), 1);
    assert_eq!(entries[0].id, "f1");
    // no scoped query at all
    let entries2 = j.get_file_history_with_title(None, full, "Alpha");
    assert_eq!(entries2.len(), 1);
    assert_eq!(entries2[0].id, "f1");
}

#[test]
fn fallback_without_title_keeps_operation_markers() {
    let j = backend();
    let full = "f1 | Note: A | ann\n\
                f2 | random chatter | bob\n\
                f3 | Update: B | ann\n\
                f4 | Duplicate: C | ann\n";
    let entries = j.get_file_history(None, full);
    assert_eq!(entries.len(), 3);
    // newest first
    assert_eq!(entries[0].id, "f4");
    assert_eq!(entries[1].id, "f3");
    assert_eq!(entries[2].id, "f1");
}

#[test]
fn scoped_with_empty_title_keeps_all_real_entries() {
    let j = backend();
    let scoped = "a1 | anything at all | ann\na2 | (empty) | ann\n";
    let entries = j.get_file_history(Some(scoped), "");
    assert_eq!(entries.len(), 1);
    assert_eq!(entries[0].id, "a1");
}

#[test]
fn service_history_uses_note_title() {
    let mut s = NoteService::new(String::from("/tmp/kb"));
    s.create_note_at("Alpha", "body", String::from("id-a"), "t1");
    let scoped = "a1 | Note: Alpha (t1) | ann\nb2 | Note: Beta (t2) | ann\n";
    let entries = s.get_note_history("id-a", Some(scoped), "");
    assert_eq!(entries.len(), 1);
    assert_eq!(entries[0].id, "a1");
    // an unknown note falls back to the no-title rules on the full log
    let full = "f1 | Note: Anything | ann\nf2 | chatter | bob\n";
    let entries2 = s.get_note_history("missing", Some(""), full);
    assert_eq!(entries2.len(), 1);
    assert_eq!(entries2[0].id, "f1");
}
