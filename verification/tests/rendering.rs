use jjnotes::ident::dec_chars_of;
use jjnotes::service::{
    creation_message, deletion_message, duplicate_message, update_message, NoteService,
};

#[test]
fn commit_messages_have_exact_shape() {
    assert_eq!(creation_message("Alpha", "2024-01-01 10:00:00"), "Note: Alpha (2024-01-01 10:00:00)");
    assert_eq!(update_message("Alpha", "s"), "Update: Alpha (s)");
    assert_eq!(duplicate_message("Copy of Alpha", "s"), "Duplicate: Copy of Alpha (s)");
    assert_eq!(deletion_message("abc123", "s"), "Delete note: abc123 (s)");
}

#[test]
fn decimal_rendering() {
    assert_eq!(dec_chars_of(0).into_iter().collect::<String>(), "0");
    assert_eq!(dec_chars_of(9).into_iter().collect::<String>(), "9");
    assert_eq!(dec_chars_of(1234567890).into_iter().collect::<String>(), "1234567890");
    assert_eq!(dec_chars_of(-42).into_iter().collect::<String>(), "-42");
    assert_eq!(
        dec_chars_of(i64::MIN).into_iter().collect::<String>(),
        "-9223372036854775808"
    );
    assert_eq!(
        dec_chars_of(i64::MAX).into_iter().collect::<String>(),
        "9223372036854775807"
    );
}

#[test]
fn markdown_with_tags_and_links() {
    let mut s = NoteService::new(String::from("/tmp/kb"));
    s.create_note_at("Target", "t", String::from("id-t"), "t0");
    let n = s.create_note_at("Alpha", "body text", String::from("id-a"), "t1");
    s.add_tag_at("id-a", String::from("Work"), "t1").unwrap();
    s.add_tag_at("id-a", String::from("Play"), "t1").unwrap();
    s.link_notes_at("id-a", "id-t", "t1").unwrap();
    s.link_notes_at("id-a", "ghost", "t1").unwrap();
    let latest = s.get_note(&n.id).unwrap();
    let md = s.export_note_to_markdown(&latest);
    let expected = "# Alpha\n\n\
                    ---\n\
                    **ID:** id-a\n\
                    **Created:** t1\n\
                    **Updated:** t1\n\
                    **Tags:** Work, Play\n\
                    **Links:** [[Target]]\n\
                    ---\n\n\
                    body text\n";
    assert_eq!(md, expected);
}

#[test]
fn markdown_without_tags_or_links() {
    let mut s = NoteService::new(String::from("/tmp/kb"));
    let n = s.create_note_at("Bare", "just content", String::from("id-b"), "t1");
    let md = s.export_note_to_markdown(&n);
    let expected = "# Bare\n\n\
                    ---\n\
                    **ID:** id-b\n\
                    **Created:** t1\n\
                    **Updated:** t1\n\
                    ---\n\n\
                    just content\n";
    assert_eq!(md, expected);
}
