use jjnotes::codec::{parse_note, serialize_note};
use jjnotes::note::Note;

fn sample_note() -> Note {
    Note {
        id: String::from("abc123"),
        title: String::from("Alpha"),
        content: String::from("Alpha\nbody"),
        links: vec![String::from("id1"), String::from("id2")],
        tags: vec![String::from("Work"), String::from("home")],
        created_at: String::from("2024-01-02T03:04:05+00:00"),
        updated_at: String::from("2024-01-02T03:04:06+00:00"),
    }
}

fn assert_same(a: &Note, b: &Note) {
    assert_eq!(a.id, b.id);
    assert_eq!(a.title, b.title);
    assert_eq!(a.content, b.content);
    assert_eq!(a.links, b.links);
    assert_eq!(a.tags, b.tags);
    assert_eq!(a.created_at, b.created_at);
    assert_eq!(a.updated_at, b.updated_at);
}

#[test]
fn round_trip_plain() {
    let n = sample_note();
    let text = serialize_note(&n);
    let back = parse_note(&text).expect("round trip");
    assert_same(&n, &back);
}

#[test]
fn round_trip_special_characters() {
    let mut n = sample_note();
    n.title = String::from("Quote \" and \\ backslash");
    n.content = String::from("line1\nline2\ttabbed\rreturn \u{263a} unicode");
    n.tags = vec![String::from("with \"quotes\"")];
    n.links = vec![];
    let text = serialize_note(&n);
    let back = parse_note(&text).expect("round trip");
    assert_same(&n, &back);
}

#[test]
fn round_trip_empty_fields() {
    let n = Note {
        id: String::new(),
        title: String::new(),
        content: String::new(),
        links: vec![],
        tags: vec![],
        created_at: String::new(),
        updated_at: String::new(),
    };
    let text = serialize_note(&n);
    assert_eq!(
        text,
        "{\"id\":\"\",\"title\":\"\",\"content\":\"\",\"links\":[],\"tags\":[],\"created_at\":\"\",\"updated_at\":\"\"}"
    );
    let back = parse_note(&text).expect("round trip");
    assert_same(&n, &back);
}

#[test]
fn serialized_form_is_exact() {
    let n = Note {
        id: String::from("i"),
        title: String::from("t"),
        content: String::from("a\nb"),
        links: vec![String::from("x")],
        tags: vec![String::from("p"), String::from("q")],
        created_at: String::from("c"),
        updated_at: String::from("u"),
    };
    assert_eq!(
        serialize_note(&n),
        "{\"id\":\"i\",\"title\":\"t\",\"content\":\"a\\nb\",\"links\":[\"x\"],\"tags\":[\"p\",\"q\"],\"created_at\":\"c\",\"updated_at\":\"u\"}"
    );
}

#[test]
fn parse_rejects_malformed_text() {
    assert!(parse_note("").is_none());
    assert!(parse_note("{}").is_none());
    assert!(parse_note("not json at all").is_none());
    // missing closing brace
    assert!(parse_note(
        "{\"id\":\"i\",\"title\":\"t\",\"content\":\"c\",\"links\":[],\"tags\":[],\"created_at\":\"c\",\"updated_at\":\"u\""
    )
    .is_none());
    // trailing garbage
    assert!(parse_note(
        "{\"id\":\"i\",\"title\":\"t\",\"content\":\"c\",\"links\":[],\"tags\":[],\"created_at\":\"c\",\"updated_at\":\"u\"}x"
    )
    .is_none());
    // unknown escape
    assert!(parse_note(
        "{\"id\":\"\\q\",\"title\":\"t\",\"content\":\"c\",\"links\":[],\"tags\":[],\"created_at\":\"c\",\"updated_at\":\"u\"}"
    )
    .is_none());
    // fields in the wrong order
    assert!(parse_note(
        "{\"title\":\"t\",\"id\":\"i\",\"content\":\"c\",\"links\":[],\"tags\":[],\"created_at\":\"c\",\"updated_at\":\"u\"}"
    )
    .is_none());
}

#[test]
fn parse_reads_escapes() {
    let text = "{\"id\":\"a\",\"title\":\"x\\\"y\\\\z\",\"content\":\"l1\\nl2\\tl3\\rl4\",\"links\":[],\"tags\":[],\"created_at\":\"c\",\"updated_at\":\"u\"}";
    let n = parse_note(text).expect("parse");
    assert_eq!(n.title, "x\"y\\z");
    assert_eq!(n.content, "l1\nl2\tl3\rl4");
}
