//! The note file format: a JSON object with the seven note fields, written
//! in one canonical shape.  Serialisation and parsing are both specified as
//! total functions over character sequences, and parsing a serialised note
//! provably returns the note unchanged.
//!
//! Inside quoted strings, the quote, the backslash, and the newline,
//! carriage-return and tab characters are escaped with a backslash; every
//! other character stands for itself.

use vstd::prelude::*;
use vstd::string::StrSliceExecFns;
use crate::note::{Note, NoteView};
use crate::strutil::{chars_of, chars_to_string, sub_chars};

verus! {

/// How one character appears inside a quoted string.
pub open spec fn esc_char(c: char) -> Seq<char> {
    if c == '"' {
        seq!['\\', '"']
    } else if c == '\\' {
        seq!['\\', '\\']
    } else if c == '\n' {
        seq!['\\', 'n']
    } else if c == '\r' {
        seq!['\\', 'r']
    } else if c == '\t' {
        seq!['\\', 't']
    } else {
        seq![c]
    }
}

/// How a whole string appears inside quotes.
pub open spec fn esc_str(s: Seq<char>) -> Seq<char>
    decreases s.len(),
{
    if s.len() == 0 {
        Seq::empty()
    } else {
        esc_char(s[0]) + esc_str(s.drop_first())
    }
}

/// A string as it appears in the file: quoted and escaped.
pub open spec fn quoted(s: Seq<char>) -> Seq<char> {
    seq!['"'] + esc_str(s) + seq!['"']
}

/// The items of a string array, separated by commas.
pub open spec fn items_of(xs: Seq<Seq<char>>) -> Seq<char>
    decreases xs.len(),
{
    if xs.len() == 0 {
        Seq::empty()
    } else if xs.len() == 1 {
        quoted(xs[0])
    } else {
        quoted(xs[0]) + seq![','] + items_of(xs.drop_first())
    }
}

/// A string array as it appears in the file.
pub open spec fn arr_of(xs: Seq<Seq<char>>) -> Seq<char> {
    seq!['['] + items_of(xs) + seq![']']
}

/// The serialised form of a note.
pub open spec fn json_of_note(v: NoteView) -> Seq<char> {
    "{\"id\":"@ + quoted(v.id) + ",\"title\":"@ + quoted(v.title) + ",\"content\":"@ + quoted(
        v.content,
    ) + ",\"links\":"@ + arr_of(v.links) + ",\"tags\":"@ + arr_of(v.tags) + ",\"created_at\":"@
        + quoted(v.created_at) + ",\"updated_at\":"@ + quoted(v.updated_at) + "}"@
}

/// The index of the closing quote: the first `"` at or after `j` that is
/// not consumed by a preceding backslash.
pub open spec fn scan_quote(s: Seq<char>, j: int) -> Option<int>
    decreases s.len() - j,
{
    if j < 0 || j >= s.len() {
        None
    } else if s[j] == '"' {
        Some(j)
    } else if s[j] == '\\' {
        if j + 2 <= s.len() {
            scan_quote(s, j + 2)
        } else {
            None
        }
    } else {
        scan_quote(s, j + 1)
    }
}

/// Unescaping of a string body, one escape at a time; `None` on a stray
/// backslash or an unknown escape.
pub open spec fn unesc_go(b: Seq<char>, j: int, acc: Seq<char>) -> Option<Seq<char>>
    decreases b.len() - j,
{
    if j < 0 || j > b.len() {
        None
    } else if j == b.len() {
        Some(acc)
    } else if b[j] == '\\' {
        if j + 1 < b.len() {
            let e = b[j + 1];
            if e == '"' {
                unesc_go(b, j + 2, acc.push('"'))
            } else if e == '\\' {
                unesc_go(b, j + 2, acc.push('\\'))
            } else if e == 'n' {
                unesc_go(b, j + 2, acc.push('\n'))
            } else if e == 'r' {
                unesc_go(b, j + 2, acc.push('\r'))
            } else if e == 't' {
                unesc_go(b, j + 2, acc.push('\t'))
            } else {
                None
            }
        } else {
            None
        }
    } else {
        unesc_go(b, j + 1, acc.push(b[j]))
    }
}

/// A quoted string starting at `i`: the parsed value and the index just
/// past the closing quote.
pub open spec fn parse_qstr(s: Seq<char>, i: int) -> Option<(Seq<char>, int)> {
    if 0 <= i < s.len() && s[i] == '"' {
        match scan_quote(s, i + 1) {
            Some(e) => if e <= s.len() {
                match unesc_go(s.subrange(i + 1, e), 0, Seq::empty()) {
                    Some(t) => Some((t, e + 1)),
                    None => None,
                }
            } else {
                None
            },
            None => None,
        }
    } else {
        None
    }
}

/// A fixed piece of punctuation at `i`: the index just past it.
pub open spec fn expect_lit(s: Seq<char>, i: int, lit: Seq<char>) -> Option<int> {
    if 0 <= i && i + lit.len() <= s.len() && s.subrange(i, i + lit.len() as int) == lit {
        Some(i + lit.len() as int)
    } else {
        None
    }
}

/// One or more comma-separated quoted strings, then `]`.
pub open spec fn parse_items(s: Seq<char>, i: int, acc: Seq<Seq<char>>) -> Option<
    (Seq<Seq<char>>, int),
>
    decreases s.len() - i,
{
    match parse_qstr(s, i) {
        Some((t, j)) => if j < s.len() && s[j] == ',' {
            if i < j + 1 {
                parse_items(s, j + 1, acc.push(t))
            } else {
                None
            }
        } else if j < s.len() && s[j] == ']' {
            Some((acc.push(t), j + 1))
        } else {
            None
        },
        None => None,
    }
}

/// A string array starting at `i`.
pub open spec fn parse_list(s: Seq<char>, i: int) -> Option<(Seq<Seq<char>>, int)> {
    if 0 <= i < s.len() && s[i] == '[' {
        if i + 1 < s.len() && s[i + 1] == ']' {
            Some((Seq::empty(), i + 2))
        } else {
            parse_items(s, i + 1, Seq::empty())
        }
    } else {
        None
    }
}

/// The parse of a whole note file; `None` is a corrupt file.
pub open spec fn parse_note_spec(s: Seq<char>) -> Option<NoteView> {
    match expect_lit(s, 0, "{\"id\":"@) {
        Some(i1) => match parse_qstr(s, i1) {
            Some((id, i2)) => match expect_lit(s, i2, ",\"title\":"@) {
                Some(i3) => match parse_qstr(s, i3) {
                    Some((title, i4)) => match expect_lit(s, i4, ",\"content\":"@) {
                        Some(i5) => match parse_qstr(s, i5) {
                            Some((content, i6)) => match expect_lit(s, i6, ",\"links\":"@) {
                                Some(i7) => match parse_list(s, i7) {
                                    Some((links, i8)) => match expect_lit(s, i8, ",\"tags\":"@) {
                                        Some(i9) => match parse_list(s, i9) {
                                            Some((tags, i10)) => match expect_lit(
                                                s,
                                                i10,
                                                ",\"created_at\":"@,
                                            ) {
                                                Some(i11) => match parse_qstr(s, i11) {
                                                    Some((created_at, i12)) => match expect_lit(
                                                        s,
                                                        i12,
                                                        ",\"updated_at\":"@,
                                                    ) {
                                                        Some(i13) => match parse_qstr(s, i13) {
                                                            Some((updated_at, i14)) => match expect_lit(
                                                                s,
                                                                i14,
                                                                "}"@,
                                                            ) {
                                                                Some(i15) => if i15 == s.len() {
                                                                    Some(
                                                                        NoteView {
                                                                            id,
                                                                            title,
                                                                            content,
                                                                            links,
                                                                            tags,
                                                                            created_at,
                                                                            updated_at,
                                                                        },
                                                                    )
                                                                } else {
                                                                    None
                                                                },
                                                                None => None,
                                                            },
                                                            None => None,
                                                        },
                                                        None => None,
                                                    },
                                                    None => None,
                                                },
                                                None => None,
                                            },
                                            None => None,
                                        },
                                        None => None,
                                    },
                                    None => None,
                                },
                                None => None,
                            },
                            None => None,
                        },
                        None => None,
                    },
                    None => None,
                },
                None => None,
            },
            None => None,
        },
        None => None,
    }
}

/// Escaping distributes over appending one character.
pub proof fn lemma_esc_str_push(s: Seq<char>, c: char)
    ensures
        esc_str(s.push(c)) == esc_str(s) + esc_char(c),
    decreases s.len(),
{
    if s.len() == 0 {
        assert(s.push(c)[0] == c);
        assert(s.push(c).drop_first() =~= Seq::<char>::empty());
        assert(esc_str(Seq::<char>::empty()) =~= Seq::<char>::empty());
        assert(esc_str(s.push(c)) == esc_char(c) + esc_str(Seq::<char>::empty()));
        assert(esc_char(c) + Seq::<char>::empty() =~= esc_char(c));
        assert(esc_str(s) + esc_char(c) =~= esc_char(c));
    } else {
        lemma_esc_str_push(s.drop_first(), c);
        assert(s.push(c).drop_first() =~= s.drop_first().push(c));
        assert(s.push(c)[0] == s[0]);
        assert(esc_str(s.push(c)) == esc_char(s[0]) + esc_str(s.drop_first().push(c)));
        assert(esc_char(s[0]) + (esc_str(s.drop_first()) + esc_char(c)) =~= (esc_char(s[0])
            + esc_str(s.drop_first())) + esc_char(c));
    }
}

/// The scan finds the quote that closes an escaped string.
proof fn lemma_scan_esc(s: Seq<char>, j: int, t: Seq<char>, rest: Seq<char>)
    requires
        0 <= j <= s.len(),
        s.subrange(j, s.len() as int) == esc_str(t) + seq!['"'] + rest,
    ensures
        scan_quote(s, j) == Some(j + esc_str(t).len()),
    decreases t.len(),
{
    let tail = s.subrange(j, s.len() as int);
    if t.len() == 0 {
        assert(tail[0] == '"');
        assert(s[j] == '"');
    } else {
        let e = esc_char(t[0]);
        let t2 = t.drop_first();
        assert(esc_str(t) == e + esc_str(t2));
        assert(tail =~= e + (esc_str(t2) + seq!['"'] + rest));
        if t[0] == '"' || t[0] == '\\' || t[0] == '\n' || t[0] == '\r' || t[0] == '\t' {
            assert(e.len() == 2 && e[0] == '\\');
            assert(s[j] == tail[0] && tail[0] == '\\');
            assert(j + 2 <= s.len());
            assert(s.subrange(j + 2, s.len() as int) =~= tail.subrange(2, tail.len() as int));
            assert(tail.subrange(2, tail.len() as int) =~= esc_str(t2) + seq!['"'] + rest);
            lemma_scan_esc(s, j + 2, t2, rest);
        } else {
            assert(e.len() == 1 && e[0] == t[0]);
            assert(s[j] == tail[0] && tail[0] == t[0]);
            assert(s[j] != '"' && s[j] != '\\');
            assert(s.subrange(j + 1, s.len() as int) =~= tail.subrange(1, tail.len() as int));
            assert(tail.subrange(1, tail.len() as int) =~= esc_str(t2) + seq!['"'] + rest);
            lemma_scan_esc(s, j + 1, t2, rest);
        }
    }
}

/// Unescaping undoes escaping.
proof fn lemma_unesc_esc(b: Seq<char>, j: int, acc: Seq<char>, t: Seq<char>)
    requires
        0 <= j <= b.len(),
        b.subrange(j, b.len() as int) == esc_str(t),
    ensures
        unesc_go(b, j, acc) == Some(acc + t),
    decreases t.len(),
{
    let tail = b.subrange(j, b.len() as int);
    if t.len() == 0 {
        assert(tail.len() == 0);
        assert(j == b.len());
        assert(acc + t =~= acc);
    } else {
        let e = esc_char(t[0]);
        let t2 = t.drop_first();
        assert(esc_str(t) == e + esc_str(t2));
        assert(tail =~= e + esc_str(t2));
        assert(acc + t =~= acc.push(t[0]) + t2);
        if t[0] == '"' || t[0] == '\\' || t[0] == '\n' || t[0] == '\r' || t[0] == '\t' {
            assert(e.len() == 2 && e[0] == '\\');
            assert(b[j] == tail[0] && tail[0] == '\\');
            assert(b[j + 1] == tail[1] && tail[1] == e[1]);
            assert(j + 2 <= b.len());
            assert(b.subrange(j + 2, b.len() as int) =~= tail.subrange(2, tail.len() as int));
            assert(tail.subrange(2, tail.len() as int) =~= esc_str(t2));
            lemma_unesc_esc(b, j + 2, acc.push(t[0]), t2);
        } else {
            assert(e.len() == 1 && e[0] == t[0]);
            assert(b[j] == tail[0] && tail[0] == t[0]);
            assert(b[j] != '\\');
            assert(b.subrange(j + 1, b.len() as int) =~= tail.subrange(1, tail.len() as int));
            assert(tail.subrange(1, tail.len() as int) =~= esc_str(t2));
            lemma_unesc_esc(b, j + 1, acc.push(t[0]), t2);
        }
    }
}

/// A quoted string parses back to the string it encodes.
proof fn lemma_parse_qstr(s: Seq<char>, i: int, t: Seq<char>, rest: Seq<char>)
    requires
        0 <= i <= s.len(),
        s.subrange(i, s.len() as int) == quoted(t) + rest,
    ensures
        parse_qstr(s, i) == Some((t, i + quoted(t).len())),
{
    let tail = s.subrange(i, s.len() as int);
    assert(tail.len() == quoted(t).len() + rest.len());
    assert(tail[0] == '"');
    assert(s[i] == '"');
    assert(s.subrange(i + 1, s.len() as int) =~= tail.subrange(1, tail.len() as int));
    assert(tail.subrange(1, tail.len() as int) =~= esc_str(t) + seq!['"'] + (rest));
    lemma_scan_esc(s, i + 1, t, rest);
    let e = i + 1 + esc_str(t).len();
    assert(scan_quote(s, i + 1) == Some(e));
    assert(e <= s.len());
    let body = s.subrange(i + 1, e);
    assert(body =~= esc_str(t));
    assert(body.subrange(0, body.len() as int) =~= body);
    lemma_unesc_esc(body, 0, Seq::empty(), t);
    assert(Seq::empty() + t =~= t);
    assert(e + 1 == i + quoted(t).len());
}

/// A fixed literal parses past itself.
proof fn lemma_expect_lit(s: Seq<char>, i: int, lit: Seq<char>, rest: Seq<char>)
    requires
        0 <= i <= s.len(),
        s.subrange(i, s.len() as int) == lit + rest,
    ensures
        expect_lit(s, i, lit) == Some(i + lit.len() as int),
{
    let tail = s.subrange(i, s.len() as int);
    assert(tail.len() == (lit + rest).len());
    assert((lit + rest).len() == lit.len() + rest.len());
    assert(i + lit.len() <= s.len());
    assert(s.subrange(i, i + lit.len() as int) =~= tail.subrange(0, lit.len() as int));
    assert(tail.subrange(0, lit.len() as int) =~= lit);
}

/// The items of a non-empty array parse back to its strings.
proof fn lemma_parse_items(s: Seq<char>, i: int, acc: Seq<Seq<char>>, xs: Seq<Seq<char>>, rest: Seq<char>)
    requires
        0 <= i <= s.len(),
        xs.len() > 0,
        s.subrange(i, s.len() as int) == items_of(xs) + seq![']'] + rest,
    ensures
        parse_items(s, i, acc) == Some((acc + xs, i + items_of(xs).len() + 1)),
    decreases xs.len(),
{
    let tail = s.subrange(i, s.len() as int);
    if xs.len() == 1 {
        assert(items_of(xs) == quoted(xs[0]));
        assert(tail =~= quoted(xs[0]) + (seq![']'] + rest));
        lemma_parse_qstr(s, i, xs[0], seq![']'] + rest);
        let j = i + quoted(xs[0]).len();
        assert(parse_qstr(s, i) == Some((xs[0], j)));
        assert(j < s.len());
        assert(s[j] == tail[quoted(xs[0]).len() as int]);
        assert(tail[quoted(xs[0]).len() as int] == ']');
        assert(quoted(xs[0])[0] == '"');
        assert(s[j] != ',');
        assert(acc.push(xs[0]) =~= acc + xs);
    } else {
        let x0 = xs[0];
        let xs2 = xs.drop_first();
        assert(items_of(xs) == quoted(x0) + seq![','] + items_of(xs2));
        assert(tail =~= quoted(x0) + (seq![','] + items_of(xs2) + seq![']'] + rest));
        lemma_parse_qstr(s, i, x0, seq![','] + items_of(xs2) + seq![']'] + rest);
        let j = i + quoted(x0).len();
        assert(parse_qstr(s, i) == Some((x0, j)));
        assert(j < s.len());
        assert(s[j] == tail[quoted(x0).len() as int]);
        assert(tail[quoted(x0).len() as int] == ',');
        assert(s.subrange(j + 1, s.len() as int) =~= tail.subrange(
            quoted(x0).len() + 1 as int,
            tail.len() as int,
        ));
        assert(tail.subrange(quoted(x0).len() + 1 as int, tail.len() as int) =~= items_of(xs2)
            + seq![']'] + rest);
        lemma_parse_items(s, j + 1, acc.push(x0), xs2, rest);
        assert(acc.push(x0) + xs2 =~= acc + xs);
        assert(j + 1 + items_of(xs2).len() + 1 == i + items_of(xs).len() + 1);
    }
}

/// An array parses back to its strings.
proof fn lemma_parse_list(s: Seq<char>, i: int, xs: Seq<Seq<char>>, rest: Seq<char>)
    requires
        0 <= i <= s.len(),
        s.subrange(i, s.len() as int) == arr_of(xs) + rest,
    ensures
        parse_list(s, i) == Some((xs, i + arr_of(xs).len())),
{
    let tail = s.subrange(i, s.len() as int);
    let a = arr_of(xs);
    assert(tail.len() == (a + rest).len());
    assert((a + rest).len() == a.len() + rest.len());
    assert(a.len() >= 2);
    assert(a[0] == (seq!['['] + items_of(xs))[0]);
    assert(a[0] == '[');
    assert(tail[0] == (a + rest)[0]);
    assert(tail[0] == '[');
    assert(s[i] == tail[0]);
    if xs.len() == 0 {
        assert(a =~= seq!['[', ']']);
        assert(tail[1] == (a + rest)[1]);
        assert(tail[1] == ']');
        assert(s[i + 1] == tail[1]);
    } else {
        assert(items_of(xs).len() > 0 && items_of(xs)[0] == '"') by {
            assert(quoted(xs[0])[0] == '"');
            if xs.len() == 1 {
                assert(items_of(xs) == quoted(xs[0]));
            } else {
                assert(items_of(xs) == quoted(xs[0]) + seq![','] + items_of(xs.drop_first()));
                assert(items_of(xs)[0] == (quoted(xs[0]) + seq![','])[0]);
            }
        }
        assert(a[1] == (seq!['['] + items_of(xs))[1]);
        assert(a[1] == items_of(xs)[0]);
        assert(tail[1] == (a + rest)[1]);
        assert(s[i + 1] == tail[1]);
        assert(s[i + 1] == '"');
        assert(s.subrange(i + 1, s.len() as int) =~= tail.subrange(1, tail.len() as int));
        assert(tail.subrange(1, tail.len() as int) =~= items_of(xs) + seq![']'] + rest);
        lemma_parse_items(s, i + 1, Seq::empty(), xs, rest);
        assert(Seq::empty() + xs =~= xs);
    }
}


/// Stepping past a leading piece of a suffix of `s`.
proof fn lemma_step(s: Seq<char>, i: int, a: Seq<char>, b: Seq<char>)
    requires
        0 <= i <= s.len(),
        s.subrange(i, s.len() as int) == a + b,
    ensures
        i + a.len() <= s.len(),
        s.subrange(i + a.len() as int, s.len() as int) == b,
{
    let tail = s.subrange(i, s.len() as int);
    assert(tail.len() == (a + b).len());
    assert((a + b).len() == a.len() + b.len());
    assert(s.subrange(i + a.len() as int, s.len() as int) =~= b) by {
        assert forall|k: int|
            0 <= k < b.len() implies s.subrange(i + a.len() as int, s.len() as int)[k] == b[k] by {
            assert(s.subrange(i, s.len() as int)[a.len() + k] == (a + b)[a.len() + k]);
            assert((a + b)[a.len() + k] == b[k]);
            assert(s.subrange(i + a.len() as int, s.len() as int)[k] == s[i + a.len() + k]);
            assert(s.subrange(i, s.len() as int)[a.len() + k] == s[i + a.len() + k]);
        }
    }
}

/// The round trip: parsing a serialised note gives back exactly the note,
/// whatever its fields hold.  Stated over the specification functions; the
/// contracts of `serialize_note` and `parse_note` carry it to the
/// executable pair.
#[verifier::rlimit(100)]
#[verifier::spinoff_prover]
pub proof fn lemma_note_round_trip(v: NoteView)
    ensures
        parse_note_spec(json_of_note(v)) == Some(v),
{
    let s = json_of_note(v);
    let p1 = "{\"id\":"@;
    let p2 = quoted(v.id);
    let p3 = ",\"title\":"@;
    let p4 = quoted(v.title);
    let p5 = ",\"content\":"@;
    let p6 = quoted(v.content);
    let p7 = ",\"links\":"@;
    let p8 = arr_of(v.links);
    let p9 = ",\"tags\":"@;
    let p10 = arr_of(v.tags);
    let p11 = ",\"created_at\":"@;
    let p12 = quoted(v.created_at);
    let p13 = ",\"updated_at\":"@;
    let p14 = quoted(v.updated_at);
    let p15 = "}"@;
    let b2 = p1 + p2;
    let b3 = b2 + p3;
    let b4 = b3 + p4;
    let b5 = b4 + p5;
    let b6 = b5 + p6;
    let b7 = b6 + p7;
    let b8 = b7 + p8;
    let b9 = b8 + p9;
    let b10 = b9 + p10;
    let b11 = b10 + p11;
    let b12 = b11 + p12;
    let b13 = b12 + p13;
    let b14 = b13 + p14;
    let b15 = b14 + p15;
    assert(s == b15);
    let r15 = p15;
    let r14 = p14 + r15;
    let r13 = p13 + r14;
    let r12 = p12 + r13;
    let r11 = p11 + r12;
    let r10 = p10 + r11;
    let r9 = p9 + r10;
    let r8 = p8 + r9;
    let r7 = p7 + r8;
    let r6 = p6 + r7;
    let r5 = p5 + r6;
    let r4 = p4 + r5;
    let r3 = p3 + r4;
    let r2 = p2 + r3;
    let r1 = p1 + r2;
    assert(b14 + p15 =~= b13 + r14);
    assert(b13 + r14 =~= b12 + r13);
    assert(b12 + r13 =~= b11 + r12);
    assert(b11 + r12 =~= b10 + r11);
    assert(b10 + r11 =~= b9 + r10);
    assert(b9 + r10 =~= b8 + r9);
    assert(b8 + r9 =~= b7 + r8);
    assert(b7 + r8 =~= b6 + r7);
    assert(b6 + r7 =~= b5 + r6);
    assert(b5 + r6 =~= b4 + r5);
    assert(b4 + r5 =~= b3 + r4);
    assert(b3 + r4 =~= b2 + r3);
    assert(b2 + r3 =~= p1 + r2);
    assert(s == r1);
    assert(s.subrange(0, s.len() as int) =~= s);

    lemma_expect_lit(s, 0, p1, r2);
    lemma_step(s, 0, p1, r2);
    let i1 = 0 + p1.len() as int;

    lemma_parse_qstr(s, i1, v.id, r3);
    lemma_step(s, i1, p2, r3);
    let i2 = i1 + p2.len() as int;
    assert(i2 == i1 + quoted(v.id).len());

    lemma_expect_lit(s, i2, p3, r4);
    lemma_step(s, i2, p3, r4);
    let i3 = i2 + p3.len() as int;

    lemma_parse_qstr(s, i3, v.title, r5);
    lemma_step(s, i3, p4, r5);
    let i4 = i3 + p4.len() as int;
    assert(i4 == i3 + quoted(v.title).len());

    lemma_expect_lit(s, i4, p5, r6);
    lemma_step(s, i4, p5, r6);
    let i5 = i4 + p5.len() as int;

    lemma_parse_qstr(s, i5, v.content, r7);
    lemma_step(s, i5, p6, r7);
    let i6 = i5 + p6.len() as int;
    assert(i6 == i5 + quoted(v.content).len());

    lemma_expect_lit(s, i6, p7, r8);
    lemma_step(s, i6, p7, r8);
    let i7 = i6 + p7.len() as int;

    lemma_parse_list(s, i7, v.links, r9);
    lemma_step(s, i7, p8, r9);
    let i8 = i7 + p8.len() as int;
    assert(i8 == i7 + arr_of(v.links).len());

    lemma_expect_lit(s, i8, p9, r10);
    lemma_step(s, i8, p9, r10);
    let i9 = i8 + p9.len() as int;

    lemma_parse_list(s, i9, v.tags, r11);
    lemma_step(s, i9, p10, r11);
    let i10 = i9 + p10.len() as int;
    assert(i10 == i9 + arr_of(v.tags).len());

    lemma_expect_lit(s, i10, p11, r12);
    lemma_step(s, i10, p11, r12);
    let i11 = i10 + p11.len() as int;

    lemma_parse_qstr(s, i11, v.created_at, r13);
    lemma_step(s, i11, p12, r13);
    let i12 = i11 + p12.len() as int;
    assert(i12 == i11 + quoted(v.created_at).len());

    lemma_expect_lit(s, i12, p13, r14);
    lemma_step(s, i12, p13, r14);
    let i13 = i12 + p13.len() as int;

    lemma_parse_qstr(s, i13, v.updated_at, r15);
    lemma_step(s, i13, p14, r15);
    let i14 = i13 + p14.len() as int;
    assert(i14 == i13 + quoted(v.updated_at).len());

    assert(s.subrange(i14, s.len() as int) == p15);
    assert(s.subrange(i14, s.len() as int) =~= p15 + Seq::<char>::empty());
    lemma_expect_lit(s, i14, p15, Seq::empty());
    lemma_step(s, i14, p15, Seq::empty());
    let i15 = i14 + p15.len() as int;
    assert(s.subrange(i15, s.len() as int).len() == 0);
    assert(i15 == s.len());
}

/// Appends the characters of `lit` to `out`.
fn push_lit(out: &mut Vec<char>, lit: &str)
    ensures
        final(out)@ == old(out)@ + lit@,
{
    let mut cv = chars_of(lit);
    out.append(&mut cv);
}

/// Appends the escaped form of `s` to `out`.
fn push_escaped(out: &mut Vec<char>, s: &str)
    ensures
        final(out)@ == old(out)@ + esc_str(s@),
{
    let n = s.unicode_len();
    let mut i: usize = 0;
    while i < n
        invariant
            n == s@.len(),
            i <= n,
            out@ =~= old(out)@ + esc_str(s@.subrange(0, i as int)),
        decreases n - i,
    {
        let c = s.get_char(i);
        if c == '"' {
            out.push('\\');
            out.push('"');
            proof {
                assert(esc_char(c) =~= seq!['\\', '"']);
            }
        } else if c == '\\' {
            out.push('\\');
            out.push('\\');
            proof {
                assert(esc_char(c) =~= seq!['\\', '\\']);
            }
        } else if c == '\n' {
            out.push('\\');
            out.push('n');
            proof {
                assert(esc_char(c) =~= seq!['\\', 'n']);
            }
        } else if c == '\r' {
            out.push('\\');
            out.push('r');
            proof {
                assert(esc_char(c) =~= seq!['\\', 'r']);
            }
        } else if c == '\t' {
            out.push('\\');
            out.push('t');
            proof {
                assert(esc_char(c) =~= seq!['\\', 't']);
            }
        } else {
            out.push(c);
            proof {
                assert(esc_char(c) =~= seq![c]);
            }
        }
        proof {
            lemma_esc_str_push(s@.subrange(0, i as int), s@[i as int]);
            assert(s@.subrange(0, i + 1 as int) =~= s@.subrange(0, i as int).push(s@[i as int]));
            assert(out@ =~= old(out)@ + esc_str(s@.subrange(0, i + 1 as int)));
        }
        i += 1;
    }
    proof {
        assert(s@.subrange(0, n as int) =~= s@);
    }
}

/// Appends the quoted form of `s` to `out`.
fn push_quoted(out: &mut Vec<char>, s: &str)
    ensures
        final(out)@ == old(out)@ + quoted(s@),
{
    out.push('"');
    push_escaped(out, s);
    out.push('"');
    proof {
        assert(out@ =~= old(out)@ + quoted(s@));
    }
}

/// `items_of` grows on the right one item at a time.
proof fn lemma_items_push(p: Seq<Seq<char>>, t: Seq<char>)
    ensures
        items_of(p.push(t)) == if p.len() == 0 {
            quoted(t)
        } else {
            items_of(p) + seq![','] + quoted(t)
        },
    decreases p.len(),
{
    let q = p.push(t);
    if p.len() == 0 {
        assert(q.len() == 1);
        assert(q[0] == t);
        assert(items_of(q) == quoted(t));
    } else if p.len() == 1 {
        assert(q.len() == 2);
        assert(q[0] == p[0]);
        assert(q.drop_first() =~= Seq::<Seq<char>>::empty().push(t));
        assert(q.drop_first().len() == 1);
        assert(q.drop_first()[0] == t);
        assert(items_of(q.drop_first()) == quoted(t));
        assert(items_of(q) == quoted(p[0]) + seq![','] + quoted(t));
        assert(items_of(p) == quoted(p[0]));
    } else {
        assert(q.len() == p.len() + 1);
        assert(q[0] == p[0]);
        assert(q.drop_first() =~= p.drop_first().push(t));
        lemma_items_push(p.drop_first(), t);
        assert(items_of(q) == quoted(p[0]) + seq![','] + items_of(p.drop_first().push(t)));
        assert(items_of(q) == quoted(p[0]) + seq![','] + (items_of(p.drop_first()) + seq![',']
            + quoted(t)));
        assert(items_of(p) == quoted(p[0]) + seq![','] + items_of(p.drop_first()));
        assert(quoted(p[0]) + seq![','] + (items_of(p.drop_first()) + seq![','] + quoted(t)) =~= (
        quoted(p[0]) + seq![','] + items_of(p.drop_first())) + seq![','] + quoted(t));
    }
}

/// Appends the array form of `xs` to `out`.
fn push_arr(out: &mut Vec<char>, xs: &Vec<String>)
    ensures
        final(out)@ == old(out)@ + arr_of(xs.deep_view()),
{
    out.push('[');
    let mut k: usize = 0;
    while k < xs.len()
        invariant
            k <= xs@.len(),
            xs.deep_view().len() == xs@.len(),
            out@ =~= old(out)@ + seq!['['] + items_of(xs.deep_view().subrange(0, k as int)),
        decreases xs@.len() - k,
    {
        if k > 0 {
            out.push(',');
        }
        push_quoted(out, xs[k].as_str());
        proof {
            let pre = xs.deep_view().subrange(0, k as int);
            lemma_items_push(pre, xs@[k as int]@);
            assert(xs.deep_view().subrange(0, k + 1 as int) =~= pre.push(xs@[k as int]@));
            if k == 0 {
                assert(pre.len() == 0);
                assert(out@ =~= old(out)@ + seq!['['] + items_of(
                    xs.deep_view().subrange(0, k + 1 as int),
                ));
            } else {
                assert(out@ =~= old(out)@ + seq!['['] + items_of(
                    xs.deep_view().subrange(0, k + 1 as int),
                ));
            }
        }
        k += 1;
    }
    out.push(']');
    proof {
        assert(xs.deep_view().subrange(0, xs.deep_view().len() as int) =~= xs.deep_view());
        assert(out@ =~= old(out)@ + arr_of(xs.deep_view()));
    }
}

/// Serialises a note into its file form.
pub fn serialize_note(n: &Note) -> (out: String)
    ensures
        out@ == json_of_note(n@),
{
    let mut v: Vec<char> = Vec::new();
    push_lit(&mut v, "{\"id\":");
    push_quoted(&mut v, n.id.as_str());
    push_lit(&mut v, ",\"title\":");
    push_quoted(&mut v, n.title.as_str());
    push_lit(&mut v, ",\"content\":");
    push_quoted(&mut v, n.content.as_str());
    push_lit(&mut v, ",\"links\":");
    push_arr(&mut v, &n.links);
    push_lit(&mut v, ",\"tags\":");
    push_arr(&mut v, &n.tags);
    push_lit(&mut v, ",\"created_at\":");
    push_quoted(&mut v, n.created_at.as_str());
    push_lit(&mut v, ",\"updated_at\":");
    push_quoted(&mut v, n.updated_at.as_str());
    push_lit(&mut v, "}");
    proof {
        assert(v@ =~= json_of_note(n@));
    }
    chars_to_string(&v)
}

/// Finds the closing quote from `j0` on.
fn scan_quote_exec(v: &Vec<char>, j0: usize) -> (r: Option<usize>)
    ensures
        match r {
            Some(e) => scan_quote(v@, j0 as int) == Some(e as int) && j0 <= e < v@.len(),
            None => scan_quote(v@, j0 as int) is None,
        },
{
    let n = v.len();
    let mut j: usize = j0;
    while j < n
        invariant
            n == v@.len(),
            j0 <= j,
            scan_quote(v@, j0 as int) == scan_quote(v@, j as int),
        decreases n - j,
    {
        if v[j] == '"' {
            return Some(j);
        }
        if v[j] == '\\' {
            if n - j >= 2 {
                j += 2;
            } else {
                return None;
            }
        } else {
            j += 1;
        }
    }
    None
}

/// Unescapes a string body.
fn unesc_exec(b: &Vec<char>) -> (r: Option<Vec<char>>)
    ensures
        match r {
            Some(t) => unesc_go(b@, 0, Seq::empty()) == Some(t@),
            None => unesc_go(b@, 0, Seq::empty()) is None,
        },
{
    let n = b.len();
    let mut acc: Vec<char> = Vec::new();
    let mut j: usize = 0;
    while j < n
        invariant
            n == b@.len(),
            j <= n,
            unesc_go(b@, 0, Seq::empty()) == unesc_go(b@, j as int, acc@),
        decreases n - j,
    {
        let c = b[j];
        if c == '\\' {
            if j + 1 < n {
                let e = b[j + 1];
                if e == '"' {
                    acc.push('"');
                } else if e == '\\' {
                    acc.push('\\');
                } else if e == 'n' {
                    acc.push('\n');
                } else if e == 'r' {
                    acc.push('\r');
                } else if e == 't' {
                    acc.push('\t');
                } else {
                    return None;
                }
                j += 2;
            } else {
                return None;
            }
        } else {
            acc.push(c);
            j += 1;
        }
    }
    Some(acc)
}

/// Parses a quoted string at `i`.
fn parse_qstr_exec(v: &Vec<char>, i: usize) -> (r: Option<(Vec<char>, usize)>)
    ensures
        match r {
            Some(p) => parse_qstr(v@, i as int) == Some((p.0@, p.1 as int)) && i < p.1 <= v@.len(),
            None => parse_qstr(v@, i as int) is None,
        },
{
    if i < v.len() && v[i] == '"' {
        match scan_quote_exec(v, i + 1) {
            Some(e) => {
                let body = sub_chars(v, i + 1, e);
                match unesc_exec(&body) {
                    Some(t) => Some((t, e + 1)),
                    None => None,
                }
            },
            None => None,
        }
    } else {
        None
    }
}

/// Matches the literal `lit` at `i`.
fn expect_lit_exec(v: &Vec<char>, i: usize, lit: &str) -> (r: Option<usize>)
    ensures
        match r {
            Some(j) => expect_lit(v@, i as int, lit@) == Some(j as int) && i <= j <= v@.len(),
            None => expect_lit(v@, i as int, lit@) is None,
        },
{
    let lv = chars_of(lit);
    let m = lv.len();
    let n = v.len();
    if i > n || n - i < m {
        return None;
    }
    let mut k: usize = 0;
    while k < m
        invariant
            m == lit@.len(),
            n == v@.len(),
            lv@ == lit@,
            i + m <= n,
            k <= m,
            forall|q: int| 0 <= q < k ==> v@[i + q] == lit@[q],
        decreases m - k,
    {
        if v[i + k] != lv[k] {
            proof {
                if v@.subrange(i as int, i + lit@.len() as int) == lit@ {
                    assert(v@.subrange(i as int, i + lit@.len() as int)[k as int]
                        == lit@[k as int]);
                    assert(false);
                }
            }
            return None;
        }
        k += 1;
    }
    proof {
        assert(v@.subrange(i as int, i + lit@.len() as int) =~= lit@);
    }
    Some(i + m)
}

/// Parses a string array at `i`.
#[verifier::loop_isolation(false)]
fn parse_list_exec(v: &Vec<char>, i: usize) -> (r: Option<(Vec<String>, usize)>)
    ensures
        match r {
            Some(p) => parse_list(v@, i as int) == Some((p.0.deep_view(), p.1 as int)) && i < p.1
                <= v@.len(),
            None => parse_list(v@, i as int) is None,
        },
{
    if !(i < v.len() && v[i] == '[') {
        return None;
    }
    if i + 1 < v.len() && v[i + 1] == ']' {
        let out: Vec<String> = Vec::new();
        proof {
            assert(out.deep_view() =~= Seq::<Seq<char>>::empty());
        }
        return Some((out, i + 2));
    }
    let mut acc: Vec<String> = Vec::new();
    let mut cur: usize = i + 1;
    proof {
        assert(acc.deep_view() =~= Seq::<Seq<char>>::empty());
    }
    loop
        invariant
            i + 1 <= cur <= v@.len(),
            parse_items(v@, i + 1 as int, Seq::empty()) == parse_items(
                v@,
                cur as int,
                acc.deep_view(),
            ),
        decreases v@.len() - cur,
    {
        let ghost acc0 = acc.deep_view();
        match parse_qstr_exec(v, cur) {
            Some(tj) => {
                let (t, j) = tj;
                if j < v.len() && v[j] == ',' {
                    acc.push(chars_to_string(&t));
                    proof {
                        assert(acc.deep_view() =~= acc0.push(t@));
                    }
                    cur = j + 1;
                } else if j < v.len() && v[j] == ']' {
                    acc.push(chars_to_string(&t));
                    proof {
                        assert(acc.deep_view() =~= acc0.push(t@));
                    }
                    return Some((acc, j + 1));
                } else {
                    return None;
                }
            },
            None => {
                return None;
            },
        }
    }
}

/// Parses a note from its file form.  `None` means the text is not a valid
/// note file; `parse_note_spec` says exactly which texts are.
pub fn parse_note(s: &str) -> (r: Option<Note>)
    ensures
        match r {
            Some(n) => parse_note_spec(s@) == Some(n@),
            None => parse_note_spec(s@) is None,
        },
{
    let v = chars_of(s);
    let i1 = match expect_lit_exec(&v, 0, "{\"id\":") {
        Some(j) => j,
        None => {
            return None;
        },
    };
    let (id, i2) = match parse_qstr_exec(&v, i1) {
        Some(p) => p,
        None => {
            return None;
        },
    };
    let i3 = match expect_lit_exec(&v, i2, ",\"title\":") {
        Some(j) => j,
        None => {
            return None;
        },
    };
    let (title, i4) = match parse_qstr_exec(&v, i3) {
        Some(p) => p,
        None => {
            return None;
        },
    };
    let i5 = match expect_lit_exec(&v, i4, ",\"content\":") {
        Some(j) => j,
        None => {
            return None;
        },
    };
    let (content, i6) = match parse_qstr_exec(&v, i5) {
        Some(p) => p,
        None => {
            return None;
        },
    };
    let i7 = match expect_lit_exec(&v, i6, ",\"links\":") {
        Some(j) => j,
        None => {
            return None;
        },
    };
    let (links, i8) = match parse_list_exec(&v, i7) {
        Some(p) => p,
        None => {
            return None;
        },
    };
    let i9 = match expect_lit_exec(&v, i8, ",\"tags\":") {
        Some(j) => j,
        None => {
            return None;
        },
    };
    let (tags, i10) = match parse_list_exec(&v, i9) {
        Some(p) => p,
        None => {
            return None;
        },
    };
    let i11 = match expect_lit_exec(&v, i10, ",\"created_at\":") {
        Some(j) => j,
        None => {
            return None;
        },
    };
    let (created_at, i12) = match parse_qstr_exec(&v, i11) {
        Some(p) => p,
        None => {
            return None;
        },
    };
    let i13 = match expect_lit_exec(&v, i12, ",\"updated_at\":") {
        Some(j) => j,
        None => {
            return None;
        },
    };
    let (updated_at, i14) = match parse_qstr_exec(&v, i13) {
        Some(p) => p,
        None => {
            return None;
        },
    };
    let i15 = match expect_lit_exec(&v, i14, "}") {
        Some(j) => j,
        None => {
            return None;
        },
    };
    if i15 != v.len() {
        return None;
    }
    let n = Note {
        id: chars_to_string(&id),
        title: chars_to_string(&title),
        content: chars_to_string(&content),
        links,
        tags,
        created_at: chars_to_string(&created_at),
        updated_at: chars_to_string(&updated_at),
    };
    Some(n)
}

} // verus!
