//! The engine's cross-cutting guarantees, proved once over the
//! specification functions that the public contracts use.  The round-trip
//! guarantee of the file format lives beside the codec; the full-corpus
//! behaviour of an empty tag query beside the search.

use vstd::prelude::*;
use crate::fold::lower_of;
use crate::note::{
    add_link_spec, add_tag_spec, duplicate_of, tag_present, with_content, NoteView,
};
use crate::service::{backlinks_sel, distinct_ids, has_note, remove_id};
use crate::strutil::{lex_le, lemma_lex_le_refl};

verus! {

/// How many stored tags match `tag` in lower case.
pub open spec fn tag_match_count(tags: Seq<Seq<char>>, tag: Seq<char>) -> int
    decreases tags.len(),
{
    if tags.len() == 0 {
        0
    } else {
        (if lower_of(tags[0]) == lower_of(tag) {
            1int
        } else {
            0int
        }) + tag_match_count(tags.drop_first(), tag)
    }
}

proof fn lemma_tag_count_push(p: Seq<Seq<char>>, x: Seq<char>, tag: Seq<char>)
    ensures
        tag_match_count(p.push(x), tag) == tag_match_count(p, tag) + (if lower_of(x) == lower_of(
            tag,
        ) {
            1int
        } else {
            0int
        }),
    decreases p.len(),
{
    let q = p.push(x);
    assert(tag_match_count(q, tag) == (if lower_of(q[0]) == lower_of(tag) {
        1int
    } else {
        0int
    }) + tag_match_count(q.drop_first(), tag));
    if p.len() == 0 {
        assert(q[0] == x);
        assert(q.drop_first() =~= Seq::<Seq<char>>::empty());
        assert(tag_match_count(q.drop_first(), tag) == 0);
        assert(tag_match_count(p, tag) == 0);
    } else {
        assert(q[0] == p[0]);
        assert(q.drop_first() =~= p.drop_first().push(x));
        lemma_tag_count_push(p.drop_first(), x, tag);
        assert(tag_match_count(p, tag) == (if lower_of(p[0]) == lower_of(tag) {
            1int
        } else {
            0int
        }) + tag_match_count(p.drop_first(), tag));
    }
}

proof fn lemma_tag_count_zero(tags: Seq<Seq<char>>, tag: Seq<char>)
    ensures
        (tag_match_count(tags, tag) == 0) <==> !tag_present(tags, tag),
        tag_match_count(tags, tag) >= 0,
    decreases tags.len(),
{
    if tags.len() == 0 {
    } else {
        lemma_tag_count_zero(tags.drop_first(), tag);
        if lower_of(tags[0]) == lower_of(tag) {
            assert(tag_present(tags, tag));
        } else {
            if tag_present(tags, tag) {
                let w = choose|i: int|
                    0 <= i < tags.len() && lower_of(#[trigger] tags[i]) == lower_of(tag);
                assert(w > 0);
                assert(tags.drop_first()[w - 1] == tags[w]);
                assert(tag_present(tags.drop_first(), tag));
            }
            if tag_present(tags.drop_first(), tag) {
                let w = choose|i: int|
                    0 <= i < tags.drop_first().len() && lower_of(#[trigger] tags.drop_first()[i])
                        == lower_of(tag);
                assert(tags.drop_first()[w] == tags[w + 1]);
                assert(tag_present(tags, tag));
            }
        }
    }
}

/// An element is in a joined sequence exactly when it is in one part.
proof fn lemma_concat_contains<A>(x: Seq<A>, y: Seq<A>, e: A)
    ensures
        (x + y).contains(e) <==> x.contains(e) || y.contains(e),
{
    if (x + y).contains(e) {
        let i = choose|i: int| 0 <= i < (x + y).len() && (x + y)[i] == e;
        if i < x.len() {
            assert(x[i] == e);
        } else {
            assert(y[i - x.len()] == e);
        }
    }
    if x.contains(e) {
        let i = choose|i: int| 0 <= i < x.len() && x[i] == e;
        assert((x + y)[i] == e);
    }
    if y.contains(e) {
        let i = choose|i: int| 0 <= i < y.len() && y[i] == e;
        assert((x + y)[x.len() + i] == e);
    }
}

/// Backlink symmetry: a note `b` of the corpus stands among the backlinks
/// of an id exactly when `b`'s own links carry that id.
pub proof fn lemma_backlink_symmetry(s: Seq<NoteView>, a_id: Seq<char>, b: NoteView)
    ensures
        backlinks_sel(s, a_id).contains(b) ==> b.links.contains(a_id),
        s.contains(b) && b.links.contains(a_id) ==> backlinks_sel(s, a_id).contains(b),
        backlinks_sel(s, a_id).contains(b) ==> s.contains(b),
    decreases s.len(),
{
    if s.len() == 0 {
    } else {
        let t = s.drop_first();
        lemma_backlink_symmetry(t, a_id, b);
        let h = (if s[0].links.contains(a_id) {
            seq![s[0]]
        } else {
            Seq::<NoteView>::empty()
        });
        lemma_concat_contains(h, backlinks_sel(t, a_id), b);
        if h.contains(b) {
            assert(b == s[0]);
            assert(s.contains(b)) by {
                assert(s[0] == b);
            }
        }
        if t.contains(b) {
            let i = choose|i: int| 0 <= i < t.len() && t[i] == b;
            assert(s[i + 1] == b);
        }
        if s.contains(b) && b.links.contains(a_id) {
            let i = choose|i: int| 0 <= i < s.len() && s[i] == b;
            if i == 0 {
                assert(h[0] == b);
            } else {
                assert(t[i - 1] == b);
            }
        }
    }
}

/// Identity immutability: a content update, a tag addition and a link
/// addition keep `id` and `created_at`, and never move `updated_at`
/// backwards when the supplied time is no earlier than the stored one.
pub proof fn lemma_identity_immutable(
    v: NoteView,
    content: Seq<char>,
    tag: Seq<char>,
    target: Seq<char>,
    now: Seq<char>,
)
    ensures
        with_content(v, content, now).id == v.id,
        with_content(v, content, now).created_at == v.created_at,
        add_tag_spec(v, tag, now).id == v.id,
        add_tag_spec(v, tag, now).created_at == v.created_at,
        add_link_spec(v, target, now).id == v.id,
        add_link_spec(v, target, now).created_at == v.created_at,
        lex_le(v.updated_at, now) ==> lex_le(
            v.updated_at,
            with_content(v, content, now).updated_at,
        ),
        lex_le(v.updated_at, now) ==> lex_le(v.updated_at, add_tag_spec(v, tag, now).updated_at),
        lex_le(v.updated_at, now) ==> lex_le(
            v.updated_at,
            add_link_spec(v, target, now).updated_at,
        ),
{
    lemma_lex_le_refl(v.updated_at);
}

/// Idempotent tag addition: a second addition of the same tag, in any
/// casing, changes nothing; and on a note that did not carry the tag,
/// exactly one entry results, spelled as first added.
pub proof fn lemma_tag_add_idempotent(
    v: NoteView,
    t1: Seq<char>,
    t2: Seq<char>,
    n1: Seq<char>,
    n2: Seq<char>,
)
    ensures
        lower_of(t1) == lower_of(t2) ==> add_tag_spec(add_tag_spec(v, t1, n1), t2, n2)
            == add_tag_spec(v, t1, n1),
        lower_of(t1) == lower_of(t2) && !tag_present(v.tags, t1) ==> tag_match_count(
            add_tag_spec(add_tag_spec(v, t1, n1), t2, n2).tags,
            t2,
        ) == 1,
        lower_of(t1) == lower_of(t2) && !tag_present(v.tags, t1) ==> add_tag_spec(
            add_tag_spec(v, t1, n1),
            t2,
            n2,
        ).tags.last() == t1,
{
    if lower_of(t1) == lower_of(t2) {
        let w = add_tag_spec(v, t1, n1);
        if tag_present(v.tags, t1) {
            assert(w == v);
            let i = choose|i: int|
                0 <= i < v.tags.len() && lower_of(#[trigger] v.tags[i]) == lower_of(t1);
            assert(lower_of(v.tags[i]) == lower_of(t2));
            assert(tag_present(w.tags, t2));
            assert(add_tag_spec(w, t2, n2) == w);
        } else {
            assert(w.tags == v.tags.push(t1));
            assert(w.tags[v.tags.len() as int] == t1);
            assert(lower_of(w.tags[v.tags.len() as int]) == lower_of(t2));
            assert(tag_present(w.tags, t2));
            assert(add_tag_spec(w, t2, n2) == w);
            lemma_tag_count_push(v.tags, t1, t2);
            lemma_tag_count_eq(v.tags, t1, t2);
            lemma_tag_count_zero(v.tags, t1);
        }
    }
}

proof fn lemma_tag_count_eq(tags: Seq<Seq<char>>, t1: Seq<char>, t2: Seq<char>)
    requires
        lower_of(t1) == lower_of(t2),
    ensures
        tag_match_count(tags, t1) == tag_match_count(tags, t2),
    decreases tags.len(),
{
    if tags.len() > 0 {
        lemma_tag_count_eq(tags.drop_first(), t1, t2);
    }
}

/// Duplicate isolation: a duplicate carries the source's tags and
/// content, the prefixed title, the new identity, and no links.
pub proof fn lemma_duplicate_isolates(src: NoteView, new_id: Seq<char>, now: Seq<char>)
    ensures
        duplicate_of(src, new_id, now).tags == src.tags,
        duplicate_of(src, new_id, now).links.len() == 0,
        duplicate_of(src, new_id, now).title == "Copy of "@ + src.title,
        duplicate_of(src, new_id, now).id == new_id,
        duplicate_of(src, new_id, now).content == src.content,
        duplicate_of(src, new_id, now).created_at == duplicate_of(src, new_id, now).updated_at,
{
}

/// Deletion leaves no note of the deleted id behind (ids being unique),
/// keeps every other note, and invents none.
pub proof fn lemma_delete_then_absent(s: Seq<NoteView>, id: Seq<char>)
    ensures
        distinct_ids(s) ==> !has_note(remove_id(s, id), id),
        forall|x: NoteView| #[trigger] remove_id(s, id).contains(x) ==> s.contains(x),
        forall|x: NoteView|
            s.contains(x) && (#[trigger] x.id) != id ==> remove_id(s, id).contains(x),
    decreases s.len(),
{
    if s.len() == 0 {
    } else {
        let t = s.drop_first();
        lemma_delete_then_absent(t, id);
        if s[0].id == id {
            // the head is removed and the tail remains
            assert(remove_id(s, id) == t);
            if distinct_ids(s) {
                assert forall|k: int| 0 <= k < t.len() implies (#[trigger] t[k]).id != id by {
                    assert(t[k] == s[k + 1]);
                    assert(s[0].id != s[k + 1].id);
                }
                if has_note(t, id) {
                    let w = choose|i: int| 0 <= i < t.len() && (#[trigger] t[i]).id == id;
                    assert(t[w].id != id);
                }
            }
            assert forall|x: NoteView|
                s.contains(x) && (#[trigger] x.id) != id implies remove_id(s, id).contains(x) by {
                let i = choose|i: int| 0 <= i < s.len() && s[i] == x;
                assert(i > 0);
                assert(t[i - 1] == x);
            }
        } else {
            let rest = remove_id(t, id);
            assert(remove_id(s, id) == seq![s[0]] + rest);
            if distinct_ids(s) {
                assert forall|i: int, j: int|
                    #![trigger t[i].id, t[j].id]
                    0 <= i < j < t.len() implies t[i].id != t[j].id by {
                    assert(t[i] == s[i + 1] && t[j] == s[j + 1]);
                    assert(s[i + 1].id != s[j + 1].id);
                }
                assert(distinct_ids(t));
                if has_note(seq![s[0]] + rest, id) {
                    let w = choose|i: int|
                        0 <= i < (seq![s[0]] + rest).len() && (#[trigger] (seq![s[0]] + rest)[i]).id
                            == id;
                    if w == 0 {
                        assert(s[0].id == id);
                    } else {
                        assert(rest[w - 1].id == id);
                        assert(rest.contains(rest[w - 1]));
                        assert(has_note(rest, id)) by {
                            assert(0 <= w - 1 < rest.len() && rest[w - 1].id == id);
                        }
                    }
                }
            }
            assert forall|x: NoteView|
                #[trigger] remove_id(s, id).contains(x) implies s.contains(x) by {
                lemma_concat_contains(seq![s[0]], rest, x);
                if seq![s[0]].contains(x) {
                    assert(s[0] == x);
                    assert(s.contains(x)) by {
                        assert(s[0] == x);
                    }
                } else {
                    assert(rest.contains(x));
                    assert(t.contains(x));
                }
            }
            assert forall|x: NoteView|
                s.contains(x) && (#[trigger] x.id) != id implies remove_id(s, id).contains(x) by {
                let i = choose|i: int| 0 <= i < s.len() && s[i] == x;
                if i == 0 {
                    assert((seq![s[0]] + rest)[0] == x);
                } else {
                    assert(t[i - 1] == x);
                    assert(t.contains(x)) by {
                        assert(t[i - 1] == x);
                    }
                    assert(rest.contains(x));
                    let j = choose|j: int| 0 <= j < rest.len() && rest[j] == x;
                    assert((seq![s[0]] + rest)[j + 1] == x);
                }
            }
        }
    }
}

} // verus!
