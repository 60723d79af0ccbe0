//! The note entity: the persisted unit of knowledge.

use vstd::prelude::*;
use crate::clock::now_rfc3339;
use crate::fold::lower_of;
use crate::ident::fresh_id;

verus! {

/// Mathematical model of a note: every field as a sequence of characters,
/// the two collections as sequences of such sequences.
pub ghost struct NoteView {
    pub id: Seq<char>,
    pub title: Seq<char>,
    pub content: Seq<char>,
    pub links: Seq<Seq<char>>,
    pub tags: Seq<Seq<char>>,
    pub created_at: Seq<char>,
    pub updated_at: Seq<char>,
}

/// A single note.  `links` holds the ids of the notes this note points to;
/// `tags` holds free-text labels.  The timestamps are sortable text in the
/// style of RFC 3339; `created_at` never changes after creation.
pub struct Note {
    pub id: String,
    pub title: String,
    pub content: String,
    pub links: Vec<String>,
    pub tags: Vec<String>,
    pub created_at: String,
    pub updated_at: String,
}

impl View for Note {
    type V = NoteView;

    open spec fn view(&self) -> NoteView {
        NoteView {
            id: self.id@,
            title: self.title@,
            content: self.content@,
            links: self.links.deep_view(),
            tags: self.tags.deep_view(),
            created_at: self.created_at@,
            updated_at: self.updated_at@,
        }
    }
}

impl Note {
    /// A fresh note: a unique id derived from the title and the clock, no
    /// links or tags yet, and both timestamps set to the same moment.
    pub fn new(title: String, content: String) -> (r: Note)
        ensures
            r@ == made_note(title@, content@, r@.id, r@.created_at),
            r@.id.len() == 32,
    {
        let id = fresh_id(title.as_str());
        let now = now_rfc3339();
        let r = Note {
            id,
            title,
            content,
            links: Vec::new(),
            tags: Vec::new(),
            created_at: now.clone(),
            updated_at: now,
        };
        proof {
            assert(r.links.deep_view() =~= Seq::<Seq<char>>::empty());
            assert(r.tags.deep_view() =~= Seq::<Seq<char>>::empty());
        }
        r
    }

    /// An exact copy; unlike a derived `Clone`, the relation between copy
    /// and original is part of the contract.
    pub fn duplicate_value(&self) -> (r: Note)
        ensures
            r@ == self@,
    {
        let r = Note {
            id: self.id.clone(),
            title: self.title.clone(),
            content: self.content.clone(),
            links: self.links.clone(),
            tags: self.tags.clone(),
            created_at: self.created_at.clone(),
            updated_at: self.updated_at.clone(),
        };
        proof {
            assert(r.links.deep_view() =~= self.links.deep_view());
            assert(r.tags.deep_view() =~= self.tags.deep_view());
        }
        r
    }
}

impl DeepView for Note {
    type V = NoteView;

    open spec fn deep_view(&self) -> NoteView {
        self.view()
    }
}

/// A note as creation builds it: no links, no tags, both timestamps equal.
pub open spec fn made_note(
    title: Seq<char>,
    content: Seq<char>,
    id: Seq<char>,
    now: Seq<char>,
) -> NoteView {
    NoteView {
        id,
        title,
        content,
        links: Seq::empty(),
        tags: Seq::empty(),
        created_at: now,
        updated_at: now,
    }
}

/// A note after a content update.
pub open spec fn with_content(v: NoteView, content: Seq<char>, now: Seq<char>) -> NoteView {
    NoteView { content, updated_at: now, ..v }
}

/// Some stored tag already matches `tag`, compared in lower case.
pub open spec fn tag_present(tags: Seq<Seq<char>>, tag: Seq<char>) -> bool {
    exists|i: int| 0 <= i < tags.len() && lower_of(#[trigger] tags[i]) == lower_of(tag)
}

/// A note after a tag addition: appended only when no casing of it is
/// already present; a no-op leaves even `updated_at` alone.
pub open spec fn add_tag_spec(v: NoteView, tag: Seq<char>, now: Seq<char>) -> NoteView {
    if tag_present(v.tags, tag) {
        v
    } else {
        NoteView { tags: v.tags.push(tag), updated_at: now, ..v }
    }
}

/// The stored tags that do not match `tag` in lower case, in order.
pub open spec fn keep_tags(tags: Seq<Seq<char>>, tag: Seq<char>) -> Seq<Seq<char>>
    decreases tags.len(),
{
    if tags.len() == 0 {
        Seq::empty()
    } else {
        (if lower_of(tags[0]) != lower_of(tag) {
            seq![tags[0]]
        } else {
            Seq::empty()
        }) + keep_tags(tags.drop_first(), tag)
    }
}

/// A note after a tag removal; `updated_at` moves even when nothing
/// matched.
pub open spec fn remove_tag_spec(v: NoteView, tag: Seq<char>, now: Seq<char>) -> NoteView {
    NoteView { tags: keep_tags(v.tags, tag), updated_at: now, ..v }
}

/// A note after a link addition: appended only when absent; a no-op
/// leaves even `updated_at` alone.
pub open spec fn add_link_spec(v: NoteView, target: Seq<char>, now: Seq<char>) -> NoteView {
    if v.links.contains(target) {
        v
    } else {
        NoteView { links: v.links.push(target), updated_at: now, ..v }
    }
}

/// The stored links other than `target`, in order.
pub open spec fn keep_links(links: Seq<Seq<char>>, target: Seq<char>) -> Seq<Seq<char>>
    decreases links.len(),
{
    if links.len() == 0 {
        Seq::empty()
    } else {
        (if links[0] != target {
            seq![links[0]]
        } else {
            Seq::empty()
        }) + keep_links(links.drop_first(), target)
    }
}

/// A note after a link removal; `updated_at` moves even when nothing
/// matched.
pub open spec fn remove_link_spec(v: NoteView, target: Seq<char>, now: Seq<char>) -> NoteView {
    NoteView { links: keep_links(v.links, target), updated_at: now, ..v }
}

/// A duplicate of `src`: fresh identity, prefixed title, the same tags and
/// content, and no links at all.
pub open spec fn duplicate_of(src: NoteView, new_id: Seq<char>, now: Seq<char>) -> NoteView {
    NoteView {
        id: new_id,
        title: "Copy of "@ + src.title,
        content: src.content,
        links: Seq::empty(),
        tags: src.tags,
        created_at: now,
        updated_at: now,
    }
}

} // verus!
