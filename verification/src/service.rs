//! The note repository engine: an in-memory corpus of notes with unique
//! ids, the CRUD operations, the derived link graph and tag search, and
//! statistics.  Reading and writing note files, and running the
//! version-control backend, happen outside; this type works on the plain
//! notes handed to it and reports exactly what changed.

use vstd::prelude::*;
use vstd::multiset::Multiset;
use vstd::string::StringExecFns;
use crate::clock::now_rfc3339;
use crate::fold::lower_of;
use crate::fold::to_lower;
use crate::history::{reconcile_spec, CommitInfo, Jujutsu};
use crate::ident::fresh_id;
use crate::note::{
    add_link_spec, add_tag_spec, duplicate_of, keep_links, keep_tags, made_note, remove_link_spec,
    remove_tag_spec, tag_present, with_content, Note, NoteView,
};
use crate::strutil::{
    chars_of, chars_to_string, is_substring, has_substring, lex_le, lemma_lex_le_antisym,
    lemma_lex_le_refl, lemma_lex_le_total, lemma_lex_le_trans, str_eq, str_lex_le, sub_chars,
    trim_chars, trim_spec,
};

verus! {

/// Why an engine operation could not be carried out.
#[derive(Debug, PartialEq, Eq, Structural)]
pub enum NoteError {
    /// No note with the requested id exists.
    NotFound,
}

/// No two notes share an id.
pub open spec fn distinct_ids(s: Seq<NoteView>) -> bool {
    forall|i: int, j: int|
        #![trigger s[i].id, s[j].id]
        0 <= i < j < s.len() ==> s[i].id != s[j].id
}

/// Some note in `s` carries the id.
pub open spec fn has_note(s: Seq<NoteView>, id: Seq<char>) -> bool {
    exists|i: int| 0 <= i < s.len() && (#[trigger] s[i]).id == id
}

/// The note in `s` carrying the id (under `distinct_ids` there is at most
/// one).
pub open spec fn the_note(s: Seq<NoteView>, id: Seq<char>) -> NoteView {
    s[choose|i: int| 0 <= i < s.len() && (#[trigger] s[i]).id == id]
}

/// `s` with `v` written over the first note of the same id, or appended
/// when the id is new.
pub open spec fn upsert(s: Seq<NoteView>, v: NoteView) -> Seq<NoteView>
    decreases s.len(),
{
    if s.len() == 0 {
        seq![v]
    } else if s[0].id == v.id {
        seq![v] + s.drop_first()
    } else {
        seq![s[0]] + upsert(s.drop_first(), v)
    }
}

/// `s` without the first note carrying the id.
pub open spec fn remove_id(s: Seq<NoteView>, id: Seq<char>) -> Seq<NoteView>
    decreases s.len(),
{
    if s.len() == 0 {
        s
    } else if s[0].id == id {
        s.drop_first()
    } else {
        seq![s[0]] + remove_id(s.drop_first(), id)
    }
}

proof fn lemma_upsert_update(s: Seq<NoteView>, v: NoteView, i: int)
    requires
        0 <= i < s.len(),
        s[i].id == v.id,
        forall|k: int| 0 <= k < i ==> (#[trigger] s[k]).id != v.id,
    ensures
        upsert(s, v) == s.update(i, v),
    decreases i,
{
    if i == 0 {
        assert(seq![v] + s.drop_first() =~= s.update(0, v));
    } else {
        assert(s[0].id != v.id);
        let t = s.drop_first();
        assert forall|k: int| 0 <= k < i - 1 implies (#[trigger] t[k]).id != v.id by {
            assert(t[k] == s[k + 1]);
        }
        lemma_upsert_update(t, v, i - 1);
        assert(seq![s[0]] + t.update(i - 1, v) =~= s.update(i, v));
    }
}

proof fn lemma_upsert_push(s: Seq<NoteView>, v: NoteView)
    requires
        forall|k: int| 0 <= k < s.len() ==> (#[trigger] s[k]).id != v.id,
    ensures
        upsert(s, v) == s.push(v),
    decreases s.len(),
{
    if s.len() == 0 {
        assert(seq![v] =~= s.push(v));
    } else {
        let t = s.drop_first();
        assert forall|k: int| 0 <= k < t.len() implies (#[trigger] t[k]).id != v.id by {
            assert(t[k] == s[k + 1]);
        }
        lemma_upsert_push(t, v);
        assert(seq![s[0]] + t.push(v) =~= s.push(v));
    }
}

proof fn lemma_remove_id_at(s: Seq<NoteView>, id: Seq<char>, i: int)
    requires
        0 <= i < s.len(),
        s[i].id == id,
        forall|k: int| 0 <= k < i ==> (#[trigger] s[k]).id != id,
    ensures
        remove_id(s, id) == s.remove(i),
    decreases i,
{
    if i == 0 {
        assert(s.drop_first() =~= s.remove(0));
    } else {
        assert(s[0].id != id);
        let t = s.drop_first();
        assert forall|k: int| 0 <= k < i - 1 implies (#[trigger] t[k]).id != id by {
            assert(t[k] == s[k + 1]);
        }
        lemma_remove_id_at(t, id, i - 1);
        assert(seq![s[0]] + t.remove(i - 1) =~= s.remove(i));
    }
}

proof fn lemma_remove_id_absent(s: Seq<NoteView>, id: Seq<char>)
    requires
        forall|k: int| 0 <= k < s.len() ==> (#[trigger] s[k]).id != id,
    ensures
        remove_id(s, id) == s,
    decreases s.len(),
{
    if s.len() > 0 {
        let t = s.drop_first();
        assert forall|k: int| 0 <= k < t.len() implies (#[trigger] t[k]).id != id by {
            assert(t[k] == s[k + 1]);
        }
        lemma_remove_id_absent(t, id);
        assert(seq![s[0]] + t =~= s);
    }
}

/// Under distinct ids, the note found at `i` is the note of that id.
proof fn lemma_the_note_at(s: Seq<NoteView>, i: int)
    requires
        distinct_ids(s),
        0 <= i < s.len(),
    ensures
        has_note(s, s[i].id),
        the_note(s, s[i].id) == s[i],
{
    assert(0 <= i < s.len() && s[i].id == s[i].id);
    let c = choose|k: int| 0 <= k < s.len() && (#[trigger] s[k]).id == s[i].id;
    if c != i {
        assert(s[c].id != s[i].id);
    }
}

/// The note repository engine.  It holds the configured repository root,
/// the notes directory below it, and the corpus.
pub struct NoteService {
    repo_path: String,
    notes_dir: String,
    notes: Vec<Note>,
}

impl View for NoteService {
    type V = Seq<NoteView>;

    closed spec fn view(&self) -> Seq<NoteView> {
        self.notes.deep_view()
    }
}

impl NoteService {
    #[verifier::type_invariant]
    spec fn wf(self) -> bool {
        distinct_ids(self.notes.deep_view())
    }

    /// The configured repository root.
    pub closed spec fn repo_path_view(&self) -> Seq<char> {
        self.repo_path@
    }

    /// The directory that holds the note files.
    pub closed spec fn notes_dir_view(&self) -> Seq<char> {
        self.notes_dir@
    }

    /// Both configured paths, unchanged by every corpus operation.
    pub closed spec fn config(&self) -> (Seq<char>, Seq<char>) {
        (self.repo_path_view(), self.notes_dir_view())
    }

    /// An engine over an empty corpus, rooted at `repo_path`.
    pub fn new(repo_path: String) -> (r: NoteService)
        ensures
            r@ == Seq::<NoteView>::empty(),
            r.repo_path_view() == repo_path@,
            r.notes_dir_view() == repo_path@ + "/notes"@,
    {
        let notes_dir = repo_path.clone().concat("/notes");
        let r = NoteService { repo_path, notes_dir, notes: Vec::new() };
        proof {
            assert(r.notes.deep_view() =~= Seq::<NoteView>::empty());
        }
        r
    }

    /// The first position of the note with this id.
    fn find_pos(&self, id: &str) -> (r: Option<usize>)
        ensures
            match r {
                Some(i) => i < self@.len() && self@[i as int].id == id@ && (forall|k: int|
                    0 <= k < i ==> (#[trigger] self@[k]).id != id@),
                None => !has_note(self@, id@),
            },
    {
        let n = self.notes.len();
        let mut i: usize = 0;
        while i < n
            invariant
                n == self.notes@.len(),
                self@.len() == n,
                i <= n,
                forall|k: int| 0 <= k < i ==> (#[trigger] self@[k]).id != id@,
            decreases n - i,
        {
            if str_eq(self.notes[i].id.as_str(), id) {
                proof {
                    assert(self@[i as int].id == self.notes@[i as int].id@);
                }
                return Some(i);
            }
            proof {
                assert(self@[i as int].id == self.notes@[i as int].id@);
            }
            i += 1;
        }
        None
    }

    /// Writes `note` into the corpus: over the note of the same id, or at
    /// the end when the id is new.
    fn put_note(&mut self, note: Note)
        ensures
            final(self)@ == upsert(old(self)@, note@),
            final(self).config() == old(self).config(),
    {
        proof {
            use_type_invariant(&*self);
        }
        let ghost s0 = self@;
        let ghost nv = note@;
        let pos = self.find_pos(note.id.as_str());
        let mut notes: Vec<Note> = Vec::new();
        proof {
            assert(notes.deep_view() =~= Seq::<NoteView>::empty());
        }
        core::mem::swap(&mut notes, &mut self.notes);
        match pos {
            Some(i) => {
                let ghost pre = notes.deep_view();
                notes[i] = note;
                proof {
                    assert(notes.deep_view() =~= pre.update(i as int, nv)) by {
                        assert(notes@ == old(self).notes@.update(i as int, note));
                        assert forall|j: int|
                            0 <= j < notes.deep_view().len() implies notes.deep_view()[j]
                            == pre.update(i as int, nv)[j] by {
                            if j != i {
                                assert(notes@[j] == old(self).notes@[j]);
                            }
                        }
                    }
                    lemma_upsert_update(s0, nv, i as int);
                    assert forall|a: int, b: int|
                        #![trigger pre.update(i as int, nv)[a].id, pre.update(i as int, nv)[b].id]
                        0 <= a < b < pre.update(i as int, nv).len() implies pre.update(
                        i as int,
                        nv,
                    )[a].id != pre.update(i as int, nv)[b].id by {
                        assert(s0[a].id != s0[b].id);
                        assert(nv.id == s0[i as int].id);
                    }
                }
            },
            None => {
                let ghost pre = notes.deep_view();
                notes.push(note);
                proof {
                    assert(notes.deep_view() =~= pre.push(nv)) by {
                        assert(notes@ == old(self).notes@.push(note));
                        assert forall|j: int|
                            0 <= j < notes.deep_view().len() implies notes.deep_view()[j]
                            == pre.push(nv)[j] by {
                            if j < pre.len() {
                                assert(notes@[j] == old(self).notes@[j]);
                            }
                        }
                    }
                    assert forall|k: int| 0 <= k < s0.len() implies (#[trigger] s0[k]).id != nv.id
                    by {
                        if s0[k].id == nv.id {
                            assert(has_note(s0, nv.id));
                        }
                    }
                    lemma_upsert_push(s0, nv);
                    assert forall|a: int, b: int|
                        #![trigger s0.push(nv)[a].id, s0.push(nv)[b].id]
                        0 <= a < b < s0.push(nv).len() implies s0.push(nv)[a].id != s0.push(
                        nv,
                    )[b].id by {
                        if b < s0.len() {
                            assert(s0[a].id != s0[b].id);
                        }
                    }
                }
            },
        }
        self.notes = notes;
    }

    /// Removes the note with this id, reporting whether one was there.
    pub fn delete_note(&mut self, id: &str) -> (r: bool)
        ensures
            final(self)@ == remove_id(old(self)@, id@),
            r == has_note(old(self)@, id@),
            final(self).config() == old(self).config(),
    {
        proof {
            use_type_invariant(&*self);
        }
        let ghost s0 = self@;
        let pos = self.find_pos(id);
        match pos {
            Some(i) => {
                let mut notes: Vec<Note> = Vec::new();
                proof {
                    assert(notes.deep_view() =~= Seq::<NoteView>::empty());
                }
                core::mem::swap(&mut notes, &mut self.notes);
                let ghost pre = notes.deep_view();
                notes.remove(i);
                proof {
                    assert(notes.deep_view() =~= pre.remove(i as int)) by {
                        assert(notes@ == old(self).notes@.remove(i as int));
                        assert forall|j: int|
                            0 <= j < notes.deep_view().len() implies notes.deep_view()[j]
                            == pre.remove(i as int)[j] by {
                            if j < i {
                                assert(notes@[j] == old(self).notes@[j]);
                            } else {
                                assert(notes@[j] == old(self).notes@[j + 1]);
                            }
                        }
                    }
                    lemma_remove_id_at(s0, id@, i as int);
                    assert forall|a: int, b: int|
                        #![trigger pre.remove(i as int)[a].id, pre.remove(i as int)[b].id]
                        0 <= a < b < pre.remove(i as int).len() implies pre.remove(
                        i as int,
                    )[a].id != pre.remove(i as int)[b].id by {
                        let ra = if a < i {
                            a
                        } else {
                            a + 1
                        };
                        let rb = if b < i {
                            b
                        } else {
                            b + 1
                        };
                        assert(pre.remove(i as int)[a] == s0[ra]);
                        assert(pre.remove(i as int)[b] == s0[rb]);
                        assert(s0[ra].id != s0[rb].id);
                    }
                }
                self.notes = notes;
                proof {
                    assert(0 <= i < s0.len() && s0[i as int].id == id@);
                }
                true
            },
            None => {
                proof {
                    assert forall|k: int| 0 <= k < s0.len() implies (#[trigger] s0[k]).id != id@
                    by {
                        if s0[k].id == id@ {
                            assert(has_note(s0, id@));
                        }
                    }
                    lemma_remove_id_absent(s0, id@);
                }
                false
            },
        }
    }

    /// The note with this id, copied out; absent ids yield `None`, never
    /// an error.
    pub fn get_note(&self, id: &str) -> (r: Option<Note>)
        ensures
            match r {
                Some(n) => has_note(self@, id@) && n@ == the_note(self@, id@),
                None => !has_note(self@, id@),
            },
    {
        proof {
            use_type_invariant(self);
        }
        match self.find_pos(id) {
            Some(i) => {
                let n = self.notes[i].duplicate_value();
                proof {
                    assert(n@ == self@[i as int]);
                    lemma_the_note_at(self@, i as int);
                }
                Some(n)
            },
            None => None,
        }
    }

    /// Follows one link: the target note, or `None` for a dangling link.
    /// A missing target is tolerated, not an error.
    pub fn resolve_link(&self, id: &str) -> (r: Option<Note>)
        ensures
            match r {
                Some(n) => has_note(self@, id@) && n@ == the_note(self@, id@),
                None => !has_note(self@, id@),
            },
    {
        self.get_note(id)
    }

    /// Adopts an already-parsed note into the corpus; refused when its id
    /// is taken.
    pub fn load_note(&mut self, note: Note) -> (r: bool)
        ensures
            r == !has_note(old(self)@, note@.id),
            r ==> final(self)@ == old(self)@.push(note@),
            !r ==> final(self)@ == old(self)@,
            final(self).config() == old(self).config(),
    {
        proof {
            use_type_invariant(&*self);
        }
        let ghost s0 = self@;
        let ghost nv = note@;
        match self.find_pos(note.id.as_str()) {
            Some(i) => {
                proof {
                    assert(0 <= i < s0.len() && s0[i as int].id == nv.id);
                }
                false
            },
            None => {
                proof {
                    assert forall|k: int| 0 <= k < s0.len() implies (#[trigger] s0[k]).id != nv.id
                    by {
                        if s0[k].id == nv.id {
                            assert(has_note(s0, nv.id));
                        }
                    }
                    lemma_upsert_push(s0, nv);
                }
                self.put_note(note);
                true
            },
        }
    }

    /// Builds and stores a note from explicit identity and time.
    pub fn create_note_at(&mut self, title: &str, content: &str, id: String, now: &str) -> (r:
        Note)
        ensures
            r@ == made_note(title@, content@, id@, now@),
            final(self)@ == upsert(old(self)@, r@),
            final(self).config() == old(self).config(),
    {
        let note = Note {
            id,
            title: title.to_owned(),
            content: content.to_owned(),
            links: Vec::new(),
            tags: Vec::new(),
            created_at: now.to_owned(),
            updated_at: now.to_owned(),
        };
        proof {
            assert(note.links.deep_view() =~= Seq::<Seq<char>>::empty());
            assert(note.tags.deep_view() =~= Seq::<Seq<char>>::empty());
        }
        let r = note.duplicate_value();
        self.put_note(note);
        r
    }

    /// Creates a note: a fresh id from the title and the clock, both
    /// timestamps set to now.
    pub fn create_note(&mut self, title: String, content: String) -> (r: Note)
        ensures
            r@ == made_note(title@, content@, r@.id, r@.updated_at),
            final(self)@ == upsert(old(self)@, r@),
            final(self).config() == old(self).config(),
    {
        let note = Note::new(title, content);
        let r = note.duplicate_value();
        self.put_note(note);
        r
    }

    /// Replaces a note's content at an explicit time and stores the note,
    /// whether or not its id was in the corpus before.
    pub fn update_note_at(&mut self, note: Note, new_content: String, now: &str) -> (r: Note)
        ensures
            r@ == with_content(note@, new_content@, now@),
            final(self)@ == upsert(old(self)@, r@),
            final(self).config() == old(self).config(),
    {
        let updated = Note {
            id: note.id,
            title: note.title,
            content: new_content,
            links: note.links,
            tags: note.tags,
            created_at: note.created_at,
            updated_at: now.to_owned(),
        };
        let r = updated.duplicate_value();
        self.put_note(updated);
        r
    }

    /// Replaces a note's content now.
    pub fn update_note(&mut self, note: Note, new_content: String) -> (r: Note)
        ensures
            r@ == with_content(note@, new_content@, r@.updated_at),
            final(self)@ == upsert(old(self)@, r@),
            final(self).config() == old(self).config(),
    {
        let now = now_rfc3339();
        self.update_note_at(note, new_content, now.as_str())
    }
}

/// `keep_tags` grows on the right one tag at a time.
proof fn lemma_keep_tags_push(p: Seq<Seq<char>>, x: Seq<char>, tag: Seq<char>)
    ensures
        keep_tags(p.push(x), tag) == keep_tags(p, tag) + (if lower_of(x) != lower_of(tag) {
            seq![x]
        } else {
            Seq::<Seq<char>>::empty()
        }),
    decreases p.len(),
{
    let q = p.push(x);
    let tail = (if lower_of(x) != lower_of(tag) {
        seq![x]
    } else {
        Seq::<Seq<char>>::empty()
    });
    if p.len() == 0 {
        assert(q[0] == x);
        assert(q.drop_first() =~= Seq::<Seq<char>>::empty());
        assert(keep_tags(Seq::empty(), tag) == Seq::<Seq<char>>::empty());
        assert(keep_tags(q, tag) =~= tail);
        assert(keep_tags(p, tag) + tail =~= tail);
    } else {
        assert(q[0] == p[0]);
        assert(q.drop_first() =~= p.drop_first().push(x));
        lemma_keep_tags_push(p.drop_first(), x, tag);
        let h = (if lower_of(p[0]) != lower_of(tag) {
            seq![p[0]]
        } else {
            Seq::<Seq<char>>::empty()
        });
        assert(keep_tags(q, tag) == h + (keep_tags(p.drop_first(), tag) + tail));
        assert(keep_tags(p, tag) == h + keep_tags(p.drop_first(), tag));
        assert(h + (keep_tags(p.drop_first(), tag) + tail) =~= (h + keep_tags(p.drop_first(), tag))
            + tail);
    }
}

/// `keep_links` grows on the right one link at a time.
proof fn lemma_keep_links_push(p: Seq<Seq<char>>, x: Seq<char>, target: Seq<char>)
    ensures
        keep_links(p.push(x), target) == keep_links(p, target) + (if x != target {
            seq![x]
        } else {
            Seq::<Seq<char>>::empty()
        }),
    decreases p.len(),
{
    let q = p.push(x);
    let tail = (if x != target {
        seq![x]
    } else {
        Seq::<Seq<char>>::empty()
    });
    if p.len() == 0 {
        assert(q[0] == x);
        assert(q.drop_first() =~= Seq::<Seq<char>>::empty());
        assert(keep_links(Seq::empty(), target) == Seq::<Seq<char>>::empty());
        assert(keep_links(q, target) =~= tail);
        assert(keep_links(p, target) + tail =~= tail);
    } else {
        assert(q[0] == p[0]);
        assert(q.drop_first() =~= p.drop_first().push(x));
        lemma_keep_links_push(p.drop_first(), x, target);
        let h = (if p[0] != target {
            seq![p[0]]
        } else {
            Seq::<Seq<char>>::empty()
        });
        assert(keep_links(q, target) == h + (keep_links(p.drop_first(), target) + tail));
        assert(keep_links(p, target) == h + keep_links(p.drop_first(), target));
        assert(h + (keep_links(p.drop_first(), target) + tail) =~= (h + keep_links(
            p.drop_first(),
            target,
        )) + tail);
    }
}

impl NoteService {
    /// Adds a tag at an explicit time: a second casing of a present tag
    /// changes nothing, not even `updated_at`.
    pub fn add_tag_at(&mut self, note_id: &str, tag: String, now: &str) -> (r: Result<
        Note,
        NoteError,
    >)
        ensures
            match r {
                Ok(n) => has_note(old(self)@, note_id@) && n@ == add_tag_spec(
                    the_note(old(self)@, note_id@),
                    tag@,
                    now@,
                ) && final(self)@ == upsert(old(self)@, n@),
                Err(e) => e == NoteError::NotFound && !has_note(old(self)@, note_id@) && final(self)@ == old(self)@,
            },
            final(self).config() == old(self).config(),
    {
        proof {
            use_type_invariant(&*self);
        }
        let ghost s0 = self@;
        match self.find_pos(note_id) {
            None => Err(NoteError::NotFound),
            Some(i) => {
                proof {
                    lemma_the_note_at(s0, i as int);
                }
                let cur = self.notes[i].duplicate_value();
                let ghost cv = cur@;
                let tl = to_lower(tag.as_str());
                let m = cur.tags.len();
                let mut present = false;
                let mut k: usize = 0;
                while k < m
                    invariant
                        m == cur.tags@.len(),
                        cv == cur@,
                        cv.tags.len() == m,
                        k <= m,
                        tl@ == lower_of(tag@),
                        present <==> exists|j: int|
                            0 <= j < k && lower_of(#[trigger] cv.tags[j]) == lower_of(tag@),
                    decreases m - k,
                {
                    let el = to_lower(cur.tags[k].as_str());
                    if str_eq(el.as_str(), tl.as_str()) {
                        proof {
                            assert(cv.tags[k as int] == cur.tags@[k as int]@);
                            assert(lower_of(cv.tags[k as int]) == lower_of(tag@));
                        }
                        present = true;
                    }
                    proof {
                        assert(cv.tags[k as int] == cur.tags@[k as int]@);
                    }
                    k += 1;
                }
                proof {
                    assert(present == tag_present(cv.tags, tag@));
                }
                if present {
                    proof {
                        lemma_upsert_update(s0, s0[i as int], i as int);
                        assert(s0.update(i as int, s0[i as int]) =~= s0);
                    }
                    Ok(cur)
                } else {
                    let Note { id, title, content, links, mut tags, created_at, updated_at: _ } =
                        cur;
                    let ghost tpre = tags.deep_view();
                    tags.push(tag);
                    proof {
                        assert(tags.deep_view() =~= tpre.push(tag@)) by {
                            assert forall|j: int|
                                0 <= j < tags.deep_view().len() implies tags.deep_view()[j]
                                == tpre.push(tag@)[j] by {
                                assert(j < tpre.len() || j == tpre.len());
                            }
                        }
                    }
                    let updated = Note {
                        id,
                        title,
                        content,
                        links,
                        tags,
                        created_at,
                        updated_at: now.to_owned(),
                    };
                    proof {
                        assert(updated@ == add_tag_spec(cv, tag@, now@));
                    }
                    let r = updated.duplicate_value();
                    self.put_note(updated);
                    Ok(r)
                }
            },
        }
    }

    /// Adds a tag now.
    pub fn add_tag(&mut self, note_id: &str, tag: String) -> (r: Result<Note, NoteError>)
        ensures
            match r {
                Ok(n) => has_note(old(self)@, note_id@) && n@ == add_tag_spec(
                    the_note(old(self)@, note_id@),
                    tag@,
                    n@.updated_at,
                ) && final(self)@ == upsert(old(self)@, n@),
                Err(e) => e == NoteError::NotFound && !has_note(old(self)@, note_id@) && final(self)@ == old(self)@,
            },
            final(self).config() == old(self).config(),
    {
        let now = now_rfc3339();
        let r = self.add_tag_at(note_id, tag, now.as_str());
        r
    }

    /// Removes every casing of a tag at an explicit time; `updated_at`
    /// moves even when nothing matched.
    pub fn remove_tag_at(&mut self, note_id: &str, tag: &str, now: &str) -> (r: Result<
        Note,
        NoteError,
    >)
        ensures
            match r {
                Ok(n) => has_note(old(self)@, note_id@) && n@ == remove_tag_spec(
                    the_note(old(self)@, note_id@),
                    tag@,
                    now@,
                ) && final(self)@ == upsert(old(self)@, n@),
                Err(e) => e == NoteError::NotFound && !has_note(old(self)@, note_id@) && final(self)@ == old(self)@,
            },
            final(self).config() == old(self).config(),
    {
        proof {
            use_type_invariant(&*self);
        }
        let ghost s0 = self@;
        match self.find_pos(note_id) {
            None => Err(NoteError::NotFound),
            Some(i) => {
                proof {
                    lemma_the_note_at(s0, i as int);
                }
                let cur = self.notes[i].duplicate_value();
                let ghost cv = cur@;
                let tl = to_lower(tag);
                let m = cur.tags.len();
                let mut kept: Vec<String> = Vec::new();
                let mut k: usize = 0;
                proof {
                    assert(kept.deep_view() =~= Seq::<Seq<char>>::empty());
                    assert(cv.tags.subrange(0, 0) =~= Seq::<Seq<char>>::empty());
                    assert(keep_tags(cv.tags.subrange(0, 0), tag@) == Seq::<Seq<char>>::empty());
                }
                while k < m
                    invariant
                        m == cur.tags@.len(),
                        cv == cur@,
                        cv.tags.len() == m,
                        k <= m,
                        tl@ == lower_of(tag@),
                        kept.deep_view() == keep_tags(cv.tags.subrange(0, k as int), tag@),
                    decreases m - k,
                {
                    let ghost kpre = kept.deep_view();
                    let el = to_lower(cur.tags[k].as_str());
                    proof {
                        assert(cv.tags[k as int] == cur.tags@[k as int]@);
                    }
                    if !str_eq(el.as_str(), tl.as_str()) {
                        let item = cur.tags[k].clone();
                        kept.push(item);
                        proof {
                            assert(kept.deep_view() =~= kpre.push(cv.tags[k as int])) by {
                                assert forall|j: int|
                                    0 <= j < kept.deep_view().len() implies kept.deep_view()[j]
                                    == kpre.push(cv.tags[k as int])[j] by {}
                            }
                        }
                    }
                    proof {
                        lemma_keep_tags_push(cv.tags.subrange(0, k as int), cv.tags[k as int],
                        tag@);
                        assert(cv.tags.subrange(0, k as int).push(cv.tags[k as int]) =~= cv.tags
                            .subrange(0, k + 1 as int));
                        assert(kept.deep_view() =~= keep_tags(cv.tags.subrange(0, k + 1 as int),
                        tag@));
                    }
                    k += 1;
                }
                proof {
                    assert(cv.tags.subrange(0, m as int) =~= cv.tags);
                }
                let updated = Note {
                    id: cur.id,
                    title: cur.title,
                    content: cur.content,
                    links: cur.links,
                    tags: kept,
                    created_at: cur.created_at,
                    updated_at: now.to_owned(),
                };
                proof {
                    assert(updated@ == remove_tag_spec(cv, tag@, now@));
                }
                let r = updated.duplicate_value();
                self.put_note(updated);
                Ok(r)
            },
        }
    }

    /// Removes every casing of a tag now.
    pub fn remove_tag(&mut self, note_id: &str, tag: &str) -> (r: Result<Note, NoteError>)
        ensures
            match r {
                Ok(n) => has_note(old(self)@, note_id@) && n@ == remove_tag_spec(
                    the_note(old(self)@, note_id@),
                    tag@,
                    n@.updated_at,
                ) && final(self)@ == upsert(old(self)@, n@),
                Err(e) => e == NoteError::NotFound && !has_note(old(self)@, note_id@) && final(self)@ == old(self)@,
            },
            final(self).config() == old(self).config(),
    {
        let now = now_rfc3339();
        let r = self.remove_tag_at(note_id, tag, now.as_str());
        r
    }

    /// Records a link from one note to another at an explicit time; only
    /// the owning note changes, and a link already present changes
    /// nothing.  The target need not exist.
    pub fn link_notes_at(&mut self, note_id: &str, linked_note_id: &str, now: &str) -> (r: Result<
        (),
        NoteError,
    >)
        ensures
            match r {
                Ok(_) => has_note(old(self)@, note_id@) && final(self)@ == upsert(
                    old(self)@,
                    add_link_spec(the_note(old(self)@, note_id@), linked_note_id@, now@),
                ),
                Err(e) => e == NoteError::NotFound && !has_note(old(self)@, note_id@) && final(self)@ == old(self)@,
            },
            final(self).config() == old(self).config(),
    {
        proof {
            use_type_invariant(&*self);
        }
        let ghost s0 = self@;
        match self.find_pos(note_id) {
            None => Err(NoteError::NotFound),
            Some(i) => {
                proof {
                    lemma_the_note_at(s0, i as int);
                }
                let cur = self.notes[i].duplicate_value();
                let ghost cv = cur@;
                let m = cur.links.len();
                let mut present = false;
                let mut k: usize = 0;
                while k < m
                    invariant
                        m == cur.links@.len(),
                        cv == cur@,
                        cv.links.len() == m,
                        k <= m,
                        present <==> exists|j: int|
                            0 <= j < k && (#[trigger] cv.links[j]) == linked_note_id@,
                    decreases m - k,
                {
                    if str_eq(cur.links[k].as_str(), linked_note_id) {
                        proof {
                            assert(cv.links[k as int] == cur.links@[k as int]@);
                        }
                        present = true;
                    }
                    proof {
                        assert(cv.links[k as int] == cur.links@[k as int]@);
                    }
                    k += 1;
                }
                proof {
                    assert(present == cv.links.contains(linked_note_id@));
                }
                if present {
                    proof {
                        lemma_upsert_update(s0, s0[i as int], i as int);
                        assert(s0.update(i as int, s0[i as int]) =~= s0);
                    }
                    Ok(())
                } else {
                    let Note { id, title, content, mut links, tags, created_at, updated_at: _ } =
                        cur;
                    let ghost lpre = links.deep_view();
                    links.push(linked_note_id.to_owned());
                    proof {
                        assert(links.deep_view() =~= lpre.push(linked_note_id@)) by {
                            assert forall|j: int|
                                0 <= j < links.deep_view().len() implies links.deep_view()[j]
                                == lpre.push(linked_note_id@)[j] by {}
                        }
                    }
                    let updated = Note {
                        id,
                        title,
                        content,
                        links,
                        tags,
                        created_at,
                        updated_at: now.to_owned(),
                    };
                    proof {
                        assert(updated@ == add_link_spec(cv, linked_note_id@, now@));
                    }
                    self.put_note(updated);
                    Ok(())
                }
            },
        }
    }

    /// Records a link now.
    pub fn link_notes(&mut self, note_id: &str, linked_note_id: &str) -> (r: Result<(), NoteError>)
        ensures
            match r {
                Ok(_) => has_note(old(self)@, note_id@) && (exists|ts: Seq<char>|
                    final(self)@ == upsert(
                        old(self)@,
                        #[trigger] add_link_spec(the_note(old(self)@, note_id@), linked_note_id@, ts),
                    )),
                Err(e) => e == NoteError::NotFound && !has_note(old(self)@, note_id@) && final(self)@ == old(self)@,
            },
            final(self).config() == old(self).config(),
    {
        let now = now_rfc3339();
        let r = self.link_notes_at(note_id, linked_note_id, now.as_str());
        r
    }

    /// Removes a link at an explicit time; `updated_at` moves even when
    /// nothing matched.
    pub fn unlink_notes_at(&mut self, note_id: &str, linked_note_id: &str, now: &str) -> (r:
        Result<(), NoteError>)
        ensures
            match r {
                Ok(_) => has_note(old(self)@, note_id@) && final(self)@ == upsert(
                    old(self)@,
                    remove_link_spec(the_note(old(self)@, note_id@), linked_note_id@, now@),
                ),
                Err(e) => e == NoteError::NotFound && !has_note(old(self)@, note_id@) && final(self)@ == old(self)@,
            },
            final(self).config() == old(self).config(),
    {
        proof {
            use_type_invariant(&*self);
        }
        let ghost s0 = self@;
        match self.find_pos(note_id) {
            None => Err(NoteError::NotFound),
            Some(i) => {
                proof {
                    lemma_the_note_at(s0, i as int);
                }
                let cur = self.notes[i].duplicate_value();
                let ghost cv = cur@;
                let m = cur.links.len();
                let mut kept: Vec<String> = Vec::new();
                let mut k: usize = 0;
                proof {
                    assert(kept.deep_view() =~= Seq::<Seq<char>>::empty());
                    assert(cv.links.subrange(0, 0) =~= Seq::<Seq<char>>::empty());
                    assert(keep_links(cv.links.subrange(0, 0), linked_note_id@) == Seq::<
                        Seq<char>,
                    >::empty());
                }
                while k < m
                    invariant
                        m == cur.links@.len(),
                        cv == cur@,
                        cv.links.len() == m,
                        k <= m,
                        kept.deep_view() == keep_links(
                            cv.links.subrange(0, k as int),
                            linked_note_id@,
                        ),
                    decreases m - k,
                {
                    let ghost kpre = kept.deep_view();
                    proof {
                        assert(cv.links[k as int] == cur.links@[k as int]@);
                    }
                    if !str_eq(cur.links[k].as_str(), linked_note_id) {
                        let item = cur.links[k].clone();
                        kept.push(item);
                        proof {
                            assert(kept.deep_view() =~= kpre.push(cv.links[k as int])) by {
                                assert forall|j: int|
                                    0 <= j < kept.deep_view().len() implies kept.deep_view()[j]
                                    == kpre.push(cv.links[k as int])[j] by {}
                            }
                        }
                    }
                    proof {
                        lemma_keep_links_push(
                            cv.links.subrange(0, k as int),
                            cv.links[k as int],
                            linked_note_id@,
                        );
                        assert(cv.links.subrange(0, k as int).push(cv.links[k as int]) =~= cv.links
                            .subrange(0, k + 1 as int));
                        assert(kept.deep_view() =~= keep_links(
                            cv.links.subrange(0, k + 1 as int),
                            linked_note_id@,
                        ));
                    }
                    k += 1;
                }
                proof {
                    assert(cv.links.subrange(0, m as int) =~= cv.links);
                }
                let updated = Note {
                    id: cur.id,
                    title: cur.title,
                    content: cur.content,
                    links: kept,
                    tags: cur.tags,
                    created_at: cur.created_at,
                    updated_at: now.to_owned(),
                };
                proof {
                    assert(updated@ == remove_link_spec(cv, linked_note_id@, now@));
                }
                self.put_note(updated);
                Ok(())
            },
        }
    }

    /// Removes a link now.
    pub fn unlink_notes(&mut self, note_id: &str, linked_note_id: &str) -> (r: Result<
        (),
        NoteError,
    >)
        ensures
            match r {
                Ok(_) => has_note(old(self)@, note_id@) && (exists|ts: Seq<char>|
                    final(self)@ == upsert(
                        old(self)@,
                        #[trigger] remove_link_spec(
                            the_note(old(self)@, note_id@),
                            linked_note_id@,
                            ts,
                        ),
                    )),
                Err(e) => e == NoteError::NotFound && !has_note(old(self)@, note_id@) && final(self)@ == old(self)@,
            },
            final(self).config() == old(self).config(),
    {
        let now = now_rfc3339();
        let r = self.unlink_notes_at(note_id, linked_note_id, now.as_str());
        r
    }

    /// Duplicates a note with explicit identity and time: same content
    /// and tags, prefixed title, no links.
    pub fn duplicate_note_at(&mut self, note_id: &str, new_id: String, now: &str) -> (r: Result<
        Note,
        NoteError,
    >)
        ensures
            match r {
                Ok(n) => has_note(old(self)@, note_id@) && n@ == duplicate_of(
                    the_note(old(self)@, note_id@),
                    new_id@,
                    now@,
                ) && final(self)@ == upsert(old(self)@, n@),
                Err(e) => e == NoteError::NotFound && !has_note(old(self)@, note_id@) && final(self)@ == old(self)@,
            },
            final(self).config() == old(self).config(),
    {
        proof {
            use_type_invariant(&*self);
        }
        let ghost s0 = self@;
        match self.find_pos(note_id) {
            None => Err(NoteError::NotFound),
            Some(i) => {
                proof {
                    lemma_the_note_at(s0, i as int);
                }
                let cur = self.notes[i].duplicate_value();
                let ghost cv = cur@;
                let mut title = String::new();
                title.append("Copy of ");
                title.append(cur.title.as_str());
                proof {
                    assert(title@ =~= "Copy of "@ + cv.title);
                }
                let note = Note {
                    id: new_id,
                    title,
                    content: cur.content,
                    links: Vec::new(),
                    tags: cur.tags,
                    created_at: now.to_owned(),
                    updated_at: now.to_owned(),
                };
                proof {
                    assert(note.links.deep_view() =~= Seq::<Seq<char>>::empty());
                    assert(note@ == duplicate_of(cv, note.id@, now@));
                }
                let r = note.duplicate_value();
                self.put_note(note);
                Ok(r)
            },
        }
    }

    /// Duplicates a note now, with a fresh id derived from the new title.
    pub fn duplicate_note(&mut self, note_id: &str) -> (r: Result<Note, NoteError>)
        ensures
            match r {
                Ok(n) => has_note(old(self)@, note_id@) && n@ == duplicate_of(
                    the_note(old(self)@, note_id@),
                    n@.id,
                    n@.updated_at,
                ) && final(self)@ == upsert(old(self)@, n@),
                Err(e) => e == NoteError::NotFound && !has_note(old(self)@, note_id@) && final(self)@ == old(self)@,
            },
            final(self).config() == old(self).config(),
    {
        proof {
            use_type_invariant(&*self);
        }
        let title = match self.get_note(note_id) {
            Some(n) => {
                let mut t = String::new();
                t.append("Copy of ");
                t.append(n.title.as_str());
                t
            },
            None => {
                return Err(NoteError::NotFound);
            },
        };
        let new_id = fresh_id(title.as_str());
        let now = now_rfc3339();
        let r = self.duplicate_note_at(note_id, new_id, now.as_str());
        r
    }
}

/// Display order: most recently updated first, ties by id.
pub open spec fn note_le(a: NoteView, b: NoteView) -> bool {
    if a.updated_at == b.updated_at {
        lex_le(a.id, b.id)
    } else {
        lex_le(b.updated_at, a.updated_at)
    }
}

/// The sequence is in display order.
pub open spec fn sorted_notes(s: Seq<NoteView>) -> bool {
    forall|i: int, j: int| 0 <= i < j < s.len() ==> note_le(#[trigger] s[i], #[trigger] s[j])
}

proof fn lemma_note_le_total(a: NoteView, b: NoteView)
    ensures
        note_le(a, b) || note_le(b, a),
{
    if a.updated_at == b.updated_at {
        lemma_lex_le_total(a.id, b.id);
    } else {
        lemma_lex_le_total(a.updated_at, b.updated_at);
    }
}

proof fn lemma_note_le_trans(a: NoteView, b: NoteView, c: NoteView)
    requires
        note_le(a, b),
        note_le(b, c),
    ensures
        note_le(a, c),
{
    if a.updated_at == b.updated_at && b.updated_at == c.updated_at {
        lemma_lex_le_trans(a.id, b.id, c.id);
    } else if a.updated_at == b.updated_at {
    } else if b.updated_at == c.updated_at {
    } else {
        if a.updated_at == c.updated_at {
            lemma_lex_le_antisym(b.updated_at, a.updated_at);
        } else {
            lemma_lex_le_trans(c.updated_at, b.updated_at, a.updated_at);
        }
    }
}

/// Decides the display order.
fn note_le_exec(a: &Note, b: &Note) -> (r: bool)
    ensures
        r == note_le(a@, b@),
{
    if str_eq(a.updated_at.as_str(), b.updated_at.as_str()) {
        str_lex_le(a.id.as_str(), b.id.as_str())
    } else {
        str_lex_le(b.updated_at.as_str(), a.updated_at.as_str())
    }
}

/// Sorts notes into display order; the notes themselves are exactly kept.
fn sort_notes(v: Vec<Note>) -> (out: Vec<Note>)
    ensures
        sorted_notes(out.deep_view()),
        out.deep_view().to_multiset() == v.deep_view().to_multiset(),
{
    let ghost sv = v.deep_view();
    let n = v.len();
    let mut out: Vec<Note> = Vec::new();
    let mut k: usize = 0;
    proof {
        assert(out.deep_view() =~= Seq::<NoteView>::empty());
        assert(sv.subrange(0, 0) =~= Seq::<NoteView>::empty());
        assert(out.deep_view().to_multiset() =~= sv.subrange(0, 0).to_multiset());
    }
    while k < n
        invariant
            sv == v.deep_view(),
            n == v@.len(),
            sv.len() == n,
            k <= n,
            sorted_notes(out.deep_view()),
            out.deep_view().to_multiset() == sv.subrange(0, k as int).to_multiset(),
            out.deep_view().len() == k,
        decreases n - k,
    {
        let item = v[k].duplicate_value();
        let ghost iv = item@;
        proof {
            assert(iv == sv[k as int]);
        }
        let m = out.len();
        let mut pos: usize = 0;
        while pos < m && note_le_exec(&out[pos], &item)
            invariant
                m == out@.len(),
                out.deep_view().len() == m,
                pos <= m,
                iv == item@,
                forall|q: int| 0 <= q < pos ==> note_le(#[trigger] out.deep_view()[q], iv),
            decreases m - pos,
        {
            pos += 1;
        }
        proof {
            if pos < m {
                assert(!note_le(out.deep_view()[pos as int], iv));
                lemma_note_le_total(out.deep_view()[pos as int], iv);
                assert(note_le(iv, out.deep_view()[pos as int]));
            }
        }
        let ghost opre = out.deep_view();
        out.insert(pos, item);
        proof {
            let onew = out.deep_view();
            assert(onew =~= opre.insert(pos as int, iv)) by {
                assert forall|j: int| 0 <= j < onew.len() implies onew[j] == opre.insert(
                    pos as int,
                    iv,
                )[j] by {
                    opre.insert_ensures(pos as int, iv);
                }
            }
            // ordering
            assert forall|i: int, j: int| 0 <= i < j < onew.len() implies note_le(
                #[trigger] onew[i],
                #[trigger] onew[j],
            ) by {
                opre.insert_ensures(pos as int, iv);
                let oi = if i < pos {
                    opre[i]
                } else if i == pos {
                    iv
                } else {
                    opre[i - 1]
                };
                let oj = if j < pos {
                    opre[j]
                } else if j == pos {
                    iv
                } else {
                    opre[j - 1]
                };
                assert(onew[i] == oi && onew[j] == oj);
                if i < pos && j == pos {
                    assert(note_le(opre[i], iv));
                } else if i < pos && j > pos {
                    assert(note_le(opre[i], opre[j - 1]));
                } else if i == pos && j > pos {
                    assert(note_le(iv, opre[pos as int]));
                    if j - 1 > pos {
                        assert(note_le(opre[pos as int], opre[j - 1]));
                        lemma_note_le_trans(iv, opre[pos as int], opre[j - 1]);
                    }
                } else {
                }
            }
            // multiset
            let left = opre.subrange(0, pos as int);
            let right = opre.subrange(pos as int, opre.len() as int);
            assert(opre =~= left + right);
            assert(onew =~= left + (seq![iv] + right));
            vstd::seq_lib::lemma_multiset_commutative(left, right);
            vstd::seq_lib::lemma_multiset_commutative(left, seq![iv] + right);
            vstd::seq_lib::lemma_multiset_commutative(seq![iv], right);
            assert(seq![iv].to_multiset() =~= Multiset::empty().insert(iv)) by {
                seq![iv].to_multiset_ensures();
                assert(seq![iv] =~= Seq::empty().push(iv));
                Seq::<NoteView>::empty().to_multiset_ensures();
            }
            let prev = sv.subrange(0, k as int);
            let next = sv.subrange(0, k + 1 as int);
            assert(next =~= prev + seq![iv]);
            vstd::seq_lib::lemma_multiset_commutative(prev, seq![iv]);
            assert(onew.to_multiset() =~= next.to_multiset());
        }
        k += 1;
    }
    proof {
        assert(sv.subrange(0, n as int) =~= sv);
    }
    out
}

/// Copies the corpus.
fn clone_notes(v: &Vec<Note>) -> (out: Vec<Note>)
    ensures
        out.deep_view() == v.deep_view(),
{
    let n = v.len();
    let mut out: Vec<Note> = Vec::new();
    let mut k: usize = 0;
    while k < n
        invariant
            n == v@.len(),
            k <= n,
            out.deep_view().len() == k,
            forall|j: int| 0 <= j < k ==> out.deep_view()[j] == v.deep_view()[j],
        decreases n - k,
    {
        let item = v[k].duplicate_value();
        let ghost iv = item@;
        let ghost opre = out.deep_view();
        proof {
            assert(iv == v.deep_view()[k as int]);
        }
        out.push(item);
        proof {
            assert(out.deep_view().len() == opre.len() + 1);
            assert(forall|j: int| 0 <= j < opre.len() ==> out.deep_view()[j] == opre[j]);
            assert(out.deep_view()[opre.len() as int] == iv);
        }
        k += 1;
    }
    proof {
        assert(out.deep_view() =~= v.deep_view());
    }
    out
}

/// The notes of `s` whose links carry `id`, in corpus order.
pub open spec fn backlinks_sel(s: Seq<NoteView>, id: Seq<char>) -> Seq<NoteView>
    decreases s.len(),
{
    if s.len() == 0 {
        Seq::empty()
    } else {
        (if s[0].links.contains(id) {
            seq![s[0]]
        } else {
            Seq::empty()
        }) + backlinks_sel(s.drop_first(), id)
    }
}

proof fn lemma_backlinks_sel_push(s: Seq<NoteView>, v: NoteView, id: Seq<char>)
    ensures
        backlinks_sel(s.push(v), id) == backlinks_sel(s, id) + (if v.links.contains(id) {
            seq![v]
        } else {
            Seq::<NoteView>::empty()
        }),
    decreases s.len(),
{
    let q = s.push(v);
    let tail = (if v.links.contains(id) {
        seq![v]
    } else {
        Seq::<NoteView>::empty()
    });
    if s.len() == 0 {
        assert(q[0] == v);
        assert(q.drop_first() =~= Seq::<NoteView>::empty());
        assert(backlinks_sel(Seq::empty(), id) == Seq::<NoteView>::empty());
        assert(backlinks_sel(q, id) =~= tail);
        assert(backlinks_sel(s, id) + tail =~= tail);
    } else {
        assert(q[0] == s[0]);
        assert(q.drop_first() =~= s.drop_first().push(v));
        lemma_backlinks_sel_push(s.drop_first(), v, id);
        let h = (if s[0].links.contains(id) {
            seq![s[0]]
        } else {
            Seq::<NoteView>::empty()
        });
        assert(backlinks_sel(q, id) == h + (backlinks_sel(s.drop_first(), id) + tail));
        assert(backlinks_sel(s, id) == h + backlinks_sel(s.drop_first(), id));
        assert(h + (backlinks_sel(s.drop_first(), id) + tail) =~= (h + backlinks_sel(
            s.drop_first(),
            id,
        )) + tail);
    }
}

/// The notes of `s` with a tag matching `tag` in lower case, in corpus
/// order.
pub open spec fn tag_sel(s: Seq<NoteView>, tag: Seq<char>) -> Seq<NoteView>
    decreases s.len(),
{
    if s.len() == 0 {
        Seq::empty()
    } else {
        (if tag_present(s[0].tags, tag) {
            seq![s[0]]
        } else {
            Seq::empty()
        }) + tag_sel(s.drop_first(), tag)
    }
}

proof fn lemma_tag_sel_push(s: Seq<NoteView>, v: NoteView, tag: Seq<char>)
    ensures
        tag_sel(s.push(v), tag) == tag_sel(s, tag) + (if tag_present(v.tags, tag) {
            seq![v]
        } else {
            Seq::<NoteView>::empty()
        }),
    decreases s.len(),
{
    let q = s.push(v);
    let tail = (if tag_present(v.tags, tag) {
        seq![v]
    } else {
        Seq::<NoteView>::empty()
    });
    if s.len() == 0 {
        assert(q[0] == v);
        assert(q.drop_first() =~= Seq::<NoteView>::empty());
        assert(tag_sel(Seq::empty(), tag) == Seq::<NoteView>::empty());
        assert(tag_sel(q, tag) =~= tail);
        assert(tag_sel(s, tag) + tail =~= tail);
    } else {
        assert(q[0] == s[0]);
        assert(q.drop_first() =~= s.drop_first().push(v));
        lemma_tag_sel_push(s.drop_first(), v, tag);
        let h = (if tag_present(s[0].tags, tag) {
            seq![s[0]]
        } else {
            Seq::<NoteView>::empty()
        });
        assert(tag_sel(q, tag) == h + (tag_sel(s.drop_first(), tag) + tail));
        assert(tag_sel(s, tag) == h + tag_sel(s.drop_first(), tag));
        assert(h + (tag_sel(s.drop_first(), tag) + tail) =~= (h + tag_sel(s.drop_first(), tag))
            + tail);
    }
}

/// A query with every leading `#` removed.
pub open spec fn strip_hashes(q: Seq<char>) -> Seq<char>
    decreases q.len(),
{
    if q.len() > 0 && q[0] == '#' {
        strip_hashes(q.drop_first())
    } else {
        q
    }
}

/// The query occurs, case-insensitively, in the title or the content.
pub open spec fn text_matches(v: NoteView, q: Seq<char>) -> bool {
    is_substring(lower_of(v.title), lower_of(q)) || is_substring(lower_of(v.content), lower_of(q))
}

/// What `search_notes` keeps: a `#` query names a tag, an empty tag after
/// trimming keeps everything, and any other query is a substring search.
pub open spec fn matches_query(v: NoteView, q: Seq<char>) -> bool {
    if q.len() > 0 && q[0] == '#' {
        let t = trim_spec(strip_hashes(q));
        if t.len() == 0 {
            true
        } else {
            tag_present(v.tags, t)
        }
    } else {
        text_matches(v, q)
    }
}

/// The notes of `s` matching the query, in corpus order.
pub open spec fn query_sel(s: Seq<NoteView>, q: Seq<char>) -> Seq<NoteView>
    decreases s.len(),
{
    if s.len() == 0 {
        Seq::empty()
    } else {
        (if matches_query(s[0], q) {
            seq![s[0]]
        } else {
            Seq::empty()
        }) + query_sel(s.drop_first(), q)
    }
}

proof fn lemma_query_sel_push(s: Seq<NoteView>, v: NoteView, q: Seq<char>)
    ensures
        query_sel(s.push(v), q) == query_sel(s, q) + (if matches_query(v, q) {
            seq![v]
        } else {
            Seq::<NoteView>::empty()
        }),
    decreases s.len(),
{
    let p = s.push(v);
    let tail = (if matches_query(v, q) {
        seq![v]
    } else {
        Seq::<NoteView>::empty()
    });
    if s.len() == 0 {
        assert(p[0] == v);
        assert(p.drop_first() =~= Seq::<NoteView>::empty());
        assert(query_sel(Seq::empty(), q) == Seq::<NoteView>::empty());
        assert(query_sel(p, q) =~= tail);
        assert(query_sel(s, q) + tail =~= tail);
    } else {
        assert(p[0] == s[0]);
        assert(p.drop_first() =~= s.drop_first().push(v));
        lemma_query_sel_push(s.drop_first(), v, q);
        let h = (if matches_query(s[0], q) {
            seq![s[0]]
        } else {
            Seq::<NoteView>::empty()
        });
        assert(query_sel(p, q) == h + (query_sel(s.drop_first(), q) + tail));
        assert(query_sel(s, q) == h + query_sel(s.drop_first(), q));
        assert(h + (query_sel(s.drop_first(), q) + tail) =~= (h + query_sel(s.drop_first(), q))
            + tail);
    }
}

/// A `#` query whose tag trims to nothing keeps the whole corpus.
pub proof fn lemma_empty_tag_query_selects_all(s: Seq<NoteView>, q: Seq<char>)
    ensures
        q.len() > 0 && q[0] == '#' && trim_spec(strip_hashes(q)).len() == 0 ==> query_sel(s, q)
            == s,
    decreases s.len(),
{
    if q.len() > 0 && q[0] == '#' && trim_spec(strip_hashes(q)).len() == 0 {
        if s.len() == 0 {
            assert(query_sel(s, q) =~= s);
        } else {
            lemma_empty_tag_query_selects_all(s.drop_first(), q);
            assert(matches_query(s[0], q));
            assert(seq![s[0]] + s.drop_first() =~= s);
        }
    }
}

/// A `#` query with a tag left after trimming is exactly the tag search.
proof fn lemma_hash_query_is_tag_sel(s: Seq<NoteView>, q: Seq<char>)
    requires
        q.len() > 0,
        q[0] == '#',
        trim_spec(strip_hashes(q)).len() > 0,
    ensures
        query_sel(s, q) == tag_sel(s, trim_spec(strip_hashes(q))),
    decreases s.len(),
{
    if s.len() > 0 {
        lemma_hash_query_is_tag_sel(s.drop_first(), q);
    }
}

proof fn lemma_strip_hashes_skip(q: Seq<char>, p: int)
    requires
        0 <= p <= q.len(),
        forall|k: int| 0 <= k < p ==> q[k] == '#',
        p < q.len() ==> q[p] != '#',
    ensures
        strip_hashes(q) == q.skip(p),
    decreases p,
{
    if p == 0 {
        assert(q.skip(0) =~= q);
    } else {
        assert(q[0] == '#');
        let t = q.drop_first();
        assert forall|k: int| 0 <= k < p - 1 implies t[k] == '#' by {
            assert(t[k] == q[k + 1]);
        }
        lemma_strip_hashes_skip(t, p - 1);
        assert(t.skip(p - 1) =~= q.skip(p));
    }
}

impl NoteService {
    /// Every note, most recently updated first, ties broken by id.
    pub fn list_notes(&self) -> (r: Vec<Note>)
        ensures
            sorted_notes(r.deep_view()),
            r.deep_view().to_multiset() == self@.to_multiset(),
    {
        sort_notes(clone_notes(&self.notes))
    }

    /// The notes that link to `note_id`, in display order.
    pub fn get_backlinks(&self, note_id: &str) -> (r: Vec<Note>)
        ensures
            sorted_notes(r.deep_view()),
            r.deep_view().to_multiset() == backlinks_sel(self@, note_id@).to_multiset(),
    {
        let n = self.notes.len();
        let mut acc: Vec<Note> = Vec::new();
        let mut k: usize = 0;
        proof {
            assert(acc.deep_view() =~= Seq::<NoteView>::empty());
            assert(self@.subrange(0, 0) =~= Seq::<NoteView>::empty());
            assert(backlinks_sel(self@.subrange(0, 0), note_id@) == Seq::<NoteView>::empty());
        }
        while k < n
            invariant
                n == self.notes@.len(),
                self@.len() == n,
                k <= n,
                acc.deep_view() == backlinks_sel(self@.subrange(0, k as int), note_id@),
            decreases n - k,
        {
            let ghost nv = self@[k as int];
            let cur = &self.notes[k];
            let m = cur.links.len();
            let mut found = false;
            let mut j: usize = 0;
            proof {
                assert(nv.links == cur.links.deep_view());
            }
            while j < m
                invariant
                    m == cur.links@.len(),
                    nv.links == cur.links.deep_view(),
                    nv.links.len() == m,
                    j <= m,
                    found <==> exists|q: int| 0 <= q < j && (#[trigger] nv.links[q]) == note_id@,
                decreases m - j,
            {
                if str_eq(cur.links[j].as_str(), note_id) {
                    proof {
                        assert(nv.links[j as int] == cur.links@[j as int]@);
                    }
                    found = true;
                }
                proof {
                    assert(nv.links[j as int] == cur.links@[j as int]@);
                }
                j += 1;
            }
            proof {
                assert(found == nv.links.contains(note_id@));
            }
            let ghost apre = acc.deep_view();
            if found {
                let item = self.notes[k].duplicate_value();
                let ghost iv = item@;
                proof {
                    assert(iv == nv);
                }
                acc.push(item);
                proof {
                    assert(acc.deep_view().len() == apre.len() + 1);
                    assert(forall|q: int| 0 <= q < apre.len() ==> acc.deep_view()[q] == apre[q]);
                    assert(acc.deep_view()[apre.len() as int] == iv);
                    assert(acc.deep_view() =~= apre.push(nv));
                }
            }
            proof {
                lemma_backlinks_sel_push(self@.subrange(0, k as int), nv, note_id@);
                assert(self@.subrange(0, k as int).push(nv) =~= self@.subrange(0, k + 1 as int));
                assert(acc.deep_view() =~= backlinks_sel(
                    self@.subrange(0, k + 1 as int),
                    note_id@,
                ));
            }
            k += 1;
        }
        proof {
            assert(self@.subrange(0, n as int) =~= self@);
        }
        sort_notes(acc)
    }

    /// The notes bearing the tag, compared in lower case, in display
    /// order.
    pub fn search_by_tag(&self, tag: &str) -> (r: Vec<Note>)
        ensures
            sorted_notes(r.deep_view()),
            r.deep_view().to_multiset() == tag_sel(self@, tag@).to_multiset(),
    {
        let tl = to_lower(tag);
        let n = self.notes.len();
        let mut acc: Vec<Note> = Vec::new();
        let mut k: usize = 0;
        proof {
            assert(acc.deep_view() =~= Seq::<NoteView>::empty());
            assert(self@.subrange(0, 0) =~= Seq::<NoteView>::empty());
            assert(tag_sel(self@.subrange(0, 0), tag@) == Seq::<NoteView>::empty());
        }
        while k < n
            invariant
                n == self.notes@.len(),
                self@.len() == n,
                k <= n,
                tl@ == lower_of(tag@),
                acc.deep_view() == tag_sel(self@.subrange(0, k as int), tag@),
            decreases n - k,
        {
            let ghost nv = self@[k as int];
            let cur = &self.notes[k];
            let m = cur.tags.len();
            let mut found = false;
            let mut j: usize = 0;
            proof {
                assert(nv.tags == cur.tags.deep_view());
            }
            while j < m
                invariant
                    m == cur.tags@.len(),
                    nv.tags == cur.tags.deep_view(),
                    nv.tags.len() == m,
                    j <= m,
                    tl@ == lower_of(tag@),
                    found <==> exists|q: int|
                        0 <= q < j && lower_of(#[trigger] nv.tags[q]) == lower_of(tag@),
                decreases m - j,
            {
                let el = to_lower(cur.tags[j].as_str());
                if str_eq(el.as_str(), tl.as_str()) {
                    proof {
                        assert(nv.tags[j as int] == cur.tags@[j as int]@);
                    }
                    found = true;
                }
                proof {
                    assert(nv.tags[j as int] == cur.tags@[j as int]@);
                }
                j += 1;
            }
            proof {
                assert(found == tag_present(nv.tags, tag@));
            }
            let ghost apre = acc.deep_view();
            if found {
                let item = self.notes[k].duplicate_value();
                let ghost iv = item@;
                proof {
                    assert(iv == nv);
                }
                acc.push(item);
                proof {
                    assert(acc.deep_view().len() == apre.len() + 1);
                    assert(forall|q: int| 0 <= q < apre.len() ==> acc.deep_view()[q] == apre[q]);
                    assert(acc.deep_view()[apre.len() as int] == iv);
                    assert(acc.deep_view() =~= apre.push(nv));
                }
            }
            proof {
                lemma_tag_sel_push(self@.subrange(0, k as int), nv, tag@);
                assert(self@.subrange(0, k as int).push(nv) =~= self@.subrange(0, k + 1 as int));
                assert(acc.deep_view() =~= tag_sel(self@.subrange(0, k + 1 as int), tag@));
            }
            k += 1;
        }
        proof {
            assert(self@.subrange(0, n as int) =~= self@);
        }
        sort_notes(acc)
    }

    /// Searches by substring in title or content, case-insensitively; a
    /// query opening with `#` searches by tag instead, and a `#` with
    /// nothing after it returns the whole corpus.
    pub fn search_notes(&self, query: &str) -> (r: Vec<Note>)
        ensures
            sorted_notes(r.deep_view()),
            r.deep_view().to_multiset() == query_sel(self@, query@).to_multiset(),
    {
        let qv = chars_of(query);
        let n_q = qv.len();
        if n_q > 0 && qv[0] == '#' {
            let mut p: usize = 0;
            while p < n_q && qv[p] == '#'
                invariant
                    n_q == query@.len(),
                    qv@ == query@,
                    p <= n_q,
                    forall|k: int| 0 <= k < p ==> query@[k] == '#',
                decreases n_q - p,
            {
                p += 1;
            }
            proof {
                lemma_strip_hashes_skip(query@, p as int);
            }
            let stripped = sub_chars(&qv, p, n_q);
            proof {
                assert(stripped@ =~= query@.skip(p as int));
            }
            let trimmed = trim_chars(&stripped);
            if trimmed.len() == 0 {
                let r = self.list_notes();
                proof {
                    lemma_empty_tag_query_selects_all(self@, query@);
                }
                r
            } else {
                let tag = chars_to_string(&trimmed);
                let r = self.search_by_tag(tag.as_str());
                proof {
                    lemma_hash_query_is_tag_sel(self@, query@);
                }
                r
            }
        } else {
            let ql = to_lower(query);
            let qlv = chars_of(ql.as_str());
            let n = self.notes.len();
            let mut acc: Vec<Note> = Vec::new();
            let mut k: usize = 0;
            proof {
                assert(acc.deep_view() =~= Seq::<NoteView>::empty());
                assert(self@.subrange(0, 0) =~= Seq::<NoteView>::empty());
                assert(query_sel(self@.subrange(0, 0), query@) == Seq::<NoteView>::empty());
            }
            while k < n
                invariant
                    n == self.notes@.len(),
                    self@.len() == n,
                    k <= n,
                    !(query@.len() > 0 && query@[0] == '#'),
                    qlv@ == lower_of(query@),
                    acc.deep_view() == query_sel(self@.subrange(0, k as int), query@),
                decreases n - k,
            {
                let ghost nv = self@[k as int];
                let cur = &self.notes[k];
                let tliter = to_lower(cur.title.as_str());
                let tlv = chars_of(tliter.as_str());
                let cliter = to_lower(cur.content.as_str());
                let clv = chars_of(cliter.as_str());
                proof {
                    assert(nv.title == cur.title@);
                    assert(nv.content == cur.content@);
                }
                let found = has_substring(&tlv, &qlv) || has_substring(&clv, &qlv);
                proof {
                    assert(found == text_matches(nv, query@));
                    assert(found == matches_query(nv, query@));
                }
                let ghost apre = acc.deep_view();
                if found {
                    let item = self.notes[k].duplicate_value();
                    let ghost iv = item@;
                    proof {
                        assert(iv == nv);
                    }
                    acc.push(item);
                    proof {
                        assert(acc.deep_view().len() == apre.len() + 1);
                        assert(forall|q: int|
                            0 <= q < apre.len() ==> acc.deep_view()[q] == apre[q]);
                        assert(acc.deep_view()[apre.len() as int] == iv);
                        assert(acc.deep_view() =~= apre.push(nv));
                    }
                }
                proof {
                    lemma_query_sel_push(self@.subrange(0, k as int), nv, query@);
                    assert(self@.subrange(0, k as int).push(nv) =~= self@.subrange(
                        0,
                        k + 1 as int,
                    ));
                    assert(acc.deep_view() =~= query_sel(self@.subrange(0, k + 1 as int), query@));
                }
                k += 1;
            }
            proof {
                assert(self@.subrange(0, n as int) =~= self@);
            }
            sort_notes(acc)
        }
    }
}

/// Corpus totals; the two sums saturate at `usize::MAX`.
#[derive(Debug, PartialEq, Eq, Structural)]
pub struct NoteStatistics {
    pub total_notes: usize,
    pub total_links: usize,
    pub total_tags: usize,
    pub unique_tags_count: usize,
}

/// The number of links over all notes.
pub open spec fn sum_links(s: Seq<NoteView>) -> int
    decreases s.len(),
{
    if s.len() == 0 {
        0
    } else {
        s[0].links.len() + sum_links(s.drop_first())
    }
}

/// The number of tags over all notes.
pub open spec fn sum_tags(s: Seq<NoteView>) -> int
    decreases s.len(),
{
    if s.len() == 0 {
        0
    } else {
        s[0].tags.len() + sum_tags(s.drop_first())
    }
}

/// The lower-case forms of a note's tags, in order.
pub open spec fn keys_of_tags(tags: Seq<Seq<char>>) -> Seq<Seq<char>>
    decreases tags.len(),
{
    if tags.len() == 0 {
        Seq::empty()
    } else {
        seq![lower_of(tags[0])] + keys_of_tags(tags.drop_first())
    }
}

/// The lower-case tags of the whole corpus, note by note.
pub open spec fn all_tag_keys(s: Seq<NoteView>) -> Seq<Seq<char>>
    decreases s.len(),
{
    if s.len() == 0 {
        Seq::empty()
    } else {
        keys_of_tags(s[0].tags) + all_tag_keys(s.drop_first())
    }
}

/// How many distinct values `keys` adds beyond `seen`.
pub open spec fn distinct_count(keys: Seq<Seq<char>>, seen: Seq<Seq<char>>) -> int
    decreases keys.len(),
{
    if keys.len() == 0 {
        0
    } else if seen.contains(keys[0]) {
        distinct_count(keys.drop_first(), seen)
    } else {
        1 + distinct_count(keys.drop_first(), seen.push(keys[0]))
    }
}

/// `x` held below the greatest `usize` value.
pub open spec fn cap_usize(x: int) -> int {
    if x <= usize::MAX {
        x
    } else {
        usize::MAX as int
    }
}

proof fn lemma_sum_links_push(s: Seq<NoteView>, v: NoteView)
    ensures
        sum_links(s.push(v)) == sum_links(s) + v.links.len(),
    decreases s.len(),
{
    let q = s.push(v);
    assert(sum_links(q) == q[0].links.len() + sum_links(q.drop_first()));
    if s.len() == 0 {
        assert(q[0] == v);
        assert(q.drop_first() =~= Seq::<NoteView>::empty());
        assert(sum_links(q.drop_first()) == 0);
        assert(sum_links(s) == 0);
    } else {
        assert(q[0] == s[0]);
        assert(q.drop_first() =~= s.drop_first().push(v));
        lemma_sum_links_push(s.drop_first(), v);
        assert(sum_links(s) == s[0].links.len() + sum_links(s.drop_first()));
    }
}

proof fn lemma_sum_tags_push(s: Seq<NoteView>, v: NoteView)
    ensures
        sum_tags(s.push(v)) == sum_tags(s) + v.tags.len(),
    decreases s.len(),
{
    let q = s.push(v);
    assert(sum_tags(q) == q[0].tags.len() + sum_tags(q.drop_first()));
    if s.len() == 0 {
        assert(q[0] == v);
        assert(q.drop_first() =~= Seq::<NoteView>::empty());
        assert(sum_tags(q.drop_first()) == 0);
        assert(sum_tags(s) == 0);
    } else {
        assert(q[0] == s[0]);
        assert(q.drop_first() =~= s.drop_first().push(v));
        lemma_sum_tags_push(s.drop_first(), v);
        assert(sum_tags(s) == s[0].tags.len() + sum_tags(s.drop_first()));
    }
}

proof fn lemma_keys_of_tags_push(p: Seq<Seq<char>>, x: Seq<char>)
    ensures
        keys_of_tags(p.push(x)) == keys_of_tags(p).push(lower_of(x)),
    decreases p.len(),
{
    let q = p.push(x);
    assert(keys_of_tags(q) == seq![lower_of(q[0])] + keys_of_tags(q.drop_first()));
    if p.len() == 0 {
        assert(q[0] == x);
        assert(q.drop_first() =~= Seq::<Seq<char>>::empty());
        assert(keys_of_tags(q.drop_first()) == Seq::<Seq<char>>::empty());
        assert(keys_of_tags(p) == Seq::<Seq<char>>::empty());
        assert(keys_of_tags(q) =~= keys_of_tags(p).push(lower_of(x)));
    } else {
        assert(q[0] == p[0]);
        assert(q.drop_first() =~= p.drop_first().push(x));
        lemma_keys_of_tags_push(p.drop_first(), x);
        assert(keys_of_tags(q) == seq![lower_of(p[0])] + keys_of_tags(p.drop_first()).push(
            lower_of(x),
        ));
        assert(seq![lower_of(p[0])] + keys_of_tags(p.drop_first()).push(lower_of(x)) =~= (seq![
            lower_of(p[0]),
        ] + keys_of_tags(p.drop_first())).push(lower_of(x)));
    }
}

proof fn lemma_all_tag_keys_push(s: Seq<NoteView>, v: NoteView)
    ensures
        all_tag_keys(s.push(v)) == all_tag_keys(s) + keys_of_tags(v.tags),
    decreases s.len(),
{
    let q = s.push(v);
    assert(all_tag_keys(q) == keys_of_tags(q[0].tags) + all_tag_keys(q.drop_first()));
    if s.len() == 0 {
        assert(q[0] == v);
        assert(q.drop_first() =~= Seq::<NoteView>::empty());
        assert(all_tag_keys(q.drop_first()) == Seq::<Seq<char>>::empty());
        assert(all_tag_keys(s) == Seq::<Seq<char>>::empty());
        assert(all_tag_keys(q) == keys_of_tags(v.tags) + Seq::<Seq<char>>::empty());
        assert(keys_of_tags(v.tags) + Seq::<Seq<char>>::empty() =~= keys_of_tags(v.tags));
        assert(all_tag_keys(s) + keys_of_tags(v.tags) =~= keys_of_tags(v.tags));
    } else {
        assert(q[0] == s[0]);
        assert(q.drop_first() =~= s.drop_first().push(v));
        lemma_all_tag_keys_push(s.drop_first(), v);
        assert(all_tag_keys(q) == keys_of_tags(s[0].tags) + (all_tag_keys(s.drop_first())
            + keys_of_tags(v.tags)));
        assert(keys_of_tags(s[0].tags) + (all_tag_keys(s.drop_first()) + keys_of_tags(v.tags)) =~= (
        keys_of_tags(s[0].tags) + all_tag_keys(s.drop_first())) + keys_of_tags(v.tags));
    }
}

/// Membership of a string among collected keys.
fn contains_string(v: &Vec<String>, s: &str) -> (r: bool)
    ensures
        r == v.deep_view().contains(s@),
{
    let n = v.len();
    let mut i: usize = 0;
    while i < n
        invariant
            n == v@.len(),
            i <= n,
            forall|k: int| 0 <= k < i ==> (#[trigger] v.deep_view()[k]) != s@,
        decreases n - i,
    {
        if str_eq(v[i].as_str(), s) {
            proof {
                assert(v.deep_view()[i as int] == s@);
            }
            return true;
        }
        proof {
            assert(v.deep_view()[i as int] == v@[i as int]@);
        }
        i += 1;
    }
    proof {
        if v.deep_view().contains(s@) {
            let w = choose|k: int| 0 <= k < v.deep_view().len() && v.deep_view()[k] == s@;
            assert(v.deep_view()[w] != s@);
        }
    }
    false
}

fn saturating_add_usize(a: usize, b: usize) -> (r: usize)
    ensures
        r as int == cap_usize(a + b),
{
    if a > usize::MAX - b {
        usize::MAX
    } else {
        a + b
    }
}

impl NoteService {
    /// Counts of the corpus: notes, links, tags (sums saturating), and
    /// tags distinct in lower case.
    pub fn get_statistics(&self) -> (r: NoteStatistics)
        ensures
            r.total_notes == self@.len(),
            r.total_links as int == cap_usize(sum_links(self@)),
            r.total_tags as int == cap_usize(sum_tags(self@)),
            r.unique_tags_count as int == distinct_count(all_tag_keys(self@), Seq::empty()),
    {
        let n = self.notes.len();
        let mut links_total: usize = 0;
        let mut tags_total: usize = 0;
        let mut keys: Vec<String> = Vec::new();
        let mut k: usize = 0;
        proof {
            assert(self@.subrange(0, 0) =~= Seq::<NoteView>::empty());
            assert(keys.deep_view() =~= Seq::<Seq<char>>::empty());
            assert(all_tag_keys(self@.subrange(0, 0)) == Seq::<Seq<char>>::empty());
        }
        while k < n
            invariant
                n == self.notes@.len(),
                self@.len() == n,
                k <= n,
                links_total as int == cap_usize(sum_links(self@.subrange(0, k as int))),
                tags_total as int == cap_usize(sum_tags(self@.subrange(0, k as int))),
                keys.deep_view() == all_tag_keys(self@.subrange(0, k as int)),
            decreases n - k,
        {
            let ghost nv = self@[k as int];
            let cur = &self.notes[k];
            proof {
                assert(nv.links == cur.links.deep_view());
                assert(nv.tags == cur.tags.deep_view());
                assert(nv.links.len() == cur.links@.len());
                assert(nv.tags.len() == cur.tags@.len());
            }
            links_total = saturating_add_usize(links_total, cur.links.len());
            tags_total = saturating_add_usize(tags_total, cur.tags.len());
            let m = cur.tags.len();
            let mut j: usize = 0;
            proof {
                assert(nv.tags.subrange(0, 0) =~= Seq::<Seq<char>>::empty());
                assert(keys_of_tags(nv.tags.subrange(0, 0)) == Seq::<Seq<char>>::empty());
                assert(keys.deep_view() =~= all_tag_keys(self@.subrange(0, k as int))
                    + keys_of_tags(nv.tags.subrange(0, 0)));
            }
            while j < m
                invariant
                    m == cur.tags@.len(),
                    nv.tags == cur.tags.deep_view(),
                    nv.tags.len() == m,
                    j <= m,
                    k < self@.len(),
                    nv == self@[k as int],
                    keys.deep_view() == all_tag_keys(self@.subrange(0, k as int)) + keys_of_tags(
                        nv.tags.subrange(0, j as int),
                    ),
                decreases m - j,
            {
                let key = to_lower(cur.tags[j].as_str());
                let ghost kv = key@;
                let ghost kpre = keys.deep_view();
                proof {
                    assert(nv.tags[j as int] == cur.tags@[j as int]@);
                    assert(kv == lower_of(nv.tags[j as int]));
                }
                keys.push(key);
                proof {
                    assert(keys.deep_view().len() == kpre.len() + 1);
                    assert(forall|q: int| 0 <= q < kpre.len() ==> keys.deep_view()[q] == kpre[q]);
                    assert(keys.deep_view()[kpre.len() as int] == kv);
                    lemma_keys_of_tags_push(nv.tags.subrange(0, j as int), nv.tags[j as int]);
                    assert(nv.tags.subrange(0, j as int).push(nv.tags[j as int]) =~= nv.tags
                        .subrange(0, j + 1 as int));
                    assert((all_tag_keys(self@.subrange(0, k as int)) + keys_of_tags(
                        nv.tags.subrange(0, j as int),
                    )).push(kv) =~= all_tag_keys(self@.subrange(0, k as int)) + keys_of_tags(
                        nv.tags.subrange(0, j as int),
                    ).push(kv));
                    assert(keys.deep_view() =~= all_tag_keys(self@.subrange(0, k as int))
                        + keys_of_tags(nv.tags.subrange(0, j + 1 as int)));
                }
                j += 1;
            }
            proof {
                assert(nv.tags.subrange(0, m as int) =~= nv.tags);
                lemma_all_tag_keys_push(self@.subrange(0, k as int), nv);
                assert(self@.subrange(0, k as int).push(nv) =~= self@.subrange(0, k + 1 as int));
                lemma_sum_links_push(self@.subrange(0, k as int), nv);
                lemma_sum_tags_push(self@.subrange(0, k as int), nv);
            }
            k += 1;
        }
        proof {
            assert(self@.subrange(0, n as int) =~= self@);
        }
        let total = keys.len();
        let mut seen: Vec<String> = Vec::new();
        let ghost keysall = keys.deep_view();
        let mut j: usize = 0;
        proof {
            assert(seen.deep_view() =~= Seq::<Seq<char>>::empty());
            assert(keysall.skip(0) =~= keysall);
        }
        while j < total
            invariant
                total == keys@.len(),
                keysall == keys.deep_view(),
                keysall.len() == total,
                j <= total,
                distinct_count(keysall, Seq::empty()) == seen.deep_view().len() + distinct_count(
                    keysall.skip(j as int),
                    seen.deep_view(),
                ),
            decreases total - j,
        {
            let ghost spre = seen.deep_view();
            let ghost tail = keysall.skip(j as int);
            proof {
                assert(tail.len() > 0);
                assert(tail[0] == keysall[j as int]);
                assert(keysall[j as int] == keys@[j as int]@);
                assert(tail.drop_first() =~= keysall.skip(j + 1 as int));
            }
            if !contains_string(&seen, keys[j].as_str()) {
                let item = keys[j].clone();
                let ghost iv = item@;
                seen.push(item);
                proof {
                    assert(seen.deep_view().len() == spre.len() + 1);
                    assert(forall|q: int| 0 <= q < spre.len() ==> seen.deep_view()[q] == spre[q]);
                    assert(seen.deep_view()[spre.len() as int] == iv);
                    assert(seen.deep_view() =~= spre.push(keysall[j as int]));
                    assert(distinct_count(tail, spre) == 1 + distinct_count(
                        keysall.skip(j + 1 as int),
                        spre.push(keysall[j as int]),
                    ));
                }
            } else {
                proof {
                    assert(distinct_count(tail, spre) == distinct_count(
                        keysall.skip(j + 1 as int),
                        spre,
                    ));
                }
            }
            j += 1;
        }
        proof {
            assert(keysall.skip(total as int).len() == 0);
            assert(distinct_count(keysall.skip(total as int), seen.deep_view()) == 0);
        }
        let unique = seen.len();
        proof {
            assert(seen.deep_view().len() == seen@.len());
        }
        NoteStatistics {
            total_notes: n,
            total_links: links_total,
            total_tags: tags_total,
            unique_tags_count: unique,
        }
    }
}

/// Comma-separated joining, as displayed.
pub open spec fn join_comma(xs: Seq<Seq<char>>) -> Seq<char>
    decreases xs.len(),
{
    if xs.len() == 0 {
        Seq::empty()
    } else if xs.len() == 1 {
        xs[0]
    } else {
        xs[0] + ", "@ + join_comma(xs.drop_first())
    }
}

proof fn lemma_join_comma_push(p: Seq<Seq<char>>, x: Seq<char>)
    ensures
        join_comma(p.push(x)) == if p.len() == 0 {
            x
        } else {
            join_comma(p) + ", "@ + x
        },
    decreases p.len(),
{
    let q = p.push(x);
    if p.len() == 0 {
        assert(q.len() == 1);
        assert(q[0] == x);
        assert(join_comma(q) == x);
    } else if p.len() == 1 {
        assert(q.len() == 2);
        assert(q[0] == p[0]);
        assert(q.drop_first() =~= Seq::<Seq<char>>::empty().push(x));
        assert(q.drop_first().len() == 1);
        assert(q.drop_first()[0] == x);
        assert(join_comma(q.drop_first()) == x);
        assert(join_comma(q) == q[0] + ", "@ + join_comma(q.drop_first()));
        assert(join_comma(p) == p[0]);
    } else {
        assert(q[0] == p[0]);
        assert(q.drop_first() =~= p.drop_first().push(x));
        lemma_join_comma_push(p.drop_first(), x);
        assert(join_comma(q) == q[0] + ", "@ + join_comma(p.drop_first().push(x)));
        assert(join_comma(p) == p[0] + ", "@ + join_comma(p.drop_first()));
        assert(p[0] + ", "@ + (join_comma(p.drop_first()) + ", "@ + x) =~= (p[0] + ", "@
            + join_comma(p.drop_first())) + ", "@ + x);
    }
}

/// The displayed labels of a note's links: the bracketed title of each
/// link that resolves; dangling links contribute nothing.
pub open spec fn linked_labels(s: Seq<NoteView>, links: Seq<Seq<char>>) -> Seq<Seq<char>>
    decreases links.len(),
{
    if links.len() == 0 {
        Seq::empty()
    } else {
        (if has_note(s, links[0]) {
            seq!["[["@ + the_note(s, links[0]).title + "]]"@]
        } else {
            Seq::empty()
        }) + linked_labels(s, links.drop_first())
    }
}

proof fn lemma_linked_labels_push(s: Seq<NoteView>, p: Seq<Seq<char>>, x: Seq<char>)
    ensures
        linked_labels(s, p.push(x)) == linked_labels(s, p) + (if has_note(s, x) {
            seq!["[["@ + the_note(s, x).title + "]]"@]
        } else {
            Seq::<Seq<char>>::empty()
        }),
    decreases p.len(),
{
    let q = p.push(x);
    let tail = (if has_note(s, x) {
        seq!["[["@ + the_note(s, x).title + "]]"@]
    } else {
        Seq::<Seq<char>>::empty()
    });
    if p.len() == 0 {
        assert(q[0] == x);
        assert(q.drop_first() =~= Seq::<Seq<char>>::empty());
        assert(linked_labels(s, q.drop_first()) == Seq::<Seq<char>>::empty());
        assert(linked_labels(s, p) == Seq::<Seq<char>>::empty());
        assert(linked_labels(s, q) =~= tail);
        assert(linked_labels(s, p) + tail =~= tail);
    } else {
        assert(q[0] == p[0]);
        assert(q.drop_first() =~= p.drop_first().push(x));
        lemma_linked_labels_push(s, p.drop_first(), x);
        let h = (if has_note(s, p[0]) {
            seq!["[["@ + the_note(s, p[0]).title + "]]"@]
        } else {
            Seq::<Seq<char>>::empty()
        });
        assert(linked_labels(s, q) == h + (linked_labels(s, p.drop_first()) + tail));
        assert(linked_labels(s, p) == h + linked_labels(s, p.drop_first()));
        assert(h + (linked_labels(s, p.drop_first()) + tail) =~= (h + linked_labels(
            s,
            p.drop_first(),
        )) + tail);
    }
}

/// A note rendered as markdown: the title as a heading, a metadata block
/// with id, timestamps, tags and resolved link titles, then the content.
pub open spec fn markdown_of(s: Seq<NoteView>, v: NoteView) -> Seq<char> {
    "# "@ + v.title + "\n\n---\n**ID:** "@ + v.id + "\n**Created:** "@ + v.created_at
        + "\n**Updated:** "@ + v.updated_at + "\n"@ + (if v.tags.len() > 0 {
        "**Tags:** "@ + join_comma(v.tags) + "\n"@
    } else {
        Seq::empty()
    }) + (if v.links.len() > 0 {
        "**Links:** "@ + join_comma(linked_labels(s, v.links)) + "\n"@
    } else {
        Seq::empty()
    }) + "---\n\n"@ + v.content + "\n"@
}

/// Joins strings with commas.
fn join_with_comma(xs: &Vec<String>) -> (r: String)
    ensures
        r@ == join_comma(xs.deep_view()),
{
    let n = xs.len();
    let mut r = String::new();
    let mut k: usize = 0;
    proof {
        assert(xs.deep_view().subrange(0, 0) =~= Seq::<Seq<char>>::empty());
        assert(r@ =~= join_comma(xs.deep_view().subrange(0, 0)));
    }
    while k < n
        invariant
            n == xs@.len(),
            xs.deep_view().len() == n,
            k <= n,
            r@ == join_comma(xs.deep_view().subrange(0, k as int)),
        decreases n - k,
    {
        if k > 0 {
            r.append(", ");
        }
        r.append(xs[k].as_str());
        proof {
            let pre = xs.deep_view().subrange(0, k as int);
            lemma_join_comma_push(pre, xs.deep_view()[k as int]);
            assert(xs.deep_view()[k as int] == xs@[k as int]@);
            assert(pre.push(xs.deep_view()[k as int]) =~= xs.deep_view().subrange(0, k + 1 as int));
            assert(r@ =~= join_comma(xs.deep_view().subrange(0, k + 1 as int)));
        }
        k += 1;
    }
    proof {
        assert(xs.deep_view().subrange(0, n as int) =~= xs.deep_view());
    }
    r
}

/// The commit description recorded when a note is created.
pub fn creation_message(title: &str, stamp: &str) -> (r: String)
    ensures
        r@ == "Note: "@ + title@ + " ("@ + stamp@ + ")"@,
{
    let mut m = String::new();
    m.append("Note: ");
    m.append(title);
    m.append(" (");
    m.append(stamp);
    m.append(")");
    proof {
        assert(m@ =~= "Note: "@ + title@ + " ("@ + stamp@ + ")"@);
    }
    m
}

/// The commit description recorded when a note's content changes.
pub fn update_message(title: &str, stamp: &str) -> (r: String)
    ensures
        r@ == "Update: "@ + title@ + " ("@ + stamp@ + ")"@,
{
    let mut m = String::new();
    m.append("Update: ");
    m.append(title);
    m.append(" (");
    m.append(stamp);
    m.append(")");
    proof {
        assert(m@ =~= "Update: "@ + title@ + " ("@ + stamp@ + ")"@);
    }
    m
}

/// The commit description recorded when a note is duplicated.
pub fn duplicate_message(title: &str, stamp: &str) -> (r: String)
    ensures
        r@ == "Duplicate: "@ + title@ + " ("@ + stamp@ + ")"@,
{
    let mut m = String::new();
    m.append("Duplicate: ");
    m.append(title);
    m.append(" (");
    m.append(stamp);
    m.append(")");
    proof {
        assert(m@ =~= "Duplicate: "@ + title@ + " ("@ + stamp@ + ")"@);
    }
    m
}

/// The commit description recorded when a note is deleted.
pub fn deletion_message(id: &str, stamp: &str) -> (r: String)
    ensures
        r@ == "Delete note: "@ + id@ + " ("@ + stamp@ + ")"@,
{
    let mut m = String::new();
    m.append("Delete note: ");
    m.append(id);
    m.append(" (");
    m.append(stamp);
    m.append(")");
    proof {
        assert(m@ =~= "Delete note: "@ + id@ + " ("@ + stamp@ + ")"@);
    }
    m
}

impl NoteService {
    /// Renders a note as markdown; link titles are resolved against the
    /// corpus and dangling links are skipped.
    pub fn export_note_to_markdown(&self, note: &Note) -> (r: String)
        ensures
            r@ == markdown_of(self@, note@),
    {
        proof {
            use_type_invariant(self);
        }
        let mut md = String::new();
        md.append("# ");
        md.append(note.title.as_str());
        md.append("\n\n---\n**ID:** ");
        md.append(note.id.as_str());
        md.append("\n**Created:** ");
        md.append(note.created_at.as_str());
        md.append("\n**Updated:** ");
        md.append(note.updated_at.as_str());
        md.append("\n");
        let ghost head = "# "@ + note@.title + "\n\n---\n**ID:** "@ + note@.id + "\n**Created:** "@
            + note@.created_at + "\n**Updated:** "@ + note@.updated_at + "\n"@;
        proof {
            assert(md@ =~= head);
        }
        if note.tags.len() > 0 {
            md.append("**Tags:** ");
            let joined = join_with_comma(&note.tags);
            md.append(joined.as_str());
            md.append("\n");
        }
        let ghost tagpart = (if note@.tags.len() > 0 {
            "**Tags:** "@ + join_comma(note@.tags) + "\n"@
        } else {
            Seq::<char>::empty()
        });
        proof {
            assert(note.tags@.len() == note@.tags.len());
            assert(md@ =~= head + tagpart);
        }
        if note.links.len() > 0 {
            let m = note.links.len();
            let mut labels: Vec<String> = Vec::new();
            let mut k: usize = 0;
            proof {
                assert(labels.deep_view() =~= Seq::<Seq<char>>::empty());
                assert(note@.links.subrange(0, 0) =~= Seq::<Seq<char>>::empty());
                assert(linked_labels(self@, note@.links.subrange(0, 0)) == Seq::<
                    Seq<char>,
                >::empty());
            }
            while k < m
                invariant
                    m == note.links@.len(),
                    note@.links == note.links.deep_view(),
                    note@.links.len() == m,
                    k <= m,
                    labels.deep_view() == linked_labels(self@, note@.links.subrange(0, k as int)),
                decreases m - k,
            {
                let ghost lk = note@.links[k as int];
                proof {
                    assert(lk == note.links@[k as int]@);
                }
                let ghost lpre = labels.deep_view();
                match self.get_note(note.links[k].as_str()) {
                    Some(target) => {
                        let mut lab = String::new();
                        lab.append("[[");
                        lab.append(target.title.as_str());
                        lab.append("]]");
                        let ghost lv = lab@;
                        proof {
                            assert(lv =~= "[["@ + the_note(self@, lk).title + "]]"@);
                        }
                        labels.push(lab);
                        proof {
                            assert(labels.deep_view().len() == lpre.len() + 1);
                            assert(forall|q: int|
                                0 <= q < lpre.len() ==> labels.deep_view()[q] == lpre[q]);
                            assert(labels.deep_view()[lpre.len() as int] == lv);
                            assert(labels.deep_view() =~= lpre.push(
                                "[["@ + the_note(self@, lk).title + "]]"@,
                            ));
                        }
                    },
                    None => {},
                }
                proof {
                    lemma_linked_labels_push(self@, note@.links.subrange(0, k as int), lk);
                    assert(note@.links.subrange(0, k as int).push(lk) =~= note@.links.subrange(
                        0,
                        k + 1 as int,
                    ));
                    assert(labels.deep_view() =~= linked_labels(
                        self@,
                        note@.links.subrange(0, k + 1 as int),
                    ));
                }
                k += 1;
            }
            proof {
                assert(note@.links.subrange(0, m as int) =~= note@.links);
            }
            md.append("**Links:** ");
            let joined = join_with_comma(&labels);
            md.append(joined.as_str());
            md.append("\n");
        }
        let ghost linkpart = (if note@.links.len() > 0 {
            "**Links:** "@ + join_comma(linked_labels(self@, note@.links)) + "\n"@
        } else {
            Seq::<char>::empty()
        });
        proof {
            assert(note.links@.len() == note@.links.len());
            assert(md@ =~= head + tagpart + linkpart);
        }
        md.append("---\n\n");
        md.append(note.content.as_str());
        md.append("\n");
        proof {
            assert(md@ =~= markdown_of(self@, note@));
        }
        md
    }

    /// The revision history of a note, reconciled from the backend's two
    /// log texts by the note's current title (empty when the note is
    /// unknown), newest first.
    pub fn get_note_history(&self, note_id: &str, scoped_log: Option<&str>, full_log: &str) -> (r:
        Vec<CommitInfo>)
        ensures
            r.deep_view() == reconcile_spec(
                match scoped_log {
                    Some(t) => Some(t@),
                    None => None,
                },
                full_log@,
                if has_note(self@, note_id@) {
                    the_note(self@, note_id@).title
                } else {
                    Seq::empty()
                },
            ),
    {
        let title: String = match self.get_note(note_id) {
            Some(n) => n.title,
            None => String::new(),
        };
        let backend = Jujutsu::new(self.repo_path.clone());
        backend.get_file_history_with_title(scoped_log, full_log, title.as_str())
    }

    /// The configured repository root.
    pub fn repo_path(&self) -> (r: &str)
        ensures
            r@ == self.repo_path_view(),
    {
        self.repo_path.as_str()
    }

    /// The directory holding the note files.
    pub fn notes_dir(&self) -> (r: &str)
        ensures
            r@ == self.notes_dir_view(),
    {
        self.notes_dir.as_str()
    }
}

} // verus!
