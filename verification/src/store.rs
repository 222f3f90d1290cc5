//! The store: notes, collections, images and their associations, together
//! with the derived full-text index. Every mutation keeps the index in
//! lockstep with the notes, so a query issued right after a mutation sees
//! exactly the latest committed content.
use vstd::prelude::*;

use crate::ext::{fresh_id, now_micros};
use crate::model::{
    clone_opt_string, Collection, ImageMetadata, Note, NoteImage, StorageInfo, StoreError,
};
use crate::order::{
    insert_collection_tree, insert_note_recency, recency_leq, sort_by, tree_order_leq,
};
use crate::text::{
    count_characters, count_words, lemma_normalize_idempotent, normalize_spec, sanitize_content,
    str_eq, word_count_spec,
};
use vstd::pervasive::VecAdditionalExecFns;

verus! {

/// One derived projection of a note, mirrored into the full-text index.
#[derive(Debug)]
pub struct IndexEntry {
    pub note_id: String,
    pub title: String,
    pub content: String,
    pub tags: String,
}

/// The index entry carries exactly the searchable fields of the note.
pub open spec fn entry_matches(e: IndexEntry, n: Note) -> bool {
    &&& e.note_id@ == n.id@
    &&& e.title@ == n.title@
    &&& e.content@ == n.content@
    &&& e.tags@ == n.tags@
}

/// The index mirrors the note table row for row.
pub open spec fn index_synced(ix: Seq<IndexEntry>, ns: Seq<Note>) -> bool {
    &&& ix.len() == ns.len()
    &&& forall|i: int| 0 <= i < ns.len() ==> entry_matches(#[trigger] ix[i], ns[i])
}

/// Every note is well-formed.
pub open spec fn notes_wf(ns: Seq<Note>) -> bool {
    forall|i: int| 0 <= i < ns.len() ==> (#[trigger] ns[i]).wf()
}

/// No two notes share an id.
pub open spec fn note_ids_unique(ns: Seq<Note>) -> bool {
    forall|i: int, j: int| 0 <= i < j < ns.len() ==> ns[i].id@ != ns[j].id@
}

/// Some note carries this id.
pub open spec fn has_note(ns: Seq<Note>, id: Seq<char>) -> bool {
    exists|k: int| 0 <= k < ns.len() && (#[trigger] ns[k].id@) == id
}

/// Every collection is well-formed.
pub open spec fn collections_wf(cs: Seq<Collection>) -> bool {
    forall|i: int| 0 <= i < cs.len() ==> (#[trigger] cs[i]).wf()
}

/// No two collections share an id.
pub open spec fn collection_ids_unique(cs: Seq<Collection>) -> bool {
    forall|i: int, j: int| 0 <= i < j < cs.len() ==> cs[i].id@ != cs[j].id@
}

/// Siblings under one parent never share a sort order.
pub open spec fn sibling_orders_unique(cs: Seq<Collection>) -> bool {
    forall|i: int, j: int|
        0 <= i < j < cs.len() && cs[i].parent_id.deep_view() == cs[j].parent_id.deep_view()
            ==> cs[i].sort_order != cs[j].sort_order
}

/// Some collection carries this id.
pub open spec fn has_collection(cs: Seq<Collection>, id: Seq<char>) -> bool {
    exists|k: int| 0 <= k < cs.len() && (#[trigger] cs[k].id@) == id
}

/// Some collection names this parent.
pub open spec fn has_child(cs: Seq<Collection>, parent: Seq<char>) -> bool {
    exists|k: int| 0 <= k < cs.len() && (#[trigger] cs[k].parent_id.deep_view()) == Some(parent)
}

/// No two images share an id.
pub open spec fn image_ids_unique(ims: Seq<ImageMetadata>) -> bool {
    forall|i: int, j: int| 0 <= i < j < ims.len() ==> ims[i].id@ != ims[j].id@
}

/// Some image carries this id.
pub open spec fn has_image(ims: Seq<ImageMetadata>, id: Seq<char>) -> bool {
    exists|k: int| 0 <= k < ims.len() && (#[trigger] ims[k].id@) == id
}

/// No association edge appears twice.
pub open spec fn assoc_unique(es: Seq<NoteImage>) -> bool {
    forall|i: int, j: int|
        0 <= i < j < es.len() ==> !(es[i].note_id@ == es[j].note_id@ && es[i].image_id@
            == es[j].image_id@)
}

/// The predicate that keeps an association only when it does not belong to
/// this note.
pub open spec fn not_of_note(id: Seq<char>) -> spec_fn(NoteImage) -> bool {
    |e: NoteImage| e.note_id@ != id
}

/// Some association links this note and image.
pub open spec fn has_assoc(es: Seq<NoteImage>, note_id: Seq<char>, image_id: Seq<char>) -> bool {
    exists|k: int|
        0 <= k < es.len() && (#[trigger] es[k].note_id@) == note_id && es[k].image_id@ == image_id
}

/// The whole persistent state of the library: the entity tables and the
/// derived full-text index, which is never a source of truth and always
/// mirrors the notes.
pub struct Store {
    pub notes: Vec<Note>,
    pub collections: Vec<Collection>,
    pub images: Vec<ImageMetadata>,
    pub note_images: Vec<NoteImage>,
    pub index: Vec<IndexEntry>,
}

impl Store {
    /// Every invariant the store keeps: well-formed rows, unique ids, unique
    /// sibling sort orders, unique association edges, and an index in
    /// lockstep with the notes.
    pub open spec fn wf(&self) -> bool {
        &&& notes_wf(self.notes@)
        &&& note_ids_unique(self.notes@)
        &&& collections_wf(self.collections@)
        &&& collection_ids_unique(self.collections@)
        &&& sibling_orders_unique(self.collections@)
        &&& image_ids_unique(self.images@)
        &&& assoc_unique(self.note_images@)
        &&& index_synced(self.index@, self.notes@)
    }

    /// An empty store.
    pub fn new() -> (r: Store)
        ensures
            r.wf(),
            r.notes@.len() == 0,
            r.collections@.len() == 0,
            r.images@.len() == 0,
            r.note_images@.len() == 0,
    {
        Store {
            notes: Vec::new(),
            collections: Vec::new(),
            images: Vec::new(),
            note_images: Vec::new(),
            index: Vec::new(),
        }
    }
}

/// Position of the note with this id, if any.
pub(crate) fn find_note(notes: &Vec<Note>, id: &str) -> (r: Option<usize>)
    ensures
        r matches Some(k) ==> k < notes@.len() && notes@[k as int].id@ == id@,
        r is None ==> !has_note(notes@, id@),
{
    let mut i: usize = 0;
    while i < notes.len()
        invariant
            i <= notes@.len(),
            forall|j: int| 0 <= j < i ==> (#[trigger] notes@[j].id@) != id@,
        decreases notes@.len() - i,
    {
        if str_eq(notes[i].id.as_str(), id) {
            return Some(i);
        }
        i += 1;
    }
    None
}

/// Position of the collection with this id, if any.
pub(crate) fn find_collection(cs: &Vec<Collection>, id: &str) -> (r: Option<usize>)
    ensures
        r matches Some(k) ==> k < cs@.len() && cs@[k as int].id@ == id@,
        r is None ==> !has_collection(cs@, id@),
{
    let mut i: usize = 0;
    while i < cs.len()
        invariant
            i <= cs@.len(),
            forall|j: int| 0 <= j < i ==> (#[trigger] cs@[j].id@) != id@,
        decreases cs@.len() - i,
    {
        if str_eq(cs[i].id.as_str(), id) {
            return Some(i);
        }
        i += 1;
    }
    None
}

/// Position of the image with this id, if any.
pub(crate) fn find_image(ims: &Vec<ImageMetadata>, id: &str) -> (r: Option<usize>)
    ensures
        r matches Some(k) ==> k < ims@.len() && ims@[k as int].id@ == id@,
        r is None ==> !has_image(ims@, id@),
{
    let mut i: usize = 0;
    while i < ims.len()
        invariant
            i <= ims@.len(),
            forall|j: int| 0 <= j < i ==> (#[trigger] ims@[j].id@) != id@,
        decreases ims@.len() - i,
    {
        if str_eq(ims[i].id.as_str(), id) {
            return Some(i);
        }
        i += 1;
    }
    None
}

impl Store {
    /// Creates a note from a caller-chosen id and clock value: the content is
    /// normalized, the counts are derived from it, both timestamps are `now`,
    /// the tag list starts empty, and the index gains the matching entry.
    /// Refused only when the id is already taken.
    pub fn create_note_with(
        &mut self,
        id: String,
        now: i64,
        title: String,
        content: String,
        collection_id: Option<String>,
    ) -> (r: Result<Note, StoreError>)
        requires
            old(self).wf(),
            now < i64::MAX,
        ensures
            final(self).wf(),
            has_note(old(self).notes@, id@) ==> (r matches Err(e) && e == StoreError::Constraint
                && *final(self) == *old(self)),
            !has_note(old(self).notes@, id@) ==> (r matches Ok(n) && {
                &&& n.id@ == id@
                &&& n.title@ == title@
                &&& n.content@ == normalize_spec(content@)
                &&& n.collection_id == collection_id
                &&& n.tags@ == "[]"@
                &&& n.created_at == now
                &&& n.updated_at == now
                &&& n.word_count == word_count_spec(normalize_spec(content@))
                &&& n.character_count == normalize_spec(content@).len()
                &&& n.is_archived == false
                &&& final(self).notes@ == old(self).notes@.push(n)
                &&& final(self).collections@ == old(self).collections@
                &&& final(self).images@ == old(self).images@
                &&& final(self).note_images@ == old(self).note_images@
            }),
    {
        if find_note(&self.notes, id.as_str()).is_some() {
            return Err(StoreError::Constraint);
        }
        let clean = sanitize_content(content.as_str());
        proof {
            lemma_normalize_idempotent(content@);
        }
        let word_count = count_words(clean.as_str());
        let character_count = count_characters(clean.as_str());
        let note = Note {
            id,
            title,
            content: clean,
            collection_id,
            tags: String::from_str("[]"),
            created_at: now,
            updated_at: now,
            word_count,
            character_count,
            is_archived: false,
        };
        let entry = IndexEntry {
            note_id: note.id.clone(),
            title: note.title.clone(),
            content: note.content.clone(),
            tags: note.tags.clone(),
        };
        let returned = note.duplicate();
        self.notes.push(note);
        self.index.push(entry);
        Ok(returned)
    }

    /// Creates a note under a system-generated identifier with the current
    /// time, normalizing the content and deriving the counts. The one
    /// refusal, `Constraint`, means the freshly drawn id was already taken.
    pub fn create_note(
        &mut self,
        title: String,
        content: String,
        collection_id: Option<String>,
    ) -> (r: Result<Note, StoreError>)
        requires
            old(self).wf(),
        ensures
            final(self).wf(),
            r matches Ok(n) ==> {
                &&& n.title@ == title@
                &&& n.content@ == normalize_spec(content@)
                &&& n.collection_id == collection_id
                &&& n.tags@ == "[]"@
                &&& n.created_at == n.updated_at < i64::MAX
                &&& n.word_count == word_count_spec(normalize_spec(content@))
                &&& n.character_count == normalize_spec(content@).len()
                &&& n.is_archived == false
                &&& final(self).notes@ == old(self).notes@.push(n)
                &&& final(self).collections@ == old(self).collections@
                &&& final(self).images@ == old(self).images@
                &&& final(self).note_images@ == old(self).note_images@
            },
            r matches Err(e) ==> e == StoreError::Constraint && *final(self) == *old(self),
    {
        let id = fresh_id();
        let now = now_micros();
        self.create_note_with(id, now, title, content, collection_id)
    }

    /// A copy of the note with this id, or `NoteNotFound`.
    pub fn get_note(&self, id: &str) -> (r: Result<Note, StoreError>)
        requires
            self.wf(),
        ensures
            !has_note(self.notes@, id@) ==> (r matches Err(e) && e matches StoreError::NoteNotFound(
                s,
            ) && s@ == id@),
            forall|k: int|
                0 <= k < self.notes@.len() && (#[trigger] self.notes@[k].id@) == id@ ==> (r matches Ok(
                    n,
                ) && n == self.notes@[k]),
    {
        match find_note(&self.notes, id) {
            Some(k) => Ok(self.notes[k].duplicate()),
            None => Err(StoreError::NoteNotFound(String::from_str(id))),
        }
    }
}

/// The timestamp a successful mutation at `now` gives a row whose previous
/// timestamp was `prior`: the clock value, pushed forward when the clock has
/// not advanced past the prior value, so that the timestamp strictly grows.
pub open spec fn next_stamp(prior: i64, now: i64) -> int {
    if now > prior {
        now as int
    } else {
        prior + 1
    }
}

/// What holds after a content update of the note at position `k`.
pub open spec fn note_updated(
    pre: Store,
    post: Store,
    r: Result<Note, StoreError>,
    k: int,
    now: i64,
    content: Seq<char>,
) -> bool {
    let prior = pre.notes@[k];
    let stamp = next_stamp(prior.updated_at, now);
    if stamp < i64::MAX {
        r matches Ok(n) && {
            &&& n.id == prior.id
            &&& n.title == prior.title
            &&& n.content@ == normalize_spec(content)
            &&& n.collection_id == prior.collection_id
            &&& n.tags == prior.tags
            &&& n.created_at == prior.created_at
            &&& n.updated_at == stamp
            &&& n.updated_at > prior.updated_at
            &&& n.word_count == word_count_spec(normalize_spec(content))
            &&& n.character_count == normalize_spec(content).len()
            &&& n.is_archived == prior.is_archived
            &&& post.notes@ == pre.notes@.update(k, n)
            &&& post.collections@ == pre.collections@
            &&& post.images@ == pre.images@
            &&& post.note_images@ == pre.note_images@
        }
    } else {
        r matches Err(e) && e == StoreError::Constraint && post == pre
    }
}

/// What holds after the note at position `k` moved to `cid`.
pub open spec fn note_moved(
    pre: Store,
    post: Store,
    r: Result<(), StoreError>,
    k: int,
    now: i64,
    cid: Option<Seq<char>>,
) -> bool {
    let prior = pre.notes@[k];
    let stamp = next_stamp(prior.updated_at, now);
    if stamp < i64::MAX {
        r is Ok && {
            let after = post.notes@[k];
            &&& after.id == prior.id
            &&& after.title == prior.title
            &&& after.content == prior.content
            &&& after.collection_id.deep_view() == cid
            &&& after.tags == prior.tags
            &&& after.created_at == prior.created_at
            &&& after.updated_at == stamp
            &&& after.updated_at > prior.updated_at
            &&& after.word_count == prior.word_count
            &&& after.character_count == prior.character_count
            &&& after.is_archived == prior.is_archived
            &&& post.notes@ == pre.notes@.update(k, after)
            &&& post.collections@ == pre.collections@
            &&& post.images@ == pre.images@
            &&& post.note_images@ == pre.note_images@
        }
    } else {
        r matches Err(e) && e == StoreError::Constraint && post == pre
    }
}

impl Store {
    /// Replaces the content of the note with this id at clock value `now`:
    /// the new content is normalized, the counts are derived anew, the
    /// modification timestamp strictly increases, and the index entry is
    /// rewritten in the same step.
    pub fn update_note_with(&mut self, id: &str, now: i64, content: String) -> (r: Result<
        Note,
        StoreError,
    >)
        requires
            old(self).wf(),
            now < i64::MAX,
        ensures
            final(self).wf(),
            !has_note(old(self).notes@, id@) ==> (r matches Err(e) && e
                matches StoreError::NoteNotFound(s) && s@ == id@ && *final(self) == *old(self)),
            forall|k: int|
                0 <= k < old(self).notes@.len() && (#[trigger] old(self).notes@[k].id@) == id@
                    ==> note_updated(*old(self), *final(self), r, k, now, content@),
    {
        match find_note(&self.notes, id) {
            None => Err(StoreError::NoteNotFound(String::from_str(id))),
            Some(k) => {
                let prior_updated = self.notes[k].updated_at;
                let stamp = if now > prior_updated {
                    now
                } else {
                    prior_updated + 1
                };
                if stamp == i64::MAX {
                    return Err(StoreError::Constraint);
                }
                let clean = sanitize_content(content.as_str());
                proof {
                    lemma_normalize_idempotent(content@);
                }
                let word_count = count_words(clean.as_str());
                let character_count = count_characters(clean.as_str());
                let n = Note {
                    id: self.notes[k].id.clone(),
                    title: self.notes[k].title.clone(),
                    content: clean,
                    collection_id: clone_opt_string(&self.notes[k].collection_id),
                    tags: self.notes[k].tags.clone(),
                    created_at: self.notes[k].created_at,
                    updated_at: stamp,
                    word_count,
                    character_count,
                    is_archived: self.notes[k].is_archived,
                };
                let entry = IndexEntry {
                    note_id: n.id.clone(),
                    title: n.title.clone(),
                    content: n.content.clone(),
                    tags: n.tags.clone(),
                };
                let returned = n.duplicate();
                self.notes.set(k, n);
                self.index.set(k, entry);
                Ok(returned)
            },
        }
    }

    /// Replaces the content of the note with this id at the current time.
    /// Success is owed whenever the note exists, short of the unreachable
    /// case of a modification timestamp already at the representable maximum.
    pub fn update_note(&mut self, id: &str, content: String) -> (r: Result<Note, StoreError>)
        requires
            old(self).wf(),
        ensures
            final(self).wf(),
            !has_note(old(self).notes@, id@) ==> (r matches Err(e) && e
                matches StoreError::NoteNotFound(s) && s@ == id@ && *final(self) == *old(self)),
            forall|k: int|
                0 <= k < old(self).notes@.len() && (#[trigger] old(self).notes@[k].id@) == id@
                    ==> exists|now: i64|
                    now < i64::MAX && note_updated(*old(self), *final(self), r, k, now, content@),
    {
        let now = now_micros();
        let r = self.update_note_with(id, now, content);
        proof {
            if has_note(old(self).notes@, id@) {
                assert forall|k: int|
                    0 <= k < old(self).notes@.len() && (#[trigger] old(self).notes@[k].id@)
                        == id@ implies exists|n: i64|
                    n < i64::MAX && note_updated(*old(self), *final(self), r, k, n, content@) by {
                    assert(now < i64::MAX && note_updated(
                        *old(self),
                        *final(self),
                        r,
                        k,
                        now,
                        content@,
                    ));
                }
            }
        }
        r
    }

    /// Deletes the note with this id: the note row, its index entry and its
    /// image associations all go in the same step.
    pub fn delete_note(&mut self, id: &str) -> (r: Result<(), StoreError>)
        requires
            old(self).wf(),
        ensures
            final(self).wf(),
            !has_note(old(self).notes@, id@) ==> (r matches Err(e) && e
                matches StoreError::NoteNotFound(s) && s@ == id@ && *final(self) == *old(self)),
            forall|k: int|
                0 <= k < old(self).notes@.len() && (#[trigger] old(self).notes@[k].id@) == id@ ==> {
                    &&& r is Ok
                    &&& final(self).notes@ == old(self).notes@.remove(k)
                    &&& final(self).collections@ == old(self).collections@
                    &&& final(self).images@ == old(self).images@
                    &&& final(self).note_images@ == old(self).note_images@.filter(
                        not_of_note(id@),
                    )
                },
    {
        match find_note(&self.notes, id) {
            None => Err(StoreError::NoteNotFound(String::from_str(id))),
            Some(k) => {
                self.notes.remove(k);
                self.index.remove(k);
                let kept = retain_assocs_without_note(&self.note_images, id);
                proof {
                    lemma_assoc_filter(self.note_images@, id@);
                }
                self.note_images = kept;
                Ok(())
            },
        }
    }

    /// Moves the note with this id into the given collection, or out of any
    /// collection, at clock value `now`; the modification timestamp strictly
    /// increases.
    pub fn move_note_to_collection_with(
        &mut self,
        note_id: &str,
        collection_id: Option<String>,
        now: i64,
    ) -> (r: Result<(), StoreError>)
        requires
            old(self).wf(),
            now < i64::MAX,
        ensures
            final(self).wf(),
            !has_note(old(self).notes@, note_id@) ==> (r matches Err(e) && e
                matches StoreError::NoteNotFound(s) && s@ == note_id@ && *final(self) == *old(
                self,
            )),
            forall|k: int|
                0 <= k < old(self).notes@.len() && (#[trigger] old(self).notes@[k].id@) == note_id@
                    ==> note_moved(
                    *old(self),
                    *final(self),
                    r,
                    k,
                    now,
                    collection_id.deep_view(),
                ),
    {
        match find_note(&self.notes, note_id) {
            None => Err(StoreError::NoteNotFound(String::from_str(note_id))),
            Some(k) => {
                let prior_updated = self.notes[k].updated_at;
                let stamp = if now > prior_updated {
                    now
                } else {
                    prior_updated + 1
                };
                if stamp == i64::MAX {
                    return Err(StoreError::Constraint);
                }
                let n = Note {
                    id: self.notes[k].id.clone(),
                    title: self.notes[k].title.clone(),
                    content: self.notes[k].content.clone(),
                    collection_id,
                    tags: self.notes[k].tags.clone(),
                    created_at: self.notes[k].created_at,
                    updated_at: stamp,
                    word_count: self.notes[k].word_count,
                    character_count: self.notes[k].character_count,
                    is_archived: self.notes[k].is_archived,
                };
                let entry = IndexEntry {
                    note_id: n.id.clone(),
                    title: n.title.clone(),
                    content: n.content.clone(),
                    tags: n.tags.clone(),
                };
                self.notes.set(k, n);
                self.index.set(k, entry);
                Ok(())
            },
        }
    }

    /// Moves the note with this id at the current time. Success is owed
    /// whenever the note exists, short of the unreachable case of a
    /// modification timestamp already at the representable maximum.
    pub fn move_note_to_collection(&mut self, note_id: &str, collection_id: Option<String>) -> (r:
        Result<(), StoreError>)
        requires
            old(self).wf(),
        ensures
            final(self).wf(),
            !has_note(old(self).notes@, note_id@) ==> (r matches Err(e) && e
                matches StoreError::NoteNotFound(s) && s@ == note_id@ && *final(self) == *old(
                self,
            )),
            forall|k: int|
                0 <= k < old(self).notes@.len() && (#[trigger] old(self).notes@[k].id@) == note_id@
                    ==> exists|now: i64|
                    now < i64::MAX && note_moved(
                        *old(self),
                        *final(self),
                        r,
                        k,
                        now,
                        collection_id.deep_view(),
                    ),
    {
        let now = now_micros();
        let ghost cid = collection_id.deep_view();
        let r = self.move_note_to_collection_with(note_id, collection_id, now);
        proof {
            if has_note(old(self).notes@, note_id@) {
                assert forall|k: int|
                    0 <= k < old(self).notes@.len() && (#[trigger] old(self).notes@[k].id@)
                        == note_id@ implies exists|n: i64|
                    n < i64::MAX && note_moved(*old(self), *final(self), r, k, n, cid) by {
                    assert(now < i64::MAX && note_moved(*old(self), *final(self), r, k, now, cid));
                }
            }
        }
        r
    }
}

/// The greatest sort order among collections whose parent is `parent`, or 0
/// when there is no such sibling.
pub open spec fn max_sibling_order(cs: Seq<Collection>, parent: Option<Seq<char>>) -> int
    decreases cs.len(),
{
    if cs.len() == 0 {
        0
    } else {
        let rest = max_sibling_order(cs.drop_last(), parent);
        let c = cs.last();
        if c.parent_id.deep_view() == parent && c.sort_order > rest {
            c.sort_order as int
        } else {
            rest
        }
    }
}

/// The maximum sibling order is never negative and bounds every sibling.
pub proof fn lemma_max_sibling_order(cs: Seq<Collection>, parent: Option<Seq<char>>)
    ensures
        max_sibling_order(cs, parent) >= 0,
        forall|i: int|
            0 <= i < cs.len() && (#[trigger] cs[i]).parent_id.deep_view() == parent
                ==> cs[i].sort_order <= max_sibling_order(cs, parent),
    decreases cs.len(),
{
    if cs.len() > 0 {
        lemma_max_sibling_order(cs.drop_last(), parent);
        assert(forall|i: int| 0 <= i < cs.len() - 1 ==> cs[i] == cs.drop_last()[i]);
    }
}

/// The rewriting every note undergoes when this collection is deleted: a
/// reference to it is cleared, everything else is untouched.
pub open spec fn cleared_of(id: Seq<char>) -> spec_fn(Note) -> Note {
    |n: Note|
        if n.collection_id.deep_view() == Some(id) {
            Note { collection_id: None, ..n }
        } else {
            n
        }
}

/// What holds after a rename of the collection at position `k`.
pub open spec fn collection_updated(
    pre: Store,
    post: Store,
    r: Result<Collection, StoreError>,
    k: int,
    now: i64,
    name: Seq<char>,
    description: Option<Seq<char>>,
) -> bool {
    let prior = pre.collections@[k];
    let stamp = next_stamp(prior.updated_at, now);
    if stamp < i64::MAX {
        r matches Ok(c) && {
            &&& c.id == prior.id
            &&& c.name@ == name
            &&& c.description.deep_view() == description
            &&& c.parent_id == prior.parent_id
            &&& c.color == prior.color
            &&& c.icon == prior.icon
            &&& c.sort_order == prior.sort_order
            &&& c.created_at == prior.created_at
            &&& c.updated_at == stamp
            &&& c.updated_at > prior.updated_at
            &&& post.collections@ == pre.collections@.update(k, c)
            &&& post.notes@ == pre.notes@
            &&& post.images@ == pre.images@
            &&& post.note_images@ == pre.note_images@
        }
    } else {
        r matches Err(e) && e == StoreError::Constraint && post == pre
    }
}

/// Whether any collection has this one as its parent.
fn has_child_exec(cs: &Vec<Collection>, id: &str) -> (r: bool)
    ensures
        r == has_child(cs@, id@),
{
    let mut i: usize = 0;
    while i < cs.len()
        invariant
            i <= cs@.len(),
            forall|j: int| 0 <= j < i ==> (#[trigger] cs@[j].parent_id.deep_view()) != Some(id@),
        decreases cs@.len() - i,
    {
        let is_child = match &cs[i].parent_id {
            Option::Some(p) => str_eq(p.as_str(), id),
            Option::None => false,
        };
        if is_child {
            proof {
                assert(cs@[i as int].parent_id.deep_view() == Some(id@));
            }
            return true;
        }
        i += 1;
    }
    false
}

/// The greatest sort order among the collections whose parent is `parent`.
fn max_sibling_order_exec(cs: &Vec<Collection>, parent: &Option<String>) -> (r: i64)
    ensures
        r == max_sibling_order(cs@, parent.deep_view()),
{
    proof {
        assert(cs@.take(0) =~= Seq::<Collection>::empty());
    }
    let mut m: i64 = 0;
    let mut i: usize = 0;
    while i < cs.len()
        invariant
            i <= cs@.len(),
            m == max_sibling_order(cs@.take(i as int), parent.deep_view()),
        decreases cs@.len() - i,
    {
        proof {
            assert(cs@.take(i + 1 as int).drop_last() =~= cs@.take(i as int));
            assert(cs@.take(i + 1 as int).last() == cs@[i as int]);
        }
        if crate::text::opt_str_eq(&cs[i].parent_id, parent) {
            if cs[i].sort_order > m {
                m = cs[i].sort_order;
            }
        }
        i += 1;
    }
    proof {
        assert(cs@.take(cs@.len() as int) =~= cs@);
    }
    m
}

impl Store {
    /// The sort order a new collection under this parent receives: one more
    /// than the greatest existing sibling order, so 1 when there is no
    /// sibling yet.
    pub fn next_sort_order(&self, parent_id: &Option<String>) -> (r: i64)
        requires
            self.wf(),
            max_sibling_order(self.collections@, parent_id.deep_view()) < i64::MAX,
        ensures
            r == max_sibling_order(self.collections@, parent_id.deep_view()) + 1,
            r >= 1,
    {
        proof {
            lemma_max_sibling_order(self.collections@, parent_id.deep_view());
        }
        max_sibling_order_exec(&self.collections, parent_id) + 1
    }

    /// Creates a collection from a caller-chosen id and clock value, placing
    /// it after its siblings. Refused only when the id is already taken, or
    /// in the unreachable case of a sibling order at the representable
    /// maximum.
    pub fn create_collection_with(
        &mut self,
        id: String,
        now: i64,
        name: String,
        description: Option<String>,
        parent_id: Option<String>,
    ) -> (r: Result<Collection, StoreError>)
        requires
            old(self).wf(),
            now < i64::MAX,
        ensures
            final(self).wf(),
            has_collection(old(self).collections@, id@) ==> (r matches Err(e) && e
                == StoreError::Constraint && *final(self) == *old(self)),
            !has_collection(old(self).collections@, id@) && max_sibling_order(
                old(self).collections@,
                parent_id.deep_view(),
            ) >= i64::MAX ==> (r matches Err(e) && e == StoreError::Constraint && *final(self)
                == *old(self)),
            !has_collection(old(self).collections@, id@) && max_sibling_order(
                old(self).collections@,
                parent_id.deep_view(),
            ) < i64::MAX ==> (r matches Ok(c) && {
                &&& c.id@ == id@
                &&& c.name@ == name@
                &&& c.description == description
                &&& c.parent_id == parent_id
                &&& c.color is None
                &&& c.icon is None
                &&& c.sort_order == max_sibling_order(
                    old(self).collections@,
                    parent_id.deep_view(),
                ) + 1
                &&& c.created_at == now
                &&& c.updated_at == now
                &&& final(self).collections@ == old(self).collections@.push(c)
                &&& final(self).notes@ == old(self).notes@
                &&& final(self).images@ == old(self).images@
                &&& final(self).note_images@ == old(self).note_images@
            }),
    {
        if find_collection(&self.collections, id.as_str()).is_some() {
            return Err(StoreError::Constraint);
        }
        proof {
            lemma_max_sibling_order(self.collections@, parent_id.deep_view());
        }
        let m = max_sibling_order_exec(&self.collections, &parent_id);
        if m == i64::MAX {
            return Err(StoreError::Constraint);
        }
        let c = Collection {
            id,
            name,
            description,
            parent_id,
            color: None,
            icon: None,
            sort_order: m + 1,
            created_at: now,
            updated_at: now,
        };
        let returned = c.duplicate();
        self.collections.push(c);
        Ok(returned)
    }

    /// Creates a collection under a system-generated identifier with the
    /// current time, placing it after its siblings. The one refusal,
    /// `Constraint`, means the freshly drawn id was already taken or a
    /// sibling order sits at the representable maximum.
    pub fn create_collection(
        &mut self,
        name: String,
        description: Option<String>,
        parent_id: Option<String>,
    ) -> (r: Result<Collection, StoreError>)
        requires
            old(self).wf(),
        ensures
            final(self).wf(),
            r matches Ok(c) ==> {
                &&& c.name@ == name@
                &&& c.description == description
                &&& c.parent_id == parent_id
                &&& c.color is None
                &&& c.icon is None
                &&& c.sort_order == max_sibling_order(
                    old(self).collections@,
                    parent_id.deep_view(),
                ) + 1
                &&& c.created_at == c.updated_at < i64::MAX
                &&& final(self).collections@ == old(self).collections@.push(c)
                &&& final(self).notes@ == old(self).notes@
                &&& final(self).images@ == old(self).images@
                &&& final(self).note_images@ == old(self).note_images@
            },
            r matches Err(e) ==> e == StoreError::Constraint && *final(self) == *old(self),
    {
        let id = fresh_id();
        let now = now_micros();
        self.create_collection_with(id, now, name, description, parent_id)
    }

    /// Renames the collection with this id and replaces its description at
    /// clock value `now`; the modification timestamp strictly increases.
    pub fn update_collection_with(
        &mut self,
        id: &str,
        now: i64,
        name: String,
        description: Option<String>,
    ) -> (r: Result<Collection, StoreError>)
        requires
            old(self).wf(),
            now < i64::MAX,
        ensures
            final(self).wf(),
            !has_collection(old(self).collections@, id@) ==> (r matches Err(e) && e
                matches StoreError::CollectionNotFound(s) && s@ == id@ && *final(self) == *old(
                self,
            )),
            forall|k: int|
                0 <= k < old(self).collections@.len() && (#[trigger] old(
                    self,
                ).collections@[k].id@) == id@ ==> collection_updated(
                    *old(self),
                    *final(self),
                    r,
                    k,
                    now,
                    name@,
                    description.deep_view(),
                ),
    {
        match find_collection(&self.collections, id) {
            None => Err(StoreError::CollectionNotFound(String::from_str(id))),
            Some(k) => {
                let prior_updated = self.collections[k].updated_at;
                let stamp = if now > prior_updated {
                    now
                } else {
                    prior_updated + 1
                };
                if stamp == i64::MAX {
                    return Err(StoreError::Constraint);
                }
                let c = Collection {
                    id: self.collections[k].id.clone(),
                    name,
                    description,
                    parent_id: clone_opt_string(&self.collections[k].parent_id),
                    color: clone_opt_string(&self.collections[k].color),
                    icon: clone_opt_string(&self.collections[k].icon),
                    sort_order: self.collections[k].sort_order,
                    created_at: self.collections[k].created_at,
                    updated_at: stamp,
                };
                let returned = c.duplicate();
                self.collections.set(k, c);
                Ok(returned)
            },
        }
    }

    /// Renames the collection with this id at the current time. Success is
    /// owed whenever the collection exists, short of the unreachable case of
    /// a modification timestamp already at the representable maximum.
    pub fn update_collection(&mut self, id: &str, name: String, description: Option<String>) -> (r:
        Result<Collection, StoreError>)
        requires
            old(self).wf(),
        ensures
            final(self).wf(),
            !has_collection(old(self).collections@, id@) ==> (r matches Err(e) && e
                matches StoreError::CollectionNotFound(s) && s@ == id@ && *final(self) == *old(
                self,
            )),
            forall|k: int|
                0 <= k < old(self).collections@.len() && (#[trigger] old(
                    self,
                ).collections@[k].id@) == id@ ==> exists|now: i64|
                    now < i64::MAX && collection_updated(
                        *old(self),
                        *final(self),
                        r,
                        k,
                        now,
                        name@,
                        description.deep_view(),
                    ),
    {
        let now = now_micros();
        let ghost d = description.deep_view();
        let r = self.update_collection_with(id, now, name, description);
        proof {
            if has_collection(old(self).collections@, id@) {
                assert forall|k: int|
                    0 <= k < old(self).collections@.len() && (#[trigger] old(
                        self,
                    ).collections@[k].id@) == id@ implies exists|n: i64|
                    n < i64::MAX && collection_updated(
                        *old(self),
                        *final(self),
                        r,
                        k,
                        n,
                        name@,
                        d,
                    ) by {
                    assert(now < i64::MAX && collection_updated(
                        *old(self),
                        *final(self),
                        r,
                        k,
                        now,
                        name@,
                        d,
                    ));
                }
            }
        }
        r
    }

    /// Deletes the collection with this id. A collection that still has
    /// child collections cannot be deleted; on success every note that
    /// referenced it is reassigned to no collection before the row goes.
    pub fn delete_collection(&mut self, id: &str) -> (r: Result<(), StoreError>)
        requires
            old(self).wf(),
        ensures
            final(self).wf(),
            has_child(old(self).collections@, id@) ==> (r matches Err(e) && e
                == StoreError::Constraint && *final(self) == *old(self)),
            !has_child(old(self).collections@, id@) && !has_collection(
                old(self).collections@,
                id@,
            ) ==> (r matches Err(e) && e matches StoreError::CollectionNotFound(s) && s@ == id@
                && *final(self) == *old(self)),
            !has_child(old(self).collections@, id@) ==> forall|k: int|
                0 <= k < old(self).collections@.len() && (#[trigger] old(
                    self,
                ).collections@[k].id@) == id@ ==> {
                    &&& r is Ok
                    &&& final(self).collections@ == old(self).collections@.remove(k)
                    &&& final(self).notes@ == old(self).notes@.map_values(cleared_of(id@))
                    &&& final(self).images@ == old(self).images@
                    &&& final(self).note_images@ == old(self).note_images@
                },
    {
        if has_child_exec(&self.collections, id) {
            return Err(StoreError::Constraint);
        }
        match find_collection(&self.collections, id) {
            None => Err(StoreError::CollectionNotFound(String::from_str(id))),
            Some(k) => {
                let ghost before = self.notes@;
                let mut i: usize = 0;
                while i < self.notes.len()
                    invariant
                        i <= self.notes@.len(),
                        self.notes@.len() == before.len(),
                        k < self.collections@.len(),
                        self.collections@ == old(self).collections@,
                        self.images@ == old(self).images@,
                        self.note_images@ == old(self).note_images@,
                        self.index@ == old(self).index@,
                        notes_wf(before),
                        index_synced(self.index@, before),
                        note_ids_unique(before),
                        forall|j: int|
                            0 <= j < i ==> self.notes@[j] == cleared_of(id@)(#[trigger] before[j]),
                        forall|j: int| i <= j < before.len() ==> self.notes@[j] == before[j],
                    decreases self.notes@.len() - i,
                {
                    let clear = match &self.notes[i].collection_id {
                        Option::Some(p) => str_eq(p.as_str(), id),
                        Option::None => false,
                    };
                    if clear {
                        let n = Note {
                            id: self.notes[i].id.clone(),
                            title: self.notes[i].title.clone(),
                            content: self.notes[i].content.clone(),
                            collection_id: None,
                            tags: self.notes[i].tags.clone(),
                            created_at: self.notes[i].created_at,
                            updated_at: self.notes[i].updated_at,
                            word_count: self.notes[i].word_count,
                            character_count: self.notes[i].character_count,
                            is_archived: self.notes[i].is_archived,
                        };
                        self.notes.set(i, n);
                    }
                    i += 1;
                }
                proof {
                    assert(self.notes@ =~= before.map_values(cleared_of(id@)));
                }
                self.collections.remove(k);
                Ok(())
            },
        }
    }

    /// A copy of the collection with this id, or `CollectionNotFound`.
    pub fn get_collection(&self, id: &str) -> (r: Result<Collection, StoreError>)
        requires
            self.wf(),
        ensures
            !has_collection(self.collections@, id@) ==> (r matches Err(e) && e
                matches StoreError::CollectionNotFound(s) && s@ == id@),
            forall|k: int|
                0 <= k < self.collections@.len() && (#[trigger] self.collections@[k].id@) == id@
                    ==> (r matches Ok(c) && c == self.collections@[k]),
    {
        match find_collection(&self.collections, id) {
            Some(k) => Ok(self.collections[k].duplicate()),
            None => Err(StoreError::CollectionNotFound(String::from_str(id))),
        }
    }
}

/// Filtering on one side of a unique edge set keeps the edges unique.
proof fn lemma_assoc_filter(es: Seq<NoteImage>, id: Seq<char>)
    requires
        assoc_unique(es),
    ensures
        assoc_unique(es.filter(not_of_note(id))),
        forall|j: int|
            0 <= j < es.filter(not_of_note(id)).len() ==> exists|i: int|
                0 <= i < es.len() && es[i] == #[trigger] es.filter(not_of_note(id))[j],
    decreases es.len(),
{
    reveal(Seq::filter);
    if es.len() > 0 {
        let head = es.drop_last();
        assert(assoc_unique(head)) by {
            assert(forall|i: int| 0 <= i < head.len() ==> head[i] == es[i]);
        }
        lemma_assoc_filter(head, id);
        let fh = head.filter(not_of_note(id));
        let fe = es.filter(not_of_note(id));
        if not_of_note(id)(es.last()) {
            assert(fe == fh.push(es.last()));
            assert forall|j: int| 0 <= j < fe.len() implies exists|i: int|
                0 <= i < es.len() && es[i] == #[trigger] fe[j] by {
                if j < fh.len() {
                    let i = choose|i: int| 0 <= i < head.len() && head[i] == fh[j];
                    assert(es[i] == fe[j]);
                } else {
                    assert(es[es.len() - 1] == fe[j]);
                }
            }
            assert forall|a: int, b: int| 0 <= a < b < fe.len() implies !(fe[a].note_id@
                == fe[b].note_id@ && fe[a].image_id@ == fe[b].image_id@) by {
                if b < fh.len() {
                } else {
                    let i = choose|i: int| 0 <= i < head.len() && head[i] == fh[a];
                    assert(!(es[i].note_id@ == es.last().note_id@ && es[i].image_id@
                        == es.last().image_id@));
                }
            }
        } else {
            assert(fe == fh);
            assert forall|j: int| 0 <= j < fe.len() implies exists|i: int|
                0 <= i < es.len() && es[i] == #[trigger] fe[j] by {
                let i = choose|i: int| 0 <= i < head.len() && head[i] == fh[j];
                assert(es[i] == fe[j]);
            }
        }
    }
}

/// The associations that survive deleting this note.
fn retain_assocs_without_note(es: &Vec<NoteImage>, id: &str) -> (r: Vec<NoteImage>)
    ensures
        r@ == es@.filter(not_of_note(id@)),
{
    proof {
        reveal(Seq::filter);
    }
    let mut kept: Vec<NoteImage> = Vec::new();
    let mut i: usize = 0;
    while i < es.len()
        invariant
            i <= es@.len(),
            kept@ == es@.take(i as int).filter(not_of_note(id@)),
        decreases es@.len() - i,
    {
        proof {
            reveal(Seq::filter);
            assert(es@.take(i + 1 as int).drop_last() =~= es@.take(i as int));
            assert(es@.take(i + 1 as int).last() == es@[i as int]);
        }
        if !str_eq(es[i].note_id.as_str(), id) {
            kept.push(es[i].duplicate());
        }
        i += 1;
    }
    proof {
        assert(es@.take(es@.len() as int) =~= es@);
    }
    kept
}

/// The predicate that keeps a note in listings and search: it is not
/// archived.
pub open spec fn live_pred() -> spec_fn(Note) -> bool {
    |n: Note| !n.is_archived
}

impl Store {
    /// All non-archived notes, most recently modified first; notes modified
    /// at the same instant keep their insertion order.
    pub fn get_all_notes(&self) -> (r: Vec<Note>)
        requires
            self.wf(),
        ensures
            r@ == sort_by(self.notes@.filter(live_pred()), recency_leq()),
    {
        proof {
            reveal(Seq::filter);
            assert(self.notes@.take(0) =~= Seq::<Note>::empty());
        }
        let mut out: Vec<Note> = Vec::new();
        let mut i: usize = 0;
        while i < self.notes.len()
            invariant
                i <= self.notes@.len(),
                out@ == sort_by(self.notes@.take(i as int).filter(live_pred()), recency_leq()),
            decreases self.notes@.len() - i,
        {
            proof {
                reveal(Seq::filter);
                assert(self.notes@.take(i + 1 as int).drop_last() =~= self.notes@.take(i as int));
                assert(self.notes@.take(i + 1 as int).last() == self.notes@[i as int]);
            }
            if !self.notes[i].is_archived {
                proof {
                    let f = self.notes@.take(i + 1 as int).filter(live_pred());
                    assert(f.drop_last() =~= self.notes@.take(i as int).filter(live_pred()));
                    assert(f.last() == self.notes@[i as int]);
                }
                insert_note_recency(&mut out, self.notes[i].duplicate());
            }
            i += 1;
        }
        proof {
            assert(self.notes@.take(self.notes@.len() as int) =~= self.notes@);
        }
        out
    }

    /// All collections in tree order: grouped by parent — roots first — and
    /// ordered by `sort_order` within one parent.
    pub fn get_all_collections(&self) -> (r: Vec<Collection>)
        requires
            self.wf(),
        ensures
            r@ == sort_by(self.collections@, tree_order_leq()),
    {
        proof {
            assert(self.collections@.take(0) =~= Seq::<Collection>::empty());
        }
        let mut out: Vec<Collection> = Vec::new();
        let mut i: usize = 0;
        while i < self.collections.len()
            invariant
                i <= self.collections@.len(),
                out@ == sort_by(self.collections@.take(i as int), tree_order_leq()),
            decreases self.collections@.len() - i,
        {
            proof {
                assert(self.collections@.take(i + 1 as int).drop_last() =~= self.collections@.take(
                    i as int,
                ));
                assert(self.collections@.take(i + 1 as int).last() == self.collections@[i as int]);
            }
            insert_collection_tree(&mut out, self.collections[i].duplicate());
            i += 1;
        }
        proof {
            assert(self.collections@.take(self.collections@.len() as int) =~= self.collections@);
        }
        out
    }

    /// Counts of stored notes and collections, next to the data-file size the
    /// caller measured. There is no backup mechanism, so the marker is
    /// absent.
    pub fn get_storage_info(&self, database_size: u64) -> (r: StorageInfo)
        ensures
            r.total_notes == self.notes@.len(),
            r.total_collections == self.collections@.len(),
            r.database_size == database_size,
            r.last_backup is None,
    {
        StorageInfo {
            total_notes: self.notes.len(),
            total_collections: self.collections.len(),
            database_size,
            last_backup: None,
        }
    }

    /// There is no recent-search table yet: the listing is always empty.
    pub fn get_recent_searches(&self) -> (r: Vec<String>)
        ensures
            r@.len() == 0,
    {
        Vec::new()
    }

    /// There is no recent-search table yet: saving a query changes nothing.
    pub fn save_recent_search(&self, _query: &str) {
    }
}

} // verus!
