//! Image records and their association with notes. The bytes themselves
//! live on disk and are the caller's to read and write; these records are
//! the source of truth for what exists.
use vstd::prelude::*;

use crate::ext::{base64_of, encode_base64};
use crate::model::{ImageMetadata, ImageWithData, NoteImage, StoreError};
use crate::order::{image_recency_leq, insert_image_recency, sort_by};
use crate::store::{assoc_unique, find_image, has_assoc, has_image, Store};
use crate::text::{dec_i64_spec, i64_dec, str_eq};

verus! {

/// The position of the last dot of the name, or -1.
pub open spec fn last_dot(s: Seq<char>) -> int
    decreases s.len(),
{
    if s.len() == 0 {
        -1
    } else if s.last() == '.' {
        s.len() - 1
    } else {
        last_dot(s.drop_last())
    }
}

/// The extension of an original filename: what follows its last dot, or
/// `png` when there is no usable extension.
pub open spec fn ext_spec(name: Seq<char>) -> Seq<char> {
    let d = last_dot(name);
    if d <= 0 || d == name.len() - 1 {
        "png"@
    } else {
        name.subrange(d + 1, name.len() as int)
    }
}

/// The last dot lies within the name.
proof fn lemma_last_dot(s: Seq<char>)
    ensures
        -1 <= last_dot(s) < s.len(),
        last_dot(s) >= 0 ==> s[last_dot(s)] == '.',
        forall|j: int| last_dot(s) < j < s.len() ==> s[j] != '.',
    decreases s.len(),
{
    if s.len() > 0 && s.last() != '.' {
        lemma_last_dot(s.drop_last());
        assert(forall|j: int| 0 <= j < s.len() - 1 ==> s[j] == s.drop_last()[j]);
    }
}

/// The system-generated storage filename of an image: the id, the moment of
/// storage, and the original name's extension.
pub open spec fn image_filename_spec(id: Seq<char>, stamp: i64, original: Seq<char>) -> Seq<char> {
    id + "_"@ + dec_i64_spec(stamp as int) + "."@ + ext_spec(original)
}

/// Builds the storage filename for an image.
pub fn image_filename(id: &str, stamp: i64, original_name: &str) -> (r: String)
    ensures
        r@ == image_filename_spec(id@, stamp, original_name@),
{
    let cs = crate::text::chars_vec(original_name);
    let mut d: usize = cs.len();
    while d > 0 && cs[d - 1] != '.'
        invariant
            d <= cs@.len(),
            forall|j: int| d <= j < cs@.len() ==> cs@[j] != '.',
        decreases d,
    {
        d -= 1;
    }
    proof {
        lemma_last_dot(cs@);
        if d > 0 {
            assert(cs@[d - 1] == '.');
            assert(last_dot(cs@) == d - 1) by {
                if last_dot(cs@) < d - 1 {
                    assert(cs@[d - 1] != '.');
                }
            }
        } else {
            assert(last_dot(cs@) == -1) by {
                if last_dot(cs@) >= 0 {
                    assert(cs@[last_dot(cs@)] != '.');
                }
            }
        }
    }
    let ext: String = if d <= 1 || d == cs.len() {
        let e = String::from_str("png");
        e
    } else {
        crate::text::string_range(&cs, d, cs.len())
    };
    let mut r = String::from_str(id);
    r.append("_");
    let ds = i64_dec(stamp);
    r.append(ds.as_str());
    r.append(".");
    r.append(ext.as_str());
    proof {
        assert(r@ =~= image_filename_spec(id@, stamp, original_name@));
    }
    r
}

/// An image record with its payload rendered as an inline data URL, ready
/// for direct display.
pub fn image_with_data(meta: &ImageMetadata, bytes: &Vec<u8>) -> (r: ImageWithData)
    ensures
        r.id@ == meta.id@,
        r.filename@ == meta.filename@,
        r.original_name@ == meta.original_name@,
        r.file_path@ == meta.file_path@,
        r.size == meta.size,
        r.mime_type@ == meta.mime_type@,
        r.created_at == meta.created_at,
        r.data_url@ == "data:"@ + meta.mime_type@ + ";base64,"@ + base64_of(bytes@),
{
    let mut data_url = String::from_str("data:");
    data_url.append(meta.mime_type.as_str());
    data_url.append(";base64,");
    let b64 = encode_base64(bytes);
    data_url.append(b64.as_str());
    ImageWithData {
        id: meta.id.clone(),
        filename: meta.filename.clone(),
        original_name: meta.original_name.clone(),
        file_path: meta.file_path.clone(),
        size: meta.size,
        mime_type: meta.mime_type.clone(),
        created_at: meta.created_at,
        data_url,
    }
}

/// The predicate that keeps an association only when it does not belong to
/// this image.
pub open spec fn not_of_image(id: Seq<char>) -> spec_fn(NoteImage) -> bool {
    |e: NoteImage| e.image_id@ != id
}

/// Filtering on the image side of a unique edge set keeps the edges unique.
proof fn lemma_assoc_filter_image(es: Seq<NoteImage>, id: Seq<char>)
    requires
        assoc_unique(es),
    ensures
        assoc_unique(es.filter(not_of_image(id))),
        forall|j: int|
            0 <= j < es.filter(not_of_image(id)).len() ==> exists|i: int|
                0 <= i < es.len() && es[i] == #[trigger] es.filter(not_of_image(id))[j],
    decreases es.len(),
{
    reveal(Seq::filter);
    if es.len() > 0 {
        let head = es.drop_last();
        assert(assoc_unique(head)) by {
            assert(forall|i: int| 0 <= i < head.len() ==> head[i] == es[i]);
        }
        lemma_assoc_filter_image(head, id);
        let fh = head.filter(not_of_image(id));
        let fe = es.filter(not_of_image(id));
        if not_of_image(id)(es.last()) {
            assert(fe == fh.push(es.last()));
            assert forall|j: int| 0 <= j < fe.len() implies exists|i: int|
                0 <= i < es.len() && es[i] == #[trigger] fe[j] by {
                if j < fh.len() {
                    let i = choose|i: int| 0 <= i < head.len() && head[i] == fh[j];
                    assert(es[i] == fe[j]);
                } else {
                    assert(es[es.len() - 1] == fe[j]);
                }
            }
            assert forall|a: int, b: int| 0 <= a < b < fe.len() implies !(fe[a].note_id@
                == fe[b].note_id@ && fe[a].image_id@ == fe[b].image_id@) by {
                if b < fh.len() {
                } else {
                    let i = choose|i: int| 0 <= i < head.len() && head[i] == fh[a];
                    assert(!(es[i].note_id@ == es.last().note_id@ && es[i].image_id@
                        == es.last().image_id@));
                }
            }
        } else {
            assert(fe == fh);
            assert forall|j: int| 0 <= j < fe.len() implies exists|i: int|
                0 <= i < es.len() && es[i] == #[trigger] fe[j] by {
                let i = choose|i: int| 0 <= i < head.len() && head[i] == fh[j];
                assert(es[i] == fe[j]);
            }
        }
    }
}

/// The associations that survive deleting this image.
fn retain_assocs_without_image(es: &Vec<NoteImage>, id: &str) -> (r: Vec<NoteImage>)
    ensures
        r@ == es@.filter(not_of_image(id@)),
{
    proof {
        reveal(Seq::filter);
    }
    let mut kept: Vec<NoteImage> = Vec::new();
    let mut i: usize = 0;
    while i < es.len()
        invariant
            i <= es@.len(),
            kept@ == es@.take(i as int).filter(not_of_image(id@)),
        decreases es@.len() - i,
    {
        proof {
            reveal(Seq::filter);
            assert(es@.take(i + 1 as int).drop_last() =~= es@.take(i as int));
            assert(es@.take(i + 1 as int).last() == es@[i as int]);
        }
        if !str_eq(es[i].image_id.as_str(), id) {
            kept.push(es[i].duplicate());
        }
        i += 1;
    }
    proof {
        assert(es@.take(es@.len() as int) =~= es@);
    }
    kept
}

/// Whether an association between this note and image exists.
fn has_assoc_exec(es: &Vec<NoteImage>, note_id: &str, image_id: &str) -> (r: bool)
    ensures
        r == has_assoc(es@, note_id@, image_id@),
{
    let mut i: usize = 0;
    while i < es.len()
        invariant
            i <= es@.len(),
            forall|j: int|
                0 <= j < i ==> !((#[trigger] es@[j].note_id@) == note_id@ && es@[j].image_id@
                    == image_id@),
        decreases es@.len() - i,
    {
        if str_eq(es[i].note_id.as_str(), note_id) && str_eq(es[i].image_id.as_str(), image_id) {
            return true;
        }
        i += 1;
    }
    false
}

impl Store {
    /// Stores the record of an image whose bytes the caller has already
    /// written, and associates it with a note when one is named. Refused
    /// when the id is taken, or when the named note already carries an
    /// association under this image id.
    pub fn save_image_with(
        &mut self,
        id: String,
        now: i64,
        filename: String,
        original_name: String,
        file_path: String,
        size: usize,
        mime_type: String,
        note_id: Option<String>,
    ) -> (r: Result<ImageMetadata, StoreError>)
        requires
            old(self).wf(),
        ensures
            final(self).wf(),
            r matches Ok(m) ==> {
                &&& m.id@ == id@
                &&& m.filename@ == filename@
                &&& m.original_name@ == original_name@
                &&& m.file_path@ == file_path@
                &&& m.size == size
                &&& m.mime_type@ == mime_type@
                &&& m.created_at == now
                &&& final(self).images@ == old(self).images@.push(m)
                &&& final(self).notes@ == old(self).notes@
                &&& final(self).collections@ == old(self).collections@
                &&& (match note_id.deep_view() {
                    Some(nid) => {
                        let es2 = final(self).note_images@;
                        &&& es2.len() == old(self).note_images@.len() + 1
                        &&& es2 == old(self).note_images@.push(es2.last())
                        &&& es2.last().note_id@ == nid
                        &&& es2.last().image_id@ == id@
                        &&& es2.last().created_at == now
                    },
                    None => final(self).note_images@ == old(self).note_images@,
                })
            },
            r matches Err(e) ==> e == StoreError::Constraint && *final(self) == *old(self),
            !has_image(old(self).images@, id@) && (match note_id.deep_view() {
                Some(n) => !has_assoc(old(self).note_images@, n, id@),
                None => true,
            }) ==> r is Ok,
    {
        if find_image(&self.images, id.as_str()).is_some() {
            return Err(StoreError::Constraint);
        }
        match &note_id {
            Option::Some(nid) => {
                if has_assoc_exec(&self.note_images, nid.as_str(), id.as_str()) {
                    return Err(StoreError::Constraint);
                }
            },
            Option::None => {},
        }
        let meta = ImageMetadata {
            id,
            filename,
            original_name,
            file_path,
            size,
            mime_type,
            created_at: now,
        };
        let returned = meta.duplicate();
        match note_id {
            Option::Some(nid) => {
                let edge = NoteImage { note_id: nid, image_id: meta.id.clone(), created_at: now };
                self.note_images.push(edge);
            },
            Option::None => {},
        }
        self.images.push(meta);
        Ok(returned)
    }

    /// A copy of the image record with this id, or `ImageNotFound`.
    pub fn get_image_meta(&self, id: &str) -> (r: Result<ImageMetadata, StoreError>)
        requires
            self.wf(),
        ensures
            !has_image(self.images@, id@) ==> (r matches Err(e) && e
                matches StoreError::ImageNotFound(s) && s@ == id@),
            forall|k: int|
                0 <= k < self.images@.len() && (#[trigger] self.images@[k].id@) == id@ ==> (r
                    matches Ok(m) && m == self.images@[k]),
    {
        match find_image(&self.images, id) {
            Some(k) => Ok(self.images[k].duplicate()),
            None => Err(StoreError::ImageNotFound(String::from_str(id))),
        }
    }

    /// All image records, most recently stored first.
    pub fn get_all_images(&self) -> (r: Vec<ImageMetadata>)
        requires
            self.wf(),
        ensures
            r@ == sort_by(self.images@, image_recency_leq()),
    {
        proof {
            assert(self.images@.take(0) =~= Seq::<ImageMetadata>::empty());
        }
        let mut out: Vec<ImageMetadata> = Vec::new();
        let mut i: usize = 0;
        while i < self.images.len()
            invariant
                i <= self.images@.len(),
                out@ == sort_by(self.images@.take(i as int), image_recency_leq()),
            decreases self.images@.len() - i,
        {
            proof {
                assert(self.images@.take(i + 1 as int).drop_last() =~= self.images@.take(i as int));
                assert(self.images@.take(i + 1 as int).last() == self.images@[i as int]);
            }
            insert_image_recency(&mut out, self.images[i].duplicate());
            i += 1;
        }
        proof {
            assert(self.images@.take(self.images@.len() as int) =~= self.images@);
        }
        out
    }

    /// The records of the images associated with this note, most recently
    /// stored first.
    pub fn get_images_for_note(&self, note_id: &str) -> (r: Vec<ImageMetadata>)
        requires
            self.wf(),
        ensures
            r@ == sort_by(
                self.images@.filter(assoc_image_pred(self.note_images@, note_id@)),
                image_recency_leq(),
            ),
    {
        proof {
            reveal(Seq::filter);
            assert(self.images@.take(0) =~= Seq::<ImageMetadata>::empty());
        }
        let mut out: Vec<ImageMetadata> = Vec::new();
        let mut i: usize = 0;
        while i < self.images.len()
            invariant
                i <= self.images@.len(),
                out@ == sort_by(
                    self.images@.take(i as int).filter(
                        assoc_image_pred(self.note_images@, note_id@),
                    ),
                    image_recency_leq(),
                ),
            decreases self.images@.len() - i,
        {
            proof {
                reveal(Seq::filter);
                assert(self.images@.take(i + 1 as int).drop_last() =~= self.images@.take(i as int));
                assert(self.images@.take(i + 1 as int).last() == self.images@[i as int]);
            }
            if has_assoc_exec(&self.note_images, note_id, self.images[i].id.as_str()) {
                proof {
                    let f = self.images@.take(i + 1 as int).filter(
                        assoc_image_pred(self.note_images@, note_id@),
                    );
                    assert(f.drop_last() =~= self.images@.take(i as int).filter(
                        assoc_image_pred(self.note_images@, note_id@),
                    ));
                    assert(f.last() == self.images@[i as int]);
                }
                insert_image_recency(&mut out, self.images[i].duplicate());
            }
            i += 1;
        }
        proof {
            assert(self.images@.take(self.images@.len() as int) =~= self.images@);
        }
        out
    }

    /// Deletes the image record with this id; its note associations go in
    /// the same step. The file on disk is the caller's to remove, and a
    /// failure there must not block this deletion.
    pub fn delete_image(&mut self, id: &str) -> (r: Result<(), StoreError>)
        requires
            old(self).wf(),
        ensures
            final(self).wf(),
            !has_image(old(self).images@, id@) ==> (r matches Err(e) && e
                matches StoreError::ImageNotFound(s) && s@ == id@ && *final(self) == *old(self)),
            forall|k: int|
                0 <= k < old(self).images@.len() && (#[trigger] old(self).images@[k].id@) == id@
                    ==> {
                    &&& r is Ok
                    &&& final(self).images@ == old(self).images@.remove(k)
                    &&& final(self).notes@ == old(self).notes@
                    &&& final(self).collections@ == old(self).collections@
                    &&& final(self).note_images@ == old(self).note_images@.filter(
                        not_of_image(id@),
                    )
                },
    {
        match find_image(&self.images, id) {
            None => Err(StoreError::ImageNotFound(String::from_str(id))),
            Some(k) => {
                self.images.remove(k);
                let kept = retain_assocs_without_image(&self.note_images, id);
                proof {
                    lemma_assoc_filter_image(self.note_images@, id@);
                }
                self.note_images = kept;
                Ok(())
            },
        }
    }

    /// Sets whether an image is used by a note at clock value `now`: adding
    /// an association that already exists changes nothing, and removing an
    /// absent one changes nothing either.
    pub fn update_image_note_association_with(
        &mut self,
        image_id: &str,
        note_id: &str,
        is_used: bool,
        now: i64,
    ) -> (r: Result<(), StoreError>)
        requires
            old(self).wf(),
        ensures
            final(self).wf(),
            r is Ok,
            final(self).notes@ == old(self).notes@,
            final(self).collections@ == old(self).collections@,
            final(self).images@ == old(self).images@,
            is_used && has_assoc(old(self).note_images@, note_id@, image_id@)
                ==> final(self).note_images@ == old(self).note_images@,
            is_used && !has_assoc(old(self).note_images@, note_id@, image_id@) ==> {
                &&& final(self).note_images@.len() == old(self).note_images@.len() + 1
                &&& final(self).note_images@ == old(self).note_images@.push(
                    final(self).note_images@.last(),
                )
                &&& final(self).note_images@.last().note_id@ == note_id@
                &&& final(self).note_images@.last().image_id@ == image_id@
                &&& final(self).note_images@.last().created_at == now
            },
            !is_used ==> final(self).note_images@ == old(self).note_images@.filter(
                assoc_pair_removed(note_id@, image_id@),
            ),
    {
        if is_used {
            if !has_assoc_exec(&self.note_images, note_id, image_id) {
                let edge = NoteImage {
                    note_id: String::from_str(note_id),
                    image_id: String::from_str(image_id),
                    created_at: now,
                };
                self.note_images.push(edge);
            }
            Ok(())
        } else {
            let kept = retain_assoc_pair_removed(&self.note_images, note_id, image_id);
            proof {
                lemma_assoc_filter_pair(self.note_images@, note_id@, image_id@);
            }
            self.note_images = kept;
            Ok(())
        }
    }

    /// Sets whether an image is used by a note, stamping a new association
    /// with the current time.
    pub fn update_image_note_association(
        &mut self,
        image_id: &str,
        note_id: &str,
        is_used: bool,
    ) -> (r: Result<(), StoreError>)
        requires
            old(self).wf(),
        ensures
            final(self).wf(),
            r is Ok,
            final(self).notes@ == old(self).notes@,
            final(self).collections@ == old(self).collections@,
            final(self).images@ == old(self).images@,
            is_used && has_assoc(old(self).note_images@, note_id@, image_id@)
                ==> final(self).note_images@ == old(self).note_images@,
            is_used && !has_assoc(old(self).note_images@, note_id@, image_id@) ==> {
                &&& final(self).note_images@.len() == old(self).note_images@.len() + 1
                &&& final(self).note_images@ == old(self).note_images@.push(
                    final(self).note_images@.last(),
                )
                &&& final(self).note_images@.last().note_id@ == note_id@
                &&& final(self).note_images@.last().image_id@ == image_id@
            },
            !is_used ==> final(self).note_images@ == old(self).note_images@.filter(
                assoc_pair_removed(note_id@, image_id@),
            ),
    {
        let now = crate::ext::now_micros();
        self.update_image_note_association_with(image_id, note_id, is_used, now)
    }
}

/// The predicate that keeps an image associated with this note.
pub open spec fn assoc_image_pred(es: Seq<NoteImage>, note_id: Seq<char>) -> spec_fn(
    ImageMetadata,
) -> bool {
    |im: ImageMetadata| has_assoc(es, note_id, im.id@)
}

/// The predicate that keeps an association unless it links exactly this
/// note and image.
pub open spec fn assoc_pair_removed(note_id: Seq<char>, image_id: Seq<char>) -> spec_fn(
    NoteImage,
) -> bool {
    |e: NoteImage| !(e.note_id@ == note_id && e.image_id@ == image_id)
}

/// The associations that survive removing this pair.
fn retain_assoc_pair_removed(es: &Vec<NoteImage>, note_id: &str, image_id: &str) -> (r: Vec<
    NoteImage,
>)
    ensures
        r@ == es@.filter(assoc_pair_removed(note_id@, image_id@)),
{
    proof {
        reveal(Seq::filter);
    }
    let mut kept: Vec<NoteImage> = Vec::new();
    let mut i: usize = 0;
    while i < es.len()
        invariant
            i <= es@.len(),
            kept@ == es@.take(i as int).filter(assoc_pair_removed(note_id@, image_id@)),
        decreases es@.len() - i,
    {
        proof {
            reveal(Seq::filter);
            assert(es@.take(i + 1 as int).drop_last() =~= es@.take(i as int));
            assert(es@.take(i + 1 as int).last() == es@[i as int]);
        }
        if !(str_eq(es[i].note_id.as_str(), note_id) && str_eq(es[i].image_id.as_str(), image_id)) {
            kept.push(es[i].duplicate());
        }
        i += 1;
    }
    proof {
        assert(es@.take(es@.len() as int) =~= es@);
    }
    kept
}

/// Filtering one pair out of a unique edge set keeps the edges unique.
proof fn lemma_assoc_filter_pair(es: Seq<NoteImage>, note_id: Seq<char>, image_id: Seq<char>)
    requires
        assoc_unique(es),
    ensures
        assoc_unique(es.filter(assoc_pair_removed(note_id, image_id))),
    decreases es.len(),
{
    reveal(Seq::filter);
    if es.len() > 0 {
        let head = es.drop_last();
        assert(assoc_unique(head)) by {
            assert(forall|i: int| 0 <= i < head.len() ==> head[i] == es[i]);
        }
        lemma_assoc_filter_pair(head, note_id, image_id);
        let fh = head.filter(assoc_pair_removed(note_id, image_id));
        let fe = es.filter(assoc_pair_removed(note_id, image_id));
        lemma_assoc_subset(head, assoc_pair_removed(note_id, image_id));
        if assoc_pair_removed(note_id, image_id)(es.last()) {
            assert(fe == fh.push(es.last()));
            assert forall|a: int, b: int| 0 <= a < b < fe.len() implies !(fe[a].note_id@
                == fe[b].note_id@ && fe[a].image_id@ == fe[b].image_id@) by {
                if b < fh.len() {
                } else {
                    let i = choose|i: int| 0 <= i < head.len() && head[i] == fh[a];
                    assert(!(es[i].note_id@ == es.last().note_id@ && es[i].image_id@
                        == es.last().image_id@));
                }
            }
        } else {
            assert(fe == fh);
        }
    }
}

/// Every kept edge was an edge.
proof fn lemma_assoc_subset(es: Seq<NoteImage>, pred: spec_fn(NoteImage) -> bool)
    ensures
        forall|j: int|
            0 <= j < es.filter(pred).len() ==> exists|i: int|
                0 <= i < es.len() && es[i] == #[trigger] es.filter(pred)[j],
    decreases es.len(),
{
    reveal(Seq::filter);
    if es.len() > 0 {
        let head = es.drop_last();
        lemma_assoc_subset(head, pred);
        let fh = head.filter(pred);
        let fe = es.filter(pred);
        if pred(es.last()) {
            assert(fe == fh.push(es.last()));
            assert forall|j: int| 0 <= j < fe.len() implies exists|i: int|
                0 <= i < es.len() && es[i] == #[trigger] fe[j] by {
                if j < fh.len() {
                    let i = choose|i: int| 0 <= i < head.len() && head[i] == fh[j];
                    assert(es[i] == fe[j]);
                } else {
                    assert(es[es.len() - 1] == fe[j]);
                }
            }
        } else {
            assert(fe == fh);
            assert forall|j: int| 0 <= j < fe.len() implies exists|i: int|
                0 <= i < es.len() && es[i] == #[trigger] fe[j] by {
                let i = choose|i: int| 0 <= i < head.len() && head[i] == fh[j];
                assert(es[i] == fe[j]);
            }
        }
    }
}

} // verus!
