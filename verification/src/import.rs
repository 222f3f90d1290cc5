//! Import translation: a source text is first tried as the structured JSON
//! document; failing that it is read as lightweight markup, split on
//! horizontal-rule separators. Every imported note gets a fresh identifier
//! and fresh timestamps, and its counts are recomputed from its content —
//! incoming identifiers, timestamps and counts are never trusted.
use vstd::prelude::*;

use crate::ext::{fresh_id, now_micros};
use crate::json::{parse_notes, parse_notes_text, record_view, ParsedNote};
use crate::model::{clone_opt_string, Note, StoreError};
use crate::search::{all_space, lemma_run_end_is, run_end};
use crate::store::{has_note, IndexEntry, Store};
use crate::text::{
    count_characters, count_words, dec_spec, lemma_normalize_idempotent, normalize_spec,
    sanitize_content, trim_spec, u64_dec, word_count_spec,
};

verus! {

/// The horizontal-rule separator between markup sections.
pub open spec fn sep() -> Seq<char> {
    seq!['\n', '-', '-', '-', '\n']
}

/// The first position at or after `i` where the separator stands, or -1.
pub open spec fn find_sep_from(s: Seq<char>, i: int) -> int
    decreases s.len() - i,
        when 0 <= i
{
    if i + 5 > s.len() {
        -1
    } else if s.subrange(i, i + 5) == sep() {
        i
    } else {
        find_sep_from(s, i + 1)
    }
}

/// A found separator lies within the text.
pub proof fn lemma_find_sep_bounds(s: Seq<char>, i: int)
    requires
        0 <= i,
    ensures
        find_sep_from(s, i) == -1 || (i <= find_sep_from(s, i) && find_sep_from(s, i) + 5
            <= s.len()),
    decreases s.len() - i,
{
    if i + 5 <= s.len() && s.subrange(i, i + 5) != sep() {
        lemma_find_sep_bounds(s, i + 1);
    }
}

#[via_fn]
proof fn split_sections_decreases(s: Seq<char>) {
    lemma_find_sep_bounds(s, 0);
}

/// The sections of a markup source: the text split on each separator.
pub open spec fn split_sections(s: Seq<char>) -> Seq<Seq<char>>
    decreases s.len(),
        via split_sections_decreases
{
    let p = find_sep_from(s, 0);
    if p < 0 {
        seq![s]
    } else {
        seq![s.take(p)] + split_sections(s.skip(p + 5))
    }
}

/// A character that does not end the first line.
pub open spec fn not_nl_pred() -> spec_fn(char) -> bool {
    |c: char| c != '\n'
}

/// A leading heading marker.
pub open spec fn hash_pred() -> spec_fn(char) -> bool {
    |c: char| c == '#'
}

/// The title a section yields: its first line with leading heading markers
/// stripped and surrounding whitespace trimmed, or a generated placeholder
/// when the section has no lines at all.
pub open spec fn section_title(sec: Seq<char>, idx: nat) -> Seq<char> {
    if sec.len() == 0 {
        "Imported Note "@ + dec_spec(idx + 1)
    } else {
        let line = sec.take(run_end(sec, 0, not_nl_pred()));
        trim_spec(line.skip(run_end(line, 0, hash_pred())))
    }
}

/// The note one non-blank section yields: the computed title, the whole
/// section as content, no collection, and an empty tag list.
pub open spec fn section_record(sec: Seq<char>, idx: nat) -> ParsedNote {
    ParsedNote {
        title: section_title(sec, idx),
        content: sec,
        collection_id: None,
        tags: seq!['[', ']'],
    }
}

/// The notes the sections yield, skipping blank sections but numbering all
/// of them.
pub open spec fn section_records(secs: Seq<Seq<char>>, idx: nat) -> Seq<ParsedNote>
    decreases secs.len(),
{
    if secs.len() == 0 {
        Seq::empty()
    } else {
        (if all_space(secs[0]) {
            Seq::<ParsedNote>::empty()
        } else {
            seq![section_record(secs[0], idx)]
        }) + section_records(secs.skip(1), idx + 1)
    }
}

/// What an import of the source yields: the parsed JSON records, or failing
/// a JSON parse, the records of its markup sections.
pub open spec fn import_records(src: Seq<char>) -> Seq<ParsedNote> {
    match parse_notes(src) {
        Some(items) => items,
        None => section_records(split_sections(src), 0),
    }
}

/// An imported note against its source record: the title and tag text are
/// taken over, the content is normalized, the counts are derived from it,
/// and the timestamps are freshly assigned.
pub open spec fn imported_matches(n: Note, rec: ParsedNote) -> bool {
    &&& n.title@ == rec.title
    &&& n.content@ == normalize_spec(rec.content)
    &&& n.word_count == word_count_spec(normalize_spec(rec.content))
    &&& n.character_count == normalize_spec(rec.content).len()
    &&& n.collection_id.deep_view() == rec.collection_id
    &&& n.tags@ == rec.tags
    &&& n.created_at == n.updated_at < i64::MAX
    &&& n.is_archived == false
}

/// Importing a JSON export recovers, in order, every note's title, content,
/// collection reference and tag text: only identifiers, timestamps and the
/// derived counts are made anew.
pub proof fn lemma_json_export_import(ns: Seq<Note>)
    ensures
        import_records(crate::json::notes_json_spec(ns)) == ns.map_values(
            crate::json::note_proj(),
        ),
{
    crate::json::lemma_notes_json_roundtrip(ns);
}

/// The first separator at or after `from`, if any.
fn find_sep(cs: &Vec<char>, from: usize) -> (r: Option<usize>)
    requires
        from <= cs@.len(),
    ensures
        r matches Some(p) ==> from <= p && p + 5 <= cs@.len() && find_sep_from(cs@, from as int)
            == p && cs@.subrange(p as int, p + 5) == sep() && (forall|q: int|
            from <= q < p ==> #[trigger] cs@.subrange(q, q + 5) != sep()),
        r is None ==> find_sep_from(cs@, from as int) == -1,
{
    if cs.len() < 5 || from > cs.len() - 5 {
        proof {
            lemma_find_none(cs@, from as int);
        }
        return None;
    }
    let bound = cs.len() - 5;
    let mut p = from;
    while p <= bound
        invariant
            from <= p <= bound + 1,
            bound + 5 == cs@.len(),
            cs@.len() <= usize::MAX,
            forall|q: int|
                from <= q < p ==> #[trigger] cs@.subrange(q, q + 5) != sep(),
        decreases bound + 1 - p,
    {
        let hit = cs[p] == '\n' && cs[p + 1] == '-' && cs[p + 2] == '-' && cs[p + 3] == '-'
            && cs[p + 4] == '\n';
        if hit {
            proof {
                assert(cs@.subrange(p as int, p + 5) =~= sep());
                lemma_find_is(cs@, from as int, p as int);
            }
            return Some(p);
        }
        proof {
            if cs@.subrange(p as int, p + 5) == sep() {
                assert(cs@.subrange(p as int, p + 5)[0] == cs@[p as int]);
                assert(cs@.subrange(p as int, p + 5)[1] == cs@[p + 1]);
                assert(cs@.subrange(p as int, p + 5)[2] == cs@[p + 2]);
                assert(cs@.subrange(p as int, p + 5)[3] == cs@[p + 3]);
                assert(cs@.subrange(p as int, p + 5)[4] == cs@[p + 4]);
                assert(false);
            }
        }
        p += 1;
    }
    proof {
        lemma_find_none(cs@, from as int);
    }
    None
}

/// Nothing matches past the last possible start.
proof fn lemma_find_none(s: Seq<char>, i: int)
    requires
        0 <= i,
        forall|q: int| i <= q && q + 5 <= s.len() ==> #[trigger] s.subrange(q, q + 5) != sep(),
    ensures
        find_sep_from(s, i) == -1,
    decreases s.len() - i,
{
    if i + 5 <= s.len() {
        lemma_find_none(s, i + 1);
    }
}

/// A match with none before it is the first.
proof fn lemma_find_is(s: Seq<char>, i: int, p: int)
    requires
        0 <= i <= p,
        p + 5 <= s.len(),
        s.subrange(p, p + 5) == sep(),
        forall|q: int| i <= q < p ==> #[trigger] s.subrange(q, q + 5) != sep(),
    ensures
        find_sep_from(s, i) == p,
    decreases p - i,
{
    if i < p {
        lemma_find_is(s, i + 1, p);
    }
}

/// Splits the source on each separator, keeping every section.
fn split_sections_exec(cs: &Vec<char>) -> (r: Vec<String>)
    ensures
        r.deep_view() == split_sections(cs@),
{
    let n = cs.len();
    proof {
        assert(cs@.len() == n <= usize::MAX);
    }
    let mut out: Vec<String> = Vec::new();
    let mut start: usize = 0;
    proof {
        assert(cs@.skip(0) =~= cs@);
        assert(out.deep_view() + split_sections(cs@) =~= split_sections(cs@));
    }
    loop
        invariant
            start <= cs@.len(),
            cs@.len() <= usize::MAX,
            out.deep_view() + split_sections(cs@.skip(start as int)) == split_sections(cs@),
        decreases cs@.len() - start,
    {
        let ghost t = cs@.skip(start as int);
        match find_sep(cs, start) {
            Some(p) => {
                proof {
                    lemma_sep_shift(cs@, start as int, p as int);
                    assert(t.take(p - start) =~= cs@.subrange(start as int, p as int));
                    assert(t.skip(p - start + 5) =~= cs@.skip(p + 5));
                }
                let ghost dv0 = out.deep_view();
                let sec = crate::text::string_range(cs, start, p);
                let ghost sv = sec@;
                out.push(sec);
                proof {
                    assert(out.deep_view() =~= dv0.push(sv));
                    assert(dv0.push(sv) + split_sections(cs@.skip(p + 5 as int)) =~= dv0 + (seq![
                        sv,
                    ] + split_sections(cs@.skip(p + 5 as int))));
                }
                start = p + 5;
            },
            None => {
                proof {
                    lemma_sep_shift_none(cs@, start as int);
                }
                let ghost dv0 = out.deep_view();
                let sec = crate::text::string_range(cs, start, cs.len());
                let ghost sv = sec@;
                out.push(sec);
                proof {
                    assert(sv =~= t);
                    assert(out.deep_view() =~= dv0.push(sv));
                    assert(split_sections(t) == seq![t]);
                    assert(dv0.push(sv) =~= dv0 + seq![t]);
                    assert(out.deep_view() =~= split_sections(cs@));
                }
                return out;
            },
        }
    }
}

/// Finding a separator in the whole text at `p` is finding it in the suffix
/// at `p - start`.
proof fn lemma_sep_shift(s: Seq<char>, start: int, p: int)
    requires
        0 <= start <= p,
        p + 5 <= s.len(),
        find_sep_from(s, start) == p,
        s.subrange(p, p + 5) == sep(),
        forall|q: int| start <= q < p ==> #[trigger] s.subrange(q, q + 5) != sep(),
    ensures
        find_sep_from(s.skip(start), 0) == p - start,
{
    let t = s.skip(start);
    assert(t.subrange(p - start, p - start + 5) =~= s.subrange(p, p + 5));
    assert forall|q: int| 0 <= q < p - start implies #[trigger] t.subrange(q, q + 5) != sep() by {
        if q + 5 <= t.len() {
            assert(t.subrange(q, q + 5) =~= s.subrange(start + q, start + q + 5));
        } else {
            assert(t.subrange(q, q + 5).len() < 5) by {
                assert(t.len() < q + 5);
            }
        }
    }
    lemma_find_is(t, 0, p - start);
}

/// No separator in the whole text past `start` means none in the suffix.
proof fn lemma_sep_shift_none(s: Seq<char>, start: int)
    requires
        0 <= start <= s.len(),
        find_sep_from(s, start) == -1,
    ensures
        find_sep_from(s.skip(start), 0) == -1,
{
    let t = s.skip(start);
    assert forall|q: int| 0 <= q && q + 5 <= t.len() implies #[trigger] t.subrange(q, q + 5) != sep() by {
        assert(t.subrange(q, q + 5) =~= s.subrange(start + q, start + q + 5));
        lemma_find_hits(s, start, start + q);
    }
    lemma_find_none(t, 0);
}

/// When the search failed, no position at or after the start matches.
proof fn lemma_find_hits(s: Seq<char>, i: int, q: int)
    requires
        0 <= i <= q,
        q + 5 <= s.len(),
        find_sep_from(s, i) == -1,
    ensures
        s.subrange(q, q + 5) != sep(),
    decreases q - i,
{
    if i < q {
        lemma_find_hits(s, i + 1, q);
    }
}

/// The title of one section, following the markup rules.
fn section_title_exec(sec: &str, idx: usize) -> (r: String)
    requires
        idx < usize::MAX,
    ensures
        r@ == section_title(sec@, idx as nat),
{
    let cs = crate::text::chars_vec(sec);
    if cs.len() == 0 {
        let mut r = String::from_str("Imported Note ");
        let d = u64_dec((idx + 1) as u64);
        r.append(d.as_str());
        return r;
    }
    let mut le: usize = 0;
    while le < cs.len() && cs[le] != '\n'
        invariant
            le <= cs@.len(),
            forall|j: int| 0 <= j < le ==> #[trigger] not_nl_pred()(cs@[j]),
        decreases cs@.len() - le,
    {
        le += 1;
    }
    proof {
        lemma_run_end_is(cs@, 0, not_nl_pred(), le as int);
    }
    let ghost line = cs@.take(le as int);
    let mut h: usize = 0;
    while h < le && cs[h] == '#'
        invariant
            h <= le <= cs@.len(),
            line == cs@.take(le as int),
            forall|j: int| 0 <= j < h ==> #[trigger] hash_pred()(line[j]),
        decreases le - h,
    {
        proof {
            assert(line[h as int] == cs@[h as int]);
        }
        h += 1;
    }
    proof {
        assert(h < le ==> line[h as int] == cs@[h as int]);
        lemma_run_end_is(line, 0, hash_pred(), h as int);
        assert(line.skip(h as int) =~= cs@.subrange(h as int, le as int));
    }
    crate::text::trim_range(&cs, h, le)
}

impl Store {
    /// Inserts one imported note from a caller-chosen id and clock value:
    /// the content is normalized, the counts derived, the tag text and
    /// collection reference taken over. Refused only when the id is taken.
    pub fn import_note_with(
        &mut self,
        id: String,
        now: i64,
        title: String,
        content: String,
        collection_id: Option<String>,
        tags: String,
    ) -> (r: Result<Note, StoreError>)
        requires
            old(self).wf(),
            now < i64::MAX,
        ensures
            final(self).wf(),
            has_note(old(self).notes@, id@) ==> (r matches Err(e) && e == StoreError::Constraint
                && *final(self) == *old(self)),
            !has_note(old(self).notes@, id@) ==> (r matches Ok(n) && {
                &&& n.id@ == id@
                &&& n.title@ == title@
                &&& n.content@ == normalize_spec(content@)
                &&& n.collection_id == collection_id
                &&& n.tags@ == tags@
                &&& n.created_at == now
                &&& n.updated_at == now
                &&& n.word_count == word_count_spec(normalize_spec(content@))
                &&& n.character_count == normalize_spec(content@).len()
                &&& n.is_archived == false
                &&& final(self).notes@ == old(self).notes@.push(n)
                &&& final(self).collections@ == old(self).collections@
                &&& final(self).images@ == old(self).images@
                &&& final(self).note_images@ == old(self).note_images@
            }),
    {
        if crate::store::find_note(&self.notes, id.as_str()).is_some() {
            return Err(StoreError::Constraint);
        }
        let clean = sanitize_content(content.as_str());
        proof {
            lemma_normalize_idempotent(content@);
        }
        let word_count = count_words(clean.as_str());
        let character_count = count_characters(clean.as_str());
        let note = Note {
            id,
            title,
            content: clean,
            collection_id,
            tags,
            created_at: now,
            updated_at: now,
            word_count,
            character_count,
            is_archived: false,
        };
        let entry = IndexEntry {
            note_id: note.id.clone(),
            title: note.title.clone(),
            content: note.content.clone(),
            tags: note.tags.clone(),
        };
        let returned = note.duplicate();
        self.notes.push(note);
        self.index.push(entry);
        Ok(returned)
    }

    /// Imports a source text: a well-formed JSON document yields its
    /// records, anything else is read as markup sections. The imported
    /// notes are appended in source order. `Constraint` means a freshly
    /// drawn id collided; the records inserted before the collision stay,
    /// as each insertion commits on its own.
    pub fn import_notes(&mut self, source: &str) -> (r: Result<Vec<Note>, StoreError>)
        requires
            old(self).wf(),
        ensures
            final(self).wf(),
            import_records(source@).len() == 0 ==> r is Ok,
            r matches Ok(v) ==> {
                let recs = import_records(source@);
                &&& v@.len() == recs.len()
                &&& (forall|i: int|
                    0 <= i < recs.len() ==> imported_matches(#[trigger] v@[i], recs[i]))
                &&& final(self).notes@ == old(self).notes@ + v@
                &&& final(self).collections@ == old(self).collections@
                &&& final(self).images@ == old(self).images@
                &&& final(self).note_images@ == old(self).note_images@
            },
            r matches Err(e) ==> {
                let recs = import_records(source@);
                let pre = old(self).notes@.len() as int;
                &&& e == StoreError::Constraint
                &&& final(self).collections@ == old(self).collections@
                &&& final(self).images@ == old(self).images@
                &&& final(self).note_images@ == old(self).note_images@
                &&& pre <= final(self).notes@.len() < pre + recs.len()
                &&& final(self).notes@.take(pre) == old(self).notes@
                &&& (forall|i: int|
                    pre <= i < final(self).notes@.len() ==> imported_matches(
                        #[trigger] final(self).notes@[i],
                        recs[i - pre],
                    ))
            },
    {
        let ghost recs = import_records(source@);
        match parse_notes_text(source) {
            Some(records) => {
                let mut out: Vec<Note> = Vec::new();
                let mut k: usize = 0;
                proof {
                    assert(old(self).notes@ + out@ =~= old(self).notes@);
                }
                while k < records.len()
                    invariant
                        k <= records@.len(),
                        out@.len() == k,
                        self.wf(),
                        recs == import_records(source@),
                        recs.len() == records@.len(),
                        forall|i: int|
                            0 <= i < records@.len() ==> record_view(#[trigger] records@[i])
                                == recs[i],
                        forall|i: int|
                            0 <= i < k ==> imported_matches(#[trigger] out@[i], recs[i]),
                        self.notes@ == old(self).notes@ + out@,
                        self.collections@ == old(self).collections@,
                        self.images@ == old(self).images@,
                        self.note_images@ == old(self).note_images@,
                    decreases records@.len() - k,
                {
                    let id = fresh_id();
                    let now = now_micros();
                    let title = records[k].title.clone();
                    let content = records[k].content.clone();
                    let cid = clone_opt_string(&records[k].collection_id);
                    let tags = records[k].tags.clone();
                    match self.import_note_with(id, now, title, content, cid, tags) {
                        Ok(n) => {
                            proof {
                                assert(record_view(records@[k as int]) == recs[k as int]);
                                assert(imported_matches(n, recs[k as int]));
                                assert(old(self).notes@ + out@.push(n) =~= (old(self).notes@ + out@
                                ).push(n));
                            }
                            out.push(n);
                        },
                        Err(_) => {
                            proof {
                                assert(self.notes@.take(old(self).notes@.len() as int)
                                    =~= old(self).notes@);
                                assert(forall|i: int|
                                    old(self).notes@.len() <= i < self.notes@.len()
                                        ==> #[trigger] self.notes@[i] == out@[i - old(
                                    self,
                                ).notes@.len()]);
                            }
                            return Err(StoreError::Constraint);
                        },
                    }
                    k += 1;
                }
                Ok(out)
            },
            None => {
                let cs = crate::text::chars_vec(source);
                let secs = split_sections_exec(&cs);
                let ghost sv = secs.deep_view();
                proof {
                    assert(recs == section_records(sv, 0));
                    assert(sv.skip(0) =~= sv);
                }
                let mut out: Vec<Note> = Vec::new();
                proof {
                    assert(old(self).notes@ + out@ =~= old(self).notes@);
                }
                let mut k: usize = 0;
                while k < secs.len()
                    invariant
                        k <= secs@.len(),
                        secs.deep_view() == sv,
                        self.wf(),
                        recs == import_records(source@),
                        recs == recs.take(out@.len() as int) + section_records(
                            sv.skip(k as int),
                            k as nat,
                        ),
                        out@.len() <= recs.len(),
                        forall|i: int|
                            0 <= i < out@.len() ==> imported_matches(#[trigger] out@[i], recs[i]),
                        self.notes@ == old(self).notes@ + out@,
                        self.collections@ == old(self).collections@,
                        self.images@ == old(self).images@,
                        self.note_images@ == old(self).note_images@,
                    decreases secs@.len() - k,
                {
                    proof {
                        assert(sv.skip(k as int)[0] == sv[k as int]);
                        assert(sv[k as int] == secs@[k as int].deep_view());
                        assert(secs@[k as int].deep_view() =~= secs@[k as int]@);
                        assert(sv.skip(k as int).skip(1) =~= sv.skip(k + 1 as int));
                    }
                    if !crate::search::is_blank(secs[k].as_str()) {
                        let id = fresh_id();
                        let now = now_micros();
                        let title = section_title_exec(secs[k].as_str(), k);
                        let content = secs[k].clone();
                        let tags = String::from_str("[]");
                        proof {
                            reveal_strlit("[]");
                            assert(tags@ =~= seq!['[', ']']);
                        }
                        match self.import_note_with(id, now, title, content, None, tags) {
                            Ok(n) => {
                                proof {
                                    let rec = section_record(sv[k as int], k as nat);
                                    assert(imported_matches(n, rec));
                                    assert(recs[out@.len() as int] == rec);
                                    assert(recs.take(out@.len() + 1 as int) =~= recs.take(
                                        out@.len() as int,
                                    ).push(rec));
                                    assert(old(self).notes@ + out@.push(n) =~= (old(self).notes@
                                        + out@).push(n));
                                }
                                out.push(n);
                            },
                            Err(_) => {
                                proof {
                                    assert(self.notes@.take(old(self).notes@.len() as int)
                                        =~= old(self).notes@);
                                    assert(forall|i: int|
                                        old(self).notes@.len() <= i < self.notes@.len()
                                            ==> #[trigger] self.notes@[i] == out@[i - old(
                                        self,
                                    ).notes@.len()]);
                                    assert(out@.len() < recs.len()) by {
                                        assert(section_records(sv.skip(k as int), k as nat).len()
                                            >= 1);
                                    }
                                }
                                return Err(StoreError::Constraint);
                            },
                        }
                    }
                    k += 1;
                }
                proof {
                    assert(sv.skip(sv.len() as int) =~= Seq::<Seq<char>>::empty());
                    assert(recs =~= recs.take(out@.len() as int));
                    assert(out@.len() == recs.len());
                }
                Ok(out)
            },
        }
    }
}

} // verus!
