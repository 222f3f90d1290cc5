//! Export translation: notes rendered as lightweight markup or as the
//! structured JSON document, fetched in creation order.
use vstd::prelude::*;

use crate::ext::{format_timestamp, parse_tags, parsed_tags, ts_display_of};
use crate::json::notes_json_spec;
use crate::model::{Note, StoreError};
use crate::order::{created_leq, insert_note_created, sort_by};
use crate::store::Store;
use crate::text::str_eq;

verus! {

/// Tag names joined by a comma and a space.
pub open spec fn join_comma(ts: Seq<Seq<char>>) -> Seq<char>
    decreases ts.len(),
{
    if ts.len() == 0 {
        Seq::empty()
    } else if ts.len() == 1 {
        ts[0]
    } else {
        join_comma(ts.drop_last()) + ", "@ + ts.last()
    }
}

/// The tags line of a rendered note: present only when the tag text parses
/// as a non-empty list; malformed tag text means no tags.
pub open spec fn tags_line(tags: Seq<char>) -> Seq<char> {
    match parsed_tags(tags) {
        Some(ts) => if ts.len() > 0 {
            "*Tags: "@ + join_comma(ts) + "*\n\n"@
        } else {
            Seq::empty()
        },
        None => Seq::empty(),
    }
}

/// One note rendered as lightweight markup: a heading from the title, the
/// two timestamps, the tags line when there are tags, the raw content, and
/// a section separator.
pub open spec fn note_markdown(n: Note) -> Seq<char> {
    "# "@ + n.title@ + "\n\n"@ + "*Created: "@ + ts_display_of(n.created_at) + "*\n"@
        + "*Updated: "@ + ts_display_of(n.updated_at) + "*\n\n"@ + tags_line(n.tags@) + n.content@
        + "\n\n---\n\n"@
}

/// The whole export: every note in the given order.
pub open spec fn markdown_spec(ns: Seq<Note>) -> Seq<char>
    decreases ns.len(),
{
    if ns.len() == 0 {
        Seq::empty()
    } else {
        markdown_spec(ns.drop_last()) + note_markdown(ns.last())
    }
}

/// Appends the tag names joined by a comma and a space.
fn push_joined(out: &mut String, ts: &Vec<String>)
    ensures
        final(out)@ == old(out)@ + join_comma(ts.deep_view()),
{
    let ghost tv = ts.deep_view();
    if ts.len() == 0 {
        proof {
            assert(old(out)@ + join_comma(tv) =~= old(out)@);
        }
        return ;
    }
    out.append(ts[0].as_str());
    let mut k: usize = 1;
    while k < ts.len()
        invariant
            1 <= k <= ts@.len(),
            ts.deep_view() == tv,
            tv.len() == ts@.len(),
            out@ == old(out)@ + join_comma(tv.take(k as int)),
        decreases ts@.len() - k,
    {
        proof {
            assert(tv.take(1) =~= seq![tv[0]]);
            assert(tv[0] == ts@[0].deep_view());
            assert(tv.take(k + 1 as int).drop_last() =~= tv.take(k as int));
            assert(tv.take(k + 1 as int).last() == tv[k as int]);
            assert(tv[k as int] == ts@[k as int].deep_view());
        }
        out.append(", ");
        out.append(ts[k].as_str());
        proof {
            assert(out@ =~= old(out)@ + join_comma(tv.take(k + 1 as int)));
        }
        k += 1;
    }
    proof {
        assert(tv.take(tv.len() as int) =~= tv);
        if ts@.len() == 1 {
            assert(tv.take(1) =~= seq![tv[0]]);
            assert(tv[0] == ts@[0].deep_view());
        }
    }
}

/// Appends one rendered note.
fn push_note_markdown(out: &mut String, n: &Note)
    ensures
        final(out)@ == old(out)@ + note_markdown(*n),
{
    let ghost base = old(out)@;
    out.append("# ");
    out.append(n.title.as_str());
    out.append("\n\n");
    out.append("*Created: ");
    let created = format_timestamp(n.created_at);
    out.append(created.as_str());
    out.append("*\n");
    out.append("*Updated: ");
    let updated = format_timestamp(n.updated_at);
    out.append(updated.as_str());
    out.append("*\n\n");
    let ghost before_tags = out@;
    match parse_tags(n.tags.as_str()) {
        Option::Some(ts) => {
            if ts.len() > 0 {
                out.append("*Tags: ");
                push_joined(out, &ts);
                out.append("*\n\n");
                proof {
                    assert(out@ =~= before_tags + tags_line(n.tags@));
                }
            } else {
                proof {
                    assert(out@ =~= before_tags + tags_line(n.tags@));
                }
            }
        },
        Option::None => {
            proof {
                assert(out@ =~= before_tags + tags_line(n.tags@));
            }
        },
    }
    out.append(n.content.as_str());
    out.append("\n\n---\n\n");
    proof {
        assert(out@ =~= base + note_markdown(*n));
    }
}

/// Renders the notes as lightweight markup, in the given order.
pub fn export_as_markdown(notes: &Vec<Note>) -> (r: String)
    ensures
        r@ == markdown_spec(notes@),
{
    let mut out = String::new();
    let mut i: usize = 0;
    proof {
        assert(notes@.take(0) =~= Seq::<Note>::empty());
    }
    while i < notes.len()
        invariant
            i <= notes@.len(),
            out@ == markdown_spec(notes@.take(i as int)),
        decreases notes@.len() - i,
    {
        proof {
            assert(notes@.take(i + 1 as int).drop_last() =~= notes@.take(i as int));
            assert(notes@.take(i + 1 as int).last() == notes@[i as int]);
        }
        push_note_markdown(&mut out, &notes[i]);
        i += 1;
    }
    proof {
        assert(notes@.take(notes@.len() as int) =~= notes@);
    }
    out
}

/// Renders the notes as the structured JSON document.
pub fn export_as_json(notes: &Vec<Note>) -> (r: String)
    ensures
        r@ == notes_json_spec(notes@),
{
    crate::json::notes_to_json(notes)
}

/// The predicate that selects a note whose id was asked for.
pub open spec fn selected_pred(ids: Seq<Seq<char>>) -> spec_fn(Note) -> bool {
    |n: Note| ids.contains(n.id@)
}

/// Whether the id list holds this id.
fn contains_id(ids: &Vec<String>, id: &str) -> (r: bool)
    ensures
        r == ids.deep_view().contains(id@),
{
    let mut i: usize = 0;
    while i < ids.len()
        invariant
            i <= ids@.len(),
            forall|j: int| 0 <= j < i ==> ids.deep_view()[j] != id@,
        decreases ids@.len() - i,
    {
        proof {
            assert(ids.deep_view()[i as int] == ids@[i as int].deep_view());
            assert(ids@[i as int].deep_view() =~= ids@[i as int]@);
        }
        if str_eq(ids[i].as_str(), id) {
            proof {
                assert(ids.deep_view()[i as int] == id@);
            }
            return true;
        }
        i += 1;
    }
    proof {
        assert(!ids.deep_view().contains(id@));
    }
    false
}

impl Store {
    /// The selected notes in creation order, regardless of the order the
    /// ids were supplied in; ids that match no note are skipped.
    pub fn notes_for_export(&self, note_ids: &Vec<String>) -> (r: Vec<Note>)
        requires
            self.wf(),
        ensures
            r@ == sort_by(
                self.notes@.filter(selected_pred(note_ids.deep_view())),
                created_leq(),
            ),
    {
        let ghost ids = note_ids.deep_view();
        proof {
            reveal(Seq::filter);
            assert(self.notes@.take(0) =~= Seq::<Note>::empty());
        }
        let mut out: Vec<Note> = Vec::new();
        let mut i: usize = 0;
        while i < self.notes.len()
            invariant
                i <= self.notes@.len(),
                ids == note_ids.deep_view(),
                out@ == sort_by(
                    self.notes@.take(i as int).filter(selected_pred(ids)),
                    created_leq(),
                ),
            decreases self.notes@.len() - i,
        {
            proof {
                reveal(Seq::filter);
                assert(self.notes@.take(i + 1 as int).drop_last() =~= self.notes@.take(i as int));
                assert(self.notes@.take(i + 1 as int).last() == self.notes@[i as int]);
            }
            if contains_id(note_ids, self.notes[i].id.as_str()) {
                proof {
                    let f = self.notes@.take(i + 1 as int).filter(selected_pred(ids));
                    assert(f.drop_last() =~= self.notes@.take(i as int).filter(
                        selected_pred(ids),
                    ));
                    assert(f.last() == self.notes@[i as int]);
                }
                insert_note_created(&mut out, self.notes[i].duplicate());
            }
            i += 1;
        }
        proof {
            assert(self.notes@.take(self.notes@.len() as int) =~= self.notes@);
        }
        out
    }

    /// Exports the selected notes: `markdown` renders lightweight markup,
    /// `json` the structured document; an empty selection and an unknown
    /// format name are refused. Notes are fetched in creation order,
    /// whatever order the ids came in.
    pub fn export_notes(&self, format: &str, note_ids: &Vec<String>) -> (r: Result<
        String,
        StoreError,
    >)
        requires
            self.wf(),
        ensures
            note_ids@.len() == 0 ==> (r matches Err(e) && e == StoreError::NoSelection),
            note_ids@.len() > 0 ==> {
                let sel = sort_by(
                    self.notes@.filter(selected_pred(note_ids.deep_view())),
                    created_leq(),
                );
                if format@ == "markdown"@ {
                    r matches Ok(s) && s@ == markdown_spec(sel)
                } else if format@ == "json"@ {
                    r matches Ok(s) && s@ == notes_json_spec(sel)
                } else {
                    r matches Err(e) && e matches StoreError::UnsupportedFormat(f) && f@ == format@
                }
            },
    {
        if note_ids.len() == 0 {
            return Err(StoreError::NoSelection);
        }
        let selected = self.notes_for_export(note_ids);
        if str_eq(format, "markdown") {
            Ok(export_as_markdown(&selected))
        } else if str_eq(format, "json") {
            Ok(export_as_json(&selected))
        } else {
            Err(StoreError::UnsupportedFormat(String::from_str(format)))
        }
    }
}

/// The greeting the application sends back to a caller trying the wiring.
pub fn greet(name: &str) -> (r: String)
    ensures
        r@ == "Hello, "@ + name@ + "! You've been greeted from Rust!"@,
{
    let mut r = String::from_str("Hello, ");
    r.append(name);
    r.append("! You've been greeted from Rust!");
    r
}

} // verus!
