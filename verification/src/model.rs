//! Entities of the store — notes, collections, images and their association —
//! together with the well-formedness each one keeps, and the error taxonomy of
//! the operation surface.
use vstd::prelude::*;

use crate::text::{normalize_spec, word_count_spec};

verus! {

/// A note: content is always in normal form, and the two counts are always
/// derived from it at the moment of the last write.
#[derive(Debug)]
pub struct Note {
    pub id: String,
    pub title: String,
    pub content: String,
    pub collection_id: Option<String>,
    /// Tag list, persisted as serialized text.
    pub tags: String,
    /// Microseconds since the Unix epoch, UTC.
    pub created_at: i64,
    pub updated_at: i64,
    pub word_count: usize,
    pub character_count: usize,
    pub is_archived: bool,
}

impl Note {
    pub open spec fn wf(&self) -> bool {
        &&& self.content@ == normalize_spec(self.content@)
        &&& self.word_count == word_count_spec(self.content@)
        &&& self.character_count == self.content@.len()
        &&& self.created_at <= self.updated_at < i64::MAX
    }

    /// A copy that is equal, field for field, to this note.
    pub fn duplicate(&self) -> (r: Note)
        ensures
            r == *self,
    {
        Note {
            id: self.id.clone(),
            title: self.title.clone(),
            content: self.content.clone(),
            collection_id: clone_opt_string(&self.collection_id),
            tags: self.tags.clone(),
            created_at: self.created_at,
            updated_at: self.updated_at,
            word_count: self.word_count,
            character_count: self.character_count,
            is_archived: self.is_archived,
        }
    }
}

/// A node of the collection tree. `sort_order` is at least 1 and unique among
/// siblings that share the same parent.
#[derive(Debug)]
pub struct Collection {
    pub id: String,
    pub name: String,
    pub description: Option<String>,
    pub parent_id: Option<String>,
    pub color: Option<String>,
    pub icon: Option<String>,
    pub sort_order: i64,
    pub created_at: i64,
    pub updated_at: i64,
}

impl Collection {
    pub open spec fn wf(&self) -> bool {
        &&& self.sort_order >= 1
        &&& self.created_at <= self.updated_at < i64::MAX
    }

    /// A copy that is equal, field for field, to this collection.
    pub fn duplicate(&self) -> (r: Collection)
        ensures
            r == *self,
    {
        Collection {
            id: self.id.clone(),
            name: self.name.clone(),
            description: clone_opt_string(&self.description),
            parent_id: clone_opt_string(&self.parent_id),
            color: clone_opt_string(&self.color),
            icon: clone_opt_string(&self.icon),
            sort_order: self.sort_order,
            created_at: self.created_at,
            updated_at: self.updated_at,
        }
    }
}

/// Stored facts about an image; the bytes themselves live on disk and are the
/// caller's to read and write.
#[derive(Debug)]
pub struct ImageMetadata {
    pub id: String,
    /// System-generated storage filename, distinct from the original name.
    pub filename: String,
    pub original_name: String,
    pub file_path: String,
    /// Byte size of the stored file.
    pub size: usize,
    pub mime_type: String,
    pub created_at: i64,
}

impl ImageMetadata {
    /// A copy that is equal, field for field, to this record.
    pub fn duplicate(&self) -> (r: ImageMetadata)
        ensures
            r == *self,
    {
        ImageMetadata {
            id: self.id.clone(),
            filename: self.filename.clone(),
            original_name: self.original_name.clone(),
            file_path: self.file_path.clone(),
            size: self.size,
            mime_type: self.mime_type.clone(),
            created_at: self.created_at,
        }
    }
}

/// An image record together with an inline-encoded payload ready for display.
#[derive(Debug)]
pub struct ImageWithData {
    pub id: String,
    pub filename: String,
    pub original_name: String,
    pub file_path: String,
    pub size: usize,
    pub mime_type: String,
    pub created_at: i64,
    pub data_url: String,
}

/// One edge of the many-to-many association between notes and images.
#[derive(Debug)]
pub struct NoteImage {
    pub note_id: String,
    pub image_id: String,
    pub created_at: i64,
}

impl NoteImage {
    /// A copy that is equal, field for field, to this association.
    pub fn duplicate(&self) -> (r: NoteImage)
        ensures
            r == *self,
    {
        NoteImage {
            note_id: self.note_id.clone(),
            image_id: self.image_id.clone(),
            created_at: self.created_at,
        }
    }
}

/// One ranked search hit. `relevance_score` counts how often the query's
/// terms occur in the note; a higher score is a better match.
#[derive(Debug)]
pub struct SearchResult {
    pub note_id: String,
    pub title: String,
    pub excerpt: String,
    pub highlights: Vec<String>,
    pub relevance_score: usize,
    pub last_modified: i64,
}

/// Search filters are accepted for interface stability but are not applied:
/// every search runs over all non-archived notes.
#[derive(Debug)]
pub struct SearchFilters {
    pub collections: Option<Vec<String>>,
    pub tags: Option<Vec<String>>,
    pub date_range: Option<DateRange>,
    pub content_type: Option<String>,
}

/// A closed interval of timestamps, in microseconds since the Unix epoch.
#[derive(Debug, Clone, Copy)]
pub struct DateRange {
    pub start: i64,
    pub end: i64,
}

/// Counts of stored entities plus the size of the primary data file as the
/// caller measured it.
#[derive(Debug)]
pub struct StorageInfo {
    pub total_notes: usize,
    pub total_collections: usize,
    pub database_size: u64,
    /// There is no backup mechanism yet, so this marker is always absent.
    pub last_backup: Option<String>,
}

/// Why an operation was refused.
#[derive(Debug, PartialEq, Eq)]
pub enum StoreError {
    /// No note has the carried id.
    NoteNotFound(String),
    /// No collection has the carried id.
    CollectionNotFound(String),
    /// No image has the carried id.
    ImageNotFound(String),
    /// A structural constraint forbids the change, such as deleting a
    /// collection that still has child collections.
    Constraint,
    /// The carried export format name is not one of the recognized values.
    UnsupportedFormat(String),
    /// An export was requested with an empty id list.
    NoSelection,
}

impl StoreError {
    /// The descriptive message that belongs to this error.
    pub open spec fn message_spec(&self) -> Seq<char> {
        match self {
            StoreError::NoteNotFound(id) => "Note with id "@ + id@ + " not found"@,
            StoreError::CollectionNotFound(id) => "Collection with id "@ + id@ + " not found"@,
            StoreError::ImageNotFound(id) => "Image with id "@ + id@ + " not found"@,
            StoreError::Constraint => "Cannot delete collection with child collections"@,
            StoreError::UnsupportedFormat(f) => "Unsupported export format: "@ + f@,
            StoreError::NoSelection => "No notes selected for export"@,
        }
    }

    /// A descriptive message for the caller, including the id of an absent
    /// target.
    pub fn message(&self) -> (r: String)
        ensures
            r@ == self.message_spec(),
    {
        match self {
            StoreError::NoteNotFound(id) => {
                let mut m = String::from_str("Note with id ");
                m.append(id.as_str());
                m.append(" not found");
                m
            },
            StoreError::CollectionNotFound(id) => {
                let mut m = String::from_str("Collection with id ");
                m.append(id.as_str());
                m.append(" not found");
                m
            },
            StoreError::ImageNotFound(id) => {
                let mut m = String::from_str("Image with id ");
                m.append(id.as_str());
                m.append(" not found");
                m
            },
            StoreError::Constraint => String::from_str(
                "Cannot delete collection with child collections",
            ),
            StoreError::UnsupportedFormat(f) => {
                let mut m = String::from_str("Unsupported export format: ");
                m.append(f.as_str());
                m
            },
            StoreError::NoSelection => String::from_str("No notes selected for export"),
        }
    }
}

/// A copy of an optional string, equal to the original.
pub fn clone_opt_string(s: &Option<String>) -> (r: Option<String>)
    ensures
        r == *s,
{
    match s {
        Option::Some(v) => Option::Some(v.clone()),
        Option::None => Option::None,
    }
}

} // verus!
