use crate::error::Error;
use crate::hash::content_digest;
use crate::model::{note_views, Note, NoteView, Timestamp};
use crate::tag::is_tag_of;
use crate::text::str_views;
use vstd::prelude::*;

pub mod laws;
pub mod memory;
pub mod sqlite;

verus! {

/// The three tables of a note store, as contracts see them.
pub struct Tables {
    /// The notes, most recently created first.
    pub notes: Seq<NoteView>,
    /// Every tag that a note was ever given.
    pub tags: Set<Seq<char>>,
    /// The pairs of a tag and the hash of a note that carries it.
    pub relations: Set<(Seq<char>, Seq<u8>)>,
}

/// The place of the first note with the hash `hash`, or the length of
/// `notes` where none has it.
pub open spec fn first_with_hash(notes: Seq<NoteView>, hash: Seq<u8>) -> int
    decreases notes.len(),
{
    if notes.len() == 0 || notes[0].hash == hash {
        0
    } else {
        1 + first_with_hash(notes.drop_first(), hash)
    }
}

/// How many notes at the head of `notes` were created after `t`.
pub open spec fn newer_count(notes: Seq<NoteView>, t: Timestamp) -> int
    decreases notes.len(),
{
    if notes.len() > 0 && notes[0].time_created.after(t) {
        1 + newer_count(notes.drop_first(), t)
    } else {
        0
    }
}

impl Tables {
    /// The store without any note.
    pub open spec fn empty() -> Tables {
        Tables { notes: Seq::empty(), tags: Set::empty(), relations: Set::empty() }
    }

    /// The keys hold: no two notes share a hash, each relation joins a tag
    /// of the tag table to a note of the note table, and the notes stand
    /// most recently created first.
    pub open spec fn wf(self) -> bool {
        &&& forall|i: int, j: int|
            0 <= i < j < self.notes.len() ==> self.notes[i].hash != self.notes[j].hash
        &&& forall|i: int, j: int|
            0 <= i < j < self.notes.len() ==> self.notes[i].time_created.not_before(
                self.notes[j].time_created,
            )
        &&& forall|tag: Seq<char>, hash: Seq<u8>| #[trigger]
            self.relations.contains((tag, hash)) ==> self.tags.contains(tag) && self.has_note(
                hash,
            )
    }

    /// Each note's hash is the digest of its content.
    pub open spec fn content_addressed(self) -> bool {
        forall|i: int|
            0 <= i < self.notes.len() ==> (#[trigger] self.notes[i]).hash == content_digest(
                self.notes[i].content,
            )
    }

    /// Each note carries exactly the tags that are written in its content.
    pub open spec fn tag_consistent(self) -> bool {
        forall|i: int, tag: Seq<char>|
            0 <= i < self.notes.len() ==> (#[trigger] self.related(tag, self.notes[i].hash)
                <==> is_tag_of(self.notes[i].content, tag))
    }

    /// A note with this hash is stored.
    pub open spec fn has_note(self, hash: Seq<u8>) -> bool {
        exists|i: int| 0 <= i < self.notes.len() && (#[trigger] self.notes[i]).hash == hash
    }

    /// The note with the hash `hash` carries the tag `tag`.
    pub open spec fn related(self, tag: Seq<char>, hash: Seq<u8>) -> bool {
        self.relations.contains((tag, hash))
    }

    /// The note with the hash `hash` passes the filter: it carries every
    /// tag of `ands` and, unless `ors` is empty, at least one tag of `ors`.
    pub open spec fn passes(
        self,
        hash: Seq<u8>,
        ands: Seq<Seq<char>>,
        ors: Seq<Seq<char>>,
    ) -> bool {
        &&& forall|i: int| 0 <= i < ands.len() ==> self.related(#[trigger] ands[i], hash)
        &&& (ors.len() == 0 || exists|j: int|
            0 <= j < ors.len() && self.related(#[trigger] ors[j], hash))
    }

    /// The filter as a test on a note.
    pub open spec fn filter_of(self, ands: Seq<Seq<char>>, ors: Seq<Seq<char>>) -> spec_fn(
        NoteView,
    ) -> bool {
        |n: NoteView| self.passes(n.hash, ands, ors)
    }

    /// The notes that pass the filter, in the order of the note table:
    /// most recently created first.
    pub open spec fn select(self, ands: Seq<Seq<char>>, ors: Seq<Seq<char>>) -> Seq<NoteView> {
        self.notes.filter(self.filter_of(ands, ors))
    }

    /// The note that `created` enters.
    pub open spec fn fresh_note(hash: Seq<u8>, text: Seq<char>, now: Timestamp) -> NoteView {
        NoteView { hash, content: text, time_created: now, time_updated: None }
    }

    /// The note that `updated` puts in the place of the first note with
    /// the hash `old_hash`.
    pub open spec fn edited_note(
        self,
        old_hash: Seq<u8>,
        hash: Seq<u8>,
        text: Seq<char>,
        now: Timestamp,
    ) -> NoteView {
        NoteView {
            hash,
            content: text,
            time_created: self.notes[first_with_hash(self.notes, old_hash)].time_created,
            time_updated: Some(now),
        }
    }

    /// The store after a note with the hash `hash`, the text `text` and the
    /// tags `tags` was created at the time `now`. The note stands behind
    /// the notes created after `now` and before all others.
    pub open spec fn created(
        self,
        hash: Seq<u8>,
        text: Seq<char>,
        tags: Set<Seq<char>>,
        now: Timestamp,
    ) -> Tables {
        Tables {
            notes: self.notes.insert(
                newer_count(self.notes, now),
                Self::fresh_note(hash, text, now),
            ),
            tags: self.tags.union(tags),
            relations: Set::new(
                |r: (Seq<char>, Seq<u8>)|
                    self.relations.contains(r) || (tags.contains(r.0) && r.1 == hash),
            ),
        }
    }

    /// The store after the first note with the hash `old_hash` was given
    /// the hash `hash`, the text `text` and the tags `tags` at the time
    /// `now`. The note keeps its place and its time of creation; the
    /// relations of `old_hash` are gone, whatever they were.
    pub open spec fn updated(
        self,
        old_hash: Seq<u8>,
        hash: Seq<u8>,
        text: Seq<char>,
        tags: Set<Seq<char>>,
        now: Timestamp,
    ) -> Tables {
        Tables {
            notes: self.notes.update(
                first_with_hash(self.notes, old_hash),
                self.edited_note(old_hash, hash, text, now),
            ),
            tags: self.tags.union(tags),
            relations: Set::new(
                |r: (Seq<char>, Seq<u8>)|
                    (self.relations.contains(r) && r.1 != old_hash) || (tags.contains(r.0) && r.1
                        == hash),
            ),
        }
    }

    /// A note with the hash `hash` and the tags `tags` can be created: no
    /// stored note has the hash, and no tag is given twice.
    pub open spec fn can_create(self, hash: Seq<u8>, tags: Seq<Seq<char>>) -> bool {
        !self.has_note(hash) && tags.no_duplicates()
    }

    /// The note with the hash `old_hash` can be given the hash `hash` and
    /// the tags `tags`: it is stored, no other note has the new hash, and
    /// no tag is given twice.
    pub open spec fn can_update(
        self,
        old_hash: Seq<u8>,
        hash: Seq<u8>,
        tags: Seq<Seq<char>>,
    ) -> bool {
        &&& self.has_note(old_hash)
        &&& (hash == old_hash || !self.has_note(hash))
        &&& tags.no_duplicates()
    }
}

/// A store of notes, tags and the relations between them. Each operation
/// either takes place as a whole or leaves the store as it was.
pub trait Persistence {
    /// The tables of this store.
    spec fn tables(&self) -> Tables;

    /// Whether the engine behind this store never fails on its own: a
    /// dependable store reports `Error::StorageFailure` only where a
    /// relation is named twice.
    spec fn dependable(&self) -> bool;

    /// Stores a new note with the text `text` and the tags `tags`, created
    /// now. Its hash is the digest of `text`.
    ///
    /// A stored note with the same hash makes this `Error::DuplicateNote`.
    /// A tag given twice would make one relation twice and is refused
    /// with `Error::StorageFailure`.
    fn create_note(&mut self, text: &str, tags: Vec<&str>) -> (r: Result<(), Error>)
        ensures
            final(self).dependable() == old(self).dependable(),
            old(self).tables().wf() ==> final(self).tables().wf(),
            old(self).tables().content_addressed() ==> final(self).tables().content_addressed(),
            match r {
                Ok(()) => {
                    &&& old(self).tables().can_create(content_digest(text@), str_views(tags@))
                    &&& exists|now: Timestamp|
                        final(self).tables() == old(self).tables().created(
                            content_digest(text@),
                            text@,
                            str_views(tags@).to_set(),
                            now,
                        )
                },
                Err(Error::DuplicateNote) => {
                    &&& old(self).tables().has_note(content_digest(text@))
                    &&& final(self).tables() == old(self).tables()
                },
                Err(Error::StorageFailure(_)) => {
                    &&& final(self).tables() == old(self).tables()
                    &&& old(self).dependable() ==> {
                        &&& !old(self).tables().has_note(content_digest(text@))
                        &&& !str_views(tags@).no_duplicates()
                    }
                },
                Err(_) => false,
            },
    ;

    /// The stored notes that pass the filter, most recently created
    /// first. A filter without any tag is refused with
    /// `Error::NoFilterProvided`.
    fn query_notes(&self, and_tags: &Vec<&str>, or_tags: &Vec<&str>) -> (r: Result<
        Vec<Note>,
        Error,
    >)
        ensures
            match r {
                Ok(notes) => {
                    &&& and_tags.len() + or_tags.len() > 0
                    &&& note_views(notes@) == self.tables().select(
                        str_views(and_tags@),
                        str_views(or_tags@),
                    )
                },
                Err(Error::NoFilterProvided) => and_tags.len() == 0 && or_tags.len() == 0,
                Err(Error::StorageFailure(_)) => {
                    &&& and_tags.len() + or_tags.len() > 0
                    &&& !self.dependable()
                },
                Err(_) => false,
            },
    ;

    /// Gives the note with the hash `hash` the text `text` and the tags
    /// `tags`, updated now. Its new hash is the digest of `text`; its time
    /// of creation stays.
    ///
    /// Without a stored note of that hash this is `Error::NoteNotFound`.
    /// Where another note has the new hash already it is
    /// `Error::DuplicateNote`, and a tag given twice is refused with
    /// `Error::StorageFailure`.
    fn update_note_by_hash(&mut self, hash: &Vec<u8>, text: &str, tags: Vec<&str>) -> (r: Result<
        (),
        Error,
    >)
        ensures
            final(self).dependable() == old(self).dependable(),
            old(self).tables().wf() ==> final(self).tables().wf(),
            old(self).tables().content_addressed() ==> final(self).tables().content_addressed(),
            match r {
                Ok(()) => {
                    &&& old(self).tables().can_update(
                        hash@,
                        content_digest(text@),
                        str_views(tags@),
                    )
                    &&& exists|now: Timestamp|
                        final(self).tables() == old(self).tables().updated(
                            hash@,
                            content_digest(text@),
                            text@,
                            str_views(tags@).to_set(),
                            now,
                        )
                },
                Err(Error::NoteNotFound) => {
                    &&& !old(self).tables().has_note(hash@)
                    &&& final(self).tables() == old(self).tables()
                },
                Err(Error::DuplicateNote) => {
                    &&& old(self).tables().has_note(hash@)
                    &&& content_digest(text@) != hash@
                    &&& old(self).tables().has_note(content_digest(text@))
                    &&& final(self).tables() == old(self).tables()
                },
                Err(Error::StorageFailure(_)) => {
                    &&& final(self).tables() == old(self).tables()
                    &&& old(self).dependable() ==> {
                        &&& old(self).tables().has_note(hash@)
                        &&& content_digest(text@) == hash@ || !old(self).tables().has_note(
                            content_digest(text@),
                        )
                        &&& !str_views(tags@).no_duplicates()
                    }
                },
                Err(_) => false,
            },
    ;
}

} // verus!
