use crate::error::Error;
use crate::hash::content_digest;
use crate::model::{note_views, Note, Timestamp};
use crate::persistence::laws::{law_created_consistent, law_updated_consistent};
use crate::persistence::{Persistence, Tables};
use crate::tag::{extract_tags, has_tags, tag_set};
use crate::text::{lemma_ascending_distinct, str_views};
use crate::tokenizer::simple::{lemma_split_join, simple_filter, SimpleTokenizer};
use crate::tokenizer::Tokenizer;
use vstd::prelude::*;

verus! {

/// Whether two texts are the same.
fn same_text(a: &str, b: &str) -> (r: bool)
    ensures
        r == (a@ == b@),
{
    let x = a.to_owned();
    let y = b.to_owned();
    x == y
}

/// The note service: notes go into a store under the tags written in their
/// text, and come out of it by filters over those tags.
pub struct HashTags<P: Persistence> {
    p: P,
}

impl<P: Persistence> View for HashTags<P> {
    type V = Tables;

    /// The tables of the store behind the service.
    closed spec fn view(&self) -> Tables {
        self.p.tables()
    }
}

impl<P: Persistence> HashTags<P> {
    /// Whether the store behind the service is a dependable one.
    pub closed spec fn dependable(&self) -> bool {
        self.p.dependable()
    }

    /// A service over the store `p`.
    pub fn new(p: P) -> (service: HashTags<P>)
        ensures
            service@ == p.tables(),
            service.dependable() == p.dependable(),
    {
        HashTags { p }
    }

    /// Stores `note` under the tags written in it.
    ///
    /// A text without a tag is refused with `Error::NoTagsFound` before the
    /// store is touched, and a text that is stored already with
    /// `Error::DuplicateNote`.
    pub fn create(&mut self, note: &str) -> (r: Result<(), Error>)
        ensures
            final(self).dependable() == old(self).dependable(),
            old(self)@.wf() ==> final(self)@.wf(),
            old(self)@.content_addressed() ==> final(self)@.content_addressed(),
            old(self)@.wf() && old(self)@.tag_consistent() ==> final(self)@.tag_consistent(),
            match r {
                Ok(()) => {
                    &&& has_tags(note@)
                    &&& !old(self)@.has_note(content_digest(note@))
                    &&& exists|now: Timestamp|
                        final(self)@ == old(self)@.created(
                            content_digest(note@),
                            note@,
                            tag_set(note@),
                            now,
                        )
                },
                Err(Error::NoTagsFound) => !has_tags(note@) && final(self)@ == old(self)@,
                Err(Error::DuplicateNote) => {
                    &&& has_tags(note@)
                    &&& old(self)@.has_note(content_digest(note@))
                    &&& final(self)@ == old(self)@
                },
                Err(Error::StorageFailure(_)) => {
                    &&& has_tags(note@)
                    &&& !old(self).dependable()
                    &&& final(self)@ == old(self)@
                },
                Err(_) => false,
            },
    {
        let tags = match extract_tags(note) {
            Ok(tags) => tags,
            Err(_) => {
                return Err(Error::NoTagsFound);
            },
        };
        proof {
            lemma_ascending_distinct(str_views(tags@));
        }
        let r = self.p.create_note(note, tags);
        proof {
            if r is Ok && old(self)@.wf() && old(self)@.tag_consistent() {
                let now = choose|now: Timestamp|
                    self@ == old(self)@.created(content_digest(note@), note@, tag_set(note@), now);
                law_created_consistent(old(self)@, content_digest(note@), note@, now);
            }
        }
        r
    }

    /// The stored notes that pass the filter written in `filter`, most
    /// recently created first. `method` names the grammar of the filter;
    /// the one grammar there is goes by the name `simple`.
    ///
    /// Another name is refused with `Error::UnknownTokenizer`, and an
    /// empty filter with `Error::NoFilterProvided`.
    pub fn query(&self, method: &str, filter: &str) -> (r: Result<Vec<Note>, Error>)
        ensures
            match r {
                Ok(notes) => {
                    &&& method@ == "simple"@
                    &&& filter@.len() > 0
                    &&& note_views(notes@) == self@.select(
                        simple_filter(filter@).ands,
                        simple_filter(filter@).ors,
                    )
                },
                Err(Error::UnknownTokenizer) => method@ != "simple"@,
                Err(Error::NoFilterProvided) => method@ == "simple"@ && filter@.len() == 0,
                Err(Error::StorageFailure(_)) => {
                    &&& method@ == "simple"@
                    &&& filter@.len() > 0
                    &&& !self.dependable()
                },
                Err(_) => false,
            },
    {
        if !same_text(method, "simple") {
            return Err(Error::UnknownTokenizer);
        }
        let t = SimpleTokenizer::new();
        let f = match t.tokenize(filter) {
            Ok(f) => f,
            Err(e) => {
                return Err(e);
            },
        };
        proof {
            if filter@.len() > 0 {
                lemma_split_join(filter@, ',');
                lemma_split_join(split_last(filter@), '|');
            }
        }
        self.p.query_notes(&f.ands, &f.ors)
    }

    /// Gives the stored note with the hash `hash` the text `note` and the
    /// tags written in it.
    ///
    /// A text without a tag is refused with `Error::NoTagsFound` before the
    /// store is touched, a hash that no stored note has with
    /// `Error::NoteNotFound`, and a text that another note holds already
    /// with `Error::DuplicateNote`.
    pub fn update(&mut self, note: &str, hash: Vec<u8>) -> (r: Result<(), Error>)
        ensures
            final(self).dependable() == old(self).dependable(),
            old(self)@.wf() ==> final(self)@.wf(),
            old(self)@.content_addressed() ==> final(self)@.content_addressed(),
            old(self)@.wf() && old(self)@.tag_consistent() ==> final(self)@.tag_consistent(),
            match r {
                Ok(()) => {
                    &&& has_tags(note@)
                    &&& old(self)@.has_note(hash@)
                    &&& content_digest(note@) == hash@ || !old(self)@.has_note(
                        content_digest(note@),
                    )
                    &&& exists|now: Timestamp|
                        final(self)@ == old(self)@.updated(
                            hash@,
                            content_digest(note@),
                            note@,
                            tag_set(note@),
                            now,
                        )
                },
                Err(Error::NoTagsFound) => !has_tags(note@) && final(self)@ == old(self)@,
                Err(Error::NoteNotFound) => {
                    &&& has_tags(note@)
                    &&& !old(self)@.has_note(hash@)
                    &&& final(self)@ == old(self)@
                },
                Err(Error::DuplicateNote) => {
                    &&& has_tags(note@)
                    &&& old(self)@.has_note(hash@)
                    &&& content_digest(note@) != hash@
                    &&& old(self)@.has_note(content_digest(note@))
                    &&& final(self)@ == old(self)@
                },
                Err(Error::StorageFailure(_)) => {
                    &&& has_tags(note@)
                    &&& !old(self).dependable()
                    &&& final(self)@ == old(self)@
                },
                Err(_) => false,
            },
    {
        let tags = match extract_tags(note) {
            Ok(tags) => tags,
            Err(_) => {
                return Err(Error::NoTagsFound);
            },
        };
        proof {
            lemma_ascending_distinct(str_views(tags@));
        }
        let r = self.p.update_note_by_hash(&hash, note, tags);
        proof {
            if r is Ok && old(self)@.wf() && old(self)@.tag_consistent() {
                let now = choose|now: Timestamp|
                    self@ == old(self)@.updated(
                        hash@,
                        content_digest(note@),
                        note@,
                        tag_set(note@),
                        now,
                    );
                law_updated_consistent(old(self)@, hash@, content_digest(note@), note@, now);
            }
        }
        r
    }
}

/// The last of the terms that commas cut `q` into.
spec fn split_last(q: Seq<char>) -> Seq<char> {
    crate::tokenizer::simple::split(q, ',').last()
}

} // verus!
