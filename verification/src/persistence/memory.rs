use crate::clock::now;
use crate::error::Error;
use crate::hash::{content_digest, content_hash};
use crate::model::{copy_bytes, note_views, same_bytes, Note, NoteView, Timestamp};
use crate::persistence::laws::{lemma_created_wf, lemma_updated_wf};
use crate::persistence::{first_with_hash, newer_count, Persistence, Tables};
use crate::text::str_views;
use vstd::prelude::*;

verus! {

/// One row of the relation table: the note with the hash `note_hash`
/// carries the tag `tag_name`.
#[derive(Debug)]
struct Relation {
    tag_name: String,
    note_hash: Vec<u8>,
}

/// A note store that keeps its three tables in memory.
#[derive(Debug)]
pub struct MemoryPersistence {
    notes: Vec<Note>,
    tags: Vec<String>,
    relations: Vec<Relation>,
}

/// The views of a sequence of strings, in the same order.
spec fn string_views(v: Seq<String>) -> Seq<Seq<char>> {
    v.map_values(|s: String| s@)
}

/// The rows of a relation table as pairs of a tag and a hash.
spec fn relation_views(v: Seq<Relation>) -> Seq<(Seq<char>, Seq<u8>)> {
    v.map_values(|r: Relation| (r.tag_name@, r.note_hash@))
}

proof fn lemma_found_at(notes: Seq<NoteView>, hash: Seq<u8>, at: int)
    requires
        0 <= at <= notes.len(),
        forall|k: int| 0 <= k < at ==> (#[trigger] notes[k]).hash != hash,
        at < notes.len() ==> notes[at].hash == hash,
    ensures
        first_with_hash(notes, hash) == at,
    decreases at,
{
    if at > 0 {
        assert(notes[0].hash != hash);
        let rest = notes.drop_first();
        assert forall|k: int| 0 <= k < at - 1 implies (#[trigger] rest[k]).hash != hash by {
            assert(rest[k] == notes[k + 1]);
        }
        lemma_found_at(rest, hash, at - 1);
    }
}

proof fn lemma_newer_at(notes: Seq<NoteView>, t: Timestamp, at: int)
    requires
        0 <= at <= notes.len(),
        forall|k: int| 0 <= k < at ==> (#[trigger] notes[k]).time_created.after(t),
        at < notes.len() ==> !notes[at].time_created.after(t),
    ensures
        newer_count(notes, t) == at,
    decreases at,
{
    if at > 0 {
        assert(notes[0].time_created.after(t));
        let rest = notes.drop_first();
        assert forall|k: int| 0 <= k < at - 1 implies (#[trigger] rest[k]).time_created.after(
            t,
        ) by {
            assert(rest[k] == notes[k + 1]);
        }
        lemma_newer_at(rest, t, at - 1);
    }
}

/// Owned copies of the slices of `tags`.
fn owned(tags: &Vec<&str>) -> (r: Vec<String>)
    ensures
        string_views(r@) == str_views(tags@),
{
    let mut r: Vec<String> = Vec::new();
    let mut i: usize = 0;
    while i < tags.len()
        invariant
            i <= tags.len(),
            string_views(r@) == str_views(tags@).take(i as int),
        decreases tags.len() - i,
    {
        let ghost done = string_views(r@);
        r.push(tags[i].to_owned());
        assert(string_views(r@) =~= done.push(tags@[i as int]@));
        assert(str_views(tags@).take(i + 1) =~= done.push(tags@[i as int]@));
        i += 1;
    }
    assert(str_views(tags@).take(tags.len() as int) =~= str_views(tags@));
    r
}

/// Whether `tag` is among `tags`.
fn holds(tags: &Vec<String>, upto: usize, tag: &String) -> (r: bool)
    requires
        upto <= tags.len(),
    ensures
        r == string_views(tags@).take(upto as int).contains(tag@),
{
    let ghost head = string_views(tags@).take(upto as int);
    let mut i: usize = 0;
    while i < upto
        invariant
            i <= upto <= tags.len(),
            head == string_views(tags@).take(upto as int),
            forall|k: int| 0 <= k < i ==> head[k] != tag@,
        decreases upto - i,
    {
        if tags[i] == *tag {
            assert(head[i as int] == tag@);
            return true;
        }
        i += 1;
    }
    false
}

/// Whether some tag stands twice in `tags`.
fn has_repeats(tags: &Vec<String>) -> (r: bool)
    ensures
        r == !string_views(tags@).no_duplicates(),
{
    let ghost views = string_views(tags@);
    let mut i: usize = 0;
    while i < tags.len()
        invariant
            i <= tags.len(),
            views == string_views(tags@),
            views.take(i as int).no_duplicates(),
        decreases tags.len() - i,
    {
        if holds(tags, i, &tags[i]) {
            proof {
                let k = choose|k: int| 0 <= k < i && views.take(i as int)[k] == views[i as int];
                assert(views[k] == views[i as int]);
            }
            return true;
        }
        proof {
            let next = views.take(i + 1);
            assert forall|a: int, b: int| 0 <= a < next.len() && 0 <= b < next.len() && a
                != b implies next[a] != next[b] by {
                if a < i && b < i {
                    assert(views.take(i as int)[a] != views.take(i as int)[b]);
                } else if a < i {
                    assert(views.take(i as int)[a] == next[a]);
                } else {
                    assert(views.take(i as int)[b] == next[b]);
                }
            }
        }
        i += 1;
    }
    assert(views.take(tags.len() as int) =~= views);
    false
}

impl View for MemoryPersistence {
    type V = Tables;

    /// The three tables, as the trait `Persistence` speaks of them.
    closed spec fn view(&self) -> Tables {
        Tables {
            notes: note_views(self.notes@),
            tags: string_views(self.tags@).to_set(),
            relations: relation_views(self.relations@).to_set(),
        }
    }
}

impl MemoryPersistence {
    /// A store without any note.
    pub fn new() -> (store: MemoryPersistence)
        ensures
            store@ == Tables::empty(),
            store@.wf(),
            store@.content_addressed(),
    {
        let store = MemoryPersistence {
            notes: Vec::new(),
            tags: Vec::new(),
            relations: Vec::new(),
        };
        assert(store@.notes =~= Seq::empty());
        assert(store@.tags =~= Set::empty());
        assert(store@.relations =~= Set::empty());
        store
    }

    /// The place of the first note with the hash `hash`, or the number of
    /// notes where none has it.
    fn find(&self, hash: &Vec<u8>) -> (at: usize)
        ensures
            at == first_with_hash(self@.notes, hash@),
            at <= self.notes.len(),
            at < self.notes.len() <==> self@.has_note(hash@),
            at < self.notes.len() ==> self.notes@[at as int].hash@ == hash@,
    {
        let mut at: usize = 0;
        while at < self.notes.len()
            invariant
                at <= self.notes.len(),
                forall|k: int| 0 <= k < at ==> (#[trigger] self@.notes[k]).hash != hash@,
            decreases self.notes.len() - at,
        {
            if same_bytes(&self.notes[at].hash, hash) {
                proof {
                    assert(self@.notes[at as int].hash == hash@);
                    lemma_found_at(self@.notes, hash@, at as int);
                }
                return at;
            }
            at += 1;
        }
        proof {
            lemma_found_at(self@.notes, hash@, at as int);
        }
        at
    }

    /// Whether the note with the hash `hash` carries the tag `tag`.
    fn is_related(&self, tag: &String, hash: &Vec<u8>) -> (r: bool)
        ensures
            r == self@.related(tag@, hash@),
    {
        let ghost rows = relation_views(self.relations@);
        let mut i: usize = 0;
        while i < self.relations.len()
            invariant
                i <= self.relations.len(),
                rows == relation_views(self.relations@),
                forall|k: int| 0 <= k < i ==> rows[k] != (tag@, hash@),
            decreases self.relations.len() - i,
        {
            let row = &self.relations[i];
            if row.tag_name == *tag && same_bytes(&row.note_hash, hash) {
                assert(rows[i as int] == (tag@, hash@));
                return true;
            }
            i += 1;
        }
        false
    }

    /// Whether the note with the hash `hash` passes the filter.
    fn passes(&self, hash: &Vec<u8>, ands: &Vec<String>, ors: &Vec<String>) -> (r: bool)
        ensures
            r == self@.passes(hash@, string_views(ands@), string_views(ors@)),
    {
        let ghost a = string_views(ands@);
        let ghost o = string_views(ors@);
        let mut i: usize = 0;
        while i < ands.len()
            invariant
                i <= ands.len(),
                a == string_views(ands@),
                forall|k: int| 0 <= k < i ==> self@.related(#[trigger] a[k], hash@),
            decreases ands.len() - i,
        {
            if !self.is_related(&ands[i], hash) {
                assert(!self@.related(a[i as int], hash@));
                return false;
            }
            i += 1;
        }
        if ors.len() == 0 {
            return true;
        }
        let mut j: usize = 0;
        while j < ors.len()
            invariant
                j <= ors.len(),
                a == string_views(ands@),
                o == string_views(ors@),
                forall|k: int| 0 <= k < a.len() ==> self@.related(#[trigger] a[k], hash@),
                forall|k: int| 0 <= k < j ==> !self@.related(#[trigger] o[k], hash@),
            decreases ors.len() - j,
        {
            if self.is_related(&ors[j], hash) {
                assert(self@.related(o[j as int], hash@));
                return true;
            }
            j += 1;
        }
        false
    }

    /// Enters each tag of `tags` into the tag table unless it is there,
    /// and relates it to the note with the hash `hash` unless it is.
    fn insert_tags(&mut self, tags: &Vec<String>, hash: &Vec<u8>)
        ensures
            final(self)@.notes == old(self)@.notes,
            final(self)@.tags == old(self)@.tags.union(string_views(tags@).to_set()),
            final(self)@.relations == Set::new(
                |r: (Seq<char>, Seq<u8>)|
                    old(self)@.relations.contains(r) || (string_views(tags@).to_set().contains(r.0)
                        && r.1 == hash@),
            ),
    {
        let ghost names = string_views(tags@);
        let mut i: usize = 0;
        while i < tags.len()
            invariant
                i <= tags.len(),
                names == string_views(tags@),
                self@.notes == old(self)@.notes,
                self@.tags == old(self)@.tags.union(names.take(i as int).to_set()),
                self@.relations == Set::new(
                    |r: (Seq<char>, Seq<u8>)|
                        old(self)@.relations.contains(r) || (names.take(i as int).to_set().contains(
                            r.0,
                        ) && r.1 == hash@),
                ),
            decreases tags.len() - i,
        {
            let ghost before = self@;
            let ghost table = string_views(self.tags@);
            let ghost rows = relation_views(self.relations@);
            let n = self.tags.len();
            if !holds(&self.tags, n, &tags[i]) {
                self.tags.push(tags[i].clone());
                assert(string_views(self.tags@) =~= table.push(names[i as int]));
            }
            if !self.is_related(&tags[i], hash) {
                self.relations.push(
                    Relation { tag_name: tags[i].clone(), note_hash: copy_bytes(hash) },
                );
                assert(relation_views(self.relations@) =~= rows.push((names[i as int], hash@)));
            }
            proof {
                assert(table.take(n as int) =~= table);
                let seen = names.take(i as int);
                let grown = names.take(i + 1);
                let fresh = names[i as int];
                assert(grown =~= seen.push(fresh));
                let now_table = string_views(self.tags@);
                let now_rows = relation_views(self.relations@);
                assert forall|t: Seq<char>| #[trigger]
                    self@.tags.contains(t) == old(self)@.tags.union(grown.to_set()).contains(
                        t,
                    ) by {
                    assert(before.tags.contains(t) == (old(self)@.tags.contains(t)
                        || seen.contains(t)));
                    if seen.contains(t) {
                        let k = choose|k: int| 0 <= k < seen.len() && seen[k] == t;
                        assert(grown[k] == t);
                    }
                    if grown.contains(t) {
                        let k = choose|k: int| 0 <= k < grown.len() && grown[k] == t;
                        if k < i {
                            assert(seen[k] == t);
                        }
                    }
                    if t == fresh {
                        assert(grown[i as int] == t);
                        if !table.contains(t) {
                            assert(now_table[table.len() as int] == t);
                        }
                    }
                    if now_table.contains(t) {
                        let k = choose|k: int| 0 <= k < now_table.len() && now_table[k] == t;
                        if k < table.len() {
                            assert(table[k] == t);
                        }
                    }
                    if table.contains(t) {
                        let k = choose|k: int| 0 <= k < table.len() && table[k] == t;
                        assert(now_table[k] == t);
                    }
                }
                assert(self@.tags =~= old(self)@.tags.union(grown.to_set()));
                let target = Set::new(
                    |r: (Seq<char>, Seq<u8>)|
                        old(self)@.relations.contains(r) || (grown.to_set().contains(r.0) && r.1
                            == hash@),
                );
                assert forall|r: (Seq<char>, Seq<u8>)| #[trigger]
                    self@.relations.contains(r) == target.contains(r) by {
                    assert(before.relations.contains(r) == (old(self)@.relations.contains(r) || (
                    seen.to_set().contains(r.0) && r.1 == hash@)));
                    if seen.contains(r.0) {
                        let k = choose|k: int| 0 <= k < seen.len() && seen[k] == r.0;
                        assert(grown[k] == r.0);
                    }
                    if grown.contains(r.0) {
                        let k = choose|k: int| 0 <= k < grown.len() && grown[k] == r.0;
                        if k < i {
                            assert(seen[k] == r.0);
                        }
                    }
                    if r == (fresh, hash@) {
                        assert(grown[i as int] == r.0);
                        if !rows.contains(r) {
                            assert(now_rows[rows.len() as int] == r);
                        }
                    }
                    if now_rows.contains(r) {
                        let k = choose|k: int| 0 <= k < now_rows.len() && now_rows[k] == r;
                        if k < rows.len() {
                            assert(rows[k] == r);
                        }
                    }
                    if rows.contains(r) {
                        let k = choose|k: int| 0 <= k < rows.len() && rows[k] == r;
                        assert(now_rows[k] == r);
                    }
                }
                assert(self@.relations =~= target);
            }
            i += 1;
        }
        assert(names.take(tags.len() as int) =~= names);
    }
}

proof fn lemma_created_addressed(
    s: Tables,
    hash: Seq<u8>,
    text: Seq<char>,
    tags: Set<Seq<char>>,
    now: Timestamp,
)
    requires
        s.content_addressed(),
        hash == content_digest(text),
        0 <= newer_count(s.notes, now) <= s.notes.len(),
    ensures
        s.created(hash, text, tags, now).content_addressed(),
{
    let after = s.created(hash, text, tags, now);
    let at = newer_count(s.notes, now);
    assert forall|i: int| 0 <= i < after.notes.len() implies (#[trigger] after.notes[i]).hash
        == content_digest(after.notes[i].content) by {
        if i < at {
            assert(after.notes[i] == s.notes[i]);
        } else if i > at {
            assert(after.notes[i] == s.notes[i - 1]);
        }
    }
}

proof fn lemma_updated_addressed(
    s: Tables,
    old_hash: Seq<u8>,
    hash: Seq<u8>,
    text: Seq<char>,
    tags: Set<Seq<char>>,
    now: Timestamp,
)
    requires
        s.content_addressed(),
        hash == content_digest(text),
        0 <= first_with_hash(s.notes, old_hash) < s.notes.len(),
    ensures
        s.updated(old_hash, hash, text, tags, now).content_addressed(),
{
    let after = s.updated(old_hash, hash, text, tags, now);
    let at = first_with_hash(s.notes, old_hash);
    assert forall|i: int| 0 <= i < after.notes.len() implies (#[trigger] after.notes[i]).hash
        == content_digest(after.notes[i].content) by {
        if i != at {
            assert(after.notes[i] == s.notes[i]);
        }
    }
}

impl MemoryPersistence {
    /// How many notes at the head of the note table were created after
    /// `t`.
    fn newer(&self, t: &Timestamp) -> (at: usize)
        ensures
            at == newer_count(self@.notes, *t),
            at <= self.notes.len(),
    {
        let mut at: usize = 0;
        while at < self.notes.len() && self.notes[at].time_created.is_after(t)
            invariant
                at <= self.notes.len(),
                forall|k: int| 0 <= k < at ==> (#[trigger] self@.notes[k]).time_created.after(*t),
            decreases self.notes.len() - at,
        {
            at += 1;
        }
        proof {
            if at < self.notes.len() {
                assert(self@.notes[at as int].time_created == self.notes@[at as int].time_created);
            }
            lemma_newer_at(self@.notes, *t, at as int);
        }
        at
    }

    /// Takes every relation of the note with the hash `hash` out of the
    /// relation table.
    fn drop_relations(&mut self, hash: &Vec<u8>)
        ensures
            final(self)@.notes == old(self)@.notes,
            final(self)@.tags == old(self)@.tags,
            final(self)@.relations == Set::new(
                |r: (Seq<char>, Seq<u8>)| old(self)@.relations.contains(r) && r.1 != hash@,
            ),
    {
        let mut kept: Vec<Relation> = Vec::new();
        while self.relations.len() > 0
            invariant
                self.notes == old(self).notes,
                self.tags == old(self).tags,
                forall|r: (Seq<char>, Seq<u8>)|
                    (relation_views(kept@).contains(r) || (relation_views(
                        self.relations@,
                    ).contains(r) && r.1 != hash@)) <==> (old(self)@.relations.contains(r) && r.1
                        != hash@),
            decreases self.relations.len(),
        {
            let ghost left = relation_views(self.relations@);
            let ghost taken = relation_views(kept@);
            let row = self.relations.pop().unwrap();
            let ghost last = (row.tag_name@, row.note_hash@);
            if !same_bytes(&row.note_hash, hash) {
                kept.push(row);
            }
            proof {
                let now_left = relation_views(self.relations@);
                let now_taken = relation_views(kept@);
                assert(now_left =~= left.drop_last());
                assert(left.last() == last);
                if last.1 != hash@ {
                    assert(now_taken =~= taken.push(last));
                }
                assert forall|r: (Seq<char>, Seq<u8>)|
                    (now_taken.contains(r) || (now_left.contains(r) && r.1 != hash@)) <==> (
                    taken.contains(r) || (left.contains(r) && r.1 != hash@)) by {
                    if now_taken.contains(r) {
                        let k = choose|k: int| 0 <= k < now_taken.len() && now_taken[k] == r;
                        if k < taken.len() {
                            assert(taken[k] == r);
                        } else {
                            assert(left[left.len() - 1] == r);
                        }
                    }
                    if now_left.contains(r) {
                        let k = choose|k: int| 0 <= k < now_left.len() && now_left[k] == r;
                        assert(left[k] == r);
                    }
                    if taken.contains(r) {
                        let k = choose|k: int| 0 <= k < taken.len() && taken[k] == r;
                        assert(now_taken[k] == r);
                    }
                    if left.contains(r) && r.1 != hash@ {
                        let k = choose|k: int| 0 <= k < left.len() && left[k] == r;
                        if k < now_left.len() {
                            assert(now_left[k] == r);
                        } else {
                            assert(now_taken[taken.len() as int] == r);
                        }
                    }
                }
            }
        }
        self.relations = kept;
        assert(self@.relations =~= Set::new(
            |r: (Seq<char>, Seq<u8>)| old(self)@.relations.contains(r) && r.1 != hash@,
        ));
    }

    /// Stores a new note with the text `text` and the tags `tags`, created
    /// at the time `now`: `Persistence::create_note` for a given time.
    pub fn create_note_at(&mut self, text: &str, tags: Vec<&str>, now: Timestamp) -> (r: Result<
        (),
        Error,
    >)
        ensures
            old(self)@.wf() ==> final(self)@.wf(),
            old(self)@.content_addressed() ==> final(self)@.content_addressed(),
            match r {
                Ok(()) => {
                    &&& old(self)@.can_create(content_digest(text@), str_views(tags@))
                    &&& final(self)@ == old(self)@.created(
                        content_digest(text@),
                        text@,
                        str_views(tags@).to_set(),
                        now,
                    )
                },
                Err(Error::DuplicateNote) => {
                    &&& old(self)@.has_note(content_digest(text@))
                    &&& final(self)@ == old(self)@
                },
                Err(Error::StorageFailure(_)) => {
                    &&& !old(self)@.has_note(content_digest(text@))
                    &&& !str_views(tags@).no_duplicates()
                    &&& final(self)@ == old(self)@
                },
                Err(_) => false,
            },
    {
        let hash = content_hash(text);
        if self.find(&hash) < self.notes.len() {
            return Err(Error::DuplicateNote);
        }
        let tags = owned(&tags);
        if has_repeats(&tags) {
            return Err(Error::StorageFailure("a tag is given twice".to_owned()));
        }
        let at = self.newer(&now);
        let note = Note {
            hash: copy_bytes(&hash),
            content: text.to_owned(),
            time_created: now,
            time_updated: None,
        };
        let ghost before = self@;
        self.notes.insert(at, note);
        assert(self@.notes =~= before.notes.insert(
            at as int,
            Tables::fresh_note(hash@, text@, now),
        ));
        self.insert_tags(&tags, &hash);
        proof {
            let after = before.created(hash@, text@, string_views(tags@).to_set(), now);
            assert(self@.notes =~= after.notes);
            assert(self@.tags =~= after.tags);
            assert(self@.relations =~= after.relations);
            if before.wf() {
                lemma_created_wf(before, hash@, text@, string_views(tags@).to_set(), now);
            }
            if before.content_addressed() {
                lemma_created_addressed(before, hash@, text@, string_views(tags@).to_set(), now);
            }
        }
        Ok(())
    }

    /// Gives the note with the hash `hash` the text `text` and the tags
    /// `tags`, updated at the time `now`: `Persistence::update_note_by_hash`
    /// for a given time.
    pub fn update_note_by_hash_at(
        &mut self,
        hash: &Vec<u8>,
        text: &str,
        tags: Vec<&str>,
        now: Timestamp,
    ) -> (r: Result<(), Error>)
        ensures
            old(self)@.wf() ==> final(self)@.wf(),
            old(self)@.content_addressed() ==> final(self)@.content_addressed(),
            match r {
                Ok(()) => {
                    &&& old(self)@.can_update(hash@, content_digest(text@), str_views(tags@))
                    &&& final(self)@ == old(self)@.updated(
                        hash@,
                        content_digest(text@),
                        text@,
                        str_views(tags@).to_set(),
                        now,
                    )
                },
                Err(Error::NoteNotFound) => {
                    &&& !old(self)@.has_note(hash@)
                    &&& final(self)@ == old(self)@
                },
                Err(Error::DuplicateNote) => {
                    &&& old(self)@.has_note(hash@)
                    &&& content_digest(text@) != hash@
                    &&& old(self)@.has_note(content_digest(text@))
                    &&& final(self)@ == old(self)@
                },
                Err(Error::StorageFailure(_)) => {
                    &&& old(self)@.has_note(hash@)
                    &&& content_digest(text@) == hash@ || !old(self)@.has_note(
                        content_digest(text@),
                    )
                    &&& !str_views(tags@).no_duplicates()
                    &&& final(self)@ == old(self)@
                },
                Err(_) => false,
            },
    {
        let at = self.find(hash);
        if at >= self.notes.len() {
            return Err(Error::NoteNotFound);
        }
        let new_hash = content_hash(text);
        if !same_bytes(&new_hash, hash) && self.find(&new_hash) < self.notes.len() {
            return Err(Error::DuplicateNote);
        }
        let tags = owned(&tags);
        if has_repeats(&tags) {
            return Err(Error::StorageFailure("a tag is given twice".to_owned()));
        }
        let note = Note {
            hash: copy_bytes(&new_hash),
            content: text.to_owned(),
            time_created: self.notes[at].time_created,
            time_updated: Some(now),
        };
        let ghost before = self@;
        self.notes.set(at, note);
        assert(self@.notes =~= before.notes.update(
            at as int,
            before.edited_note(hash@, new_hash@, text@, now),
        ));
        self.drop_relations(hash);
        self.insert_tags(&tags, &new_hash);
        proof {
            let after = before.updated(hash@, new_hash@, text@, string_views(tags@).to_set(), now);
            assert(self@.notes =~= after.notes);
            assert(self@.tags =~= after.tags);
            assert(self@.relations =~= after.relations);
            if before.wf() {
                lemma_updated_wf(before, hash@, new_hash@, text@, string_views(tags@).to_set(), now);
            }
            if before.content_addressed() {
                lemma_updated_addressed(
                    before,
                    hash@,
                    new_hash@,
                    text@,
                    string_views(tags@).to_set(),
                    now,
                );
            }
        }
        Ok(())
    }
}

impl Persistence for MemoryPersistence {
    open spec fn tables(&self) -> Tables {
        self@
    }

    open spec fn dependable(&self) -> bool {
        true
    }

    fn create_note(&mut self, text: &str, tags: Vec<&str>) -> (r: Result<(), Error>) {
        let t = now();
        self.create_note_at(text, tags, t)
    }

    fn query_notes(&self, and_tags: &Vec<&str>, or_tags: &Vec<&str>) -> (r: Result<
        Vec<Note>,
        Error,
    >) {
        if and_tags.len() == 0 && or_tags.len() == 0 {
            return Err(Error::NoFilterProvided);
        }
        let ands = owned(and_tags);
        let ors = owned(or_tags);
        let ghost test = self@.filter_of(str_views(and_tags@), str_views(or_tags@));
        let mut found: Vec<Note> = Vec::new();
        let mut i: usize = 0;
        assert(self@.notes.take(0).filter(test) =~= Seq::<NoteView>::empty()) by {
            reveal(Seq::filter);
        }
        while i < self.notes.len()
            invariant
                i <= self.notes.len(),
                string_views(ands@) == str_views(and_tags@),
                string_views(ors@) == str_views(or_tags@),
                test == self@.filter_of(str_views(and_tags@), str_views(or_tags@)),
                note_views(found@) == self@.notes.take(i as int).filter(test),
            decreases self.notes.len() - i,
        {
            let ghost kept = note_views(found@);
            proof {
                reveal(Seq::filter);
                assert(self@.notes.take(i + 1).drop_last() =~= self@.notes.take(i as int));
                assert(self@.notes.take(i + 1).last() == self.notes@[i as int]@);
            }
            if self.passes(&self.notes[i].hash, &ands, &ors) {
                found.push(self.notes[i].clone());
                assert(note_views(found@) =~= kept.push(self.notes@[i as int]@));
            }
            i += 1;
        }
        assert(self@.notes.take(self.notes.len() as int) =~= self@.notes);
        Ok(found)
    }

    fn update_note_by_hash(&mut self, hash: &Vec<u8>, text: &str, tags: Vec<&str>) -> (r: Result<
        (),
        Error,
    >) {
        let t = now();
        self.update_note_by_hash_at(hash, text, tags, t)
    }
}

} // verus!
