use vstd::prelude::*;

verus! {

/// A point in time: whole seconds since 1970-01-01 00:00:00 UTC and the
/// nanoseconds past that second.
#[derive(Clone, Copy, Debug, PartialEq, Eq, Structural)]
pub struct Timestamp {
    pub seconds: i64,
    pub nanos: u32,
}

impl Timestamp {
    /// `self` lies strictly after `other`.
    pub open spec fn after(self, other: Timestamp) -> bool {
        self.seconds > other.seconds || (self.seconds == other.seconds && self.nanos > other.nanos)
    }

    /// `self` lies at `other` or after it.
    pub open spec fn not_before(self, other: Timestamp) -> bool {
        !other.after(self)
    }

    /// Whether `self` lies strictly after `other`.
    pub fn is_after(&self, other: &Timestamp) -> (r: bool)
        ensures
            r == self.after(*other),
    {
        self.seconds > other.seconds || (self.seconds == other.seconds && self.nanos > other.nanos)
    }
}

/// A stored note, as a query hands it out.
#[derive(Debug, PartialEq, Eq)]
pub struct Note {
    /// Digest of `content`; the note's identity.
    pub hash: Vec<u8>,
    /// The full text, tag markers included.
    pub content: String,
    /// Set when the note was created and never changed afterwards.
    pub time_created: Timestamp,
    /// Set by each edit; `None` for a note that was never edited.
    pub time_updated: Option<Timestamp>,
}

/// What a `Note` means in contracts.
pub struct NoteView {
    pub hash: Seq<u8>,
    pub content: Seq<char>,
    pub time_created: Timestamp,
    pub time_updated: Option<Timestamp>,
}

impl View for Note {
    type V = NoteView;

    open spec fn view(&self) -> NoteView {
        NoteView {
            hash: self.hash@,
            content: self.content@,
            time_created: self.time_created,
            time_updated: self.time_updated,
        }
    }
}

impl Clone for Note {
    fn clone(&self) -> (r: Note)
        ensures
            r@ == self@,
    {
        Note {
            hash: copy_bytes(&self.hash),
            content: self.content.clone(),
            time_created: self.time_created,
            time_updated: self.time_updated,
        }
    }
}

/// The views of a sequence of notes, in the same order.
pub open spec fn note_views(notes: Seq<Note>) -> Seq<NoteView> {
    notes.map_values(|n: Note| n@)
}

/// A fresh vector with the bytes of `bytes`.
pub fn copy_bytes(bytes: &Vec<u8>) -> (r: Vec<u8>)
    ensures
        r@ == bytes@,
{
    let mut r: Vec<u8> = Vec::new();
    let mut i: usize = 0;
    while i < bytes.len()
        invariant
            i <= bytes.len(),
            r@ == bytes@.take(i as int),
        decreases bytes.len() - i,
    {
        r.push(bytes[i]);
        i += 1;
    }
    r
}

/// Whether two byte strings are the same.
pub fn same_bytes(a: &Vec<u8>, b: &Vec<u8>) -> (r: bool)
    ensures
        r == (a@ == b@),
{
    if a.len() != b.len() {
        return false;
    }
    let mut i: usize = 0;
    while i < a.len()
        invariant
            a.len() == b.len(),
            i <= a.len(),
            a@.take(i as int) == b@.take(i as int),
        decreases a.len() - i,
    {
        if a[i] != b[i] {
            return false;
        }
        assert(a@.take(i + 1) == a@.take(i as int).push(a@[i as int]));
        assert(b@.take(i + 1) == b@.take(i as int).push(b@[i as int]));
        i += 1;
    }
    assert(a@ == a@.take(a.len() as int));
    assert(b@ == b@.take(b.len() as int));
    true
}

} // verus!
