use crate::error::Error;
use vstd::prelude::*;
use vstd::string::StringExecFns;

verus! {

/// Makes the note table unless it is there. A note's hash is its key.
pub const CREATE_NOTES: &'static str = "CREATE TABLE IF NOT EXISTS notes (
                hash                 BLOB PRIMARY KEY,
                content              TEXT NOT NULL,
                time_created         DATETIME NOT NULL,
                time_updated         DATETIME
             )";

/// Makes the tag table unless it is there. A tag's name is its key.
pub const CREATE_TAGS: &'static str = "CREATE TABLE IF NOT EXISTS tags (
                name TEXT PRIMARY KEY
             )";

/// Makes the relation table unless it is there. A relation joins a tag to
/// a note, and the pair is its key.
pub const CREATE_RELATIONS: &'static str = "CREATE TABLE IF NOT EXISTS relations (
                tag_name               TEXT,
                note_hash              BLOB,
                FOREIGN KEY(tag_name)  REFERENCES tags(name),
                FOREIGN KEY(note_hash) REFERENCES notes(hash),
                PRIMARY KEY(tag_name, note_hash)
            )";

/// Enters a note. Parameters: its hash, its content, its time of creation.
pub const INSERT_NOTE: &'static str =
    "INSERT INTO notes (hash, content, time_created) VALUES(?1, ?2, ?3)";

/// Enters a tag unless it is there. Parameters: the tag, twice.
pub const INSERT_TAG: &'static str = "INSERT INTO tags (name)
                SELECT ?1
                    WHERE NOT EXISTS(
                        SELECT 1 FROM tags WHERE name = ?2)";

/// Relates a tag to a note. Parameters: the tag, the note's hash.
pub const INSERT_RELATION: &'static str =
    "INSERT INTO relations (tag_name, note_hash) VALUES(?1, ?2)";

/// Puts off the check of the foreign keys to the end of the transaction
/// that this is said in, so that a note can get its new hash before its
/// relations are renewed.
pub const DEFER_FOREIGN_KEYS: &'static str = "PRAGMA defer_foreign_keys = ON";

/// Gives a note a new hash and content. Parameters: the new hash, the new
/// content, the time of the update, the old hash.
pub const UPDATE_NOTE: &'static str = "UPDATE
                notes
             SET
                hash=?1,
                content=?2,
                time_updated=?3
            WHERE
                hash=?4";

/// Takes the relations of a note away. Parameter: the note's hash.
pub const DELETE_RELATIONS: &'static str = "DELETE FROM relations WHERE note_hash = ?1";

/// How the query for notes begins.
pub const QUERY_HEAD: &'static str = "select * from notes where hash in (";

/// The hashes of the notes that carry one tag, which is a parameter.
pub const SELECT_BY_TAG: &'static str = "SELECT note_hash FROM relations WHERE tag_name = ?";

/// What stands between the clauses of two AND tags.
pub const INTERSECT: &'static str = " INTERSECT ";

/// What stands between the clauses of two OR tags.
pub const UNION: &'static str = " UNION ";

/// What opens the OR clauses behind AND clauses.
pub const OPEN_UNION: &'static str = " INTERSECT SELECT * FROM (";

/// What closes the OR clauses behind AND clauses.
pub const CLOSE_UNION: &'static str = ")";

/// How the query for notes ends.
pub const QUERY_TAIL: &'static str = ") ORDER BY time_created DESC";

/// `n` clauses for one tag each, with `joint` between them.
pub open spec fn clauses(n: nat, joint: Seq<char>) -> Seq<char>
    decreases n,
{
    if n == 0 {
        Seq::empty()
    } else if n == 1 {
        SELECT_BY_TAG@
    } else {
        clauses((n - 1) as nat, joint) + joint + SELECT_BY_TAG@
    }
}

/// The statement that selects the notes which pass a filter of `ands` AND
/// tags and `ors` OR tags: the notes whose hash is in the intersection of
/// the AND clauses and, where there are OR tags, of the union of the OR
/// clauses, most recently created first. The tags themselves are the
/// statement's parameters, the AND tags first.
pub open spec fn notes_query(ands: nat, ors: nat) -> Seq<char> {
    QUERY_HEAD@ + clauses(ands, INTERSECT@) + (if ors == 0 {
        Seq::empty()
    } else if ands == 0 {
        clauses(ors, UNION@)
    } else {
        OPEN_UNION@ + clauses(ors, UNION@) + CLOSE_UNION@
    }) + QUERY_TAIL@
}

/// Writes `n` clauses for one tag each behind `stmt`, with `joint` between
/// them.
fn push_clauses(stmt: &mut String, n: usize, joint: &str)
    ensures
        final(stmt)@ == old(stmt)@ + clauses(n as nat, joint@),
{
    let mut i: usize = 0;
    assert(stmt@ =~= old(stmt)@ + clauses(0, joint@));
    while i < n
        invariant
            i <= n,
            stmt@ == old(stmt)@ + clauses(i as nat, joint@),
        decreases n - i,
    {
        if i > 0 {
            stmt.append(joint);
        }
        stmt.append(SELECT_BY_TAG);
        i += 1;
        assert(stmt@ =~= old(stmt)@ + clauses(i as nat, joint@));
    }
}

/// The text of the statement that selects the notes which pass the filter,
/// with one parameter for each tag: first the AND tags, then the OR tags.
/// A filter without any tag is refused with `Error::NoFilterProvided`.
pub fn prepare_notes_query_stmt(and_tags: &Vec<&str>, or_tags: &Vec<&str>) -> (r: Result<
    String,
    Error,
>)
    ensures
        match r {
            Ok(stmt) => {
                &&& and_tags.len() + or_tags.len() > 0
                &&& stmt@ == notes_query(and_tags.len() as nat, or_tags.len() as nat)
            },
            Err(e) => e is NoFilterProvided && and_tags.len() == 0 && or_tags.len() == 0,
        },
{
    if and_tags.len() == 0 && or_tags.len() == 0 {
        return Err(Error::NoFilterProvided);
    }
    let mut stmt = QUERY_HEAD.to_owned();
    push_clauses(&mut stmt, and_tags.len(), INTERSECT);
    if or_tags.len() > 0 {
        if and_tags.len() > 0 {
            stmt.append(OPEN_UNION);
        }
        push_clauses(&mut stmt, or_tags.len(), UNION);
        if and_tags.len() > 0 {
            stmt.append(CLOSE_UNION);
        }
    }
    stmt.append(QUERY_TAIL);
    assert(stmt@ =~= notes_query(and_tags.len() as nat, or_tags.len() as nat));
    Ok(stmt)
}

/// What it means that `INSERT_NOTE` or `UPDATE_NOTE` failed: where the
/// engine refused the statement for the key of the note table, a note with
/// this content is stored already; any other failure is the engine's own.
pub fn note_key_failure(key_taken: bool, message: String) -> (e: Error)
    ensures
        key_taken ==> e is DuplicateNote,
        !key_taken ==> e == Error::StorageFailure(message),
{
    if key_taken {
        Error::DuplicateNote
    } else {
        Error::StorageFailure(message)
    }
}

/// What it means that the statement `UPDATE_NOTE` changed `rows` rows:
/// where it changed none, no note has the hash that the update named.
pub fn update_note_outcome(rows: usize) -> (r: Result<(), Error>)
    ensures
        rows > 0 ==> r is Ok,
        rows == 0 ==> r == Err::<(), Error>(Error::NoteNotFound),
{
    if rows == 0 {
        Err(Error::NoteNotFound)
    } else {
        Ok(())
    }
}

} // verus!
