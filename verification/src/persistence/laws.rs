use crate::model::{NoteView, Timestamp};
use crate::persistence::{first_with_hash, newer_count, Tables};
use crate::tag::{is_tag_of, tag_set};
use vstd::prelude::*;

verus! {

/// `notes` stand most recently created first.
pub open spec fn newest_first(notes: Seq<NoteView>) -> bool {
    forall|i: int, j: int|
        0 <= i < j < notes.len() ==> notes[i].time_created.not_before(notes[j].time_created)
}

/// Where a note with the hash is stored, `first_with_hash` finds the first
/// one; where none is, it gives the length.
pub proof fn lemma_first_with_hash(notes: Seq<NoteView>, hash: Seq<u8>)
    ensures
        0 <= first_with_hash(notes, hash) <= notes.len(),
        forall|k: int|
            0 <= k < first_with_hash(notes, hash) ==> (#[trigger] notes[k]).hash != hash,
        first_with_hash(notes, hash) < notes.len() ==> notes[first_with_hash(notes, hash)].hash
            == hash,
    decreases notes.len(),
{
    if notes.len() > 0 && notes[0].hash != hash {
        let rest = notes.drop_first();
        lemma_first_with_hash(rest, hash);
        let at = first_with_hash(notes, hash);
        assert forall|k: int| 0 <= k < at implies (#[trigger] notes[k]).hash != hash by {
            if k > 0 {
                assert(notes[k] == rest[k - 1]);
            }
        }
    }
}

/// `newer_count` ends at the first note that was not created after `t`.
pub proof fn lemma_newer_count(notes: Seq<NoteView>, t: Timestamp)
    ensures
        0 <= newer_count(notes, t) <= notes.len(),
        forall|k: int|
            0 <= k < newer_count(notes, t) ==> (#[trigger] notes[k]).time_created.after(t),
        newer_count(notes, t) < notes.len() ==> !notes[newer_count(notes, t)].time_created.after(
            t,
        ),
    decreases notes.len(),
{
    if notes.len() > 0 && notes[0].time_created.after(t) {
        let rest = notes.drop_first();
        lemma_newer_count(rest, t);
        let at = newer_count(notes, t);
        assert forall|k: int| 0 <= k < at implies (#[trigger] notes[k]).time_created.after(t) by {
            if k > 0 {
                assert(notes[k] == rest[k - 1]);
            }
        }
    }
}

/// The empty store keeps the keys.
pub proof fn lemma_empty_wf()
    ensures
        Tables::empty().wf(),
        Tables::empty().content_addressed(),
{
}

/// Creating a note whose hash is not stored yet keeps the keys.
pub proof fn lemma_created_wf(
    s: Tables,
    hash: Seq<u8>,
    text: Seq<char>,
    tags: Set<Seq<char>>,
    now: Timestamp,
)
    requires
        s.wf(),
        !s.has_note(hash),
    ensures
        s.created(hash, text, tags, now).wf(),
{
    let after = s.created(hash, text, tags, now);
    let at = newer_count(s.notes, now);
    let note = Tables::fresh_note(hash, text, now);
    lemma_newer_count(s.notes, now);
    assert forall|i: int, j: int| 0 <= i < j < after.notes.len() implies after.notes[i].hash
        != after.notes[j].hash by {
        lemma_inserted_index(s.notes, at, note, i);
        lemma_inserted_index(s.notes, at, note, j);
    }
    assert forall|i: int, j: int| 0 <= i < j < after.notes.len() implies after.notes[i]
        .time_created.not_before(after.notes[j].time_created) by {
        lemma_inserted_index(s.notes, at, note, i);
        lemma_inserted_index(s.notes, at, note, j);
        if i == at && j > at + 1 {
            assert(s.notes[at].time_created.not_before(s.notes[j - 1].time_created));
        }
    }
    assert forall|tag: Seq<char>, h: Seq<u8>| #[trigger]
        after.relations.contains((tag, h)) implies after.tags.contains(tag) && after.has_note(
        h,
    ) by {
        if s.relations.contains((tag, h)) {
            let k = choose|k: int| 0 <= k < s.notes.len() && (#[trigger] s.notes[k]).hash == h;
            if k < at {
                assert(after.notes[k].hash == h);
            } else {
                assert(after.notes[k + 1].hash == h);
            }
        } else {
            assert(after.notes[at].hash == h);
        }
    }
}

proof fn lemma_inserted_index(notes: Seq<NoteView>, at: int, note: NoteView, i: int)
    requires
        0 <= at <= notes.len(),
        0 <= i <= notes.len(),
    ensures
        i < at ==> notes.insert(at, note)[i] == notes[i],
        i == at ==> notes.insert(at, note)[i] == note,
        i > at ==> notes.insert(at, note)[i] == notes[i - 1],
{
}

/// Editing a stored note keeps the keys, where no other note has the new
/// hash.
pub proof fn lemma_updated_wf(
    s: Tables,
    old_hash: Seq<u8>,
    hash: Seq<u8>,
    text: Seq<char>,
    tags: Set<Seq<char>>,
    now: Timestamp,
)
    requires
        s.wf(),
        s.has_note(old_hash),
        hash == old_hash || !s.has_note(hash),
    ensures
        s.updated(old_hash, hash, text, tags, now).wf(),
{
    let after = s.updated(old_hash, hash, text, tags, now);
    let at = first_with_hash(s.notes, old_hash);
    lemma_first_with_hash(s.notes, old_hash);
    assert(at < s.notes.len()) by {
        let k = choose|k: int| 0 <= k < s.notes.len() && (#[trigger] s.notes[k]).hash == old_hash;
        assert(!(k < at));
    }
    assert forall|i: int, j: int| 0 <= i < j < after.notes.len() implies after.notes[i].hash
        != after.notes[j].hash by {
        if i == at {
            assert(s.notes[j].hash != s.notes[at].hash);
        } else if j == at {
            assert(s.notes[i].hash != s.notes[at].hash);
        }
    }
    assert forall|tag: Seq<char>, h: Seq<u8>| #[trigger]
        after.relations.contains((tag, h)) implies after.tags.contains(tag) && after.has_note(
        h,
    ) by {
        if s.relations.contains((tag, h)) && h != old_hash {
            let k = choose|k: int| 0 <= k < s.notes.len() && (#[trigger] s.notes[k]).hash == h;
            assert(k != at);
            assert(after.notes[k].hash == h);
        } else {
            assert(after.notes[at].hash == h);
        }
    }
}

/// A note passes a query exactly when it is stored and passes the filter.
pub proof fn law_select_members(
    s: Tables,
    ands: Seq<Seq<char>>,
    ors: Seq<Seq<char>>,
    note: NoteView,
)
    ensures
        s.select(ands, ors).contains(note) <==> s.notes.contains(note) && s.passes(
            note.hash,
            ands,
            ors,
        ),
{
    let test = s.filter_of(ands, ors);
    let found = s.notes.filter(test);
    if found.contains(note) {
        let i = choose|i: int| 0 <= i < found.len() && found[i] == note;
        s.notes.lemma_filter_pred(test, i);
        s.notes.lemma_filter_contains_rev(test, note);
    }
    if s.notes.contains(note) && s.passes(note.hash, ands, ors) {
        let i = choose|i: int| 0 <= i < s.notes.len() && s.notes[i] == note;
        s.notes.lemma_filter_contains(test, i);
    }
}

/// Whatever is kept of notes that stand most recently created first
/// stands so too.
proof fn lemma_filter_newest_first(notes: Seq<NoteView>, test: spec_fn(NoteView) -> bool)
    requires
        newest_first(notes),
    ensures
        newest_first(notes.filter(test)),
    decreases notes.len(),
{
    reveal(Seq::filter);
    if notes.len() > 0 {
        let head = notes.drop_last();
        lemma_filter_newest_first(head, test);
        let kept = head.filter(test);
        if test(notes.last()) {
            let out = kept.push(notes.last());
            assert forall|i: int, j: int| 0 <= i < j < out.len() implies out[i]
                .time_created.not_before(out[j].time_created) by {
                if j == kept.len() {
                    assert(kept.contains(kept[i]));
                    head.lemma_filter_contains_rev(test, kept[i]);
                    let k = choose|k: int| 0 <= k < head.len() && head[k] == kept[i];
                    assert(notes[k] == kept[i]);
                }
            }
        }
    }
}

/// A query hands out its notes most recently created first.
pub proof fn law_select_newest_first(s: Tables, ands: Seq<Seq<char>>, ors: Seq<Seq<char>>)
    requires
        s.wf(),
    ensures
        newest_first(s.select(ands, ors)),
{
    lemma_filter_newest_first(s.notes, s.filter_of(ands, ors));
}

/// Where one note alone passes a test, it alone is kept.
proof fn lemma_filter_single(notes: Seq<NoteView>, test: spec_fn(NoteView) -> bool, at: int)
    requires
        0 <= at < notes.len(),
        test(notes[at]),
        forall|k: int| 0 <= k < notes.len() && k != at ==> !test(#[trigger] notes[k]),
    ensures
        notes.filter(test) == seq![notes[at]],
    decreases notes.len(),
{
    reveal(Seq::filter);
    let head = notes.drop_last();
    if at == notes.len() - 1 {
        lemma_filter_none(head, test);
        assert(head.filter(test).push(notes.last()) =~= seq![notes[at]]);
    } else {
        assert(!test(notes[notes.len() - 1]));
        assert(head[at] == notes[at]);
        assert forall|k: int| 0 <= k < head.len() && k != at implies !test(#[trigger] head[k]) by {
            assert(head[k] == notes[k]);
        }
        lemma_filter_single(head, test, at);
    }
}

/// Where no note passes a test, none is kept.
proof fn lemma_filter_none(notes: Seq<NoteView>, test: spec_fn(NoteView) -> bool)
    requires
        forall|k: int| 0 <= k < notes.len() ==> !test(#[trigger] notes[k]),
    ensures
        notes.filter(test) == Seq::<NoteView>::empty(),
    decreases notes.len(),
{
    reveal(Seq::filter);
    if notes.len() > 0 {
        let head = notes.drop_last();
        assert forall|k: int| 0 <= k < head.len() implies !test(#[trigger] head[k]) by {
            assert(head[k] == notes[k]);
        }
        lemma_filter_none(head, test);
        assert(!test(notes[notes.len() - 1]));
    }
}

/// A note that was created is found again by each of its tags: a query for
/// one tag of the note hands the note out, and hands out nothing else
/// where no note carried that tag before.
pub proof fn law_created_is_found(
    s: Tables,
    hash: Seq<u8>,
    text: Seq<char>,
    tags: Set<Seq<char>>,
    now: Timestamp,
    tag: Seq<char>,
)
    requires
        !s.has_note(hash),
        tags.contains(tag),
    ensures
        s.created(hash, text, tags, now).select(seq![tag], Seq::empty()).contains(
            Tables::fresh_note(hash, text, now),
        ),
        (forall|h: Seq<u8>| !s.related(tag, h)) ==> s.created(hash, text, tags, now).select(
            seq![tag],
            Seq::empty(),
        ) == seq![Tables::fresh_note(hash, text, now)],
{
    let after = s.created(hash, text, tags, now);
    let note = Tables::fresh_note(hash, text, now);
    let at = newer_count(s.notes, now);
    let ands = seq![tag];
    let ors = Seq::<Seq<char>>::empty();
    let test = after.filter_of(ands, ors);
    lemma_newer_count(s.notes, now);
    assert(after.notes[at] == note);
    assert(after.related(tag, hash));
    assert(after.passes(hash, ands, ors));
    assert(after.notes.contains(note));
    law_select_members(after, ands, ors, note);
    if forall|h: Seq<u8>| !s.related(tag, h) {
        assert forall|k: int| 0 <= k < after.notes.len() && k != at implies !test(
            #[trigger] after.notes[k],
        ) by {
            lemma_inserted_index(s.notes, at, note, k);
            let other = after.notes[k];
            assert(s.has_note(other.hash)) by {
                if k < at {
                    assert(s.notes[k].hash == other.hash);
                } else {
                    assert(s.notes[k - 1].hash == other.hash);
                }
            }
            assert(!s.related(tag, other.hash));
            assert(!after.related(ands[0], other.hash));
        }
        lemma_filter_single(after.notes, test, at);
    }
}

/// Once a note with a hash was created, the hash is taken: no second note
/// with it can be created, whatever its tags.
pub proof fn law_created_is_stored(
    s: Tables,
    hash: Seq<u8>,
    text: Seq<char>,
    tags: Set<Seq<char>>,
    now: Timestamp,
    other_tags: Seq<Seq<char>>,
)
    ensures
        s.created(hash, text, tags, now).has_note(hash),
        !s.created(hash, text, tags, now).can_create(hash, other_tags),
{
    let after = s.created(hash, text, tags, now);
    lemma_newer_count(s.notes, now);
    assert(after.notes[newer_count(s.notes, now)].hash == hash);
}

/// An edited note keeps its place in time and is found by its new tags
/// alone: a query for one of the new tags hands out the note with its old
/// time of creation and the time of the edit, and a query for a tag that
/// is not among the new ones hands out no note with the new hash, and
/// nothing at all where no other note carries that tag.
pub proof fn law_updated_is_found(
    s: Tables,
    old_hash: Seq<u8>,
    hash: Seq<u8>,
    text: Seq<char>,
    tags: Set<Seq<char>>,
    now: Timestamp,
    tag: Seq<char>,
)
    requires
        s.wf(),
        s.has_note(old_hash),
        hash == old_hash || !s.has_note(hash),
    ensures
        s.edited_note(old_hash, hash, text, now).time_created == s.notes[first_with_hash(
            s.notes,
            old_hash,
        )].time_created,
        s.edited_note(old_hash, hash, text, now).time_updated == Some(now),
        tags.contains(tag) ==> s.updated(old_hash, hash, text, tags, now).select(
            seq![tag],
            Seq::empty(),
        ).contains(s.edited_note(old_hash, hash, text, now)),
        !tags.contains(tag) ==> forall|n: NoteView|
            s.updated(old_hash, hash, text, tags, now).select(seq![tag], Seq::empty()).contains(n)
                ==> n.hash != hash,
        !tags.contains(tag) && (forall|h: Seq<u8>| h != old_hash ==> !s.related(tag, h))
            ==> s.updated(old_hash, hash, text, tags, now).select(seq![tag], Seq::empty())
            == Seq::<NoteView>::empty(),
{
    let after = s.updated(old_hash, hash, text, tags, now);
    let note = s.edited_note(old_hash, hash, text, now);
    let at = first_with_hash(s.notes, old_hash);
    let ands = seq![tag];
    let ors = Seq::<Seq<char>>::empty();
    let test = after.filter_of(ands, ors);
    lemma_first_with_hash(s.notes, old_hash);
    assert(at < s.notes.len()) by {
        let k = choose|k: int| 0 <= k < s.notes.len() && (#[trigger] s.notes[k]).hash == old_hash;
        assert(!(k < at));
    }
    assert(after.notes[at] == note);
    if tags.contains(tag) {
        assert(after.related(tag, hash));
        assert(after.passes(hash, ands, ors));
        assert(after.notes.contains(note));
        law_select_members(after, ands, ors, note);
    } else {
        assert(!after.related(tag, hash)) by {
            if hash != old_hash && s.related(tag, hash) {
                assert(s.relations.contains((tag, hash)));
                assert(s.has_note(hash));
            }
        }
        assert forall|n: NoteView| after.select(ands, ors).contains(n) implies n.hash != hash by {
            law_select_members(after, ands, ors, n);
            if n.hash == hash {
                assert(after.related(ands[0], n.hash));
            }
        }
        if forall|h: Seq<u8>| h != old_hash ==> !s.related(tag, h) {
            assert forall|k: int| 0 <= k < after.notes.len() implies !test(
                #[trigger] after.notes[k],
            ) by {
                let other = after.notes[k];
                if after.related(tag, other.hash) {
                    assert(s.relations.contains((tag, other.hash)) && other.hash != old_hash);
                    assert(s.related(tag, other.hash));
                }
                assert(!after.related(ands[0], other.hash));
            }
            lemma_filter_none(after.notes, test);
        }
    }
}

/// Where each note carries the tags written in its content, a note
/// created with the tags of its text leaves it so.
pub proof fn law_created_consistent(
    s: Tables,
    hash: Seq<u8>,
    text: Seq<char>,
    now: Timestamp,
)
    requires
        s.wf(),
        s.tag_consistent(),
        !s.has_note(hash),
    ensures
        s.created(hash, text, tag_set(text), now).tag_consistent(),
{
    let after = s.created(hash, text, tag_set(text), now);
    let at = newer_count(s.notes, now);
    let note = Tables::fresh_note(hash, text, now);
    lemma_newer_count(s.notes, now);
    assert forall|i: int, tag: Seq<char>| 0 <= i < after.notes.len() implies (
    #[trigger] after.related(tag, after.notes[i].hash) <==> is_tag_of(
        after.notes[i].content,
        tag,
    )) by {
        lemma_inserted_index(s.notes, at, note, i);
        if i == at {
            if s.relations.contains((tag, hash)) {
                assert(s.has_note(hash));
            }
        } else {
            let k = if i < at {
                i
            } else {
                i - 1
            };
            assert(after.notes[i] == s.notes[k]);
            assert(s.has_note(s.notes[k].hash));
            assert(s.related(tag, s.notes[k].hash) <==> is_tag_of(
                s.notes[k].content,
                tag,
            ));
        }
    }
}

/// Where each note carries the tags written in its content, a note edited
/// to the tags of its new text leaves it so.
pub proof fn law_updated_consistent(
    s: Tables,
    old_hash: Seq<u8>,
    hash: Seq<u8>,
    text: Seq<char>,
    now: Timestamp,
)
    requires
        s.wf(),
        s.tag_consistent(),
        s.has_note(old_hash),
        hash == old_hash || !s.has_note(hash),
    ensures
        s.updated(old_hash, hash, text, tag_set(text), now).tag_consistent(),
{
    let after = s.updated(old_hash, hash, text, tag_set(text), now);
    let at = first_with_hash(s.notes, old_hash);
    lemma_first_with_hash(s.notes, old_hash);
    assert(at < s.notes.len()) by {
        let k = choose|k: int| 0 <= k < s.notes.len() && (#[trigger] s.notes[k]).hash == old_hash;
        assert(!(k < at));
    }
    assert forall|i: int, tag: Seq<char>| 0 <= i < after.notes.len() implies (
    #[trigger] after.related(tag, after.notes[i].hash) <==> is_tag_of(
        after.notes[i].content,
        tag,
    )) by {
        if i == at {
            if s.relations.contains((tag, hash)) && hash != old_hash {
                assert(s.has_note(hash));
            }
        } else {
            assert(after.notes[i] == s.notes[i]);
            assert(s.has_note(s.notes[i].hash));
            if i < at {
                assert(s.notes[i].hash != s.notes[at].hash);
            } else {
                assert(s.notes[at].hash != s.notes[i].hash);
            }
            assert(s.related(tag, s.notes[i].hash) <==> is_tag_of(
                s.notes[i].content,
                tag,
            ));
        }
    }
}

/// No tag ever leaves the tag table.
pub proof fn law_tags_stay(
    s: Tables,
    old_hash: Seq<u8>,
    hash: Seq<u8>,
    text: Seq<char>,
    tags: Set<Seq<char>>,
    now: Timestamp,
)
    ensures
        s.tags.subset_of(s.created(hash, text, tags, now).tags),
        s.tags.subset_of(s.updated(old_hash, hash, text, tags, now).tags),
        tags.subset_of(s.created(hash, text, tags, now).tags),
        tags.subset_of(s.updated(old_hash, hash, text, tags, now).tags),
{
}

} // verus!
