use hashtags::error::Error;
use hashtags::hash::content_hash;
use hashtags::model::{Note, Timestamp};
use hashtags::persistence::memory::MemoryPersistence;
use hashtags::persistence::Persistence;

fn at(seconds: i64) -> Timestamp {
    Timestamp { seconds, nanos: 0 }
}

fn contents(notes: &Vec<Note>) -> Vec<&str> {
    notes.iter().map(|n| n.content.as_str()).collect()
}

#[test]
fn sqlite_test_basic() {
    let mut ps = MemoryPersistence::new();
    assert!(!ps
        .create_note("content-1", vec!["tag-1", "tag-2", "tag-3", "tag-4"])
        .is_err());
    // Inserted content should be able to be queried.
    let notes = ps.query_notes(&vec!["tag-1"], &vec![]).unwrap();
    assert!(notes.len() == 1 && notes[0].content == "content-1");
    let notes = ps
        .query_notes(&vec!["tag-1", "tag-2", "tag-3"], &vec![])
        .unwrap();
    assert!(notes.len() == 1 && notes[0].content == "content-1");
    let notes = ps
        .query_notes(&vec!["tag-1", "tag-2", "tag-5"], &vec![])
        .unwrap();
    assert!(notes.len() == 0);
    // Duplicate content should be rejected.
    assert!(ps.create_note("content-1", vec![]).is_err());
    // Build more complex scenario.
    assert!(!ps
        .create_note("content-2", vec!["tag-1", "tag-3", "tag-6"])
        .is_err());
    assert!(!ps.create_note("content-3", vec!["tag-3", "tag-6"]).is_err());
    // Test AND and OR.
    let notes = ps
        .query_notes(&vec!["tag-1", "tag-3"], &vec!["tag-4", "tag-6"])
        .unwrap();
    assert!(
        notes.len() == 2 && notes[0].content == "content-2" && notes[1].content == "content-1"
    );
    let notes = ps
        .query_notes(&vec!["tag-1", "tag-3"], &vec!["tag-6"])
        .unwrap();
    assert!(notes.len() == 1 && notes[0].content == "content-2");
}

#[test]
fn test_update_basic() {
    let mut ps = MemoryPersistence::new();
    assert!(!ps
        .create_note("content-1", vec!["tag-1", "tag-2", "tag-3", "tag-4"])
        .is_err());
    let notes = ps.query_notes(&vec!["tag-1"], &vec![]).unwrap();
    assert!(notes.len() == 1 && notes[0].content == "content-1");
    ps.update_note_by_hash(&notes[0].hash, "content-2", vec!["tag-1", "tag-2"])
        .unwrap();
    let notes = ps.query_notes(&vec!["tag-1"], &vec![]).unwrap();
    assert!(notes.len() == 1 && notes[0].content == "content-2")
}

#[test]
fn sqlite_test_utf8() {
    let mut ps = MemoryPersistence::new();
    assert!(!ps
        .create_note(
            "content-1 #台積電 #2330 #2018 年報",
            vec!["台積電", "2330", "2018", "現貨"]
        )
        .is_err());
    assert!(!ps
        .create_note(
            "content-2 #台達電 #2308 #2018 年報",
            vec!["台達電", "2308", "2018", "現貨"]
        )
        .is_err());
    assert!(!ps
        .create_note("content-3 #0050 #2017", vec!["0050", "2017", "ETF"])
        .is_err());
    assert!(!ps
        .create_note(
            "content-4 #台達電 #2308 #2017 年報",
            vec!["台達電", "2308", "2017", "現貨"]
        )
        .is_err());
    let notes = ps
        .query_notes(&vec!["2018", "現貨"], &vec!["台積電", "台達電"])
        .unwrap();
    assert!(
        notes.len() == 2
            && notes[0].content.starts_with("content-2")
            && notes[1].content.starts_with("content-1")
    );
    let notes = ps.query_notes(&vec!["2017"], &vec!["現貨", "ETF"]).unwrap();
    assert!(
        notes.len() == 2
            && notes[0].content.starts_with("content-4")
            && notes[1].content.starts_with("content-3")
    )
}

#[test]
fn test_update_utf8() {
    let mut ps = MemoryPersistence::new();
    assert!(!ps
        .create_note(
            "content-1 #台積電 #2330 #2018 年報",
            vec!["台積電", "2330", "2018", "現貨"]
        )
        .is_err());
    let notes = ps.query_notes(&vec!["台積電"], &vec![]).unwrap();
    assert!(notes.len() == 1 && notes[0].content.starts_with("content-1"));
    ps.update_note_by_hash(
        &notes[0].hash,
        "content-2 #台積電 #2330 #2018 年報",
        vec!["台積電", "2330", "2018", "現貨"],
    )
    .unwrap();
    let notes = ps.query_notes(&vec!["台積電"], &vec![]).unwrap();
    assert!(notes.len() == 1 && notes[0].content.starts_with("content-2"));
}

#[test]
fn created_note_is_found_by_each_of_its_tags() {
    let mut ps = MemoryPersistence::new();
    ps.create_note_at("text", vec!["a", "b", "c"], at(10)).unwrap();
    for tag in ["a", "b", "c"] {
        let notes = ps.query_notes(&vec![tag], &vec![]).unwrap();
        assert_eq!(
            notes,
            vec![Note {
                hash: content_hash("text"),
                content: "text".to_string(),
                time_created: at(10),
                time_updated: None,
            }]
        );
    }
    assert!(ps.query_notes(&vec!["d"], &vec![]).unwrap().is_empty());
}

#[test]
fn and_tags_must_all_be_carried() {
    let mut ps = MemoryPersistence::new();
    ps.create_note_at("n", vec!["tag-1", "tag-2", "tag-3", "tag-4"], at(1)).unwrap();
    let notes = ps.query_notes(&vec!["tag-1", "tag-2", "tag-3"], &vec![]).unwrap();
    assert_eq!(contents(&notes), vec!["n"]);
    let notes = ps.query_notes(&vec!["tag-1", "tag-2", "tag-5"], &vec![]).unwrap();
    assert!(notes.is_empty());
}

#[test]
fn and_tags_with_or_tags() {
    let mut ps = MemoryPersistence::new();
    ps.create_note_at("A", vec!["tag-1", "tag-2", "tag-3", "tag-4"], at(1)).unwrap();
    ps.create_note_at("B", vec!["tag-1", "tag-3", "tag-6"], at(2)).unwrap();
    ps.create_note_at("C", vec!["tag-3", "tag-6"], at(3)).unwrap();
    let notes = ps
        .query_notes(&vec!["tag-1", "tag-3"], &vec!["tag-4", "tag-6"])
        .unwrap();
    assert_eq!(contents(&notes), vec!["B", "A"]);
}

#[test]
fn or_tags_alone_give_the_union() {
    let mut ps = MemoryPersistence::new();
    ps.create_note_at("A", vec!["x"], at(1)).unwrap();
    ps.create_note_at("B", vec!["y"], at(2)).unwrap();
    ps.create_note_at("C", vec!["z"], at(3)).unwrap();
    ps.create_note_at("D", vec!["x", "y"], at(4)).unwrap();
    let notes = ps.query_notes(&vec![], &vec!["x", "y"]).unwrap();
    assert_eq!(contents(&notes), vec!["D", "B", "A"]);
    let notes = ps.query_notes(&vec![], &vec!["none"]).unwrap();
    assert!(notes.is_empty());
}

#[test]
fn notes_come_most_recently_created_first() {
    let mut ps = MemoryPersistence::new();
    ps.create_note_at("third", vec!["t"], at(30)).unwrap();
    ps.create_note_at("first", vec!["t"], at(10)).unwrap();
    ps.create_note_at("fourth", vec!["t"], Timestamp { seconds: 30, nanos: 1 }).unwrap();
    ps.create_note_at("second", vec!["t"], at(20)).unwrap();
    ps.create_note_at("before all", vec!["t"], at(-5)).unwrap();
    let notes = ps.query_notes(&vec!["t"], &vec![]).unwrap();
    assert_eq!(
        contents(&notes),
        vec!["fourth", "third", "second", "first", "before all"]
    );
}

#[test]
fn of_two_notes_created_at_one_time_the_later_comes_first() {
    let mut ps = MemoryPersistence::new();
    ps.create_note_at("one", vec!["t"], at(7)).unwrap();
    ps.create_note_at("two", vec!["t"], at(7)).unwrap();
    let notes = ps.query_notes(&vec!["t"], &vec![]).unwrap();
    assert_eq!(contents(&notes), vec!["two", "one"]);
}

#[test]
fn query_without_tags_is_refused() {
    let mut ps = MemoryPersistence::new();
    assert_eq!(ps.query_notes(&vec![], &vec![]), Err(Error::NoFilterProvided));
    ps.create_note_at("n", vec!["t"], at(1)).unwrap();
    assert_eq!(ps.query_notes(&vec![], &vec![]), Err(Error::NoFilterProvided));
}

#[test]
fn same_content_is_refused_whatever_the_tags() {
    let mut ps = MemoryPersistence::new();
    ps.create_note_at("same", vec!["a"], at(1)).unwrap();
    assert_eq!(ps.create_note_at("same", vec!["a"], at(2)), Err(Error::DuplicateNote));
    assert_eq!(ps.create_note_at("same", vec!["b", "c"], at(3)), Err(Error::DuplicateNote));
    assert_eq!(ps.create_note_at("same", vec![], at(4)), Err(Error::DuplicateNote));
    assert_eq!(ps.create_note("same", vec!["z"]), Err(Error::DuplicateNote));
    // The refused calls left nothing behind.
    assert!(ps.query_notes(&vec!["b"], &vec![]).unwrap().is_empty());
    assert!(ps.query_notes(&vec!["z"], &vec![]).unwrap().is_empty());
    let notes = ps.query_notes(&vec!["a"], &vec![]).unwrap();
    assert_eq!(notes.len(), 1);
    assert_eq!(notes[0].time_created, at(1));
}

#[test]
fn a_tag_given_twice_is_refused_and_nothing_is_stored() {
    let mut ps = MemoryPersistence::new();
    let r = ps.create_note_at("n", vec!["a", "b", "a"], at(1));
    assert!(matches!(r, Err(Error::StorageFailure(_))));
    assert!(ps.query_notes(&vec!["a"], &vec![]).unwrap().is_empty());
    assert!(ps.query_notes(&vec!["b"], &vec![]).unwrap().is_empty());
    // So the same content can still be created.
    ps.create_note_at("n", vec!["a", "b"], at(2)).unwrap();
    let hash = content_hash("n");
    let r = ps.update_note_by_hash_at(&hash, "m", vec!["c", "c"], at(3));
    assert!(matches!(r, Err(Error::StorageFailure(_))));
    let notes = ps.query_notes(&vec!["a"], &vec![]).unwrap();
    assert_eq!(contents(&notes), vec!["n"]);
    assert_eq!(notes[0].time_updated, None);
}

#[test]
fn update_keeps_the_time_of_creation_and_sets_the_time_of_update() {
    let mut ps = MemoryPersistence::new();
    ps.create_note_at("old", vec!["keep", "gone"], at(100)).unwrap();
    ps.create_note_at("other", vec!["other"], at(200)).unwrap();
    let old_hash = content_hash("old");
    ps.update_note_by_hash_at(&old_hash, "new", vec!["keep", "more"], at(300)).unwrap();
    let expected = Note {
        hash: content_hash("new"),
        content: "new".to_string(),
        time_created: at(100),
        time_updated: Some(at(300)),
    };
    assert_eq!(ps.query_notes(&vec!["keep"], &vec![]).unwrap(), vec![expected.clone()]);
    assert_eq!(ps.query_notes(&vec!["more"], &vec![]).unwrap(), vec![expected]);
    assert!(ps.query_notes(&vec!["gone"], &vec![]).unwrap().is_empty());
    // The note keeps its place among the others.
    let notes = ps.query_notes(&vec![], &vec!["keep", "other"]).unwrap();
    assert_eq!(contents(&notes), vec!["other", "new"]);
    // The old hash names no note any more.
    assert_eq!(
        ps.update_note_by_hash_at(&old_hash, "again", vec!["x"], at(400)),
        Err(Error::NoteNotFound)
    );
}

#[test]
fn update_of_an_unknown_hash_is_refused() {
    let mut ps = MemoryPersistence::new();
    assert_eq!(
        ps.update_note_by_hash(&vec![1, 2, 3], "text", vec!["t"]),
        Err(Error::NoteNotFound)
    );
    ps.create_note_at("n", vec!["t"], at(1)).unwrap();
    assert_eq!(
        ps.update_note_by_hash(&content_hash("m"), "text", vec!["t"]),
        Err(Error::NoteNotFound)
    );
    assert_eq!(contents(&ps.query_notes(&vec!["t"], &vec![]).unwrap()), vec!["n"]);
}

#[test]
fn update_to_the_content_of_another_note_is_refused() {
    let mut ps = MemoryPersistence::new();
    ps.create_note_at("one", vec!["a"], at(1)).unwrap();
    ps.create_note_at("two", vec!["b"], at(2)).unwrap();
    assert_eq!(
        ps.update_note_by_hash_at(&content_hash("one"), "two", vec!["c"], at(3)),
        Err(Error::DuplicateNote)
    );
    assert_eq!(contents(&ps.query_notes(&vec!["a"], &vec![]).unwrap()), vec!["one"]);
    assert_eq!(contents(&ps.query_notes(&vec!["b"], &vec![]).unwrap()), vec!["two"]);
    assert!(ps.query_notes(&vec!["c"], &vec![]).unwrap().is_empty());
}

#[test]
fn update_to_the_same_content_replaces_the_tags() {
    let mut ps = MemoryPersistence::new();
    ps.create_note_at("same", vec!["a", "b"], at(1)).unwrap();
    ps.update_note_by_hash_at(&content_hash("same"), "same", vec!["b", "c"], at(2)).unwrap();
    assert!(ps.query_notes(&vec!["a"], &vec![]).unwrap().is_empty());
    let notes = ps.query_notes(&vec!["b", "c"], &vec![]).unwrap();
    assert_eq!(contents(&notes), vec!["same"]);
    assert_eq!(notes[0].hash, content_hash("same"));
    assert_eq!(notes[0].time_created, at(1));
    assert_eq!(notes[0].time_updated, Some(at(2)));
}

#[test]
fn update_through_the_clock_sets_the_time_of_update() {
    let mut ps = MemoryPersistence::new();
    ps.create_note("before", vec!["t"]).unwrap();
    let created = ps.query_notes(&vec!["t"], &vec![]).unwrap();
    assert_eq!(created[0].time_updated, None);
    assert!(created[0].time_created.seconds > 1_500_000_000);
    ps.update_note_by_hash(&created[0].hash, "after", vec!["t"]).unwrap();
    let updated = ps.query_notes(&vec!["t"], &vec![]).unwrap();
    assert_eq!(updated[0].time_created, created[0].time_created);
    let then = updated[0].time_updated.unwrap();
    assert!(then.seconds > 1_500_000_000);
}
