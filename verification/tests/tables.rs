//! Collections, notes, conversations, messages and the manifest.
use libsearch::manifest::{Db, DbError};
use libsearch::types::{Citation, Collection, Conversation, Message, Role};

fn coll(id: &str) -> Collection {
    Collection {
        id: id.into(),
        name: format!("Coll {id}"),
        db_path: format!("/data/{id}"),
        source_paths: vec!["/books".into()],
        embed_model: "bge-m3".into(),
    }
}

fn conversation(id: &str, title: &str) -> Conversation {
    Conversation {
        id: id.into(),
        title: title.into(),
        collection_ids: vec![],
    }
}

fn message(id: &str, conversation_id: &str) -> Message {
    Message {
        id: id.into(),
        conversation_id: conversation_id.into(),
        role: Role::User,
        content: "hi".into(),
        citations: vec![],
        in_tokens: 0,
        out_tokens: 0,
    }
}

#[test]
fn collections_crud() {
    let mut db = Db::open_in_memory().unwrap();
    db.upsert_collection(&coll("c1")).unwrap();
    db.upsert_collection(&coll("c2")).unwrap();
    assert_eq!(db.list_collections().unwrap().len(), 2);

    let mut updated = coll("c1");
    updated.name = "Renamed".into();
    db.upsert_collection(&updated).unwrap();
    let got = db.list_collections().unwrap();
    assert!(got.iter().any(|c| c.id == "c1" && c.name == "Renamed"));
    assert_eq!(got.len(), 2);

    db.delete_collection("c1").unwrap();
    assert_eq!(db.list_collections().unwrap().len(), 1);
}

#[test]
fn service_opens_and_manages_collections() {
    let mut db = Db::open_in_memory().unwrap();
    db.upsert_collection(&Collection {
        id: "c1".into(),
        name: "Tech".into(),
        db_path: "/data/c1".into(),
        source_paths: vec!["/books".into()],
        embed_model: "bge-m3".into(),
    })
    .unwrap();
    assert_eq!(db.list_collections().unwrap().len(), 1);
}

#[test]
fn chunker_ver_tracking_and_reset() {
    let mut db = Db::open_in_memory().unwrap();
    db.set_book_state("c1", "fresh", "fp1", "sig1", "/lib/fresh.pdf")
        .unwrap();
    db.set_book_state_ver("c1", "imported", "fp2", "sig2", "/lib/imported.pdf", 0)
        .unwrap();
    assert_eq!(db.legacy_chunker_count("c1").unwrap(), 1);
    db.set_book_state("c1", "imported", "fp2", "sig2", "/lib/imported.pdf")
        .unwrap();
    assert_eq!(db.legacy_chunker_count("c1").unwrap(), 0);
    assert_eq!(db.clear_book_state("c1").unwrap(), 2);
    assert_eq!(db.legacy_chunker_count("c1").unwrap(), 0);
}

#[test]
fn notebook_roundtrip_and_collection_cleanup() {
    let mut db = Db::open_in_memory().unwrap();
    assert_eq!(db.get_note("global").unwrap(), None);
    db.set_note("global", "Prefers concise answers.", 1).unwrap();
    db.set_note("global", "Prefers concise answers with examples.", 2)
        .unwrap();
    assert_eq!(
        db.get_note("global").unwrap().as_deref(),
        Some("Prefers concise answers with examples.")
    );
    assert_eq!(
        db.get_note_info("global").unwrap(),
        Some(("Prefers concise answers with examples.".to_string(), 2))
    );
    db.upsert_collection(&coll("c1")).unwrap();
    db.set_note("c1", "Finance shelf notes", 3).unwrap();
    db.delete_collection("c1").unwrap();
    assert_eq!(db.get_note("c1").unwrap(), None);
    assert!(db.get_note("global").unwrap().is_some());
}

#[test]
fn conversation_and_messages_roundtrip() {
    let mut db = Db::open_in_memory().unwrap();
    let conv = Conversation {
        id: "conv1".into(),
        title: "Chat".into(),
        collection_ids: vec!["c1".into()],
    };
    db.create_conversation(&conv, 10).unwrap();

    db.add_message(&Message {
        id: "m1".into(),
        conversation_id: "conv1".into(),
        role: Role::User,
        content: "hello?".into(),
        citations: vec![],
        in_tokens: 0,
        out_tokens: 0,
    })
    .unwrap();
    db.add_message(&Message {
        id: "m2".into(),
        conversation_id: "conv1".into(),
        role: Role::Assistant,
        content: "answer [1]".into(),
        citations: vec![Citation {
            rank: 1,
            citation: "X · p.5".into(),
            source_path: "/b/x.pdf".into(),
            page: Some(5),
            text: "cited".into(),
        }],
        in_tokens: 12,
        out_tokens: 34,
    })
    .unwrap();

    let msgs = db.list_messages("conv1").unwrap();
    assert_eq!(msgs.len(), 2);
    assert_eq!(msgs[0].role, Role::User);
    assert_eq!(msgs[1].citations.len(), 1);
    assert_eq!(msgs[1].citations[0].page, Some(5));
    assert_eq!((msgs[1].in_tokens, msgs[1].out_tokens), (12, 34));
}

#[test]
fn deleting_conversation_cascades_messages() {
    let mut db = Db::open_in_memory().unwrap();
    db.create_conversation(&conversation("c", "t"), 1).unwrap();
    db.add_message(&message("m", "c")).unwrap();
    db.delete_conversation("c").unwrap();
    assert!(db.list_messages("c").unwrap().is_empty());
}

#[test]
fn rename_conversation_updates_title() {
    let mut db = Db::open_in_memory().unwrap();
    db.create_conversation(&conversation("c", "old"), 1).unwrap();
    db.rename_conversation("c", "new title").unwrap();
    let convs = db.list_conversations().unwrap();
    assert_eq!(convs[0].title, "new title");
}

#[test]
fn book_fingerprint_tracks_changes() {
    let mut db = Db::open_in_memory().unwrap();
    assert_eq!(db.book_fingerprint("c1", "b1").unwrap(), None);
    db.set_book_fingerprint("c1", "b1", "fp1", "/lib/b1.pdf")
        .unwrap();
    assert_eq!(db.book_fingerprint("c1", "b1").unwrap(), Some("fp1".into()));
    db.set_book_fingerprint("c1", "b1", "fp2", "/lib/b1.pdf")
        .unwrap();
    assert_eq!(db.book_fingerprint("c1", "b1").unwrap(), Some("fp2".into()));
}

#[test]
fn content_sig_finds_moved_book() {
    let mut db = Db::open_in_memory().unwrap();
    assert!(db.book_state_for_content("c1", "").unwrap().is_none());
    assert!(db
        .book_state_for_content("c1", "missing")
        .unwrap()
        .is_none());
    db.set_book_state("c1", "old", "fp-old", "sig-xyz", "/lib/old.pdf")
        .unwrap();
    let hit = db.book_state_for_content("c1", "sig-xyz").unwrap().unwrap();
    assert_eq!(hit.book_id, "old");
    assert_eq!(hit.source_path, "/lib/old.pdf");
    assert!(db
        .book_state_for_content("c2", "sig-xyz")
        .unwrap()
        .is_none());
    db.set_book_fingerprint("c1", "old", "fp-new", "/lib/old.pdf")
        .unwrap();
    assert_eq!(
        db.book_state_for_content("c1", "sig-xyz")
            .unwrap()
            .unwrap()
            .book_id,
        "old"
    );
    db.set_book_state("c1", "ghost", "missing", "missing", "/lib/g.pdf")
        .unwrap();
    assert_eq!(db.book_fingerprint("c1", "ghost").unwrap(), None);
    db.set_book_state("c1", "halfread", "fp-h", "missing", "/lib/h.pdf")
        .unwrap();
    assert_eq!(
        db.book_fingerprint("c1", "halfread").unwrap(),
        Some("fp-h".into())
    );
    assert!(db
        .book_state_for_content("c1", "missing")
        .unwrap()
        .is_none());
}

#[test]
fn collections_are_listed_by_name() {
    let mut db = Db::open_in_memory().unwrap();
    for (id, name) in [("a", "Zoo"), ("b", "Art"), ("c", "Math")] {
        let mut c = coll(id);
        c.name = name.into();
        db.upsert_collection(&c).unwrap();
    }
    let names: Vec<String> = db
        .list_collections()
        .unwrap()
        .into_iter()
        .map(|c| c.name)
        .collect();
    assert_eq!(names, vec!["Art", "Math", "Zoo"]);
}

#[test]
fn deleted_collection_forgets_its_books() {
    let mut db = Db::open_in_memory().unwrap();
    db.upsert_collection(&coll("c1")).unwrap();
    db.set_book_state("c1", "b", "1:1", "s", "/b.pdf").unwrap();
    db.set_book_state("c2", "b", "1:1", "s", "/b.pdf").unwrap();
    db.delete_collection("c1").unwrap();
    assert_eq!(db.book_fingerprint("c1", "b").unwrap(), None);
    assert_eq!(db.book_fingerprint("c2", "b").unwrap(), Some("1:1".into()));
}

#[test]
fn conversations_are_listed_latest_first() {
    let mut db = Db::open_in_memory().unwrap();
    db.create_conversation(&conversation("a", "first"), 1).unwrap();
    db.create_conversation(&conversation("b", "third"), 3).unwrap();
    db.create_conversation(&conversation("c", "second"), 2).unwrap();
    let titles: Vec<String> = db
        .list_conversations()
        .unwrap()
        .into_iter()
        .map(|c| c.title)
        .collect();
    assert_eq!(titles, vec!["third", "second", "first"]);
}

#[test]
fn messages_need_a_conversation_and_a_new_identity() {
    let mut db = Db::open_in_memory().unwrap();
    assert_eq!(
        db.add_message(&message("m", "nowhere")),
        Err(DbError::Sqlite("FOREIGN KEY constraint failed".into()))
    );
    db.create_conversation(&conversation("c", "t"), 1).unwrap();
    assert_eq!(
        db.create_conversation(&conversation("c", "again"), 2),
        Err(DbError::Sqlite(
            "UNIQUE constraint failed: conversations.id".into()
        ))
    );
    db.add_message(&message("m", "c")).unwrap();
    assert_eq!(
        db.add_message(&message("m", "c")),
        Err(DbError::Sqlite("UNIQUE constraint failed: messages.id".into()))
    );
    db.delete_message("m").unwrap();
    assert!(db.list_messages("c").unwrap().is_empty());
    db.add_message(&message("m", "c")).unwrap();
    assert_eq!(db.list_messages("c").unwrap().len(), 1);
}

#[test]
fn purging_removes_rows_of_failed_reads() {
    let mut db = Db::open_in_memory().unwrap();
    db.set_book_state("c1", "good", "1:1", "s", "/g.pdf").unwrap();
    assert_eq!(db.purge_sentinels(), 0);
    assert_eq!(db.book_state_rows("c1").unwrap().len(), 1);
}

#[test]
fn error_messages_name_their_cause() {
    assert_eq!(DbError::Sqlite("x".into()).message(), "x");
    assert_eq!(DbError::Json("y".into()).message(), "y");
    assert_eq!(DbError::NotFound("z".into()).message(), "not found: z");
}

#[test]
fn rechunk_is_armed_for_one_collection_at_a_time() {
    let mut db = Db::open_in_memory().unwrap();
    assert!(!db.rechunk_pending("c1").unwrap());
    db.set_rechunk_pending("c1", true).unwrap();
    db.set_rechunk_pending("c1", true).unwrap();
    assert!(db.rechunk_pending("c1").unwrap());
    assert!(!db.rechunk_pending("c2").unwrap());
    db.set_rechunk_pending("c1", false).unwrap();
    assert!(!db.rechunk_pending("c1").unwrap());
}
