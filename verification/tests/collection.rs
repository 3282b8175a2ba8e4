//! The collection model: chunk draining, graves, counts and the
//! transaction flag.

use ankisyncd::colsync::{Collection, Grave, Row};

fn fresh_collection() -> Collection {
    Collection {
        cards: vec![Row { id: 1, usn: -1 }, Row { id: 2, usn: 3 }],
        notes: vec![Row { id: 10, usn: -1 }],
        revlog: vec![Row { id: 100, usn: -1 }, Row { id: 101, usn: -1 }],
        graves: vec![
            Grave { oid: 7, gtype: 0, usn: 2 },
            Grave { oid: 8, gtype: 1, usn: 5 },
        ],
        usn: 6,
        mtime: 0,
        schema: 0,
        in_transaction: false,
        saved_cards: Vec::new(),
        saved_notes: Vec::new(),
        saved_revlog: Vec::new(),
        saved_graves: Vec::new(),
    }
}

#[test]
fn chunk_drains_and_stamps_every_pending_row() {
    let mut col = fresh_collection();
    col.begin_trx();
    let chunk = col.chunk(6);
    assert!(chunk.done);
    assert_eq!(chunk.revlog, vec![Row { id: 100, usn: -1 }, Row { id: 101, usn: -1 }]);
    assert_eq!(chunk.cards, vec![Row { id: 1, usn: -1 }]);
    assert_eq!(chunk.notes, vec![Row { id: 10, usn: -1 }]);
    for row in col.cards.iter().chain(col.notes.iter()).chain(col.revlog.iter()) {
        assert_ne!(row.usn, -1);
    }
    assert_eq!(col.cards, vec![Row { id: 1, usn: 6 }, Row { id: 2, usn: 3 }]);
}

#[test]
fn start_graves_filters_by_client_usn() {
    let col = fresh_collection();
    let graves = col.start_graves(2);
    assert_eq!(graves, vec![Grave { oid: 8, gtype: 1, usn: 5 }]);
    assert_eq!(col.start_graves(5), Vec::new());
}

#[test]
fn apply_graves_appends_stamped_tombstones() {
    let mut col = fresh_collection();
    col.begin_trx();
    let incoming = vec![Grave { oid: 9, gtype: 2, usn: -1 }];
    col.apply_graves(&incoming, 6);
    assert_eq!(col.graves.len(), 3);
    assert_eq!(col.graves[2], Grave { oid: 9, gtype: 2, usn: 6 });
}

#[test]
fn apply_chunk_merges_by_usn_rule() {
    let mut col = fresh_collection();
    col.begin_trx();
    let incoming = ankisyncd::colsync::Chunk {
        done: true,
        revlog: vec![],
        cards: vec![
            Row { id: 2, usn: 4 },
            Row { id: 3, usn: 1 },
            Row { id: 1, usn: -1 },
        ],
        notes: vec![],
    };
    col.apply_chunk(&incoming, false);
    assert_eq!(
        col.cards,
        vec![Row { id: 1, usn: -1 }, Row { id: 2, usn: 4 }, Row { id: 3, usn: 1 }]
    );

    let tie = ankisyncd::colsync::Chunk {
        done: true,
        revlog: vec![],
        cards: vec![Row { id: 3, usn: 1 }],
        notes: vec![],
    };
    let before = col.cards.clone();
    col.apply_chunk(&tie, false);
    assert_eq!(col.cards, before);
    col.apply_chunk(&tie, true);
    assert_eq!(col.cards.last().unwrap(), &Row { id: 3, usn: 1 });
}

#[test]
fn begin_response_serializes() {
    assert_eq!(
        ankisyncd::json::emit_begin_response(135, &b"0f5c8659".to_vec()),
        b"{\"data\":{\"usn\":135,\"sk\":\"0f5c8659\"},\"err\":\"\"}".to_vec()
    );
}

#[test]
fn abort_rolls_back_to_the_start_snapshot() {
    let mut col = fresh_collection();
    let cards0 = col.cards.clone();
    let notes0 = col.notes.clone();
    let revlog0 = col.revlog.clone();
    let graves0 = col.graves.clone();
    col.begin_trx();
    col.apply_graves(&vec![Grave { oid: 99, gtype: 2, usn: -1 }], 6);
    let _ = col.chunk(6);
    assert_ne!(col.graves, graves0);
    col.rollback_trx();
    assert!(!col.in_transaction);
    assert_eq!(col.cards, cards0);
    assert_eq!(col.notes, notes0);
    assert_eq!(col.revlog, revlog0);
    assert_eq!(col.graves, graves0);
}

#[test]
fn commit_keeps_the_transaction_work() {
    let mut col = fresh_collection();
    col.begin_trx();
    let _ = col.chunk(6);
    col.commit_trx(42);
    assert!(!col.in_transaction);
    for row in col.cards.iter().chain(col.notes.iter()).chain(col.revlog.iter()) {
        assert_ne!(row.usn, -1);
    }
}

#[test]
fn wire_request_fields_parse_tolerantly() {
    let body = b"{\"minUsn\": 7, \"lnewer\": true, \"graves\": {\"cards\":[101,102],\"notes\":[],\"decks\":[103]}}".to_vec();
    assert_eq!(
        ankisyncd::json::parse_field_int(&body, &b"minUsn".to_vec()),
        Some(7)
    );
    assert_eq!(
        ankisyncd::json::parse_field_bool(&body, &b"lnewer".to_vec()),
        Some(true)
    );
    let (cards, notes, decks) =
        ankisyncd::json::parse_graves_request(&body, &b"graves".to_vec()).unwrap();
    assert_eq!(cards, vec![101, 102]);
    assert_eq!(notes, Vec::<i64>::new());
    assert_eq!(decks, vec![103]);

    let sanity = b"{\"client\":{\"cards\":2,\"notes\":1,\"revlog\":2},\"full\":true}".to_vec();
    assert_eq!(
        ankisyncd::json::parse_subfield_int(&sanity, &b"client".to_vec(), &b"notes".to_vec()),
        Some(1)
    );

    let hk = b"{\"username\":\"alice\",\"password\":\"pw\"}".to_vec();
    assert_eq!(
        ankisyncd::json::parse_field_string(&hk, &b"username".to_vec()),
        Some(b"alice".to_vec())
    );
    assert_eq!(
        ankisyncd::json::parse_field_string(&hk, &b"password".to_vec()),
        Some(b"pw".to_vec())
    );
}

#[test]
fn wire_chunk_rows_parse_and_emit() {
    let body = b"{\"done\":true,\"revlog\":[[100,-1]],\"cards\":[[1,-1],[2,3]],\"notes\":[]}".to_vec();
    let cards = ankisyncd::json::parse_field_rows(&body, &b"cards".to_vec()).unwrap();
    assert_eq!(cards, vec![Row { id: 1, usn: -1 }, Row { id: 2, usn: 3 }]);
    let chunk = ankisyncd::colsync::Chunk {
        done: true,
        revlog: vec![Row { id: 100, usn: -1 }],
        cards,
        notes: Vec::new(),
    };
    assert_eq!(
        ankisyncd::json::emit_chunk_response(&chunk),
        b"{\"done\":true,\"revlog\":[[100,-1]],\"cards\":[[1,-1],[2,3]],\"notes\":[]}".to_vec()
    );
}

#[test]
fn malformed_wire_payloads_are_refused() {
    let bad_list = b"{\"chunk\":{\"cards\":[1,\"x\"]}}".to_vec();
    assert!(ankisyncd::json::parse_graves_request(&bad_list, &b"chunk".to_vec()).is_none());
    let absent_outer = b"{\"other\":1}".to_vec();
    assert!(ankisyncd::json::parse_graves_request(&absent_outer, &b"chunk".to_vec()).is_none());
    let absent_lists = b"{\"chunk\":{}}".to_vec();
    let (c, n, d) =
        ankisyncd::json::parse_graves_request(&absent_lists, &b"chunk".to_vec()).unwrap();
    assert!(c.is_empty() && n.is_empty() && d.is_empty());

    let bad_rows = b"{\"cards\":[[1]]}".to_vec();
    assert!(ankisyncd::json::parse_field_rows(&bad_rows, &b"cards".to_vec()).is_none());
    let usn_too_big = b"{\"cards\":[[1,5000000000]]}".to_vec();
    assert!(ankisyncd::json::parse_field_rows(&usn_too_big, &b"cards".to_vec()).is_none());

    let not_int = b"{\"client\":{\"cards\":\"two\"}}".to_vec();
    assert!(
        ankisyncd::json::parse_subfield_int(&not_int, &b"client".to_vec(), &b"cards".to_vec())
            .is_none()
    );
}

#[test]
fn graves_response_emits_grouped_ids() {
    assert_eq!(
        ankisyncd::json::emit_graves_response(&vec![8], &Vec::new(), &vec![9, 10]),
        b"{\"cards\":[8],\"notes\":[],\"decks\":[9,10]}".to_vec()
    );
}

#[test]
fn sanity_check_detects_mismatch() {
    let mut col = fresh_collection();
    assert!(col.sanity_check(2, 1, 2));
    assert!(!col.sanity_check(1, 1, 2));
    col.begin_trx();
    assert!(col.in_transaction);
    col.rollback_trx();
    assert!(!col.in_transaction);
    col.begin_trx();
    col.commit_trx(42);
    assert!(!col.in_transaction);
    assert_eq!(col.mtime, 42);
}
