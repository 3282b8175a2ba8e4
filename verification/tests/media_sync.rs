//! The media diff engine and session store end to end, with real
//! zip containers.

use ankisyncd::keys::checksum_hex;
use ankisyncd::media::{MediaRecord, MediaStore};
use ankisyncd::ops::{adopt_media_changes_from_zip, operation_hostkey, zip_files, UploadError};
use ankisyncd::session::{Session, SessionManager};
use std::io::{Cursor, Read, Write};

fn build_zip(entries: &[(&str, &[u8])]) -> Vec<u8> {
    let mut w = zip::ZipWriter::new(Cursor::new(Vec::new()));
    let opts = zip::write::SimpleFileOptions::default();
    for (name, data) in entries {
        w.start_file(name.to_string(), opts).unwrap();
        w.write_all(data).unwrap();
    }
    w.finish().unwrap().into_inner()
}

fn read_zip(data: &[u8]) -> Vec<(String, Vec<u8>)> {
    let mut a = zip::ZipArchive::new(Cursor::new(data.to_vec())).unwrap();
    let mut out = Vec::new();
    for i in 0..a.len() {
        let mut f = a.by_index(i).unwrap();
        let name = f.name().to_string();
        let mut bytes = Vec::new();
        f.read_to_end(&mut bytes).unwrap();
        out.push((name, bytes));
    }
    out
}

#[test]
fn upload_round_trip_with_add_and_delete() {
    let mut store = MediaStore::new();
    let payload: &[u8] = &[0xde, 0xad, 0xbe, 0xef];
    let bundle = build_zip(&[
        ("_meta", b"[[\"a.jpg\",\"0\"],[\"b.jpg\",null]]"),
        ("0", payload),
    ]);
    let (processed, last_usn) = adopt_media_changes_from_zip(&mut store, bundle).unwrap();
    assert_eq!(processed, 2);
    assert_eq!(last_usn, 1);
    assert_eq!(store.last_usn(), 1);

    let changes = store.media_changes(0);
    assert_eq!(changes.len(), 1);
    assert_eq!(changes[0].fname, b"a.jpg".to_vec());
    assert_eq!(changes[0].usn, 1);
    assert_eq!(changes[0].csum, Some(checksum_hex(&payload.to_vec())));
}

#[test]
fn deletion_via_empty_string_leaves_tombstone() {
    let mut store = MediaStore::new();
    let first = build_zip(&[("_meta", b"[[\"c.jpg\",\"0\"]]"), ("0", b"bytes")]);
    adopt_media_changes_from_zip(&mut store, first).unwrap();
    let second = build_zip(&[("_meta", b"[[\"c.jpg\",\"\"]]")]);
    let (processed, last_usn) = adopt_media_changes_from_zip(&mut store, second).unwrap();
    assert_eq!(processed, 1);
    assert_eq!(last_usn, 1);

    let changes = store.media_changes(0);
    assert_eq!(changes.len(), 1);
    assert_eq!(changes[0].fname, b"c.jpg".to_vec());
    assert_eq!(changes[0].csum, None);
}

#[test]
fn download_selection_omits_missing_files() {
    let mut store = MediaStore::new();
    let bundle = build_zip(&[
        ("_meta", b"[[\"x.mp3\",\"0\"],[\"y.mp3\",\"1\"]]"),
        ("0", b"xxx"),
        ("1", b"yyy"),
    ]);
    adopt_media_changes_from_zip(&mut store, bundle).unwrap();

    let names = vec![b"x.mp3".to_vec(), b"missing.mp3".to_vec()];
    let out = zip_files(&store, &names);
    let entries = read_zip(&out);
    assert_eq!(entries.len(), 2);
    assert_eq!(entries[0], ("0".to_string(), b"xxx".to_vec()));
    assert_eq!(entries[1].0, "_meta".to_string());
    assert_eq!(entries[1].1, b"{\"0\":\"x.mp3\"}".to_vec());
}

#[test]
fn upload_then_download_returns_original_bytes() {
    let mut store = MediaStore::new();
    let body: &[u8] = &[1, 2, 3, 4, 5, 0, 255];
    let bundle = build_zip(&[("_meta", b"[[\"a.jpg\",\"0\"]]"), ("0", body)]);
    adopt_media_changes_from_zip(&mut store, bundle).unwrap();
    let out = zip_files(&store, &vec![b"a.jpg".to_vec()]);
    let entries = read_zip(&out);
    assert_eq!(entries[0].1, body.to_vec());
}

#[test]
fn usn_advances_by_adds_only() {
    let mut store = MediaStore::new();
    let b1 = build_zip(&[
        ("_meta", b"[[\"a.jpg\",\"0\"],[\"b.jpg\",\"1\"]]"),
        ("0", b"a"),
        ("1", b"b"),
    ]);
    let (_, l1) = adopt_media_changes_from_zip(&mut store, b1).unwrap();
    assert_eq!(l1, 2);
    let b2 = build_zip(&[("_meta", b"[[\"a.jpg\",null],[\"c.jpg\",\"0\"]]"), ("0", b"c")]);
    let (p2, l2) = adopt_media_changes_from_zip(&mut store, b2).unwrap();
    assert_eq!(p2, 2);
    assert_eq!(l2, 3);
    assert_eq!(store.last_usn(), 3);
}

#[test]
fn media_changes_come_newest_first_without_duplicates() {
    let mut store = MediaStore::new();
    let b = build_zip(&[
        ("_meta", b"[[\"a.jpg\",\"0\"],[\"b.jpg\",\"1\"],[\"c.jpg\",\"2\"]]"),
        ("0", b"a"),
        ("1", b"b"),
        ("2", b"c"),
    ]);
    adopt_media_changes_from_zip(&mut store, b).unwrap();
    let changes = store.media_changes(0);
    let usns: Vec<i32> = changes.iter().map(|r| r.usn).collect();
    assert_eq!(usns, vec![3, 2, 1]);
    let filtered = store.media_changes(2);
    assert_eq!(filtered.len(), 1);
    assert_eq!(filtered[0].usn, 3);
    assert!(store.media_changes(3).is_empty());
}

#[test]
fn media_sanity_compares_live_count() {
    let mut store = MediaStore::new();
    let b = build_zip(&[
        ("_meta", b"[[\"a.jpg\",\"0\"],[\"b.jpg\",\"1\"]]"),
        ("0", b"a"),
        ("1", b"b"),
    ]);
    adopt_media_changes_from_zip(&mut store, b).unwrap();
    assert!(store.is_sane(2));
    assert!(!store.is_sane(1));
    let del = build_zip(&[("_meta", b"[[\"b.jpg\",null]]")]);
    adopt_media_changes_from_zip(&mut store, del).unwrap();
    assert!(store.is_sane(1));
}

#[test]
fn upload_errors_change_nothing() {
    let mut store = MediaStore::new();
    assert_eq!(
        adopt_media_changes_from_zip(&mut store, b"not a zip".to_vec()),
        Err(UploadError::BadBundle)
    );
    let no_meta = build_zip(&[("0", b"data")]);
    assert_eq!(
        adopt_media_changes_from_zip(&mut store, no_meta),
        Err(UploadError::BadManifest)
    );
    let unmapped = build_zip(&[("_meta", b"[[\"a.jpg\",\"0\"]]"), ("1", b"data")]);
    assert_eq!(
        adopt_media_changes_from_zip(&mut store, unmapped),
        Err(UploadError::MetaMissing)
    );
    assert_eq!(store.last_usn(), 0);
    assert_eq!(store.count(), 0);
}

#[test]
fn upload_near_usn_ceiling_overflows() {
    let mut store = MediaStore::new();
    store.records.push(MediaRecord {
        fname: b"old.jpg".to_vec(),
        csum: Some(b"00".to_vec()),
        usn: i32::MAX,
    });
    let b = build_zip(&[("_meta", b"[[\"a.jpg\",\"0\"]]"), ("0", b"a")]);
    assert_eq!(
        adopt_media_changes_from_zip(&mut store, b),
        Err(UploadError::UsnOverflow)
    );
}

#[test]
fn issued_hostkey_loads_its_session() {
    let mut mgr = SessionManager::new();
    let key = operation_hostkey(&mut mgr, &b"alice".to_vec(), &b"/data".to_vec(), true).unwrap();
    assert_eq!(key.len(), 32);
    let sess = mgr.load(&key).unwrap();
    assert_eq!(sess.username, b"alice".to_vec());
    assert_eq!(sess.user_path, b"/data/alice".to_vec());
    assert_eq!(sess.skey, key[..8].to_vec());
    assert!(mgr.load(&b"bogus".to_vec()).is_none());

    let by_sk = mgr.load_from_skey(&sess.skey).unwrap();
    assert_eq!(by_sk.username, b"alice".to_vec());
}

#[test]
fn failed_auth_issues_no_key() {
    let mut mgr = SessionManager::new();
    assert!(operation_hostkey(&mut mgr, &b"alice".to_vec(), &b"/data".to_vec(), false).is_none());
    assert!(mgr.sessions.is_empty());
}

#[test]
fn session_update_replaces_binding() {
    let mut mgr = SessionManager::new();
    let mut s = Session::new(b"bob".to_vec(), b"/data/bob".to_vec(), b"12345678".to_vec());
    s.client_usn = 7;
    mgr.save(b"k1".to_vec(), s);
    let mut s2 = mgr.load(&b"k1".to_vec()).unwrap();
    assert_eq!(s2.client_usn, 7);
    s2.server_usn = 9;
    s2.client_newer = true;
    mgr.update(b"k1".to_vec(), s2);
    let s3 = mgr.load(&b"k1".to_vec()).unwrap();
    assert_eq!(s3.server_usn, 9);
    assert!(s3.client_newer);
    assert_eq!(mgr.sessions.len(), 1);
}
