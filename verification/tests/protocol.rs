//! Envelope, key, routing and wire-codec behaviour seen from
//! outside.

use ankisyncd::envelope::{decode_payload, lookup_pair, parse_qs};
use ankisyncd::json::{
    emit_finalize_response, emit_hostkey_response, emit_meta_map, emit_records_response,
    emit_upload_response, parse_files_list, parse_int_field, parse_media_meta,
};
use ankisyncd::keys::{checksum_hex, gen_hostkey};
use ankisyncd::colsync::{next_state, SyncMethod, SyncState};
use ankisyncd::media::MediaRecord;
use ankisyncd::router::{auth_source, map_media_req, map_sync_req, status_of, AuthSource, ErrorKind, MediaMethod};
use std::io::Write;

#[test]
fn test_gen_random() {
    let key = gen_hostkey(&b"alice".to_vec());
    println!("{}", String::from_utf8(key).unwrap());
}

/// {"v": \["anki,2.1.49 (7a232b70),win:10"],
/// "k": \["0f5c8659ec6771eed\
/// 3b5d473816699e7"]}
#[test]
fn test_parse_qs() {
    let qs = b"k=0f5c8659ec6771eed3b5d473816699e7&v=anki%2C2.1.49+%287a232b70%29%2Cwin%3A10"
        .to_vec();
    let pairs = parse_qs(&qs);
    println!("{:?}", pairs);
}

#[test]
fn parse_qs_decodes_keys_and_values() {
    let qs = b"k=0f5c8659ec6771eed3b5d473816699e7&v=anki%2C2.1.49+%287a232b70%29%2Cwin%3A10"
        .to_vec();
    let pairs = parse_qs(&qs);
    assert_eq!(pairs.len(), 2);
    assert_eq!(pairs[0].0, b"k".to_vec());
    assert_eq!(pairs[0].1, b"0f5c8659ec6771eed3b5d473816699e7".to_vec());
    assert_eq!(pairs[1].0, b"v".to_vec());
    assert_eq!(pairs[1].1, b"anki,2.1.49 (7a232b70),win:10".to_vec());
    let v = lookup_pair(&pairs, &b"v".to_vec()).unwrap();
    assert_eq!(v, b"anki,2.1.49 (7a232b70),win:10".to_vec());
    assert!(lookup_pair(&pairs, &b"sk".to_vec()).is_none());
}

#[test]
fn parse_qs_skips_part_without_equals() {
    let pairs = parse_qs(&b"a=1&noequals&b=2".to_vec());
    assert_eq!(pairs.len(), 2);
    assert_eq!(pairs[0].0, b"a".to_vec());
    assert_eq!(pairs[1].0, b"b".to_vec());
}

#[test]
fn multipart_body_splits_into_named_fields() {
    let body = b"--BND\r\nContent-Disposition: form-data; name=\"c\"\r\n\r\n1\r\n--BND\r\nContent-Disposition: form-data; name=\"data\"\r\n\r\npayload bytes\r\n--BND--\r\n".to_vec();
    let fields = ankisyncd::envelope::parse_multipart(&body, &b"BND".to_vec());
    assert_eq!(fields.len(), 2);
    assert_eq!(fields[0], (b"c".to_vec(), b"1".to_vec()));
    assert_eq!(fields[1], (b"data".to_vec(), b"payload bytes".to_vec()));
}

#[test]
fn malformed_multipart_is_refused() {
    let good = b"--BND\r\nContent-Disposition: form-data; name=\"c\"\r\n\r\n1\r\n--BND--\r\n".to_vec();
    assert!(ankisyncd::envelope::multipart_wellformed(&good, &b"BND".to_vec()));
    let no_terminator = b"--BND\r\nContent-Disposition: form-data; name=\"c\"\r\n\r\n1\r\n".to_vec();
    assert!(!ankisyncd::envelope::multipart_wellformed(&no_terminator, &b"BND".to_vec()));
    let unnamed = b"--BND\r\nContent-Type: text/plain\r\n\r\n1\r\n--BND--\r\n".to_vec();
    assert!(!ankisyncd::envelope::multipart_wellformed(&unnamed, &b"BND".to_vec()));
    assert!(!ankisyncd::envelope::multipart_wellformed(&b"no delimiter".to_vec(), &b"BND".to_vec()));
}

#[test]
fn hostkey_is_32_lowercase_hex() {
    let key = gen_hostkey(&b"alice".to_vec());
    assert_eq!(key.len(), 32);
    for c in &key {
        assert!((b'0'..=b'9').contains(c) || (b'a'..=b'f').contains(c));
    }
}

#[test]
fn checksum_matches_known_digests() {
    assert_eq!(
        checksum_hex(&Vec::new()),
        b"d41d8cd98f00b204e9800998ecf8427e".to_vec()
    );
    assert_eq!(
        checksum_hex(&b"abc".to_vec()),
        b"900150983cd24fb0d6963f7d28e17f72".to_vec()
    );
}

fn gzip(data: &[u8]) -> Vec<u8> {
    let mut enc = flate2::write::GzEncoder::new(Vec::new(), flate2::Compression::default());
    enc.write_all(data).unwrap();
    enc.finish().unwrap()
}

#[test]
fn decode_payload_gunzips_when_flagged() {
    let body = b"hello collection".to_vec();
    let packed = gzip(&body);
    let flag = b"1".to_vec();
    let out = decode_payload(&packed, Some(&flag)).unwrap();
    assert_eq!(out, body);
}

#[test]
fn decode_payload_passes_through_without_flag() {
    let body = b"plain".to_vec();
    assert_eq!(decode_payload(&body, None).unwrap(), body);
    let flag = b"0".to_vec();
    assert_eq!(decode_payload(&body, Some(&flag)).unwrap(), body);
}

#[test]
fn decode_payload_refuses_bad_gzip() {
    let flag = b"1".to_vec();
    assert!(decode_payload(&b"not gzip at all".to_vec(), Some(&flag)).is_none());
}

#[test]
fn meta_manifest_parses_all_three_pair_forms() {
    let m = b" [ [\"a.jpg\", \"0\"], [\"b.jpg\", null], [\"c.jpg\", \"\"] ] ".to_vec();
    let pairs = parse_media_meta(&m).unwrap();
    assert_eq!(pairs.len(), 3);
    assert_eq!(pairs[0], (b"a.jpg".to_vec(), Some(b"0".to_vec())));
    assert_eq!(pairs[1], (b"b.jpg".to_vec(), None));
    assert_eq!(pairs[2], (b"c.jpg".to_vec(), Some(Vec::new())));
}

#[test]
fn meta_manifest_decodes_escapes() {
    let m = b"[[\"a\\\"b\\\\c.jpg\",\"0\"]]".to_vec();
    let pairs = parse_media_meta(&m).unwrap();
    assert_eq!(pairs[0].0, b"a\"b\\c.jpg".to_vec());
}

#[test]
fn meta_manifest_refuses_malformed() {
    assert!(parse_media_meta(&b"{\"a\":1}".to_vec()).is_none());
    assert!(parse_media_meta(&b"[[\"a.jpg\"]]".to_vec()).is_none());
    assert!(parse_media_meta(&b"[[\"a.jpg\",\"0\"]".to_vec()).is_none());
}

#[test]
fn files_list_parses() {
    let body = b"{\"files\":[\"x.mp3\",\"missing.mp3\"]}".to_vec();
    let names = parse_files_list(&body).unwrap();
    assert_eq!(names, vec![b"x.mp3".to_vec(), b"missing.mp3".to_vec()]);
    assert!(parse_files_list(&b"{\"file\":[]}".to_vec()).is_none());
}

#[test]
fn int_field_parses_signed_values() {
    let key = b"last_usn".to_vec();
    assert_eq!(
        parse_int_field(&b"{\"last_usn\": 135}".to_vec(), &key),
        Some(135)
    );
    assert_eq!(
        parse_int_field(&b"{\"last_usn\":-7}".to_vec(), &key),
        Some(-7)
    );
    assert!(parse_int_field(&b"{\"local\": 1}".to_vec(), &key).is_none());
    assert!(parse_int_field(&b"{\"last_usn\": []}".to_vec(), &key).is_none());
}

#[test]
fn emitters_produce_expected_json() {
    let recs = vec![
        MediaRecord { fname: b"a.jpg".to_vec(), csum: Some(b"00ff".to_vec()), usn: 2 },
        MediaRecord { fname: b"b.jpg".to_vec(), csum: None, usn: 1 },
    ];
    assert_eq!(
        emit_records_response(&recs),
        b"{\"data\":[[\"a.jpg\",\"00ff\",2],[\"b.jpg\",null,1]],\"err\":\"\"}".to_vec()
    );
    assert_eq!(
        emit_upload_response(2, 1),
        b"{\"data\":[2,1],\"err\":\"\"}".to_vec()
    );
    assert_eq!(
        emit_hostkey_response(&b"0011".to_vec()),
        b"{\"key\":\"0011\"}".to_vec()
    );
    assert_eq!(
        emit_finalize_response(true),
        b"{\"data\":\"OK\",\"err\":\"\"}".to_vec()
    );
    assert_eq!(
        emit_finalize_response(false),
        b"{\"data\":\"FAILED\",\"err\":\"\"}".to_vec()
    );
    let names = vec![b"x.mp3".to_vec()];
    assert_eq!(emit_meta_map(&names), b"{\"0\":\"x.mp3\"}".to_vec());
}

#[test]
fn sync_state_machine_walks_the_protocol() {
    let s = SyncState::Idle;
    let s = next_state(s, SyncMethod::Meta).unwrap();
    let s = next_state(s, SyncMethod::Start).unwrap();
    let s = next_state(s, SyncMethod::ApplyGraves).unwrap();
    let s = next_state(s, SyncMethod::Chunk).unwrap();
    let s = next_state(s, SyncMethod::ApplyChunk).unwrap();
    let s = next_state(s, SyncMethod::ApplyChanges).unwrap();
    let s = next_state(s, SyncMethod::SanityCheck).unwrap();
    let s = next_state(s, SyncMethod::Finish).unwrap();
    assert_eq!(s, SyncState::Idle);
}

#[test]
fn sync_state_machine_refuses_out_of_order() {
    assert!(next_state(SyncState::Idle, SyncMethod::Chunk).is_none());
    assert!(next_state(SyncState::Started, SyncMethod::Finish).is_none());
    assert_eq!(
        next_state(SyncState::Chunking, SyncMethod::Abort),
        Some(SyncState::Idle)
    );
    assert_eq!(
        next_state(SyncState::Idle, SyncMethod::FullUpload),
        Some(SyncState::Idle)
    );
}

#[test]
fn endpoint_names_map_to_methods() {
    assert_eq!(map_sync_req(&b"hostKey".to_vec()), Some(SyncMethod::HostKey));
    assert_eq!(map_sync_req(&b"sanityCheck2".to_vec()), Some(SyncMethod::SanityCheck));
    assert_eq!(map_sync_req(&b"upload".to_vec()), Some(SyncMethod::FullUpload));
    assert_eq!(map_sync_req(&b"nosuch".to_vec()), None);
    assert_eq!(map_media_req(&b"begin".to_vec()), Some(MediaMethod::Begin));
    assert_eq!(map_media_req(&b"uploadChanges".to_vec()), Some(MediaMethod::UploadChanges));
    assert_eq!(map_media_req(&b"meta".to_vec()), None);
}

#[test]
fn error_kinds_map_to_status_codes() {
    assert_eq!(status_of(ErrorKind::AuthFailure), 203);
    assert_eq!(status_of(ErrorKind::SessionMissing), 403);
    assert_eq!(status_of(ErrorKind::ProtocolDecode), 400);
    assert_eq!(status_of(ErrorKind::NotFound), 404);
    assert_eq!(status_of(ErrorKind::StorageFailure), 500);
}

#[test]
fn hostkey_precedes_synckey() {
    assert_eq!(auth_source(true, true), AuthSource::ByHostKey);
    assert_eq!(auth_source(false, true), AuthSource::BySyncKey);
    assert_eq!(auth_source(false, false), AuthSource::Missing);
}
