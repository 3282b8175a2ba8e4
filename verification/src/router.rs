//! Routing: the map from endpoint names to methods, the session
//! resolution order, and the status code of each error kind.

use crate::colsync::SyncMethod;
use vstd::prelude::*;

verus! {

/// The bytes of the endpoint name `hostKey`.
pub open spec fn lit_hostKey() -> Seq<u8> {
    seq![0x68u8, 0x6fu8, 0x73u8, 0x74u8, 0x4bu8, 0x65u8, 0x79u8]
}
/// The bytes of the endpoint name `meta`.
pub open spec fn lit_meta() -> Seq<u8> {
    seq![0x6du8, 0x65u8, 0x74u8, 0x61u8]
}
/// The bytes of the endpoint name `applyChanges`.
pub open spec fn lit_applyChanges() -> Seq<u8> {
    seq![0x61u8, 0x70u8, 0x70u8, 0x6cu8, 0x79u8, 0x43u8, 0x68u8, 0x61u8, 0x6eu8, 0x67u8, 0x65u8, 0x73u8]
}
/// The bytes of the endpoint name `start`.
pub open spec fn lit_start() -> Seq<u8> {
    seq![0x73u8, 0x74u8, 0x61u8, 0x72u8, 0x74u8]
}
/// The bytes of the endpoint name `applyGraves`.
pub open spec fn lit_applyGraves() -> Seq<u8> {
    seq![0x61u8, 0x70u8, 0x70u8, 0x6cu8, 0x79u8, 0x47u8, 0x72u8, 0x61u8, 0x76u8, 0x65u8, 0x73u8]
}
/// The bytes of the endpoint name `chunk`.
pub open spec fn lit_chunk() -> Seq<u8> {
    seq![0x63u8, 0x68u8, 0x75u8, 0x6eu8, 0x6bu8]
}
/// The bytes of the endpoint name `applyChunk`.
pub open spec fn lit_applyChunk() -> Seq<u8> {
    seq![0x61u8, 0x70u8, 0x70u8, 0x6cu8, 0x79u8, 0x43u8, 0x68u8, 0x75u8, 0x6eu8, 0x6bu8]
}
/// The bytes of the endpoint name `sanityCheck2`.
pub open spec fn lit_sanityCheck2() -> Seq<u8> {
    seq![0x73u8, 0x61u8, 0x6eu8, 0x69u8, 0x74u8, 0x79u8, 0x43u8, 0x68u8, 0x65u8, 0x63u8, 0x6bu8, 0x32u8]
}
/// The bytes of the endpoint name `finish`.
pub open spec fn lit_finish() -> Seq<u8> {
    seq![0x66u8, 0x69u8, 0x6eu8, 0x69u8, 0x73u8, 0x68u8]
}
/// The bytes of the endpoint name `upload`.
pub open spec fn lit_upload() -> Seq<u8> {
    seq![0x75u8, 0x70u8, 0x6cu8, 0x6fu8, 0x61u8, 0x64u8]
}
/// The bytes of the endpoint name `download`.
pub open spec fn lit_download() -> Seq<u8> {
    seq![0x64u8, 0x6fu8, 0x77u8, 0x6eu8, 0x6cu8, 0x6fu8, 0x61u8, 0x64u8]
}
/// The bytes of the endpoint name `abort`.
pub open spec fn lit_abort() -> Seq<u8> {
    seq![0x61u8, 0x62u8, 0x6fu8, 0x72u8, 0x74u8]
}
/// The bytes of the endpoint name `begin`.
pub open spec fn lit_begin() -> Seq<u8> {
    seq![0x62u8, 0x65u8, 0x67u8, 0x69u8, 0x6eu8]
}
/// The bytes of the endpoint name `mediaChanges`.
pub open spec fn lit_mediaChanges() -> Seq<u8> {
    seq![0x6du8, 0x65u8, 0x64u8, 0x69u8, 0x61u8, 0x43u8, 0x68u8, 0x61u8, 0x6eu8, 0x67u8, 0x65u8, 0x73u8]
}
/// The bytes of the endpoint name `mediaSanity`.
pub open spec fn lit_mediaSanity() -> Seq<u8> {
    seq![0x6du8, 0x65u8, 0x64u8, 0x69u8, 0x61u8, 0x53u8, 0x61u8, 0x6eu8, 0x69u8, 0x74u8, 0x79u8]
}
/// The bytes of the endpoint name `uploadChanges`.
pub open spec fn lit_uploadChanges() -> Seq<u8> {
    seq![0x75u8, 0x70u8, 0x6cu8, 0x6fu8, 0x61u8, 0x64u8, 0x43u8, 0x68u8, 0x61u8, 0x6eu8, 0x67u8, 0x65u8, 0x73u8]
}
/// The bytes of the endpoint name `downloadFiles`.
pub open spec fn lit_downloadFiles() -> Seq<u8> {
    seq![0x64u8, 0x6fu8, 0x77u8, 0x6eu8, 0x6cu8, 0x6fu8, 0x61u8, 0x64u8, 0x46u8, 0x69u8, 0x6cu8, 0x65u8, 0x73u8]
}

/// The media sync endpoints.
#[derive(Clone, Copy, Debug, PartialEq, Eq, Structural)]
pub enum MediaMethod {
    Begin,
    MediaChanges,
    MediaSanity,
    UploadChanges,
    DownloadFiles,
}

/// The collection endpoint a name designates, if any.
pub open spec fn spec_map_sync_req(name: Seq<u8>) -> Option<SyncMethod> {
    if false {
        None
    } else if name == lit_hostKey() {
        Some(SyncMethod::HostKey)
    } else if name == lit_meta() {
        Some(SyncMethod::Meta)
    } else if name == lit_applyChanges() {
        Some(SyncMethod::ApplyChanges)
    } else if name == lit_start() {
        Some(SyncMethod::Start)
    } else if name == lit_applyGraves() {
        Some(SyncMethod::ApplyGraves)
    } else if name == lit_chunk() {
        Some(SyncMethod::Chunk)
    } else if name == lit_applyChunk() {
        Some(SyncMethod::ApplyChunk)
    } else if name == lit_sanityCheck2() {
        Some(SyncMethod::SanityCheck)
    } else if name == lit_finish() {
        Some(SyncMethod::Finish)
    } else if name == lit_upload() {
        Some(SyncMethod::FullUpload)
    } else if name == lit_download() {
        Some(SyncMethod::FullDownload)
    } else if name == lit_abort() {
        Some(SyncMethod::Abort)
    } else {
        None
    }
}

/// The media endpoint a name designates, if any.
pub open spec fn spec_map_media_req(name: Seq<u8>) -> Option<MediaMethod> {
    if false {
        None
    } else if name == lit_begin() {
        Some(MediaMethod::Begin)
    } else if name == lit_mediaChanges() {
        Some(MediaMethod::MediaChanges)
    } else if name == lit_mediaSanity() {
        Some(MediaMethod::MediaSanity)
    } else if name == lit_uploadChanges() {
        Some(MediaMethod::UploadChanges)
    } else if name == lit_downloadFiles() {
        Some(MediaMethod::DownloadFiles)
    } else {
        None
    }
}

/// Maps an endpoint name under `/sync/` to its method; `None` is an
/// unknown endpoint.
pub fn map_sync_req(v: &Vec<u8>) -> (r: Option<SyncMethod>)
    ensures
        r == spec_map_sync_req(v@),
{
    map_sync_req_inner(v)
}

fn map_sync_req_inner(v: &Vec<u8>) -> (r: Option<SyncMethod>)
    ensures
        r == spec_map_sync_req(v@),
{
    if v.len() == 7 && v[0] == 0x68 && v[1] == 0x6f && v[2] == 0x73 && v[3] == 0x74 && v[4] == 0x4b && v[5] == 0x65 && v[6] == 0x79 {
        proof {
            assert(v@ =~= lit_hostKey());
        }
        return Some(SyncMethod::HostKey);
    }
    proof {
        if v@ == lit_hostKey() {
            assert(v@.len() == lit_hostKey().len());
        }
    }
    if v.len() == 4 && v[0] == 0x6d && v[1] == 0x65 && v[2] == 0x74 && v[3] == 0x61 {
        proof {
            assert(v@ =~= lit_meta());
        }
        return Some(SyncMethod::Meta);
    }
    proof {
        if v@ == lit_meta() {
            assert(v@.len() == lit_meta().len());
        }
    }
    if v.len() == 12 && v[0] == 0x61 && v[1] == 0x70 && v[2] == 0x70 && v[3] == 0x6c && v[4] == 0x79 && v[5] == 0x43 && v[6] == 0x68 && v[7] == 0x61 && v[8] == 0x6e && v[9] == 0x67 && v[10] == 0x65 && v[11] == 0x73 {
        proof {
            assert(v@ =~= lit_applyChanges());
        }
        return Some(SyncMethod::ApplyChanges);
    }
    proof {
        if v@ == lit_applyChanges() {
            assert(v@.len() == lit_applyChanges().len());
        }
    }
    if v.len() == 5 && v[0] == 0x73 && v[1] == 0x74 && v[2] == 0x61 && v[3] == 0x72 && v[4] == 0x74 {
        proof {
            assert(v@ =~= lit_start());
        }
        return Some(SyncMethod::Start);
    }
    proof {
        if v@ == lit_start() {
            assert(v@.len() == lit_start().len());
        }
    }
    if v.len() == 11 && v[0] == 0x61 && v[1] == 0x70 && v[2] == 0x70 && v[3] == 0x6c && v[4] == 0x79 && v[5] == 0x47 && v[6] == 0x72 && v[7] == 0x61 && v[8] == 0x76 && v[9] == 0x65 && v[10] == 0x73 {
        proof {
            assert(v@ =~= lit_applyGraves());
        }
        return Some(SyncMethod::ApplyGraves);
    }
    proof {
        if v@ == lit_applyGraves() {
            assert(v@.len() == lit_applyGraves().len());
        }
    }
    if v.len() == 5 && v[0] == 0x63 && v[1] == 0x68 && v[2] == 0x75 && v[3] == 0x6e && v[4] == 0x6b {
        proof {
            assert(v@ =~= lit_chunk());
        }
        return Some(SyncMethod::Chunk);
    }
    proof {
        if v@ == lit_chunk() {
            assert(v@.len() == lit_chunk().len());
        }
    }
    if v.len() == 10 && v[0] == 0x61 && v[1] == 0x70 && v[2] == 0x70 && v[3] == 0x6c && v[4] == 0x79 && v[5] == 0x43 && v[6] == 0x68 && v[7] == 0x75 && v[8] == 0x6e && v[9] == 0x6b {
        proof {
            assert(v@ =~= lit_applyChunk());
        }
        return Some(SyncMethod::ApplyChunk);
    }
    proof {
        if v@ == lit_applyChunk() {
            assert(v@.len() == lit_applyChunk().len());
        }
    }
    if v.len() == 12 && v[0] == 0x73 && v[1] == 0x61 && v[2] == 0x6e && v[3] == 0x69 && v[4] == 0x74 && v[5] == 0x79 && v[6] == 0x43 && v[7] == 0x68 && v[8] == 0x65 && v[9] == 0x63 && v[10] == 0x6b && v[11] == 0x32 {
        proof {
            assert(v@ =~= lit_sanityCheck2());
        }
        return Some(SyncMethod::SanityCheck);
    }
    proof {
        if v@ == lit_sanityCheck2() {
            assert(v@.len() == lit_sanityCheck2().len());
        }
    }
    if v.len() == 6 && v[0] == 0x66 && v[1] == 0x69 && v[2] == 0x6e && v[3] == 0x69 && v[4] == 0x73 && v[5] == 0x68 {
        proof {
            assert(v@ =~= lit_finish());
        }
        return Some(SyncMethod::Finish);
    }
    proof {
        if v@ == lit_finish() {
            assert(v@.len() == lit_finish().len());
        }
    }
    if v.len() == 6 && v[0] == 0x75 && v[1] == 0x70 && v[2] == 0x6c && v[3] == 0x6f && v[4] == 0x61 && v[5] == 0x64 {
        proof {
            assert(v@ =~= lit_upload());
        }
        return Some(SyncMethod::FullUpload);
    }
    proof {
        if v@ == lit_upload() {
            assert(v@.len() == lit_upload().len());
        }
    }
    if v.len() == 8 && v[0] == 0x64 && v[1] == 0x6f && v[2] == 0x77 && v[3] == 0x6e && v[4] == 0x6c && v[5] == 0x6f && v[6] == 0x61 && v[7] == 0x64 {
        proof {
            assert(v@ =~= lit_download());
        }
        return Some(SyncMethod::FullDownload);
    }
    proof {
        if v@ == lit_download() {
            assert(v@.len() == lit_download().len());
        }
    }
    if v.len() == 5 && v[0] == 0x61 && v[1] == 0x62 && v[2] == 0x6f && v[3] == 0x72 && v[4] == 0x74 {
        proof {
            assert(v@ =~= lit_abort());
        }
        return Some(SyncMethod::Abort);
    }
    proof {
        if v@ == lit_abort() {
            assert(v@.len() == lit_abort().len());
        }
    }
    None
}

/// Maps an endpoint name under `/msync/` to its method; `None` is an
/// unknown endpoint.
pub fn map_media_req(v: &Vec<u8>) -> (r: Option<MediaMethod>)
    ensures
        r == spec_map_media_req(v@),
{
    map_media_req_inner(v)
}

fn map_media_req_inner(v: &Vec<u8>) -> (r: Option<MediaMethod>)
    ensures
        r == spec_map_media_req(v@),
{
    if v.len() == 5 && v[0] == 0x62 && v[1] == 0x65 && v[2] == 0x67 && v[3] == 0x69 && v[4] == 0x6e {
        proof {
            assert(v@ =~= lit_begin());
        }
        return Some(MediaMethod::Begin);
    }
    proof {
        if v@ == lit_begin() {
            assert(v@.len() == lit_begin().len());
        }
    }
    if v.len() == 12 && v[0] == 0x6d && v[1] == 0x65 && v[2] == 0x64 && v[3] == 0x69 && v[4] == 0x61 && v[5] == 0x43 && v[6] == 0x68 && v[7] == 0x61 && v[8] == 0x6e && v[9] == 0x67 && v[10] == 0x65 && v[11] == 0x73 {
        proof {
            assert(v@ =~= lit_mediaChanges());
        }
        return Some(MediaMethod::MediaChanges);
    }
    proof {
        if v@ == lit_mediaChanges() {
            assert(v@.len() == lit_mediaChanges().len());
        }
    }
    if v.len() == 11 && v[0] == 0x6d && v[1] == 0x65 && v[2] == 0x64 && v[3] == 0x69 && v[4] == 0x61 && v[5] == 0x53 && v[6] == 0x61 && v[7] == 0x6e && v[8] == 0x69 && v[9] == 0x74 && v[10] == 0x79 {
        proof {
            assert(v@ =~= lit_mediaSanity());
        }
        return Some(MediaMethod::MediaSanity);
    }
    proof {
        if v@ == lit_mediaSanity() {
            assert(v@.len() == lit_mediaSanity().len());
        }
    }
    if v.len() == 13 && v[0] == 0x75 && v[1] == 0x70 && v[2] == 0x6c && v[3] == 0x6f && v[4] == 0x61 && v[5] == 0x64 && v[6] == 0x43 && v[7] == 0x68 && v[8] == 0x61 && v[9] == 0x6e && v[10] == 0x67 && v[11] == 0x65 && v[12] == 0x73 {
        proof {
            assert(v@ =~= lit_uploadChanges());
        }
        return Some(MediaMethod::UploadChanges);
    }
    proof {
        if v@ == lit_uploadChanges() {
            assert(v@.len() == lit_uploadChanges().len());
        }
    }
    if v.len() == 13 && v[0] == 0x64 && v[1] == 0x6f && v[2] == 0x77 && v[3] == 0x6e && v[4] == 0x6c && v[5] == 0x6f && v[6] == 0x61 && v[7] == 0x64 && v[8] == 0x46 && v[9] == 0x69 && v[10] == 0x6c && v[11] == 0x65 && v[12] == 0x73 {
        proof {
            assert(v@ =~= lit_downloadFiles());
        }
        return Some(MediaMethod::DownloadFiles);
    }
    proof {
        if v@ == lit_downloadFiles() {
            assert(v@.len() == lit_downloadFiles().len());
        }
    }
    None
}

/// The error kinds the shell maps to status codes.
#[derive(Clone, Copy, Debug, PartialEq, Eq, Structural)]
pub enum ErrorKind {
    AuthFailure,
    SessionMissing,
    ProtocolDecode,
    ProtocolState,
    StorageFailure,
    NotFound,
}

/// The HTTP status each error kind answers with.
pub open spec fn spec_status_of(e: ErrorKind) -> u16 {
    match e {
        ErrorKind::AuthFailure => 203,
        ErrorKind::SessionMissing => 403,
        ErrorKind::ProtocolDecode => 400,
        ErrorKind::ProtocolState => 409,
        ErrorKind::StorageFailure => 500,
        ErrorKind::NotFound => 404,
    }
}

/// Maps an error kind to its HTTP status.
pub fn status_of(e: ErrorKind) -> (r: u16)
    ensures
        r == spec_status_of(e),
{
    match e {
        ErrorKind::AuthFailure => 203,
        ErrorKind::SessionMissing => 403,
        ErrorKind::ProtocolDecode => 400,
        ErrorKind::ProtocolState => 409,
        ErrorKind::StorageFailure => 500,
        ErrorKind::NotFound => 404,
    }
}

/// How a request names its session: the host-key takes precedence
/// over the media sync-key; with neither, and for any endpoint but
/// `hostKey`, the request is refused.
#[derive(Clone, Copy, Debug, PartialEq, Eq, Structural)]
pub enum AuthSource {
    ByHostKey,
    BySyncKey,
    Missing,
}

/// Picks the session resolution source from the envelope's keys.
pub fn auth_source(has_hostkey: bool, has_synckey: bool) -> (r: AuthSource)
    ensures
        has_hostkey ==> r == AuthSource::ByHostKey,
        !has_hostkey && has_synckey ==> r == AuthSource::BySyncKey,
        !has_hostkey && !has_synckey ==> r == AuthSource::Missing,
{
    if has_hostkey {
        AuthSource::ByHostKey
    } else if has_synckey {
        AuthSource::BySyncKey
    } else {
        AuthSource::Missing
    }
}

} // verus!
