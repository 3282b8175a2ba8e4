//! The media endpoint operations and host-key issuance: each one
//! glues the envelope codec, the media engine and the session store
//! together, with the whole flow under contract.

use crate::bytes::clone_bytes;
use crate::json::{emit_meta_map, meta_map_json, parse_media_meta, spec_parse_meta};
use crate::keys::{dec_of, gen_hostkey, hex_of, hostkey_seed, is_alnum, is_lower_hex, md5_of, u64_to_dec};
use crate::media::{
    adds_ok, count_adds, file_lookup, meta_entry_name, meta_removes, pairs_view, sv_apply_upload,
    sv_last_usn, MediaError, MediaStore,
};
use crate::session::{sv_save, Session, SessionManager, SessionV};
use crate::zipio::{pack_zip, unpack_zip, zip_entries_of};
use vstd::prelude::*;

verus! {

/// Why an upload bundle was rejected as a whole.
#[derive(Clone, Copy, Debug, PartialEq, Eq, Structural)]
pub enum UploadError {
    /// The bundle is not a readable zip container.
    BadBundle,
    /// The bundle has no readable `_meta` manifest, or it is too
    /// large to process.
    BadManifest,
    /// A file entry's name has no manifest mapping.
    MetaMissing,
    /// Stamping every add would push the USN past its ceiling.
    UsnOverflow,
}

/// Ingests a client upload bundle, as the `uploadChanges` endpoint
/// does: unpacks the container, reads its `_meta` manifest, applies
/// the manifest's deletions and then every file entry as an add.
/// Returns the processed-record count and the USN after the batch.
/// Each rejection is tied to its cause — so a well-formed bundle is
/// owed success — and leaves the store unchanged.
pub fn adopt_media_changes_from_zip(store: &mut MediaStore, zip_data: Vec<u8>) -> (r: Result<
    (usize, i32),
    UploadError,
>)
    requires
        old(store).wf(),
    ensures
        final(store).wf(),
        match r {
            Ok(res) => {
                zip_entries_of(zip_data@) matches Some(es) && file_lookup(
                    es,
                    meta_entry_name(),
                ) matches Some(mb) && spec_parse_meta(mb) matches Some(mv) && {
                    &&& adds_ok(es, mv)
                    &&& sv_last_usn(old(store)@) + count_adds(es) <= i32::MAX
                    &&& final(store)@ == sv_apply_upload(old(store)@, mv, es)
                    &&& res.0 == count_adds(es) + meta_removes(mv).len()
                    &&& res.1 == sv_last_usn(old(store)@) + count_adds(es)
                }
            },
            Err(UploadError::BadBundle) => {
                &&& zip_entries_of(zip_data@) is None
                &&& final(store)@ == old(store)@
            },
            Err(UploadError::BadManifest) => {
                &&& final(store)@ == old(store)@
                &&& zip_entries_of(zip_data@) matches Some(es) && (file_lookup(
                    es,
                    meta_entry_name(),
                ) matches Some(mb) ==> {
                    ||| mb.len() >= usize::MAX
                    ||| spec_parse_meta(mb) is None
                    ||| (spec_parse_meta(mb) matches Some(mv) && mv.len() + es.len()
                        > usize::MAX)
                })
            },
            Err(UploadError::MetaMissing) => {
                &&& final(store)@ == old(store)@
                &&& zip_entries_of(zip_data@) matches Some(es) && file_lookup(
                    es,
                    meta_entry_name(),
                ) matches Some(mb) && spec_parse_meta(mb) matches Some(mv) && !adds_ok(es, mv)
            },
            Err(UploadError::UsnOverflow) => {
                &&& final(store)@ == old(store)@
                &&& zip_entries_of(zip_data@) matches Some(es) && file_lookup(
                    es,
                    meta_entry_name(),
                ) matches Some(mb) && spec_parse_meta(mb) matches Some(mv) && adds_ok(es, mv)
                    && sv_last_usn(old(store)@) + count_adds(es) > i32::MAX
            },
        },
{
    let entries = match unpack_zip(zip_data) {
        Some(es) => es,
        None => {
            return Err(UploadError::BadBundle);
        },
    };
    let meta_name: Vec<u8> = vec![0x5f, 0x6d, 0x65, 0x74, 0x61];
    proof {
        assert(meta_name@ =~= meta_entry_name());
    }
    let meta_bytes = match find_entry(&entries, &meta_name) {
        Some(b) => b,
        None => {
            return Err(UploadError::BadManifest);
        },
    };
    if meta_bytes.len() == usize::MAX {
        return Err(UploadError::BadManifest);
    }
    let meta = match parse_media_meta(&meta_bytes) {
        Some(m) => m,
        None => {
            return Err(UploadError::BadManifest);
        },
    };
    if meta.len() > usize::MAX - entries.len() {
        return Err(UploadError::BadManifest);
    }
    match store.apply_upload(&meta, &entries) {
        Ok(res) => Ok(res),
        Err(MediaError::MetaMissing) => Err(UploadError::MetaMissing),
        Err(MediaError::UsnOverflow) => Err(UploadError::UsnOverflow),
    }
}

/// The bytes of the entry named `name`, latest first, as a zip
/// reader's by-name lookup sees a well-formed container.
fn find_entry(entries: &Vec<(Vec<u8>, Vec<u8>)>, name: &Vec<u8>) -> (r: Option<Vec<u8>>)
    ensures
        match r {
            Some(b) => file_lookup(pairs_view(entries@), name@) == Some(b@),
            None => file_lookup(pairs_view(entries@), name@) is None,
        },
{
    let ghost ev = pairs_view(entries@);
    let mut i: usize = entries.len();
    proof {
        assert(ev.take(entries@.len() as int) =~= ev);
    }
    while i > 0
        invariant
            i <= entries@.len(),
            ev == pairs_view(entries@),
            file_lookup(ev, name@) == file_lookup(ev.take(i as int), name@),
        decreases i,
    {
        i = i - 1;
        proof {
            assert(ev.take(i + 1).drop_last() =~= ev.take(i as int));
            assert(ev.take(i + 1).last() == ev[i as int]);
        }
        if crate::bytes::bytes_eq(&entries[i].0, name) {
            return Some(clone_bytes(&entries[i].1));
        }
    }
    proof {
        assert(ev.take(0) =~= Seq::<(Seq<u8>, Seq<u8>)>::empty());
    }
    None
}

/// The names of the selected files, in selection order.
pub open spec fn sel_names(sel: Seq<(Seq<u8>, Seq<u8>)>) -> Seq<Seq<u8>> {
    sel.map_values(|p: (Seq<u8>, Seq<u8>)| p.0)
}

/// What a download bundle holds for a selection: each file's bytes
/// under its decimal index, and last the `_meta` manifest mapping
/// index to client name.
pub open spec fn download_entries(sel: Seq<(Seq<u8>, Seq<u8>)>) -> Seq<(Seq<u8>, Seq<u8>)> {
    Seq::new(sel.len(), |i: int| (dec_of(i as nat), sel[i].1)).push(
        (meta_entry_name(), meta_map_json(sel_names(sel))),
    )
}

/// Decimal renderings hold ASCII digits only.
proof fn lemma_dec_of_ascii(n: nat)
    ensures
        forall|i: int| 0 <= i < dec_of(n).len() ==> dec_of(n)[i] < 128,
    decreases n,
{
    if n < 10 {
        assert(dec_of(n) == seq![(n + 0x30) as u8]);
        assert(dec_of(n)[0] < 128);
    } else {
        lemma_dec_of_ascii(n / 10);
        let d = dec_of(n / 10);
        assert(dec_of(n) == d + seq![((n % 10) + 0x30) as u8]);
        assert forall|i: int| 0 <= i < dec_of(n).len() implies dec_of(n)[i] < 128 by {
            if i < d.len() {
                assert(dec_of(n)[i] == d[i]);
            } else {
                assert(dec_of(n)[i] == ((n % 10) + 0x30) as u8);
            }
        }
    }
}

/// Builds the `downloadFiles` response bundle, as the endpoint
/// does: the requested files that exist, in request order, each
/// under a decimal entry name, plus the `_meta` manifest; names the
/// store does not hold are omitted silently, and a request is
/// never refused.
pub fn zip_files(store: &MediaStore, names: &Vec<Vec<u8>>) -> (r: Vec<u8>)
    requires
        store.wf(),
    ensures
        zip_entries_of(r@) == Some(
            download_entries(
                crate::media::spec_select(store@, names@.map_values(|n: Vec<u8>| n@)),
            ),
        ),
{
    let sel = store.select_files(names);
    proof {
        assert(pairs_view(sel@).len() == sel@.len());
    }
    let ghost sv = pairs_view(sel@);
    let mut entries: Vec<(Vec<u8>, Vec<u8>)> = Vec::new();
    let mut selnames: Vec<Vec<u8>> = Vec::new();
    let mut i: usize = 0;
    while i < sel.len()
        invariant
            i <= sel@.len(),
            sv == pairs_view(sel@),
            pairs_view(entries@) == Seq::new(i as nat, |j: int| (dec_of(j as nat), sv[j].1)),
            crate::json::names_view(selnames@) == sel_names(sv).take(i as int),
            forall|a: int, j: int|
                0 <= a < entries@.len() && 0 <= j < entries@[a].0@.len()
                    ==> #[trigger] entries@[a].0@[j] < 128,
        decreases sel@.len() - i,
    {
        let ghost e0 = entries@;
        let ghost n0 = selnames@;
        let idx = u64_to_dec(i as u64);
        proof {
            lemma_dec_of_ascii(i as nat);
            assert(sv[i as int] == (sel@[i as int].0@, sel@[i as int].1@));
            assert(sel_names(sv)[i as int] == sv[i as int].0);
        }
        let data = clone_bytes(&sel[i].1);
        entries.push((idx, data));
        selnames.push(clone_bytes(&sel[i].0));
        proof {
            crate::media::lemma_pairs_view_push(e0, entries@);
            crate::json::lemma_names_view_push2(n0, selnames@);
            assert(entries@.last().0@ == dec_of(i as nat));
            assert(entries@.last().1@ == sv[i as int].1);
            assert(pairs_view(entries@) =~= Seq::new(
                (i + 1) as nat,
                |j: int| (dec_of(j as nat), sv[j].1),
            ));
            assert(selnames@.last()@ == sv[i as int].0);
            assert(crate::json::names_view(selnames@) =~= sel_names(sv).take(i + 1));
        }
        i = i + 1;
    }
    proof {
        assert(sel_names(sv).take(sv.len() as int) =~= sel_names(sv));
    }
    let manifest = emit_meta_map(&selnames);
    let meta_name: Vec<u8> = vec![0x5f, 0x6d, 0x65, 0x74, 0x61];
    proof {
        assert(meta_name@ =~= meta_entry_name());
        assert(forall|j: int| 0 <= j < meta_name@.len() ==> meta_name@[j] < 128);
    }
    let ghost e1 = pairs_view(entries@);
    entries.push((meta_name, manifest));
    proof {
        assert(pairs_view(entries@) =~= e1.push((meta_entry_name(), meta_map_json(sel_names(sv)))));
        assert(pairs_view(entries@) =~= download_entries(sv));
        let k = sv.len() as int;
        assert forall|a: int| 0 <= a < entries@.len() implies (#[trigger] entries@[a]).0@.len()
            <= 0xffff by {
            assert(pairs_view(entries@)[a] == (entries@[a].0@, entries@[a].1@));
            if a < k {
                assert(download_entries(sv)[a] == (dec_of(a as nat), sv[a].1));
                assert(entries@[a].0@ == dec_of(a as nat));
                crate::keys::lemma_dec_of_len_20(a as nat);
            } else {
                assert(entries@[a].0@ == meta_entry_name());
            }
        }
        assert forall|a: int, b: int|
            0 <= a < entries@.len() && 0 <= b < entries@.len() && a != b implies entries@[a].0@
            != entries@[b].0@ by {
            assert(pairs_view(entries@)[a] == (entries@[a].0@, entries@[a].1@));
            assert(pairs_view(entries@)[b] == (entries@[b].0@, entries@[b].1@));
            if a < k {
                assert(download_entries(sv)[a] == (dec_of(a as nat), sv[a].1));
            } else {
                assert(entries@[a].0@ == meta_entry_name());
            }
            if b < k {
                assert(download_entries(sv)[b] == (dec_of(b as nat), sv[b].1));
            } else {
                assert(entries@[b].0@ == meta_entry_name());
            }
            if a < k && b < k {
                if dec_of(a as nat) == dec_of(b as nat) {
                    crate::keys::lemma_dec_of_injective(a as nat, b as nat);
                }
            } else if a < k {
                crate::keys::lemma_dec_of_first_digit(a as nat);
                assert(meta_entry_name()[0] == 0x5f);
            } else if b < k {
                crate::keys::lemma_dec_of_first_digit(b as nat);
                assert(meta_entry_name()[0] == 0x5f);
            }
        }
    }
    pack_zip(&entries)
}

/// The `hostKey` operation: with the caller's credential check
/// passed, mints a host-key for `username`, creates the session
/// rooted under `data_root`, binds it in the store, and returns the
/// key; with the check failed it returns nothing and changes
/// nothing. The media sync-key is the key's first eight characters.
pub fn operation_hostkey(
    mgr: &mut SessionManager,
    username: &Vec<u8>,
    data_root: &Vec<u8>,
    auth_ok: bool,
) -> (r: Option<Vec<u8>>)
    requires
        old(mgr).wf(),
    ensures
        final(mgr).wf(),
        !auth_ok ==> r is None && final(mgr)@ == old(mgr)@,
        auth_ok ==> r is Some,
        r matches Some(k) ==> {
            &&& auth_ok
            &&& k@.len() == 32
            &&& forall|i: int| 0 <= i < k@.len() ==> is_lower_hex(#[trigger] k@[i])
            &&& exists|secs: nat, randoms: Seq<u8>|
                {
                    &&& randoms.len() == 8
                    &&& (forall|i: int| 0 <= i < randoms.len() ==> is_alnum(#[trigger] randoms[i]))
                    &&& k@ == hex_of(md5_of(hostkey_seed(username@, secs, randoms)))
                }
            &&& final(mgr)@ == sv_save(
                old(mgr)@,
                k@,
                SessionV {
                    username: username@,
                    user_path: data_root@ + seq![0x2fu8] + username@,
                    skey: k@.take(8),
                    client_usn: 0,
                    server_usn: 0,
                    client_newer: false,
                },
            )
        },
{
    if !auth_ok {
        return None;
    }
    let key = gen_hostkey(username);
    let mut path = clone_bytes(data_root);
    path.push(0x2f);
    let ghost mid = path@;
    let mut k: usize = 0;
    while k < username.len()
        invariant
            k <= username@.len(),
            path@ == mid + username@.take(k as int),
            mid == data_root@ + seq![0x2fu8],
        decreases username@.len() - k,
    {
        path.push(username[k]);
        proof {
            assert(path@ =~= mid + username@.take(k + 1));
        }
        k = k + 1;
    }
    proof {
        assert(username@.take(username@.len() as int) =~= username@);
    }
    let mut skey: Vec<u8> = Vec::new();
    let mut k2: usize = 0;
    while k2 < 8
        invariant
            k2 <= 8,
            key@.len() == 32,
            skey@ == key@.take(k2 as int),
        decreases 8 - k2,
    {
        skey.push(key[k2]);
        proof {
            assert(skey@ =~= key@.take(k2 + 1));
        }
        k2 = k2 + 1;
    }
    let session = Session::new(clone_bytes(username), path, skey);
    mgr.save(clone_bytes(&key), session);
    Some(key)
}

} // verus!
