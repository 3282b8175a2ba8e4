//! The zip container at the media sync boundary: reading a client
//! bundle's entries and packing a download bundle, through the `zip`
//! crate. Only the container encoding is trusted; which entries go
//! in or come out, and under which names, is verified logic.

use std::io::Cursor;
use std::io::Read;
use std::io::Write;
use vstd::prelude::*;

verus! {

/// An opened client bundle, held behind the `zip` crate's archive
/// reader.
#[verifier::external_body]
pub struct BundleReader {
    inner: zip::ZipArchive<Cursor<Vec<u8>>>,
}

/// A download bundle under construction, held behind the `zip`
/// crate's writer.
#[verifier::external_body]
pub struct BundleWriter {
    inner: zip::ZipWriter<Cursor<Vec<u8>>>,
}

/// What an opened archive's central directory lists: its entries in
/// order, each a name (as UTF-8 bytes) and the bytes its payload
/// decompresses to.
pub uninterp spec fn zip_contents(a: BundleReader) -> Seq<(Seq<u8>, Seq<u8>)>;

/// The bytes a reader was opened from.
pub uninterp spec fn zip_src(a: BundleReader) -> Seq<u8>;

/// What a byte string parses to as a zip container: its entries in
/// order, or nothing when the container is malformed or any entry's
/// payload does not decompress. Parsing depends on the bytes alone.
pub uninterp spec fn zip_entries_of(b: Seq<u8>) -> Option<Seq<(Seq<u8>, Seq<u8>)>>;

/// What a writer has been handed so far, in order.
pub uninterp spec fn zw_contents(w: BundleWriter) -> Seq<(Seq<u8>, Seq<u8>)>;

/// Relies on `zip::ZipArchive::new`: parses the container's central
/// directory, a function of the bytes alone; a malformed container
/// is refused. An open that succeeds fixes the reader's source and,
/// whenever the bytes parse as a whole, its entry list.
#[verifier::external_body]
fn zip_open(data: Vec<u8>) -> (r: Option<BundleReader>)
    ensures
        match r {
            Some(a) => {
                &&& zip_src(a) == data@
                &&& zip_contents(a).len() <= usize::MAX
                &&& (zip_entries_of(data@) matches Some(es) ==> zip_contents(a) == es)
            },
            None => zip_entries_of(data@) is None,
        },
{
    Some(BundleReader { inner: zip::ZipArchive::new(Cursor::new(data)).ok()? })
}

/// Relies on `zip::ZipArchive::len`: the number of entries.
#[verifier::external_body]
fn zip_len(a: &BundleReader) -> (r: usize)
    ensures
        r == zip_contents(*a).len(),
{
    a.inner.len()
}

/// Relies on `zip::ZipArchive::by_index` and `Read::read_to_end`,
/// tried on every entry: decompression is deterministic, so the
/// probe succeeds exactly when the bytes parse as a whole — the
/// reading `zip_entries_of` stands for.
#[verifier::external_body]
fn zip_validate(a: &mut BundleReader) -> (r: bool)
    ensures
        zip_src(*final(a)) == zip_src(*old(a)),
        zip_contents(*final(a)) == zip_contents(*old(a)),
        r == (zip_entries_of(zip_src(*old(a))) is Some),
{
    for i in 0..a.inner.len() {
        let Ok(mut f) = a.inner.by_index(i) else { return false };
        if f.read_to_end(&mut Vec::new()).is_err() {
            return false;
        }
    }
    true
}

/// Relies on `zip::ZipArchive::by_index` and `Read::read_to_end`:
/// entry `i`'s name and decompressed bytes. The caller has already
/// validated the container, so the read cannot fail.
#[verifier::external_body]
fn zip_entry(a: &mut BundleReader, i: usize) -> (r: (Vec<u8>, Vec<u8>))
    requires
        zip_entries_of(zip_src(*old(a))) is Some,
        i < zip_contents(*old(a)).len(),
    ensures
        zip_src(*final(a)) == zip_src(*old(a)),
        zip_contents(*final(a)) == zip_contents(*old(a)),
        (r.0@, r.1@) == zip_contents(*old(a))[i as int],
{
    let mut f = a.inner.by_index(i).unwrap();
    let name = f.name().as_bytes().to_vec();
    let mut data = Vec::new();
    f.read_to_end(&mut data).unwrap();
    (name, data)
}

/// Relies on `zip::ZipWriter::new`: a writer holding nothing yet.
#[verifier::external_body]
fn zw_new() -> (r: BundleWriter)
    ensures
        zw_contents(r) == Seq::<(Seq<u8>, Seq<u8>)>::empty(),
{
    BundleWriter { inner: zip::ZipWriter::new(Cursor::new(Vec::new())) }
}

/// Relies on `zip::ZipWriter::start_file` and `Write::write_all`,
/// with the large-file option set so an entry of four gibibytes or
/// more is written in the extended format rather than refused:
/// appends one named entry. The name must be ASCII (so the stored
/// name round-trips byte for byte), short enough for the header's
/// 16-bit name-length field, and fresh (the writer refuses a
/// duplicate); writing into an in-memory cursor cannot otherwise
/// fail.
#[verifier::external_body]
fn zw_add(w: &mut BundleWriter, name: &Vec<u8>, data: &Vec<u8>)
    requires
        forall|i: int| 0 <= i < name@.len() ==> name@[i] < 128,
        name@.len() <= 0xffff,
        forall|j: int| 0 <= j < zw_contents(*old(w)).len() ==> zw_contents(*old(w))[j].0 != name@,
    ensures
        zw_contents(*final(w)) == zw_contents(*old(w)).push((name@, data@)),
{
    let s = String::from_utf8(name.clone()).unwrap();
    let opts = zip::write::SimpleFileOptions::default().large_file(true);
    w.inner.start_file(s, opts).unwrap();
    w.inner.write_all(data).unwrap();
}

/// Relies on `zip::ZipWriter::finish`: closes the container and
/// yields its bytes, from which `zip::ZipArchive::new` parses back
/// exactly the entries that were written, names and bytes alike;
/// finishing into an in-memory cursor cannot fail.
#[verifier::external_body]
fn zw_finish(w: BundleWriter) -> (r: Vec<u8>)
    ensures
        zip_entries_of(r@) == Some(zw_contents(w)),
{
    w.inner.finish().unwrap().into_inner()
}

/// Unpacks a client bundle into its entry list, in container order.
/// `None` refuses exactly the bundles that do not parse: a
/// malformed container or an entry that does not decompress.
pub fn unpack_zip(data: Vec<u8>) -> (r: Option<Vec<(Vec<u8>, Vec<u8>)>>)
    ensures
        r matches Some(es) ==> zip_entries_of(data@) == Some(crate::media::pairs_view(es@)),
        r is None <==> zip_entries_of(data@) is None,
{
    let ghost dv = data@;
    let mut a = match zip_open(data) {
        Some(a) => a,
        None => {
            return None;
        },
    };
    if !zip_validate(&mut a) {
        return None;
    }
    let ghost a0 = a;
    let n = zip_len(&a);
    let mut es: Vec<(Vec<u8>, Vec<u8>)> = Vec::new();
    let mut i: usize = 0;
    while i < n
        invariant
            i <= n,
            n == zip_contents(a).len(),
            zip_contents(a) == zip_contents(a0),
            zip_src(a) == zip_src(a0),
            zip_src(a) == dv,
            zip_entries_of(dv) is Some,
            crate::media::pairs_view(es@) == zip_contents(a).take(i as int),
        decreases n - i,
    {
        let ghost pre = crate::media::pairs_view(es@);
        let e = zip_entry(&mut a, i);
        es.push(e);
        proof {
            assert(crate::media::pairs_view(es@) =~= pre.push(zip_contents(a)[i as int]));
            assert(crate::media::pairs_view(es@) =~= zip_contents(a).take(i + 1));
        }
        i = i + 1;
    }
    proof {
        assert(zip_contents(a).take(n as int) =~= zip_contents(a));
    }
    Some(es)
}

/// Packs entries into a container, in order; the produced bytes
/// parse back to exactly these entries. Entry names must be ASCII,
/// short enough for the header's name-length field, and pairwise
/// distinct — all true of the decimal indices and `_meta` this
/// library writes.
pub fn pack_zip(entries: &Vec<(Vec<u8>, Vec<u8>)>) -> (r: Vec<u8>)
    requires
        forall|i: int, j: int|
            0 <= i < entries@.len() && 0 <= j < entries@[i].0@.len()
                ==> #[trigger] entries@[i].0@[j] < 128,
        forall|i: int| 0 <= i < entries@.len() ==> (#[trigger] entries@[i]).0@.len() <= 0xffff,
        forall|i: int, j: int|
            0 <= i < entries@.len() && 0 <= j < entries@.len() && i != j ==> entries@[i].0@
                != entries@[j].0@,
    ensures
        zip_entries_of(r@) == Some(crate::media::pairs_view(entries@)),
{
    let mut w = zw_new();
    let mut i: usize = 0;
    while i < entries.len()
        invariant
            i <= entries@.len(),
            forall|a: int, j: int|
                0 <= a < entries@.len() && 0 <= j < entries@[a].0@.len()
                    ==> #[trigger] entries@[a].0@[j] < 128,
            forall|a: int| 0 <= a < entries@.len() ==> (#[trigger] entries@[a]).0@.len() <= 0xffff,
            forall|a: int, j: int|
                0 <= a < entries@.len() && 0 <= j < entries@.len() && a != j ==> entries@[a].0@
                    != entries@[j].0@,
            zw_contents(w) == crate::media::pairs_view(entries@).take(i as int),
        decreases entries@.len() - i,
    {
        proof {
            assert forall|j: int| 0 <= j < zw_contents(w).len() implies zw_contents(w)[j].0
                != entries@[i as int].0@ by {
                assert(zw_contents(w)[j] == (entries@[j].0@, entries@[j].1@));
            }
        }
        zw_add(&mut w, &entries[i].0, &entries[i].1);
        proof {
            assert(zw_contents(w) =~= crate::media::pairs_view(entries@).take(i + 1));
        }
        i = i + 1;
    }
    proof {
        assert(crate::media::pairs_view(entries@).take(entries@.len() as int)
            =~= crate::media::pairs_view(entries@));
    }
    zw_finish(w)
}

} // verus!
