//! The media differential sync engine: a per-user store of media
//! records indexed by a monotonic USN, together with the media file
//! contents themselves.
//!
//! A record `(fname, csum, usn)` with `csum == None` is a tombstone
//! for a deleted file. Records are held in ascending USN order; the
//! USN of a fresh add is strictly greater than every earlier one.
//! Deletions do not advance the last USN: a tombstone keeps the USN
//! its record already had.

use crate::bytes::{bytes_eq, clone_bytes};
use crate::keys::{hex_of, md5_of, to_hex};
use vstd::prelude::*;

verus! {

/// One media index record: file name, content checksum (`None` marks
/// a deleted file), and the USN stamped when the record was written.
pub struct MediaRecord {
    pub fname: Vec<u8>,
    pub csum: Option<Vec<u8>>,
    pub usn: i32,
}

/// The mathematical value of a `MediaRecord`.
#[verifier::ext_equal]
pub ghost struct MediaRecordV {
    pub fname: Seq<u8>,
    pub csum: Option<Seq<u8>>,
    pub usn: int,
}

impl View for MediaRecord {
    type V = MediaRecordV;

    open spec fn view(&self) -> MediaRecordV {
        MediaRecordV {
            fname: self.fname@,
            csum: match self.csum {
                Some(ref c) => Some(c@),
                None => None,
            },
            usn: self.usn as int,
        }
    }
}

/// The per-user media store: the index records and the stored file
/// bytes, the model of the media directory.
pub struct MediaStore {
    pub records: Vec<MediaRecord>,
    pub files: Vec<(Vec<u8>, Vec<u8>)>,
}

/// The mathematical value of a `MediaStore`.
#[verifier::ext_equal]
pub ghost struct MediaStoreV {
    pub recs: Seq<MediaRecordV>,
    pub files: Seq<(Seq<u8>, Seq<u8>)>,
}

/// The views of a sequence of (name, bytes) pairs.
pub open spec fn pairs_view(s: Seq<(Vec<u8>, Vec<u8>)>) -> Seq<(Seq<u8>, Seq<u8>)> {
    s.map_values(|p: (Vec<u8>, Vec<u8>)| (p.0@, p.1@))
}

impl View for MediaStore {
    type V = MediaStoreV;

    open spec fn view(&self) -> MediaStoreV {
        MediaStoreV {
            recs: self.records@.map_values(|r: MediaRecord| r@),
            files: pairs_view(self.files@),
        }
    }
}

/// One push extends the viewed pair list by the pushed pair's view.
pub(crate) proof fn lemma_pairs_view_push(o0: Seq<(Vec<u8>, Vec<u8>)>, o1: Seq<(Vec<u8>, Vec<u8>)>)
    requires
        o1 == o0.push(o1.last()),
    ensures
        pairs_view(o1) == pairs_view(o0).push((o1.last().0@, o1.last().1@)),
{
    assert(pairs_view(o1).len() == o1.len());
    assert(pairs_view(o0).len() == o0.len());
    let rhs = pairs_view(o0).push((o1.last().0@, o1.last().1@));
    assert forall|x: int| 0 <= x < pairs_view(o1).len() implies pairs_view(o1)[x] == rhs[x] by {
        if x < o0.len() {
            assert(o1[x] == o0[x]);
            assert(pairs_view(o1)[x] == pairs_view(o0)[x]);
        }
    }
    assert(pairs_view(o1) =~= rhs);
}

/// Records stand in strictly ascending USN order.
pub open spec fn asc_by_usn(s: Seq<MediaRecordV>) -> bool {
    forall|i: int, j: int| 0 <= i < j < s.len() ==> s[i].usn < s[j].usn
}

/// No two records name the same file.
pub open spec fn unique_rec_names(s: Seq<MediaRecordV>) -> bool {
    forall|i: int, j: int|
        0 <= i < s.len() && 0 <= j < s.len() && i != j ==> s[i].fname != s[j].fname
}

/// No two stored files share a name.
pub open spec fn unique_file_names(s: Seq<(Seq<u8>, Seq<u8>)>) -> bool {
    forall|i: int, j: int|
        0 <= i < s.len() && 0 <= j < s.len() && i != j ==> s[i].0 != s[j].0
}

/// The highest USN in the index, or 0 of an empty one.
pub open spec fn sv_last_usn(s: MediaStoreV) -> int {
    if s.recs.len() == 0 {
        0
    } else {
        s.recs.last().usn
    }
}

/// The count of live (non-tombstone) records.
pub open spec fn count_live(s: Seq<MediaRecordV>) -> nat
    decreases s.len(),
{
    if s.len() == 0 {
        0
    } else {
        count_live(s.drop_last()) + (if s.last().csum is Some {
            1nat
        } else {
            0nat
        })
    }
}

/// The stored bytes of file `f`, if any.
pub open spec fn file_lookup(fs: Seq<(Seq<u8>, Seq<u8>)>, f: Seq<u8>) -> Option<Seq<u8>>
    decreases fs.len(),
{
    if fs.len() == 0 {
        None
    } else if fs.last().0 == f {
        Some(fs.last().1)
    } else {
        file_lookup(fs.drop_last(), f)
    }
}

/// The records with `usn > u`, most recent (highest USN) first.
pub open spec fn spec_changes(s: Seq<MediaRecordV>, u: int) -> Seq<MediaRecordV>
    decreases s.len(),
{
    if s.len() == 0 {
        Seq::empty()
    } else if s.last().usn > u {
        seq![s.last()] + spec_changes(s.drop_last(), u)
    } else {
        spec_changes(s.drop_last(), u)
    }
}

impl MediaStore {
    /// The store's invariant: records ascend strictly by USN, every
    /// USN is positive, and no file name occurs twice in the index
    /// or in the directory.
    pub open spec fn wf(self) -> bool {
        &&& asc_by_usn(self@.recs)
        &&& forall|i: int| 0 <= i < self@.recs.len() ==> (#[trigger] self@.recs[i]).usn >= 1
        &&& unique_rec_names(self@.recs)
        &&& unique_file_names(self@.files)
    }

    /// A freshly provisioned store: no records, no files.
    pub fn new() -> (r: MediaStore)
        ensures
            r.wf(),
            r@.recs == Seq::<MediaRecordV>::empty(),
            r@.files == Seq::<(Seq<u8>, Seq<u8>)>::empty(),
            sv_last_usn(r@) == 0,
    {
        let r = MediaStore { records: Vec::new(), files: Vec::new() };
        proof {
            assert(r@.recs =~= Seq::<MediaRecordV>::empty());
            assert(r@.files =~= Seq::<(Seq<u8>, Seq<u8>)>::empty());
        }
        r
    }

    /// The highest USN in the index, or 0.
    pub fn last_usn(&self) -> (r: i32)
        ensures
            r == sv_last_usn(self@),
    {
        if self.records.len() == 0 {
            0
        } else {
            self.records[self.records.len() - 1].usn
        }
    }

    /// The number of live (non-deleted) media files on record.
    pub fn count(&self) -> (r: usize)
        ensures
            r == count_live(self@.recs),
    {
        let mut cnt: usize = 0;
        let mut i: usize = 0;
        while i < self.records.len()
            invariant
                i <= self@.recs.len(),
                cnt <= i,
                cnt == count_live(self@.recs.take(i as int)),
            decreases self@.recs.len() - i,
        {
            proof {
                assert(self@.recs.take(i + 1).drop_last() =~= self@.recs.take(i as int));
            }
            if self.records[i].csum.is_some() {
                cnt = cnt + 1;
            }
            i = i + 1;
        }
        proof {
            assert(self@.recs.take(self@.recs.len() as int) =~= self@.recs);
        }
        cnt
    }

    /// The media sanity check: OK exactly when the client's count of
    /// live files matches the server's.
    pub fn is_sane(&self, local: u32) -> (r: bool)
        ensures
            r == (local as nat == count_live(self@.recs)),
    {
        let cnt = self.count();
        cnt as u64 == local as u64
    }

    /// The records newer than `client_last_usn`, most recent first:
    /// all of them when the client is behind (or reports 0), none
    /// otherwise — which, by USN order, is the same set either way.
    pub fn media_changes(&self, client_last_usn: i32) -> (r: Vec<MediaRecord>)
        requires
            self.wf(),
        ensures
            r@.map_values(|rec: MediaRecord| rec@) == spec_changes(
                self@.recs,
                client_last_usn as int,
            ),
    {
        let server_last_usn = self.last_usn();
        let mut r: Vec<MediaRecord> = Vec::new();
        if client_last_usn < server_last_usn || client_last_usn == 0 {
            let mut i: usize = self.records.len();
            while i > 0
                invariant
                    i <= self@.recs.len(),
                    self.wf(),
                    r@.map_values(|rec: MediaRecord| rec@) == spec_changes(
                        self@.recs.subrange(i as int, self@.recs.len() as int),
                        client_last_usn as int,
                    ),
                decreases i,
            {
                i = i - 1;
                let ghost pre = r@.map_values(|rec: MediaRecord| rec@);
                let ghost tail = self@.recs.subrange(i + 1, self@.recs.len() as int);
                if self.records[i].usn > client_last_usn {
                    let rec = clone_record(&self.records[i]);
                    r.push(rec);
                    proof {
                        assert(r@.map_values(|rec: MediaRecord| rec@) =~= pre.push(
                            self@.recs[i as int],
                        ));
                    }
                }
                proof {
                    lemma_changes_prepend(self@.recs[i as int], tail, client_last_usn as int);
                    assert(seq![self@.recs[i as int]] + tail =~= self@.recs.subrange(
                        i as int,
                        self@.recs.len() as int,
                    ));
                    if self@.recs[i as int].usn > client_last_usn {
                        assert(pre.push(self@.recs[i as int]) =~= pre + seq![
                            self@.recs[i as int],
                        ]);
                    }
                }
            }
            proof {
                assert(self@.recs.subrange(0, self@.recs.len() as int) =~= self@.recs);
            }
        } else {
            proof {
                lemma_changes_none_beyond(self@.recs, client_last_usn as int);
                assert(r@.map_values(|rec: MediaRecord| rec@) =~= Seq::<MediaRecordV>::empty());
            }
        }
        r
    }
}

/// Copies a record.
pub fn clone_record(rec: &MediaRecord) -> (r: MediaRecord)
    ensures
        r@ == rec@,
{
    let csum = match &rec.csum {
        Some(c) => Some(clone_bytes(c)),
        None => None,
    };
    MediaRecord { fname: clone_bytes(&rec.fname), csum, usn: rec.usn }
}

/// Prepending a record to the tail acts on the change list according
/// to that record's USN alone.
proof fn lemma_changes_prepend(x: MediaRecordV, t: Seq<MediaRecordV>, u: int)
    ensures
        spec_changes(seq![x] + t, u) == if x.usn > u {
            spec_changes(t, u) + seq![x]
        } else {
            spec_changes(t, u)
        },
    decreases t.len(),
{
    reveal_with_fuel(spec_changes, 3);
    let s = seq![x] + t;
    if t.len() == 0 {
        assert(s =~= seq![x]);
        assert(s.drop_last() =~= Seq::<MediaRecordV>::empty());
        assert(t =~= Seq::<MediaRecordV>::empty());
        assert(s.last() == x);
        if x.usn > u {
            assert(spec_changes(s, u) == seq![x] + spec_changes(s.drop_last(), u));
            assert(spec_changes(s, u) =~= spec_changes(t, u) + seq![x]);
        } else {
            assert(spec_changes(s, u) == spec_changes(s.drop_last(), u));
        }
    } else {
        assert(s.last() == t.last());
        assert(s.drop_last() =~= seq![x] + t.drop_last());
        lemma_changes_prepend(x, t.drop_last(), u);
        if s.last().usn > u {
            if x.usn > u {
                assert(spec_changes(s, u) =~= spec_changes(t, u) + seq![x]);
            } else {
                assert(spec_changes(s, u) =~= spec_changes(t, u));
            }
        } else {
            if x.usn > u {
                assert(spec_changes(s, u) =~= spec_changes(t, u) + seq![x]);
            }
        }
    }
}

/// The predicate selecting records not named `f`.
pub open spec fn rec_name_ne(f: Seq<u8>) -> spec_fn(MediaRecordV) -> bool {
    |r: MediaRecordV| r.fname != f
}

/// The predicate selecting stored files not named `f`.
pub open spec fn file_name_ne(f: Seq<u8>) -> spec_fn((Seq<u8>, Seq<u8>)) -> bool {
    |p: (Seq<u8>, Seq<u8>)| p.0 != f
}

/// The record `r` turned into a tombstone: checksum gone, USN kept.
pub open spec fn sv_tomb(r: MediaRecordV) -> MediaRecordV {
    MediaRecordV { fname: r.fname, csum: None, usn: r.usn }
}

/// Deleting `f`: its record (if any) becomes a tombstone in place,
/// its bytes leave the directory. The last USN does not advance.
pub open spec fn sv_delete(s: MediaStoreV, f: Seq<u8>) -> MediaStoreV {
    MediaStoreV {
        recs: s.recs.map_values(
            |r: MediaRecordV|
                if r.fname == f {
                    sv_tomb(r)
                } else {
                    r
                },
        ),
        files: s.files.filter(file_name_ne(f)),
    }
}

/// The fresh record an add writes: live, checksummed, stamped `usn`.
pub open spec fn sv_add_rec(f: Seq<u8>, data: Seq<u8>, usn: int) -> MediaRecordV {
    MediaRecordV { fname: f, csum: Some(hex_of(md5_of(data))), usn }
}

/// Adding `f` with `data` at `usn`: any earlier record for `f` is
/// dropped, the fresh record goes last, the bytes replace the old.
pub open spec fn sv_add(s: MediaStoreV, f: Seq<u8>, data: Seq<u8>, usn: int) -> MediaStoreV {
    MediaStoreV {
        recs: s.recs.filter(rec_name_ne(f)).push(sv_add_rec(f, data, usn)),
        files: s.files.filter(file_name_ne(f)).push((f, data)),
    }
}

/// Every element of a filtered sequence already stood in the
/// original.
pub(crate) proof fn lemma_filter_sub<A>(s: Seq<A>, pred: spec_fn(A) -> bool, a: int)
    requires
        0 <= a < s.filter(pred).len(),
    ensures
        exists|b: int| 0 <= b < s.len() && s[b] == #[trigger] s.filter(pred)[a],
    decreases s.len(),
{
    reveal(Seq::filter);
    if s.len() > 0 {
        let f = s.filter(pred);
        let fd = s.drop_last().filter(pred);
        if pred(s.last()) && a == fd.len() {
            assert(f[a] == s.last());
            assert(s[s.len() - 1] == f[a]);
        } else {
            lemma_filter_sub(s.drop_last(), pred, a);
            let b = choose|b: int| 0 <= b < s.drop_last().len() && s.drop_last()[b] == fd[a];
            assert(s[b] == f[a]);
        }
    }
}

/// A filter whose predicate every element passes keeps the sequence.
pub(crate) proof fn lemma_filter_all_pass<A>(s: Seq<A>, pred: spec_fn(A) -> bool)
    requires
        forall|i: int| 0 <= i < s.len() ==> pred(#[trigger] s[i]),
    ensures
        s.filter(pred) == s,
    decreases s.len(),
{
    reveal(Seq::filter);
    if s.len() == 0 {
        assert(s.filter(pred) =~= s);
    } else {
        assert forall|i: int| 0 <= i < s.drop_last().len() implies pred(
            #[trigger] s.drop_last()[i],
        ) by {
            assert(s.drop_last()[i] == s[i]);
        }
        lemma_filter_all_pass(s.drop_last(), pred);
        assert(pred(s.last()));
        assert(s.drop_last().push(s.last()) =~= s);
    }
}

/// A filter that drops exactly the element at `k` is a removal.
pub(crate) proof fn lemma_filter_unique_hit<A>(s: Seq<A>, pred: spec_fn(A) -> bool, k: int)
    requires
        0 <= k < s.len(),
        !pred(s[k]),
        forall|i: int| 0 <= i < s.len() && i != k ==> pred(#[trigger] s[i]),
    ensures
        s.filter(pred) == s.remove(k),
    decreases s.len(),
{
    reveal(Seq::filter);
    if k == s.len() - 1 {
        assert(!pred(s.last()));
        assert forall|i: int| 0 <= i < s.drop_last().len() implies pred(
            #[trigger] s.drop_last()[i],
        ) by {
            assert(s.drop_last()[i] == s[i]);
        }
        lemma_filter_all_pass(s.drop_last(), pred);
        assert(s.remove(k) =~= s.drop_last());
    } else {
        assert(pred(s.last()));
        assert forall|i: int|
            0 <= i < s.drop_last().len() && i != k implies pred(#[trigger] s.drop_last()[i]) by {
            assert(s.drop_last()[i] == s[i]);
        }
        assert(s.drop_last()[k] == s[k]);
        lemma_filter_unique_hit(s.drop_last(), pred, k);
        assert(s.filter(pred) == s.drop_last().filter(pred).push(s.last()));
        assert(s.remove(k) =~= s.drop_last().remove(k).push(s.last()));
    }
}

impl MediaStore {
    /// The index of the record named `fname`, if one exists.
    fn find_record_idx(&self, fname: &Vec<u8>) -> (r: Option<usize>)
        ensures
            match r {
                Some(i) => i < self@.recs.len() && self@.recs[i as int].fname == fname@,
                None => forall|i: int|
                    0 <= i < self@.recs.len() ==> (#[trigger] self@.recs[i]).fname != fname@,
            },
    {
        let mut i: usize = 0;
        while i < self.records.len()
            invariant
                i <= self@.recs.len(),
                forall|j: int| 0 <= j < i ==> (#[trigger] self@.recs[j]).fname != fname@,
            decreases self@.recs.len() - i,
        {
            if bytes_eq(&self.records[i].fname, fname) {
                return Some(i);
            }
            i = i + 1;
        }
        None
    }

    /// The index of the stored file named `fname`, if one exists.
    fn find_file_idx(&self, fname: &Vec<u8>) -> (r: Option<usize>)
        ensures
            match r {
                Some(i) => i < self@.files.len() && self@.files[i as int].0 == fname@,
                None => forall|i: int|
                    0 <= i < self@.files.len() ==> (#[trigger] self@.files[i]).0 != fname@,
            },
    {
        let mut i: usize = 0;
        while i < self.files.len()
            invariant
                i <= self@.files.len(),
                forall|j: int| 0 <= j < i ==> (#[trigger] self@.files[j]).0 != fname@,
            decreases self@.files.len() - i,
        {
            if bytes_eq(&self.files[i].0, fname) {
                return Some(i);
            }
            i = i + 1;
        }
        None
    }

    /// Deletes `fname`: tombstones its record in place and drops its
    /// bytes. Unknown names change nothing. The last USN is kept.
    pub fn delete(&mut self, fname: &Vec<u8>)
        requires
            old(self).wf(),
        ensures
            final(self).wf(),
            final(self)@ == sv_delete(old(self)@, fname@),
            sv_last_usn(final(self)@) == sv_last_usn(old(self)@),
    {
        let ghost s0 = self@;
        match self.find_record_idx(fname) {
            Some(i) => {
                let old_rec = self.records.remove(i);
                self.records.insert(
                    i,
                    MediaRecord { fname: old_rec.fname, csum: None, usn: old_rec.usn },
                );
                proof {
                    assert forall|j: int| 0 <= j < self@.recs.len() implies #[trigger] self@.recs[j]
                        == sv_delete(s0, fname@).recs[j] by {
                        if j != i {
                            assert(s0.recs[j].fname != fname@);
                        }
                    }
                    assert(self@.recs =~= sv_delete(s0, fname@).recs);
                }
            },
            None => {
                proof {
                    assert(self@.recs =~= sv_delete(s0, fname@).recs);
                }
            },
        }
        match self.find_file_idx(fname) {
            Some(j) => {
                self.files.remove(j);
                proof {
                    lemma_filter_unique_hit(s0.files, file_name_ne(fname@), j as int);
                    assert(self@.files =~= s0.files.remove(j as int));
                    assert forall|a: int, b: int|
                        0 <= a < self@.files.len() && 0 <= b < self@.files.len() && a
                            != b implies (#[trigger] self@.files[a]).0
                        != (#[trigger] self@.files[b]).0 by {
                        let a0: int = if a < j {
                            a
                        } else {
                            a + 1
                        };
                        let b0: int = if b < j {
                            b
                        } else {
                            b + 1
                        };
                        assert(self@.files[a] == s0.files[a0]);
                        assert(self@.files[b] == s0.files[b0]);
                    }
                }
            },
            None => {
                proof {
                    assert(self@.files =~= s0.files);
                    assert forall|i: int| 0 <= i < s0.files.len() implies file_name_ne(fname@)(
                        #[trigger] s0.files[i],
                    ) by {
                        assert(self@.files[i].0 != fname@);
                    }
                    lemma_filter_all_pass(s0.files, file_name_ne(fname@));
                    assert(self@.files =~= s0.files);
                }
            },
        }
        proof {
            assert(self@ =~= sv_delete(s0, fname@));
        }
    }
}

impl MediaStore {
    /// Stores `data` under `fname` at the fresh `usn`: replaces any
    /// earlier record for that name, stamps the content checksum,
    /// and makes `usn` the store's last USN.
    pub fn add_file(&mut self, fname: Vec<u8>, data: Vec<u8>, usn: i32)
        requires
            old(self).wf(),
            usn > sv_last_usn(old(self)@),
        ensures
            final(self).wf(),
            final(self)@ == sv_add(old(self)@, fname@, data@, usn as int),
            sv_last_usn(final(self)@) == usn,
    {
        let ghost s0 = self@;
        let csum = crate::keys::checksum_hex(&data);
        match self.find_record_idx(&fname) {
            Some(i) => {
                self.records.remove(i);
                proof {
                    assert forall|a: int|
                        0 <= a < s0.recs.len() && a != i implies rec_name_ne(fname@)(
                        #[trigger] s0.recs[a],
                    ) by {
                        assert(s0.recs[a].fname != s0.recs[i as int].fname);
                    }
                    lemma_filter_unique_hit(s0.recs, rec_name_ne(fname@), i as int);
                    assert(self@.recs =~= s0.recs.remove(i as int));
                }
            },
            None => {
                proof {
                    assert forall|a: int| 0 <= a < s0.recs.len() implies rec_name_ne(fname@)(
                        #[trigger] s0.recs[a],
                    ) by {
                        assert(s0.recs[a].fname != fname@);
                    }
                    lemma_filter_all_pass(s0.recs, rec_name_ne(fname@));
                    assert(self@.recs =~= s0.recs);
                }
            },
        }
        match self.find_file_idx(&fname) {
            Some(j) => {
                self.files.remove(j);
                proof {
                    lemma_filter_unique_hit(s0.files, file_name_ne(fname@), j as int);
                    assert(self@.files =~= s0.files.remove(j as int));
                }
            },
            None => {
                proof {
                    assert(self@.files =~= s0.files);
                    assert forall|i: int| 0 <= i < s0.files.len() implies file_name_ne(fname@)(
                        #[trigger] s0.files[i],
                    ) by {
                        assert(self@.files[i].0 != fname@);
                    }
                    lemma_filter_all_pass(s0.files, file_name_ne(fname@));
                }
            },
        }
        let ghost mid = self@;
        self.files.push((clone_bytes(&fname), clone_bytes(&data)));
        self.records.push(MediaRecord { fname, csum: Some(csum), usn });
        proof {
            let fin = self@;
            let want = sv_add(s0, fname@, data@, usn as int);
            assert(fin.recs =~= mid.recs.push(sv_add_rec(fname@, data@, usn as int)));
            assert(fin.files =~= mid.files.push((fname@, data@)));
            assert(fin =~= want);
            assert(mid.recs == s0.recs.filter(rec_name_ne(fname@)));
            assert forall|a: int|
                0 <= a < mid.recs.len() implies (#[trigger] mid.recs[a]).usn <= sv_last_usn(
                s0,
            ) by {
                lemma_filter_sub(s0.recs, rec_name_ne(fname@), a);
                let b = choose|b: int|
                    0 <= b < s0.recs.len() && s0.recs[b] == s0.recs.filter(rec_name_ne(fname@))[a];
                assert(s0.recs[b] == mid.recs[a]);
                if b < s0.recs.len() - 1 {
                    assert(s0.recs[b].usn < s0.recs[s0.recs.len() - 1].usn);
                }
            }
            assert(asc_by_usn(fin.recs));
            assert(sv_last_usn(fin) == usn);
        }
    }
}

/// Why an upload bundle was rejected.
#[derive(Clone, Copy, Debug, PartialEq, Eq, Structural)]
pub enum MediaError {
    /// A file entry's name has no mapping in the bundle manifest.
    MetaMissing,
    /// Stamping every add would push the USN past its ceiling.
    UsnOverflow,
}

/// The view of a manifest pair list.
pub open spec fn meta_view(m: Seq<(Vec<u8>, Option<Vec<u8>>)>) -> Seq<(Seq<u8>, Option<Seq<u8>>)> {
    m.map_values(
        |p: (Vec<u8>, Option<Vec<u8>>)|
            (
                p.0@,
                match p.1 {
                    Some(z) => Some(z@),
                    None => None,
                },
            ),
    )
}

/// A manifest pair that records a deletion: the entry name is absent
/// or empty (client platforms differ in which they send).
pub open spec fn is_remove(p: (Seq<u8>, Option<Seq<u8>>)) -> bool {
    p.1 is None || p.1 == Some(Seq::<u8>::empty())
}

/// The reserved manifest entry name, `_meta`.
pub open spec fn meta_entry_name() -> Seq<u8> {
    seq![0x5fu8, 0x6du8, 0x65u8, 0x74u8, 0x61u8]
}

/// The file names a manifest deletes, in manifest order.
pub open spec fn meta_removes(m: Seq<(Seq<u8>, Option<Seq<u8>>)>) -> Seq<Seq<u8>>
    decreases m.len(),
{
    if m.len() == 0 {
        Seq::empty()
    } else if is_remove(m.last()) {
        meta_removes(m.drop_last()).push(m.last().0)
    } else {
        meta_removes(m.drop_last())
    }
}

/// The client file name a manifest maps the bundle entry `zname` to;
/// a later manifest pair overrides an earlier one.
pub open spec fn meta_fname_for(m: Seq<(Seq<u8>, Option<Seq<u8>>)>, zname: Seq<u8>) -> Option<
    Seq<u8>,
>
    decreases m.len(),
{
    if m.len() == 0 {
        None
    } else if !is_remove(m.last()) && m.last().1 == Some(zname) {
        Some(m.last().0)
    } else {
        meta_fname_for(m.drop_last(), zname)
    }
}

/// How many bundle entries are adds (everything but `_meta`).
pub open spec fn count_adds(e: Seq<(Seq<u8>, Seq<u8>)>) -> nat
    decreases e.len(),
{
    if e.len() == 0 {
        0
    } else {
        count_adds(e.drop_last()) + (if e.last().0 == meta_entry_name() {
            0nat
        } else {
            1nat
        })
    }
}

/// Every add entry of the bundle has a manifest mapping.
pub open spec fn adds_ok(e: Seq<(Seq<u8>, Seq<u8>)>, m: Seq<(Seq<u8>, Option<Seq<u8>>)>) -> bool {
    forall|i: int|
        0 <= i < e.len() && (#[trigger] e[i]).0 != meta_entry_name() ==> meta_fname_for(
            m,
            e[i].0,
        ) is Some
}

/// The store after all of a manifest's deletions, in order.
pub open spec fn sv_apply_removes(s: MediaStoreV, rs: Seq<Seq<u8>>) -> MediaStoreV
    decreases rs.len(),
{
    if rs.len() == 0 {
        s
    } else {
        sv_delete(sv_apply_removes(s, rs.drop_last()), rs.last())
    }
}

/// The store after all of a bundle's adds, in bundle order, each
/// stamped one past the USN before it.
pub open spec fn sv_apply_adds(
    s: MediaStoreV,
    e: Seq<(Seq<u8>, Seq<u8>)>,
    m: Seq<(Seq<u8>, Option<Seq<u8>>)>,
) -> MediaStoreV
    decreases e.len(),
{
    if e.len() == 0 {
        s
    } else {
        let pre = sv_apply_adds(s, e.drop_last(), m);
        let en = e.last();
        if en.0 == meta_entry_name() {
            pre
        } else {
            match meta_fname_for(m, en.0) {
                Some(f) => sv_add(pre, f, en.1, sv_last_usn(pre) + 1),
                None => pre,
            }
        }
    }
}

/// The store after a whole upload bundle: deletions first, then adds.
pub open spec fn sv_apply_upload(
    s: MediaStoreV,
    m: Seq<(Seq<u8>, Option<Seq<u8>>)>,
    e: Seq<(Seq<u8>, Seq<u8>)>,
) -> MediaStoreV {
    sv_apply_adds(sv_apply_removes(s, meta_removes(m)), e, m)
}

/// A prefix of the bundle never counts more adds than the whole.
proof fn lemma_count_adds_prefix_le(e: Seq<(Seq<u8>, Seq<u8>)>, k: int)
    requires
        0 <= k <= e.len(),
    ensures
        count_adds(e.take(k)) <= count_adds(e),
    decreases e.len(),
{
    if k == e.len() {
        assert(e.take(k) =~= e);
    } else {
        assert(e.take(k) =~= e.drop_last().take(k));
        lemma_count_adds_prefix_le(e.drop_last(), k);
    }
}

/// Whether `name` is the reserved manifest entry name.
fn is_meta_name(name: &Vec<u8>) -> (r: bool)
    ensures
        r == (name@ == meta_entry_name()),
{
    let r = name.len() == 5 && name[0] == 0x5f && name[1] == 0x6d && name[2] == 0x65 && name[3]
        == 0x74 && name[4] == 0x61;
    proof {
        let m = meta_entry_name();
        assert(m.len() == 5 && m[0] == 0x5f && m[1] == 0x6d && m[2] == 0x65 && m[3] == 0x74 && m[4]
            == 0x61);
        if name@.len() == 5 && name@[0] == 0x5f && name@[1] == 0x6d && name@[2] == 0x65 && name@[3]
            == 0x74 && name@[4] == 0x61 {
            assert(name@ =~= m);
        }
    }
    r
}

/// The client file name the manifest maps bundle entry `zname` to.
fn find_fname(meta: &Vec<(Vec<u8>, Option<Vec<u8>>)>, zname: &Vec<u8>) -> (r: Option<Vec<u8>>)
    ensures
        match r {
            Some(f) => meta_fname_for(meta_view(meta@), zname@) == Some(f@),
            None => meta_fname_for(meta_view(meta@), zname@) is None,
        },
{
    let ghost mv = meta_view(meta@);
    let mut i: usize = meta.len();
    proof {
        assert(mv.take(meta@.len() as int) =~= mv);
    }
    while i > 0
        invariant
            i <= meta@.len(),
            mv == meta_view(meta@),
            meta_fname_for(mv, zname@) == meta_fname_for(mv.take(i as int), zname@),
        decreases i,
    {
        i = i - 1;
        proof {
            assert(mv.take(i + 1).drop_last() =~= mv.take(i as int));
            assert(mv.take(i + 1).last() == mv[i as int]);
            assert(mv[i as int].1 == (match meta@[i as int].1 {
                Some(zz) => Some(zz@),
                None => None,
            }));
        }
        let hit = match &meta[i].1 {
            Some(z) => z.len() > 0 && bytes_eq(z, zname),
            None => false,
        };
        if hit {
            proof {
                match meta@[i as int].1 {
                    Some(zz) => {
                        assert(zz@.len() > 0 && zz@ == zname@);
                        assert(zz@ != Seq::<u8>::empty());
                        assert(mv[i as int].1 == Some(zz@));
                        assert(!is_remove(mv[i as int]));
                        assert(mv[i as int].1 == Some(zname@));
                    },
                    None => {
                        assert(false);
                    },
                }
            }
            return Some(clone_bytes(&meta[i].0));
        } else {
            proof {
                if !is_remove(mv[i as int]) && mv[i as int].1 == Some(zname@) {
                    match meta@[i as int].1 {
                        Some(zz) => {
                            assert(zz@ == zname@);
                            assert(zz@ != Seq::<u8>::empty());
                            if zz@.len() == 0 {
                                assert(zz@ =~= Seq::<u8>::empty());
                            }
                            assert(zz@.len() > 0);
                            assert(false);
                        },
                        None => {
                            assert(false);
                        },
                    }
                }
            }
        }
    }
    proof {
        assert(mv.take(0) =~= Seq::<(Seq<u8>, Option<Seq<u8>>)>::empty());
    }
    None
}

impl MediaStore {
    /// Ingests one upload bundle: the manifest's deletions first
    /// (batched), then every file entry as an add, each stamped one
    /// past the last USN. Returns the processed-record count and the
    /// final USN; rejects the whole bundle, changing nothing, when a
    /// file entry has no manifest mapping or the USN would overflow.
    pub fn apply_upload(
        &mut self,
        meta: &Vec<(Vec<u8>, Option<Vec<u8>>)>,
        entries: &Vec<(Vec<u8>, Vec<u8>)>,
    ) -> (r: Result<(usize, i32), MediaError>)
        requires
            old(self).wf(),
            meta@.len() + entries@.len() <= usize::MAX,
        ensures
            final(self).wf(),
            match r {
                Ok(res) => {
                    &&& adds_ok(pairs_view(entries@), meta_view(meta@))
                    &&& sv_last_usn(old(self)@) + count_adds(pairs_view(entries@)) <= i32::MAX
                    &&& final(self)@ == sv_apply_upload(
                        old(self)@,
                        meta_view(meta@),
                        pairs_view(entries@),
                    )
                    &&& res.0 == count_adds(pairs_view(entries@)) + meta_removes(
                        meta_view(meta@),
                    ).len()
                    &&& res.1 == sv_last_usn(old(self)@) + count_adds(pairs_view(entries@))
                },
                Err(MediaError::MetaMissing) => {
                    &&& !adds_ok(pairs_view(entries@), meta_view(meta@))
                    &&& final(self)@ == old(self)@
                },
                Err(MediaError::UsnOverflow) => {
                    &&& adds_ok(pairs_view(entries@), meta_view(meta@))
                    &&& sv_last_usn(old(self)@) + count_adds(pairs_view(entries@)) > i32::MAX
                    &&& final(self)@ == old(self)@
                },
            },
    {
        let ghost mv = meta_view(meta@);
        let ghost ev = pairs_view(entries@);
        let ghost s0 = self@;
        let mut adds: usize = 0;
        let mut k: usize = 0;
        while k < entries.len()
            invariant
                k <= entries@.len(),
                adds <= k,
                adds == count_adds(ev.take(k as int)),
                forall|j: int|
                    0 <= j < k && (#[trigger] ev[j]).0 != meta_entry_name() ==> meta_fname_for(
                        mv,
                        ev[j].0,
                    ) is Some,
                self@ == s0,
                self.wf(),
                ev == pairs_view(entries@),
                mv == meta_view(meta@),
            decreases entries@.len() - k,
        {
            proof {
                assert(ev.take(k + 1).drop_last() =~= ev.take(k as int));
                assert(ev.take(k + 1).last() == ev[k as int]);
            }
            if !is_meta_name(&entries[k].0) {
                match find_fname(meta, &entries[k].0) {
                    Some(_) => {
                        adds = adds + 1;
                    },
                    None => {
                        return Err(MediaError::MetaMissing);
                    },
                }
            }
            k = k + 1;
        }
        proof {
            assert(ev.take(entries@.len() as int) =~= ev);
        }
        let last0 = self.last_usn();
        proof {
            assert(last0 >= 0);
        }
        if (adds as u64) > (i32::MAX as u64) - (last0 as u64) {
            return Err(MediaError::UsnOverflow);
        }
        let mut rem: usize = 0;
        let mut k2: usize = 0;
        while k2 < meta.len()
            invariant
                k2 <= meta@.len(),
                rem <= k2,
                self.wf(),
                self@ == sv_apply_removes(s0, meta_removes(mv.take(k2 as int))),
                sv_last_usn(self@) == sv_last_usn(s0),
                rem == meta_removes(mv.take(k2 as int)).len(),
                mv == meta_view(meta@),
            decreases meta@.len() - k2,
        {
            proof {
                assert(mv.take(k2 + 1).drop_last() =~= mv.take(k2 as int));
                assert(mv.take(k2 + 1).last() == mv[k2 as int]);
                assert(mv[k2 as int].1 == (match meta@[k2 as int].1 {
                    Some(zz) => Some(zz@),
                    None => None,
                }));
            }
            let ghost pre = self@;
            let remove = match &meta[k2].1 {
                None => true,
                Some(z) => z.len() == 0,
            };
            if remove {
                proof {
                    match meta@[k2 as int].1 {
                        Some(zz) => {
                            assert(zz@.len() == 0);
                            assert(zz@ =~= Seq::<u8>::empty());
                            assert(mv[k2 as int].1 == Some(Seq::<u8>::empty()));
                        },
                        None => {},
                    }
                    assert(is_remove(mv[k2 as int]));
                    let rs = meta_removes(mv.take(k2 as int));
                    assert(rs.push(mv[k2 as int].0).drop_last() =~= rs);
                    assert(rs.push(mv[k2 as int].0).last() == mv[k2 as int].0);
                }
                self.delete(&meta[k2].0);
                rem = rem + 1;
            } else {
                proof {
                    assert(!is_remove(mv[k2 as int]));
                }
            }
            k2 = k2 + 1;
        }
        proof {
            assert(mv.take(meta@.len() as int) =~= mv);
        }
        let ghost s1 = self@;
        let mut done: usize = 0;
        let mut k3: usize = 0;
        while k3 < entries.len()
            invariant
                k3 <= entries@.len(),
                done <= k3,
                self.wf(),
                self@ == sv_apply_adds(s1, ev.take(k3 as int), mv),
                done == count_adds(ev.take(k3 as int)),
                sv_last_usn(self@) == sv_last_usn(s1) + done,
                sv_last_usn(s1) == last0,
                s1 == sv_apply_removes(s0, meta_removes(mv)),
                adds == count_adds(ev),
                adds_ok(ev, mv),
                last0 + adds <= i32::MAX,
                ev == pairs_view(entries@),
                mv == meta_view(meta@),
            decreases entries@.len() - k3,
        {
            proof {
                assert(ev.take(k3 + 1).drop_last() =~= ev.take(k3 as int));
                assert(ev.take(k3 + 1).last() == ev[k3 as int]);
            }
            if !is_meta_name(&entries[k3].0) {
                proof {
                    lemma_count_adds_prefix_le(ev, k3 + 1);
                }
                let usn = self.last_usn() + 1;
                match find_fname(meta, &entries[k3].0) {
                    Some(f) => {
                        let data = clone_bytes(&entries[k3].1);
                        self.add_file(f, data, usn);
                        done = done + 1;
                    },
                    None => {
                        proof {
                            assert(ev[k3 as int].0 != meta_entry_name());
                            assert(false);
                        }
                        return Err(MediaError::MetaMissing);
                    },
                }
            }
            k3 = k3 + 1;
        }
        proof {
            assert(ev.take(entries@.len() as int) =~= ev);
        }
        let last_after = self.last_usn();
        Ok((adds + rem, last_after))
    }
}

/// What a download request gathers: for each requested name in
/// order, the stored bytes under that name; names with no stored
/// file are omitted silently.
pub open spec fn spec_select(s: MediaStoreV, names: Seq<Seq<u8>>) -> Seq<(Seq<u8>, Seq<u8>)>
    decreases names.len(),
{
    if names.len() == 0 {
        Seq::empty()
    } else {
        let pre = spec_select(s, names.drop_last());
        match file_lookup(s.files, names.last()) {
            Some(d) => pre.push((names.last(), d)),
            None => pre,
        }
    }
}

/// With unique names, the lookup returns the entry at the matching
/// index.
proof fn lemma_file_lookup_some(fs: Seq<(Seq<u8>, Seq<u8>)>, f: Seq<u8>, i: int)
    requires
        unique_file_names(fs),
        0 <= i < fs.len(),
        fs[i].0 == f,
    ensures
        file_lookup(fs, f) == Some(fs[i].1),
    decreases fs.len(),
{
    if i < fs.len() - 1 {
        assert(fs.last().0 != f);
        assert(fs.drop_last()[i] == fs[i]);
        assert forall|a: int, b: int|
            0 <= a < fs.drop_last().len() && 0 <= b < fs.drop_last().len() && a
                != b implies (#[trigger] fs.drop_last()[a]).0 != (#[trigger] fs.drop_last()[b]).0 by {
            assert(fs.drop_last()[a] == fs[a] && fs.drop_last()[b] == fs[b]);
        }
        lemma_file_lookup_some(fs.drop_last(), f, i);
    }
}

/// A name no entry carries looks up to nothing.
proof fn lemma_file_lookup_none(fs: Seq<(Seq<u8>, Seq<u8>)>, f: Seq<u8>)
    requires
        forall|i: int| 0 <= i < fs.len() ==> (#[trigger] fs[i]).0 != f,
    ensures
        file_lookup(fs, f) is None,
    decreases fs.len(),
{
    if fs.len() > 0 {
        assert forall|i: int| 0 <= i < fs.drop_last().len() implies (#[trigger] fs.drop_last()[i]).0
            != f by {
            assert(fs.drop_last()[i] == fs[i]);
        }
        lemma_file_lookup_none(fs.drop_last(), f);
    }
}

impl MediaStore {
    /// The stored bytes of `fname`, if any.
    pub fn get_file(&self, fname: &Vec<u8>) -> (r: Option<Vec<u8>>)
        requires
            self.wf(),
        ensures
            match r {
                Some(d) => file_lookup(self@.files, fname@) == Some(d@),
                None => file_lookup(self@.files, fname@) is None,
            },
    {
        match self.find_file_idx(fname) {
            Some(i) => {
                proof {
                    lemma_file_lookup_some(self@.files, fname@, i as int);
                }
                Some(clone_bytes(&self.files[i].1))
            },
            None => {
                proof {
                    lemma_file_lookup_none(self@.files, fname@);
                }
                None
            },
        }
    }

    /// Gathers the requested files in request order; names with no
    /// stored file are omitted silently.
    pub fn select_files(&self, names: &Vec<Vec<u8>>) -> (r: Vec<(Vec<u8>, Vec<u8>)>)
        requires
            self.wf(),
        ensures
            pairs_view(r@) == spec_select(self@, names@.map_values(|n: Vec<u8>| n@)),
    {
        let ghost nv = names@.map_values(|n: Vec<u8>| n@);
        let mut r: Vec<(Vec<u8>, Vec<u8>)> = Vec::new();
        let mut k: usize = 0;
        while k < names.len()
            invariant
                k <= names@.len(),
                self.wf(),
                nv == names@.map_values(|n: Vec<u8>| n@),
                pairs_view(r@) == spec_select(self@, nv.take(k as int)),
            decreases names@.len() - k,
        {
            proof {
                assert(nv.take(k + 1).drop_last() =~= nv.take(k as int));
                assert(nv.take(k + 1).last() == nv[k as int]);
            }
            let ghost pre = pairs_view(r@);
            match self.get_file(&names[k]) {
                Some(d) => {
                    r.push((clone_bytes(&names[k]), d));
                    proof {
                        assert(pairs_view(r@) =~= pre.push((nv[k as int], file_lookup(
                            self@.files,
                            nv[k as int],
                        )->Some_0)));
                    }
                },
                None => {},
            }
            k = k + 1;
        }
        proof {
            assert(nv.take(names@.len() as int) =~= nv);
        }
        r
    }
}

/// A client at or past the server's last USN gets no changes.
proof fn lemma_changes_none_beyond(s: Seq<MediaRecordV>, u: int)
    requires
        asc_by_usn(s),
        s.len() > 0 ==> u >= s.last().usn,
    ensures
        spec_changes(s, u) == Seq::<MediaRecordV>::empty(),
    decreases s.len(),
{
    if s.len() > 0 {
        assert(forall|i: int| 0 <= i < s.len() - 1 ==> s.drop_last()[i] == s[i]);
        lemma_changes_none_beyond(s.drop_last(), u);
    }
}

/// Deletions never move the last USN.
proof fn lemma_removes_keep_last_usn(s: MediaStoreV, rs: Seq<Seq<u8>>)
    ensures
        sv_last_usn(sv_apply_removes(s, rs)) == sv_last_usn(s),
    decreases rs.len(),
{
    if rs.len() > 0 {
        lemma_removes_keep_last_usn(s, rs.drop_last());
        let pre = sv_apply_removes(s, rs.drop_last());
        if pre.recs.len() > 0 {
            assert(sv_delete(pre, rs.last()).recs[pre.recs.len() - 1].usn == pre.recs[pre.recs.len()
                - 1].usn);
        }
    }
}

/// Each resolvable add moves the last USN up by exactly one.
proof fn lemma_adds_advance_last_usn(
    s: MediaStoreV,
    e: Seq<(Seq<u8>, Seq<u8>)>,
    m: Seq<(Seq<u8>, Option<Seq<u8>>)>,
)
    requires
        adds_ok(e, m),
    ensures
        sv_last_usn(sv_apply_adds(s, e, m)) == sv_last_usn(s) + count_adds(e),
    decreases e.len(),
{
    if e.len() > 0 {
        assert forall|i: int|
            0 <= i < e.drop_last().len() && (#[trigger] e.drop_last()[i]).0
                != meta_entry_name() implies meta_fname_for(m, e.drop_last()[i].0) is Some by {
            assert(e.drop_last()[i] == e[i]);
        }
        lemma_adds_advance_last_usn(s, e.drop_last(), m);
        if e.last().0 != meta_entry_name() {
            assert(e[e.len() - 1].0 != meta_entry_name());
            assert(meta_fname_for(m, e.last().0) is Some);
        }
    }
}

/// A whole upload bundle advances the last USN by exactly the number
/// of file entries it carries: deletions do not move it, and every
/// add moves it up by one.
pub proof fn lemma_upload_advances_last_usn(
    s: MediaStoreV,
    m: Seq<(Seq<u8>, Option<Seq<u8>>)>,
    e: Seq<(Seq<u8>, Seq<u8>)>,
)
    requires
        adds_ok(e, m),
    ensures
        sv_last_usn(sv_apply_upload(s, m, e)) == sv_last_usn(s) + count_adds(e),
{
    lemma_removes_keep_last_usn(s, meta_removes(m));
    lemma_adds_advance_last_usn(sv_apply_removes(s, meta_removes(m)), e, m);
}

/// A list of upload bundles applied in order; each bundle is its
/// manifest paired with its entries.
pub open spec fn sv_apply_uploads(
    s: MediaStoreV,
    bs: Seq<(Seq<(Seq<u8>, Option<Seq<u8>>)>, Seq<(Seq<u8>, Seq<u8>)>)>,
) -> MediaStoreV
    decreases bs.len(),
{
    if bs.len() == 0 {
        s
    } else {
        sv_apply_upload(sv_apply_uploads(s, bs.drop_last()), bs.last().0, bs.last().1)
    }
}

/// The total number of file entries across a list of bundles.
pub open spec fn total_adds(
    bs: Seq<(Seq<(Seq<u8>, Option<Seq<u8>>)>, Seq<(Seq<u8>, Seq<u8>)>)>,
) -> nat
    decreases bs.len(),
{
    if bs.len() == 0 {
        0
    } else {
        total_adds(bs.drop_last()) + count_adds(bs.last().1)
    }
}

/// Any sequence of uploads, with no other writer, leaves the last
/// USN at its initial value plus the total number of file entries
/// added: deletions never move it.
pub proof fn lemma_uploads_advance_last_usn(
    s: MediaStoreV,
    bs: Seq<(Seq<(Seq<u8>, Option<Seq<u8>>)>, Seq<(Seq<u8>, Seq<u8>)>)>,
)
    requires
        forall|i: int| 0 <= i < bs.len() ==> adds_ok((#[trigger] bs[i]).1, bs[i].0),
    ensures
        sv_last_usn(sv_apply_uploads(s, bs)) == sv_last_usn(s) + total_adds(bs),
    decreases bs.len(),
{
    if bs.len() > 0 {
        assert forall|i: int| 0 <= i < bs.drop_last().len() implies adds_ok(
            (#[trigger] bs.drop_last()[i]).1,
            bs.drop_last()[i].0,
        ) by {
            assert(bs.drop_last()[i] == bs[i]);
        }
        lemma_uploads_advance_last_usn(s, bs.drop_last());
        assert(adds_ok(bs[bs.len() - 1].1, bs[bs.len() - 1].0));
        lemma_upload_advances_last_usn(
            sv_apply_uploads(s, bs.drop_last()),
            bs.last().0,
            bs.last().1,
        );
    }
}

/// The change list of a store in ascending USN order holds exactly
/// the records newer than `u`, each exactly once, in strictly
/// descending USN order.
pub proof fn lemma_media_changes_properties(s: Seq<MediaRecordV>, u: int)
    requires
        asc_by_usn(s),
    ensures
        forall|i: int|
            0 <= i < spec_changes(s, u).len() ==> (#[trigger] spec_changes(s, u)[i]).usn > u,
        forall|i: int, j: int|
            0 <= i < j < spec_changes(s, u).len() ==> spec_changes(s, u)[i].usn > spec_changes(
                s,
                u,
            )[j].usn,
        forall|i: int|
            0 <= i < spec_changes(s, u).len() ==> s.contains(#[trigger] spec_changes(s, u)[i]),
        forall|j: int| 0 <= j < s.len() && (#[trigger] s[j]).usn > u ==> spec_changes(s, u).contains(s[j]),
    decreases s.len(),
{
    let c = spec_changes(s, u);
    if s.len() > 0 {
        let d = s.drop_last();
        let cd = spec_changes(d, u);
        assert forall|i: int, j: int| 0 <= i < j < d.len() implies d[i].usn < d[j].usn by {
            assert(d[i] == s[i] && d[j] == s[j]);
        }
        lemma_media_changes_properties(d, u);
        assert forall|i: int| 0 <= i < cd.len() implies s.contains(#[trigger] cd[i]) by {
            let b = choose|b: int| 0 <= b < d.len() && d[b] == cd[i];
            assert(s[b] == cd[i]);
        }
        if s.last().usn > u {
            assert(c =~= seq![s.last()] + cd);
            assert forall|i: int| 0 <= i < c.len() implies (#[trigger] c[i]).usn > u by {
                if i > 0 {
                    assert(c[i] == cd[i - 1]);
                }
            }
            assert forall|i: int, j: int| 0 <= i < j < c.len() implies c[i].usn > c[j].usn by {
                if i == 0 {
                    let b = choose|b: int| 0 <= b < d.len() && d[b] == cd[j - 1];
                    assert(s[b] == cd[j - 1]);
                    assert(s[b].usn < s[s.len() - 1].usn);
                } else {
                    assert(c[i] == cd[i - 1] && c[j] == cd[j - 1]);
                }
            }
            assert forall|i: int| 0 <= i < c.len() implies s.contains(#[trigger] c[i]) by {
                if i == 0 {
                    assert(c[0] == s[s.len() - 1]);
                } else {
                    assert(c[i] == cd[i - 1]);
                }
            }
            assert forall|j: int|
                0 <= j < s.len() && (#[trigger] s[j]).usn > u implies c.contains(s[j]) by {
                if j == s.len() - 1 {
                    assert(c[0] == s[j]);
                } else {
                    assert(d[j] == s[j]);
                    assert(cd.contains(s[j]));
                    let b = choose|b: int| 0 <= b < cd.len() && cd[b] == s[j];
                    assert(c[b + 1] == s[j]);
                }
            }
        } else {
            assert(c == cd);
            assert forall|j: int|
                0 <= j < s.len() && (#[trigger] s[j]).usn > u implies c.contains(s[j]) by {
                if j == s.len() - 1 {
                    assert(s[j].usn <= u);
                } else {
                    assert(d[j] == s[j]);
                }
            }
        }
    }
}

/// A lookup for a name the filter keeps sees through the filter.
proof fn lemma_lookup_filter_ne(fs: Seq<(Seq<u8>, Seq<u8>)>, f: Seq<u8>, g: Seq<u8>)
    requires
        g != f,
    ensures
        file_lookup(fs.filter(file_name_ne(f)), g) == file_lookup(fs, g),
    decreases fs.len(),
{
    reveal(Seq::filter);
    if fs.len() == 0 {
        assert(fs.filter(file_name_ne(f)) =~= fs);
    } else {
        lemma_lookup_filter_ne(fs.drop_last(), f, g);
        let fq = fs.drop_last().filter(file_name_ne(f));
        if file_name_ne(f)(fs.last()) {
            assert(fs.filter(file_name_ne(f)) == fq.push(fs.last()));
            assert(fq.push(fs.last()).drop_last() =~= fq);
            assert(fq.push(fs.last()).last() == fs.last());
        } else {
            assert(fs.filter(file_name_ne(f)) == fq);
            assert(fs.last().0 == f);
            assert(fs.last().0 != g);
        }
    }
}

/// After one add, the added name looks up to the added bytes and
/// every other name looks up as before.
proof fn lemma_add_lookup(s: MediaStoreV, f: Seq<u8>, d: Seq<u8>, usn: int, g: Seq<u8>)
    ensures
        file_lookup(sv_add(s, f, d, usn).files, f) == Some(d),
        g != f ==> file_lookup(sv_add(s, f, d, usn).files, g) == file_lookup(s.files, g),
{
    let fs = sv_add(s, f, d, usn).files;
    let fq = s.files.filter(file_name_ne(f));
    assert(fs.last() == (f, d));
    assert(fs.drop_last() =~= fq);
    if g != f {
        lemma_lookup_filter_ne(s.files, f, g);
    }
}

/// Within the add phase, the bytes of add `k` survive to the end
/// when no later add targets the same client file name.
proof fn lemma_adds_round_trip(
    s1: MediaStoreV,
    e: Seq<(Seq<u8>, Seq<u8>)>,
    m: Seq<(Seq<u8>, Option<Seq<u8>>)>,
    k: int,
)
    requires
        0 <= k < e.len(),
        e[k].0 != meta_entry_name(),
        meta_fname_for(m, e[k].0) is Some,
        forall|j: int|
            k < j < e.len() && (#[trigger] e[j]).0 != meta_entry_name() ==> meta_fname_for(
                m,
                e[j].0,
            ) != meta_fname_for(m, e[k].0),
    ensures
        file_lookup(sv_apply_adds(s1, e, m).files, meta_fname_for(m, e[k].0)->Some_0) == Some(
            e[k].1,
        ),
    decreases e.len(),
{
    let f = meta_fname_for(m, e[k].0)->Some_0;
    let pre = sv_apply_adds(s1, e.drop_last(), m);
    if k == e.len() - 1 {
        assert(sv_apply_adds(s1, e, m) == sv_add(pre, f, e.last().1, sv_last_usn(pre) + 1));
        lemma_add_lookup(pre, f, e.last().1, sv_last_usn(pre) + 1, f);
    } else {
        assert(e.drop_last()[k] == e[k]);
        assert forall|j: int|
            k < j < e.drop_last().len() && (#[trigger] e.drop_last()[j]).0
                != meta_entry_name() implies meta_fname_for(m, e.drop_last()[j].0)
            != meta_fname_for(m, e[k].0) by {
            assert(e.drop_last()[j] == e[j]);
        }
        lemma_adds_round_trip(s1, e.drop_last(), m, k);
        let en = e.last();
        if en.0 == meta_entry_name() {
        } else {
            assert(e[e.len() - 1].0 != meta_entry_name());
            match meta_fname_for(m, en.0) {
                Some(f2) => {
                    assert(meta_fname_for(m, e[e.len() - 1].0) != meta_fname_for(m, e[k].0));
                    assert(f2 != f);
                    lemma_add_lookup(pre, f2, en.1, sv_last_usn(pre) + 1, f);
                },
                None => {},
            }
        }
    }
}

/// The upload/download round trip: after ingesting a bundle, each
/// file entry whose client name no later entry overwrites downloads
/// as exactly the bytes that were uploaded for it. (Deletions run
/// before adds, so a deletion in the same bundle cannot efface it.)
pub proof fn lemma_upload_round_trip(
    s: MediaStoreV,
    m: Seq<(Seq<u8>, Option<Seq<u8>>)>,
    e: Seq<(Seq<u8>, Seq<u8>)>,
    k: int,
)
    requires
        0 <= k < e.len(),
        e[k].0 != meta_entry_name(),
        meta_fname_for(m, e[k].0) is Some,
        forall|j: int|
            k < j < e.len() && (#[trigger] e[j]).0 != meta_entry_name() ==> meta_fname_for(
                m,
                e[j].0,
            ) != meta_fname_for(m, e[k].0),
    ensures
        file_lookup(sv_apply_upload(s, m, e).files, meta_fname_for(m, e[k].0)->Some_0) == Some(
            e[k].1,
        ),
{
    lemma_adds_round_trip(sv_apply_removes(s, meta_removes(m)), e, m, k);
}

} // verus!
