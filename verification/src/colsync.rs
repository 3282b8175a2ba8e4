//! The collection sync state machine and the collection model it
//! drives: the ordered endpoint sequence of a sync transaction, the
//! pending-row chunk, grave exchange, and the sanity check.

use vstd::prelude::*;

verus! {

/// The collection sync endpoints.
#[derive(Clone, Copy, Debug, PartialEq, Eq, Structural)]
pub enum SyncMethod {
    HostKey,
    Meta,
    ApplyChanges,
    Start,
    ApplyGraves,
    Chunk,
    ApplyChunk,
    SanityCheck,
    Finish,
    FullUpload,
    FullDownload,
    Abort,
}

/// Where a sync transaction stands between requests.
#[derive(Clone, Copy, Debug, PartialEq, Eq, Structural)]
pub enum SyncState {
    Idle,
    MetaShown,
    Started,
    GravesApplied,
    Chunking,
    ApplyingChunks,
    ChangesApplied,
    SanityShown,
}

/// The legal transitions: meta, then start, optional grave exchange,
/// interleaved chunk transfer in both directions, applyChanges, the
/// sanity check, and finish; a full transfer runs from idle to idle;
/// abort returns to idle from anywhere.
pub open spec fn spec_step(s: SyncState, m: SyncMethod) -> Option<SyncState> {
    match (s, m) {
        (_, SyncMethod::Abort) => Some(SyncState::Idle),
        (SyncState::Idle, SyncMethod::Meta) => Some(SyncState::MetaShown),
        (SyncState::Idle, SyncMethod::FullUpload) => Some(SyncState::Idle),
        (SyncState::Idle, SyncMethod::FullDownload) => Some(SyncState::Idle),
        (SyncState::MetaShown, SyncMethod::Start) => Some(SyncState::Started),
        (SyncState::Started, SyncMethod::ApplyGraves) => Some(SyncState::GravesApplied),
        (SyncState::Started, SyncMethod::Chunk) => Some(SyncState::Chunking),
        (SyncState::Started, SyncMethod::ApplyChunk) => Some(SyncState::ApplyingChunks),
        (SyncState::Started, SyncMethod::ApplyChanges) => Some(SyncState::ChangesApplied),
        (SyncState::GravesApplied, SyncMethod::Chunk) => Some(SyncState::Chunking),
        (SyncState::GravesApplied, SyncMethod::ApplyChunk) => Some(SyncState::ApplyingChunks),
        (SyncState::GravesApplied, SyncMethod::ApplyChanges) => Some(SyncState::ChangesApplied),
        (SyncState::Chunking, SyncMethod::Chunk) => Some(SyncState::Chunking),
        (SyncState::Chunking, SyncMethod::ApplyChunk) => Some(SyncState::ApplyingChunks),
        (SyncState::Chunking, SyncMethod::ApplyChanges) => Some(SyncState::ChangesApplied),
        (SyncState::ApplyingChunks, SyncMethod::Chunk) => Some(SyncState::Chunking),
        (SyncState::ApplyingChunks, SyncMethod::ApplyChunk) => Some(SyncState::ApplyingChunks),
        (SyncState::ApplyingChunks, SyncMethod::ApplyChanges) => Some(SyncState::ChangesApplied),
        (SyncState::ChangesApplied, SyncMethod::SanityCheck) => Some(SyncState::SanityShown),
        (SyncState::SanityShown, SyncMethod::Finish) => Some(SyncState::Idle),
        _ => None,
    }
}

/// Steps the state machine; `None` refuses an out-of-order endpoint.
pub fn next_state(s: SyncState, m: SyncMethod) -> (r: Option<SyncState>)
    ensures
        r == spec_step(s, m),
{
    match (s, m) {
        (_, SyncMethod::Abort) => Some(SyncState::Idle),
        (SyncState::Idle, SyncMethod::Meta) => Some(SyncState::MetaShown),
        (SyncState::Idle, SyncMethod::FullUpload) => Some(SyncState::Idle),
        (SyncState::Idle, SyncMethod::FullDownload) => Some(SyncState::Idle),
        (SyncState::MetaShown, SyncMethod::Start) => Some(SyncState::Started),
        (SyncState::Started, SyncMethod::ApplyGraves) => Some(SyncState::GravesApplied),
        (SyncState::Started, SyncMethod::Chunk) => Some(SyncState::Chunking),
        (SyncState::Started, SyncMethod::ApplyChunk) => Some(SyncState::ApplyingChunks),
        (SyncState::Started, SyncMethod::ApplyChanges) => Some(SyncState::ChangesApplied),
        (SyncState::GravesApplied, SyncMethod::Chunk) => Some(SyncState::Chunking),
        (SyncState::GravesApplied, SyncMethod::ApplyChunk) => Some(SyncState::ApplyingChunks),
        (SyncState::GravesApplied, SyncMethod::ApplyChanges) => Some(SyncState::ChangesApplied),
        (SyncState::Chunking, SyncMethod::Chunk) => Some(SyncState::Chunking),
        (SyncState::Chunking, SyncMethod::ApplyChunk) => Some(SyncState::ApplyingChunks),
        (SyncState::Chunking, SyncMethod::ApplyChanges) => Some(SyncState::ChangesApplied),
        (SyncState::ApplyingChunks, SyncMethod::Chunk) => Some(SyncState::Chunking),
        (SyncState::ApplyingChunks, SyncMethod::ApplyChunk) => Some(SyncState::ApplyingChunks),
        (SyncState::ApplyingChunks, SyncMethod::ApplyChanges) => Some(SyncState::ChangesApplied),
        (SyncState::ChangesApplied, SyncMethod::SanityCheck) => Some(SyncState::SanityShown),
        (SyncState::SanityShown, SyncMethod::Finish) => Some(SyncState::Idle),
        _ => None,
    }
}

/// One collection row, as much of it as the sync core reads: its
/// object id and its USN stamp. `-1` marks a locally modified row
/// not yet stamped.
#[derive(Clone, Copy, Debug, PartialEq, Eq, Structural)]
pub struct Row {
    pub id: i64,
    pub usn: i32,
}

/// One graveyard record: a deleted object's id, its kind, and the
/// USN the deletion was stamped with.
#[derive(Clone, Copy, Debug, PartialEq, Eq, Structural)]
pub struct Grave {
    pub oid: i64,
    pub gtype: i32,
    pub usn: i32,
}

/// A bounded batch of pending rows sent server-to-client. This
/// implementation drains everything in one batch, so `done` is
/// always true.
pub struct Chunk {
    pub done: bool,
    pub revlog: Vec<Row>,
    pub cards: Vec<Row>,
    pub notes: Vec<Row>,
}

/// The collection model the sync core works on: the three row
/// tables, the graveyard, the collection USN, its modification time
/// and schema stamp, and whether a write transaction is open.
pub struct Collection {
    pub cards: Vec<Row>,
    pub notes: Vec<Row>,
    pub revlog: Vec<Row>,
    pub graves: Vec<Grave>,
    pub usn: i32,
    pub mtime: i64,
    pub schema: i64,
    pub in_transaction: bool,
    pub saved_cards: Vec<Row>,
    pub saved_notes: Vec<Row>,
    pub saved_revlog: Vec<Row>,
    pub saved_graves: Vec<Grave>,
}

/// The transaction snapshot of `a` and `b` is the same.
pub open spec fn same_snapshot(a: Collection, b: Collection) -> bool {
    &&& a.saved_cards@ == b.saved_cards@
    &&& a.saved_notes@ == b.saved_notes@
    &&& a.saved_revlog@ == b.saved_revlog@
    &&& a.saved_graves@ == b.saved_graves@
}

/// Copies a row table.
fn copy_rows(v: &Vec<Row>) -> (r: Vec<Row>)
    ensures
        r@ == v@,
{
    let mut r: Vec<Row> = Vec::new();
    let mut i: usize = 0;
    while i < v.len()
        invariant
            i <= v@.len(),
            r@ == v@.take(i as int),
        decreases v@.len() - i,
    {
        r.push(v[i]);
        i = i + 1;
    }
    proof {
        assert(v@.take(v@.len() as int) =~= v@);
    }
    r
}

/// Copies a graveyard.
fn copy_graves(v: &Vec<Grave>) -> (r: Vec<Grave>)
    ensures
        r@ == v@,
{
    let mut r: Vec<Grave> = Vec::new();
    let mut i: usize = 0;
    while i < v.len()
        invariant
            i <= v@.len(),
            r@ == v@.take(i as int),
        decreases v@.len() - i,
    {
        r.push(v[i]);
        i = i + 1;
    }
    proof {
        assert(v@.take(v@.len() as int) =~= v@);
    }
    r
}

/// True of a row awaiting its USN stamp.
pub open spec fn is_pending(r: Row) -> bool {
    r.usn == -1
}

/// The rows of `s` awaiting a stamp.
pub open spec fn pending_rows(s: Seq<Row>) -> Seq<Row> {
    s.filter(|r: Row| is_pending(r))
}

/// `s` with every pending row stamped `u`.
pub open spec fn stamped(s: Seq<Row>, u: i32) -> Seq<Row> {
    s.map_values(
        |r: Row|
            if is_pending(r) {
                Row { id: r.id, usn: u }
            } else {
                r
            },
    )
}

/// The graves newer than `client_usn`.
pub open spec fn graves_after(s: Seq<Grave>, client_usn: int) -> Seq<Grave> {
    s.filter(|g: Grave| g.usn > client_usn)
}

/// Takes the pending rows of one table and stamps them `u` in place.
fn drain_pending(rows: &mut Vec<Row>, u: i32) -> (r: Vec<Row>)
    ensures
        r@ == pending_rows(old(rows)@),
        final(rows)@ == stamped(old(rows)@, u),
{
    let ghost r0 = rows@;
    let mut pend: Vec<Row> = Vec::new();
    let mut out: Vec<Row> = Vec::new();
    let mut i: usize = 0;
    while i < rows.len()
        invariant
            i <= r0.len(),
            rows@ == r0,
            pend@ == pending_rows(r0.take(i as int)),
            out@ == stamped(r0.take(i as int), u),
        decreases r0.len() - i,
    {
        proof {
            reveal(Seq::filter);
            assert(r0.take(i + 1).drop_last() =~= r0.take(i as int));
            assert(r0.take(i + 1).last() == r0[i as int]);
        }
        let row = rows[i];
        if row.usn == -1 {
            pend.push(row);
            out.push(Row { id: row.id, usn: u });
        } else {
            out.push(row);
        }
        proof {
            assert(out@ =~= stamped(r0.take(i + 1), u));
        }
        i = i + 1;
    }
    proof {
        assert(r0.take(r0.len() as int) =~= r0);
    }
    *rows = out;
    pend
}

impl Collection {
    /// The collection's current USN.
    pub fn col_usn(&self) -> (r: i32)
        ensures
            r == self.usn,
    {
        self.usn
    }

    /// The server graves newer than the client's USN, what `start`
    /// returns.
    pub fn start_graves(&self, client_usn: i32) -> (r: Vec<Grave>)
        ensures
            r@ == graves_after(self.graves@, client_usn as int),
    {
        let mut r: Vec<Grave> = Vec::new();
        let mut i: usize = 0;
        while i < self.graves.len()
            invariant
                i <= self.graves@.len(),
                r@ == graves_after(self.graves@.take(i as int), client_usn as int),
            decreases self.graves@.len() - i,
        {
            proof {
                reveal(Seq::filter);
                assert(self.graves@.take(i + 1).drop_last() =~= self.graves@.take(i as int));
                assert(self.graves@.take(i + 1).last() == self.graves@[i as int]);
            }
            if self.graves[i].usn > client_usn {
                r.push(self.graves[i]);
            }
            i = i + 1;
        }
        proof {
            assert(self.graves@.take(self.graves@.len() as int) =~= self.graves@);
        }
        r
    }

    /// Applies the client's tombstones under the open transaction,
    /// each stamped with the server's USN.
    pub fn apply_graves(&mut self, chunk: &Vec<Grave>, server_usn: i32)
        requires
            old(self).in_transaction,
        ensures
            final(self).graves@ == old(self).graves@ + chunk@.map_values(
                |g: Grave| Grave { oid: g.oid, gtype: g.gtype, usn: server_usn },
            ),
            final(self).cards@ == old(self).cards@,
            final(self).notes@ == old(self).notes@,
            final(self).revlog@ == old(self).revlog@,
            final(self).usn == old(self).usn,
            final(self).mtime == old(self).mtime,
            final(self).schema == old(self).schema,
            final(self).in_transaction,
            same_snapshot(*final(self), *old(self)),
    {
        let ghost g0 = self.graves@;
        let ghost cv = chunk@.map_values(
            |g: Grave| Grave { oid: g.oid, gtype: g.gtype, usn: server_usn },
        );
        let mut i: usize = 0;
        while i < chunk.len()
            invariant
                i <= chunk@.len(),
                cv == chunk@.map_values(
                    |g: Grave| Grave { oid: g.oid, gtype: g.gtype, usn: server_usn },
                ),
                self.graves@ == g0 + cv.take(i as int),
                self.cards@ == old(self).cards@,
                self.notes@ == old(self).notes@,
                self.revlog@ == old(self).revlog@,
                self.usn == old(self).usn,
                self.mtime == old(self).mtime,
                self.schema == old(self).schema,
                self.in_transaction,
                same_snapshot(*self, *old(self)),
            decreases chunk@.len() - i,
        {
            let g = chunk[i];
            self.graves.push(Grave { oid: g.oid, gtype: g.gtype, usn: server_usn });
            proof {
                assert(self.graves@ =~= g0 + cv.take(i + 1));
            }
            i = i + 1;
        }
        proof {
            assert(cv.take(chunk@.len() as int) =~= cv);
        }
    }

    /// The chunk endpoint: gathers every pending row — revlog, then
    /// cards, then notes — stamps those rows with the server's USN,
    /// and reports the transfer done. Afterwards no row of the three
    /// tables awaits a stamp.
    pub fn chunk(&mut self, server_usn: i32) -> (r: Chunk)
        requires
            old(self).in_transaction,
            server_usn >= 0,
        ensures
            r.done,
            r.revlog@ == pending_rows(old(self).revlog@),
            r.cards@ == pending_rows(old(self).cards@),
            r.notes@ == pending_rows(old(self).notes@),
            final(self).revlog@ == stamped(old(self).revlog@, server_usn),
            final(self).cards@ == stamped(old(self).cards@, server_usn),
            final(self).notes@ == stamped(old(self).notes@, server_usn),
            forall|i: int|
                0 <= i < final(self).revlog@.len() ==> !is_pending(
                    #[trigger] final(self).revlog@[i],
                ),
            forall|i: int|
                0 <= i < final(self).cards@.len() ==> !is_pending(#[trigger] final(self).cards@[i]),
            forall|i: int|
                0 <= i < final(self).notes@.len() ==> !is_pending(#[trigger] final(self).notes@[i]),
            final(self).graves@ == old(self).graves@,
            final(self).usn == old(self).usn,
            final(self).mtime == old(self).mtime,
            final(self).schema == old(self).schema,
            final(self).in_transaction,
            same_snapshot(*final(self), *old(self)),
    {
        let revlog = drain_pending(&mut self.revlog, server_usn);
        let cards = drain_pending(&mut self.cards, server_usn);
        let notes = drain_pending(&mut self.notes, server_usn);
        Chunk { done: true, revlog, cards, notes }
    }

    /// The sanity check: OK exactly when the client's counts match
    /// the server's table sizes.
    pub fn sanity_check(&self, cards: usize, notes: usize, revlog: usize) -> (r: bool)
        ensures
            r == (cards == self.cards@.len() && notes == self.notes@.len() && revlog
                == self.revlog@.len()),
    {
        cards == self.cards.len() && notes == self.notes.len() && revlog == self.revlog.len()
    }

    /// Opens the write transaction `start` holds until `finish`,
    /// snapshotting the tables so abort can restore them.
    pub fn begin_trx(&mut self)
        requires
            !old(self).in_transaction,
        ensures
            final(self).in_transaction,
            final(self).cards@ == old(self).cards@,
            final(self).notes@ == old(self).notes@,
            final(self).revlog@ == old(self).revlog@,
            final(self).graves@ == old(self).graves@,
            final(self).usn == old(self).usn,
            final(self).mtime == old(self).mtime,
            final(self).schema == old(self).schema,
            final(self).saved_cards@ == old(self).cards@,
            final(self).saved_notes@ == old(self).notes@,
            final(self).saved_revlog@ == old(self).revlog@,
            final(self).saved_graves@ == old(self).graves@,
    {
        self.saved_cards = copy_rows(&self.cards);
        self.saved_notes = copy_rows(&self.notes);
        self.saved_revlog = copy_rows(&self.revlog);
        self.saved_graves = copy_graves(&self.graves);
        self.in_transaction = true;
    }

    /// Commits and closes the write transaction; `finish` returns
    /// the new modification time. The work done since `start` is
    /// kept.
    pub fn commit_trx(&mut self, mtime: i64)
        requires
            old(self).in_transaction,
        ensures
            !final(self).in_transaction,
            final(self).mtime == mtime,
            final(self).cards@ == old(self).cards@,
            final(self).notes@ == old(self).notes@,
            final(self).revlog@ == old(self).revlog@,
            final(self).graves@ == old(self).graves@,
            final(self).usn == old(self).usn,
            final(self).schema == old(self).schema,
            same_snapshot(*final(self), *old(self)),
    {
        self.in_transaction = false;
        self.mtime = mtime;
    }

    /// Abort: rolls an open transaction back — the tables return to
    /// what the snapshot taken at `start` holds — and succeeds
    /// silently without one.
    pub fn rollback_trx(&mut self)
        ensures
            !final(self).in_transaction,
            final(self).usn == old(self).usn,
            final(self).mtime == old(self).mtime,
            final(self).schema == old(self).schema,
            same_snapshot(*final(self), *old(self)),
            old(self).in_transaction ==> {
                &&& final(self).cards@ == old(self).saved_cards@
                &&& final(self).notes@ == old(self).saved_notes@
                &&& final(self).revlog@ == old(self).saved_revlog@
                &&& final(self).graves@ == old(self).saved_graves@
            },
            !old(self).in_transaction ==> {
                &&& final(self).cards@ == old(self).cards@
                &&& final(self).notes@ == old(self).notes@
                &&& final(self).revlog@ == old(self).revlog@
                &&& final(self).graves@ == old(self).graves@
            },
    {
        if self.in_transaction {
            self.cards = copy_rows(&self.saved_cards);
            self.notes = copy_rows(&self.saved_notes);
            self.revlog = copy_rows(&self.saved_revlog);
            self.graves = copy_graves(&self.saved_graves);
        }
        self.in_transaction = false;
    }

    /// The applyChunk endpoint: merges the client's rows into each
    /// table under the USN rule — the higher USN wins, a tie going
    /// to whichever side `client_newer` names.
    pub fn apply_chunk(&mut self, chunk: &Chunk, client_newer: bool)
        requires
            old(self).in_transaction,
            unique_ids(old(self).revlog@),
            unique_ids(old(self).cards@),
            unique_ids(old(self).notes@),
        ensures
            final(self).revlog@ == apply_rows(old(self).revlog@, chunk.revlog@, client_newer),
            final(self).cards@ == apply_rows(old(self).cards@, chunk.cards@, client_newer),
            final(self).notes@ == apply_rows(old(self).notes@, chunk.notes@, client_newer),
            unique_ids(final(self).revlog@),
            unique_ids(final(self).cards@),
            unique_ids(final(self).notes@),
            final(self).graves@ == old(self).graves@,
            final(self).usn == old(self).usn,
            final(self).mtime == old(self).mtime,
            final(self).schema == old(self).schema,
            final(self).in_transaction,
            same_snapshot(*final(self), *old(self)),
    {
        apply_table(&mut self.revlog, &chunk.revlog, client_newer);
        apply_table(&mut self.cards, &chunk.cards, client_newer);
        apply_table(&mut self.notes, &chunk.notes, client_newer);
    }
}

/// No two rows of a table share an id.
pub open spec fn unique_ids(s: Seq<Row>) -> bool {
    forall|i: int, j: int| 0 <= i < s.len() && 0 <= j < s.len() && i != j ==> s[i].id != s[j].id
}

/// The row with the given id, if any.
pub open spec fn row_lookup(s: Seq<Row>, id: i64) -> Option<Row>
    decreases s.len(),
{
    if s.len() == 0 {
        None
    } else if s.last().id == id {
        Some(s.last())
    } else {
        row_lookup(s.drop_last(), id)
    }
}

/// The merge rule: the higher USN wins; a tie goes to the client
/// exactly when it reported itself newer.
pub open spec fn incoming_wins(existing: Row, incoming: Row, client_newer: bool) -> bool {
    incoming.usn > existing.usn || (incoming.usn == existing.usn && client_newer)
}

/// The predicate keeping rows whose id is not `id`.
pub open spec fn row_id_ne(id: i64) -> spec_fn(Row) -> bool {
    |r: Row| r.id != id
}

/// One merged row: inserted when absent, replacing the old row when
/// the rule says the incoming side wins, kept otherwise.
pub open spec fn upsert_row(s: Seq<Row>, inc: Row, client_newer: bool) -> Seq<Row> {
    match row_lookup(s, inc.id) {
        None => s.push(inc),
        Some(e) => if incoming_wins(e, inc, client_newer) {
            s.filter(row_id_ne(inc.id)).push(inc)
        } else {
            s
        },
    }
}

/// A whole batch of merged rows, in batch order.
pub open spec fn apply_rows(s: Seq<Row>, inc: Seq<Row>, client_newer: bool) -> Seq<Row>
    decreases inc.len(),
{
    if inc.len() == 0 {
        s
    } else {
        upsert_row(apply_rows(s, inc.drop_last(), client_newer), inc.last(), client_newer)
    }
}

/// With unique ids, the row found at `i` is the lookup's answer.
proof fn lemma_row_lookup_unique(s: Seq<Row>, id: i64, i: int)
    requires
        unique_ids(s),
        0 <= i < s.len(),
        s[i].id == id,
    ensures
        row_lookup(s, id) == Some(s[i]),
    decreases s.len(),
{
    if i < s.len() - 1 {
        assert(s.last().id != id);
        assert(s.drop_last()[i] == s[i]);
        assert forall|a: int, b: int|
            0 <= a < s.drop_last().len() && 0 <= b < s.drop_last().len() && a
                != b implies (#[trigger] s.drop_last()[a]).id != (#[trigger] s.drop_last()[b]).id by {
            assert(s.drop_last()[a] == s[a] && s.drop_last()[b] == s[b]);
        }
        lemma_row_lookup_unique(s.drop_last(), id, i);
    }
}

/// An id no row carries looks up to nothing.
proof fn lemma_row_lookup_none(s: Seq<Row>, id: i64)
    requires
        forall|i: int| 0 <= i < s.len() ==> (#[trigger] s[i]).id != id,
    ensures
        row_lookup(s, id) is None,
    decreases s.len(),
{
    if s.len() > 0 {
        assert forall|i: int| 0 <= i < s.drop_last().len() implies (#[trigger] s.drop_last()[i]).id
            != id by {
            assert(s.drop_last()[i] == s[i]);
        }
        lemma_row_lookup_none(s.drop_last(), id);
    }
}

/// The index of the row with `id`, if one exists.
fn find_row_idx(rows: &Vec<Row>, id: i64) -> (r: Option<usize>)
    ensures
        match r {
            Some(i) => i < rows@.len() && rows@[i as int].id == id,
            None => forall|i: int| 0 <= i < rows@.len() ==> (#[trigger] rows@[i]).id != id,
        },
{
    let mut i: usize = 0;
    while i < rows.len()
        invariant
            i <= rows@.len(),
            forall|j: int| 0 <= j < i ==> (#[trigger] rows@[j]).id != id,
        decreases rows@.len() - i,
    {
        if rows[i].id == id {
            return Some(i);
        }
        i = i + 1;
    }
    None
}

/// Merges one incoming row under the rule.
fn upsert_exec(rows: &mut Vec<Row>, inc: Row, client_newer: bool)
    requires
        unique_ids(old(rows)@),
    ensures
        final(rows)@ == upsert_row(old(rows)@, inc, client_newer),
        unique_ids(final(rows)@),
{
    let ghost r0 = rows@;
    match find_row_idx(rows, inc.id) {
        None => {
            proof {
                lemma_row_lookup_none(r0, inc.id);
            }
            rows.push(inc);
        },
        Some(i) => {
            proof {
                lemma_row_lookup_unique(r0, inc.id, i as int);
            }
            let e = rows[i];
            if inc.usn > e.usn || (inc.usn == e.usn && client_newer) {
                rows.remove(i);
                proof {
                    assert forall|a: int|
                        0 <= a < r0.len() && a != i implies row_id_ne(inc.id)(
                        #[trigger] r0[a],
                    ) by {
                        assert(r0[a].id != r0[i as int].id);
                    }
                    crate::media::lemma_filter_unique_hit(r0, row_id_ne(inc.id), i as int);
                    assert(rows@ =~= r0.remove(i as int));
                }
                rows.push(inc);
                proof {
                    assert forall|a: int, b: int|
                        0 <= a < rows@.len() && 0 <= b < rows@.len() && a
                            != b implies (#[trigger] rows@[a]).id != (#[trigger] rows@[b]).id by {
                        if a < rows@.len() - 1 && b < rows@.len() - 1 {
                            let a0: int = if a < i {
                                a
                            } else {
                                a + 1
                            };
                            let b0: int = if b < i {
                                b
                            } else {
                                b + 1
                            };
                            assert(rows@[a] == r0[a0] && rows@[b] == r0[b0]);
                        } else {
                            let c: int = if a == rows@.len() - 1 {
                                b
                            } else {
                                a
                            };
                            if c < rows@.len() - 1 {
                                let c0: int = if c < i {
                                    c
                                } else {
                                    c + 1
                                };
                                assert(rows@[c] == r0[c0]);
                                assert(r0[c0].id != r0[i as int].id);
                            }
                        }
                    }
                }
            }
        },
    }
}

/// Merges a whole batch into one table.
fn apply_table(rows: &mut Vec<Row>, inc: &Vec<Row>, client_newer: bool)
    requires
        unique_ids(old(rows)@),
    ensures
        final(rows)@ == apply_rows(old(rows)@, inc@, client_newer),
        unique_ids(final(rows)@),
{
    let ghost r0 = rows@;
    let mut k: usize = 0;
    while k < inc.len()
        invariant
            k <= inc@.len(),
            rows@ == apply_rows(r0, inc@.take(k as int), client_newer),
            unique_ids(rows@),
        decreases inc@.len() - k,
    {
        proof {
            assert(inc@.take(k + 1).drop_last() =~= inc@.take(k as int));
            assert(inc@.take(k + 1).last() == inc@[k as int]);
        }
        upsert_exec(rows, inc[k], client_newer);
        k = k + 1;
    }
    proof {
        assert(inc@.take(inc@.len() as int) =~= inc@);
    }
}

} // verus!
