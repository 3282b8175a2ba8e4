//! The session store: a process-wide map from host-key to `Session`,
//! with an auxiliary lookup by the shorter media sync-key.

use crate::bytes::{bytes_eq, clone_bytes};
use crate::media::{lemma_filter_all_pass, lemma_filter_unique_hit};
use vstd::prelude::*;

verus! {

/// One authenticated client transaction's state, shared across the
/// requests of a sync.
pub struct Session {
    pub username: Vec<u8>,
    pub user_path: Vec<u8>,
    pub skey: Vec<u8>,
    pub client_usn: i32,
    pub server_usn: i32,
    pub client_newer: bool,
}

/// The mathematical value of a `Session`.
#[verifier::ext_equal]
pub ghost struct SessionV {
    pub username: Seq<u8>,
    pub user_path: Seq<u8>,
    pub skey: Seq<u8>,
    pub client_usn: int,
    pub server_usn: int,
    pub client_newer: bool,
}

impl View for Session {
    type V = SessionV;

    open spec fn view(&self) -> SessionV {
        SessionV {
            username: self.username@,
            user_path: self.user_path@,
            skey: self.skey@,
            client_usn: self.client_usn as int,
            server_usn: self.server_usn as int,
            client_newer: self.client_newer,
        }
    }
}

impl Session {
    /// A fresh session for `username`, rooted at `user_path`, with
    /// the media sync-key `skey`. The USNs start at 0 and the
    /// direction flag down until `start` records the client's.
    pub fn new(username: Vec<u8>, user_path: Vec<u8>, skey: Vec<u8>) -> (r: Session)
        ensures
            r@ == (SessionV {
                username: username@,
                user_path: user_path@,
                skey: skey@,
                client_usn: 0,
                server_usn: 0,
                client_newer: false,
            }),
    {
        Session { username, user_path, skey, client_usn: 0, server_usn: 0, client_newer: false }
    }
}

/// Copies a session.
pub fn clone_session(s: &Session) -> (r: Session)
    ensures
        r@ == s@,
{
    Session {
        username: clone_bytes(&s.username),
        user_path: clone_bytes(&s.user_path),
        skey: clone_bytes(&s.skey),
        client_usn: s.client_usn,
        server_usn: s.server_usn,
        client_newer: s.client_newer,
    }
}

/// The session bound to host-key `k`, if any.
pub open spec fn assoc(m: Seq<(Seq<u8>, SessionV)>, k: Seq<u8>) -> Option<SessionV>
    decreases m.len(),
{
    if m.len() == 0 {
        None
    } else if m.last().0 == k {
        Some(m.last().1)
    } else {
        assoc(m.drop_last(), k)
    }
}

/// The session whose sync-key is `sk`, if any; the latest one wins.
pub open spec fn assoc_by_skey(m: Seq<(Seq<u8>, SessionV)>, sk: Seq<u8>) -> Option<SessionV>
    decreases m.len(),
{
    if m.len() == 0 {
        None
    } else if m.last().1.skey == sk {
        Some(m.last().1)
    } else {
        assoc_by_skey(m.drop_last(), sk)
    }
}

/// The predicate keeping entries whose host-key is not `k`.
pub open spec fn key_ne(k: Seq<u8>) -> spec_fn((Seq<u8>, SessionV)) -> bool {
    |p: (Seq<u8>, SessionV)| p.0 != k
}

/// Saving under `k`: any earlier binding of `k` gives way, the new
/// one goes last.
pub open spec fn sv_save(m: Seq<(Seq<u8>, SessionV)>, k: Seq<u8>, s: SessionV) -> Seq<
    (Seq<u8>, SessionV),
> {
    m.filter(key_ne(k)).push((k, s))
}

/// The session store. Entries are keyed by host-key; no key occurs
/// twice.
pub struct SessionManager {
    pub sessions: Vec<(Vec<u8>, Session)>,
}

impl View for SessionManager {
    type V = Seq<(Seq<u8>, SessionV)>;

    open spec fn view(&self) -> Seq<(Seq<u8>, SessionV)> {
        self.sessions@.map_values(|p: (Vec<u8>, Session)| (p.0@, p.1@))
    }
}

impl SessionManager {
    /// No host-key occurs twice.
    pub open spec fn wf(self) -> bool {
        forall|i: int, j: int|
            0 <= i < self@.len() && 0 <= j < self@.len() && i != j ==> self@[i].0 != self@[j].0
    }

    /// An empty store.
    pub fn new() -> (r: SessionManager)
        ensures
            r.wf(),
            r@ == Seq::<(Seq<u8>, SessionV)>::empty(),
    {
        let r = SessionManager { sessions: Vec::new() };
        proof {
            assert(r@ =~= Seq::<(Seq<u8>, SessionV)>::empty());
        }
        r
    }

    /// The index of the entry for `hkey`, if one exists.
    fn find_idx(&self, hkey: &Vec<u8>) -> (r: Option<usize>)
        ensures
            match r {
                Some(i) => i < self@.len() && self@[i as int].0 == hkey@,
                None => forall|i: int| 0 <= i < self@.len() ==> (#[trigger] self@[i]).0 != hkey@,
            },
    {
        let mut i: usize = 0;
        while i < self.sessions.len()
            invariant
                i <= self@.len(),
                forall|j: int| 0 <= j < i ==> (#[trigger] self@[j]).0 != hkey@,
            decreases self@.len() - i,
        {
            if bytes_eq(&self.sessions[i].0, hkey) {
                return Some(i);
            }
            i = i + 1;
        }
        None
    }

    /// Binds `hkey` to `session`, replacing any earlier binding.
    pub fn save(&mut self, hkey: Vec<u8>, session: Session)
        requires
            old(self).wf(),
        ensures
            final(self).wf(),
            final(self)@ == sv_save(old(self)@, hkey@, session@),
    {
        let ghost m0 = self@;
        match self.find_idx(&hkey) {
            Some(i) => {
                self.sessions.remove(i);
                proof {
                    assert forall|a: int|
                        0 <= a < m0.len() && a != i implies key_ne(hkey@)(#[trigger] m0[a]) by {
                        assert(m0[a].0 != m0[i as int].0);
                    }
                    lemma_filter_unique_hit(m0, key_ne(hkey@), i as int);
                    assert(self@ =~= m0.remove(i as int));
                }
            },
            None => {
                proof {
                    assert forall|a: int| 0 <= a < m0.len() implies key_ne(hkey@)(
                        #[trigger] m0[a],
                    ) by {
                        assert(m0[a].0 != hkey@);
                    }
                    lemma_filter_all_pass(m0, key_ne(hkey@));
                    assert(self@ =~= m0);
                }
            },
        }
        let ghost mid = self@;
        self.sessions.push((hkey, session));
        proof {
            assert(self@ =~= mid.push((hkey@, session@)));
            assert(self@ =~= sv_save(m0, hkey@, session@));
            assert forall|a: int, b: int|
                0 <= a < self@.len() && 0 <= b < self@.len() && a != b implies (
            #[trigger] self@[a]).0 != (#[trigger] self@[b]).0 by {
                if a < self@.len() - 1 && b < self@.len() - 1 {
                    crate::media::lemma_filter_sub(m0, key_ne(hkey@), a);
                    crate::media::lemma_filter_sub(m0, key_ne(hkey@), b);
                }
                if a == self@.len() - 1 || b == self@.len() - 1 {
                    let c: int = if a == self@.len() - 1 {
                        b
                    } else {
                        a
                    };
                    if c < self@.len() - 1 {
                        Seq::lemma_filter_pred(m0, key_ne(hkey@), c);
                    }
                }
            }
        }
    }

    /// Rebinds `hkey`; the same operation as `save`, under the name
    /// callers use mid-transaction.
    pub fn update(&mut self, hkey: Vec<u8>, session: Session)
        requires
            old(self).wf(),
        ensures
            final(self).wf(),
            final(self)@ == sv_save(old(self)@, hkey@, session@),
    {
        self.save(hkey, session);
    }

    /// The session bound to `hkey`, if any.
    pub fn load(&self, hkey: &Vec<u8>) -> (r: Option<Session>)
        requires
            self.wf(),
        ensures
            match r {
                Some(s) => assoc(self@, hkey@) == Some(s@),
                None => assoc(self@, hkey@) is None,
            },
    {
        match self.find_idx(hkey) {
            Some(i) => {
                proof {
                    lemma_assoc_unique(self@, hkey@, i as int);
                }
                Some(clone_session(&self.sessions[i].1))
            },
            None => {
                proof {
                    lemma_assoc_none(self@, hkey@);
                }
                None
            },
        }
    }

    /// The session whose sync-key is `skey`, if any.
    pub fn load_from_skey(&self, skey: &Vec<u8>) -> (r: Option<Session>)
        ensures
            match r {
                Some(s) => assoc_by_skey(self@, skey@) == Some(s@),
                None => assoc_by_skey(self@, skey@) is None,
            },
    {
        let mut i: usize = self.sessions.len();
        proof {
            assert(self@.take(self@.len() as int) =~= self@);
        }
        while i > 0
            invariant
                i <= self@.len(),
                assoc_by_skey(self@, skey@) == assoc_by_skey(self@.take(i as int), skey@),
            decreases i,
        {
            i = i - 1;
            proof {
                assert(self@.take(i + 1).drop_last() =~= self@.take(i as int));
                assert(self@.take(i + 1).last() == self@[i as int]);
            }
            if bytes_eq(&self.sessions[i].1.skey, skey) {
                return Some(clone_session(&self.sessions[i].1));
            }
        }
        proof {
            assert(self@.take(0) =~= Seq::<(Seq<u8>, SessionV)>::empty());
        }
        None
    }
}

/// With unique keys, the binding found at `i` is the binding.
proof fn lemma_assoc_unique(m: Seq<(Seq<u8>, SessionV)>, k: Seq<u8>, i: int)
    requires
        forall|a: int, b: int|
            0 <= a < m.len() && 0 <= b < m.len() && a != b ==> m[a].0 != m[b].0,
        0 <= i < m.len(),
        m[i].0 == k,
    ensures
        assoc(m, k) == Some(m[i].1),
    decreases m.len(),
{
    if i < m.len() - 1 {
        assert(m.last().0 != k);
        assert(m.drop_last()[i] == m[i]);
        assert forall|a: int, b: int|
            0 <= a < m.drop_last().len() && 0 <= b < m.drop_last().len() && a
                != b implies (#[trigger] m.drop_last()[a]).0 != (#[trigger] m.drop_last()[b]).0 by {
            assert(m.drop_last()[a] == m[a] && m.drop_last()[b] == m[b]);
        }
        lemma_assoc_unique(m.drop_last(), k, i);
    }
}

/// A key no entry carries is bound to nothing.
proof fn lemma_assoc_none(m: Seq<(Seq<u8>, SessionV)>, k: Seq<u8>)
    requires
        forall|i: int| 0 <= i < m.len() ==> (#[trigger] m[i]).0 != k,
    ensures
        assoc(m, k) is None,
    decreases m.len(),
{
    if m.len() > 0 {
        assert forall|i: int| 0 <= i < m.drop_last().len() implies (#[trigger] m.drop_last()[i]).0
            != k by {
            assert(m.drop_last()[i] == m[i]);
        }
        lemma_assoc_none(m.drop_last(), k);
    }
}

/// A just-saved host-key loads back exactly the session it was bound
/// to — in particular one carrying the username it was issued for.
pub proof fn lemma_save_then_load(m: Seq<(Seq<u8>, SessionV)>, k: Seq<u8>, s: SessionV)
    ensures
        assoc(sv_save(m, k, s), k) == Some(s),
{
    let m2 = sv_save(m, k, s);
    assert(m2.last() == (k, s));
}

} // verus!
