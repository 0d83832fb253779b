//! The session fabric: each connected player's outbound queue, and the
//! subscription index that the disconnect sweep drains.
//!
//! The fabric is a value; the transport serializes access around it. Its
//! contracts speak of two partial maps: player to outbound queue, and player
//! to subscription entries.

use vstd::prelude::*;

use crate::codec::encode_output_view;
use crate::message::{OutputMessage, OutputMessageView};

verus! {

/// The lobbies of one lobby type a player is subscribed to.
pub struct SubEntry {
    pub type_: Vec<u8>,
    pub ids: Vec<Vec<u8>>,
}

struct Session {
    player_id: u64,
    outbox: Vec<Vec<u8>>,
}

struct PlayerSubs {
    player_id: u64,
    entries: Vec<SubEntry>,
}

pub struct SessionManager {
    sessions: Vec<Session>,
    subscriptions: Vec<PlayerSubs>,
}

pub open spec fn distinct_seqs(v: Seq<Seq<u8>>) -> bool {
    forall|i: int, j: int| #![trigger v[i], v[j]] 0 <= i && i < j && j < v.len() ==> v[i] !== v[j]
}

pub open spec fn distinct_u64(v: Seq<u64>) -> bool {
    forall|i: int, j: int| #![trigger v[i], v[j]] 0 <= i && i < j && j < v.len() ==> v[i] != v[j]
}

/// A list of byte strings, abstracted to their contents.
pub open spec fn bytes_view(v: Seq<Vec<u8>>) -> Seq<Seq<u8>> {
    v.map_values(|x: Vec<u8>| x@)
}

/// What one subscription entry says: a lobby type and the subscribed ids.
pub open spec fn entry_view(e: SubEntry) -> (Seq<u8>, Seq<Seq<u8>>) {
    (e.type_@, bytes_view(e.ids@))
}

/// Entries are one per lobby type, and ids are listed once each.
pub open spec fn entries_wf(es: Seq<(Seq<u8>, Seq<Seq<u8>>)>) -> bool {
    &&& forall|i: int, j: int| #![trigger es[i], es[j]] 0 <= i && i < j && j < es.len() ==> es[i].0 !== es[j].0
    &&& forall|i: int| 0 <= i && i < es.len() ==> distinct_seqs((#[trigger] es[i]).1)
}

/// The set of (lobby type, lobby id) pairs named by subscription entries.
pub open spec fn pairs_of(es: Seq<(Seq<u8>, Seq<Seq<u8>>)>) -> Set<(Seq<u8>, Seq<u8>)> {
    Set::new(
        |p: (Seq<u8>, Seq<u8>)|
            exists|i: int| 0 <= i && i < es.len() && (#[trigger] es[i]).0 == p.0 && es[i].1.contains(
                p.1,
            ),
    )
}

spec fn sess_distinct(ss: Seq<Session>) -> bool {
    forall|i: int, j: int|
        #![trigger ss[i], ss[j]]
        0 <= i && i < j && j < ss.len() ==> ss[i].player_id != ss[j].player_id
}

spec fn subs_distinct(ss: Seq<PlayerSubs>) -> bool {
    forall|i: int, j: int|
        #![trigger ss[i], ss[j]]
        0 <= i && i < j && j < ss.len() ==> ss[i].player_id != ss[j].player_id
}

spec fn sess_has(ss: Seq<Session>, pid: u64) -> bool {
    exists|i: int| 0 <= i && i < ss.len() && (#[trigger] ss[i]).player_id == pid
}

spec fn sess_idx(ss: Seq<Session>, pid: u64) -> int {
    choose|i: int| 0 <= i && i < ss.len() && (#[trigger] ss[i]).player_id == pid
}

spec fn subs_has(ss: Seq<PlayerSubs>, pid: u64) -> bool {
    exists|i: int| 0 <= i && i < ss.len() && (#[trigger] ss[i]).player_id == pid
}

spec fn subs_idx(ss: Seq<PlayerSubs>, pid: u64) -> int {
    choose|i: int| 0 <= i && i < ss.len() && (#[trigger] ss[i]).player_id == pid
}

impl SessionManager {
    /// The player has a live session.
    pub closed spec fn has_session(&self, pid: u64) -> bool {
        sess_has(self.sessions@, pid)
    }

    /// The encoded messages queued for the player, oldest first.
    pub closed spec fn outbox_of(&self, pid: u64) -> Seq<Seq<u8>> {
        bytes_view(self.sessions@[sess_idx(self.sessions@, pid)].outbox@)
    }

    /// The player has a subscription set (it may be empty).
    pub closed spec fn has_subs(&self, pid: u64) -> bool {
        subs_has(self.subscriptions@, pid)
    }

    /// The player's subscription entries, in insertion order.
    pub closed spec fn subs_of(&self, pid: u64) -> Seq<(Seq<u8>, Seq<Seq<u8>>)> {
        self.subscriptions@[subs_idx(self.subscriptions@, pid)].entries@.map_values(
            |e: SubEntry| entry_view(e),
        )
    }

    /// The set of lobbies the player is subscribed to.
    pub open spec fn sub_pairs(&self, pid: u64) -> Set<(Seq<u8>, Seq<u8>)> {
        if self.has_subs(pid) {
            pairs_of(self.subs_of(pid))
        } else {
            Set::empty()
        }
    }

    /// Player ids are unique on both maps, and each player's entries are
    /// free of duplicates.
    pub closed spec fn wf(&self) -> bool {
        &&& sess_distinct(self.sessions@)
        &&& subs_distinct(self.subscriptions@)
        &&& forall|k: int|
            0 <= k && k < self.subscriptions@.len() ==> entries_wf(
                (#[trigger] self.subscriptions@[k]).entries@.map_values(
                    |e: SubEntry| entry_view(e),
                ),
            )
    }
}

proof fn lemma_sess_pick(ss: Seq<Session>, i: int)
    requires
        sess_distinct(ss),
        0 <= i && i < ss.len(),
    ensures
        sess_has(ss, ss[i].player_id),
        sess_idx(ss, ss[i].player_id) == i,
{
    let pid = ss[i].player_id;
    assert(sess_has(ss, pid));
    let k = sess_idx(ss, pid);
    if k != i {
        assert(ss[k].player_id == ss[i].player_id);
        assert(false);
    }
}

proof fn lemma_subs_pick(ss: Seq<PlayerSubs>, i: int)
    requires
        subs_distinct(ss),
        0 <= i && i < ss.len(),
    ensures
        subs_has(ss, ss[i].player_id),
        subs_idx(ss, ss[i].player_id) == i,
{
    let pid = ss[i].player_id;
    assert(subs_has(ss, pid));
    let k = subs_idx(ss, pid);
    if k != i {
        assert(ss[k].player_id == ss[i].player_id);
        assert(false);
    }
}

fn clone_bytes(v: &Vec<u8>) -> (r: Vec<u8>)
    ensures
        r@ == v@,
{
    let mut r: Vec<u8> = Vec::new();
    let mut i: usize = 0;
    while i < v.len()
        invariant
            i <= v@.len(),
            r@ == v@.subrange(0, i as int),
        decreases v@.len() - i,
    {
        r.push(v[i]);
        assert(v@.subrange(0, i + 1 as int) =~= v@.subrange(0, i as int).push(v@[i as int]));
        i = i + 1;
    }
    assert(v@.subrange(0, v@.len() as int) =~= v@);
    r
}

fn bytes_eq(a: &Vec<u8>, b: &Vec<u8>) -> (r: bool)
    ensures
        r == (a@ == b@),
{
    if a.len() != b.len() {
        assert(a@ != b@);
        return false;
    }
    let n = a.len();
    let mut i: usize = 0;
    while i < n
        invariant
            i <= n,
            n == a@.len() && n == b@.len(),
            forall|j: int| 0 <= j && j < i ==> a@[j] == b@[j],
        decreases n - i,
    {
        if a[i] != b[i] {
            return false;
        }
        i = i + 1;
    }
    assert(a@ =~= b@);
    true
}

impl SessionManager {
    pub fn new() -> (r: Self)
        ensures
            r.wf(),
            forall|q: u64| !r.has_session(q) && !r.has_subs(q),
    {
        SessionManager { sessions: Vec::new(), subscriptions: Vec::new() }
    }

    fn find_session(&self, pid: u64) -> (r: Option<usize>)
        ensures
            match r {
                Some(i) => i < self.sessions@.len() && self.sessions@[i as int].player_id == pid
                    && self.has_session(pid),
                None => !self.has_session(pid),
            },
    {
        let mut i: usize = 0;
        while i < self.sessions.len()
            invariant
                i <= self.sessions@.len(),
                forall|j: int| 0 <= j && j < i ==> (#[trigger] self.sessions@[j]).player_id != pid,
            decreases self.sessions@.len() - i,
        {
            if self.sessions[i].player_id == pid {
                return Some(i);
            }
            i = i + 1;
        }
        None
    }

    fn find_subs(&self, pid: u64) -> (r: Option<usize>)
        ensures
            match r {
                Some(i) => i < self.subscriptions@.len() && self.subscriptions@[i as int].player_id
                    == pid && self.has_subs(pid),
                None => !self.has_subs(pid),
            },
    {
        let mut i: usize = 0;
        while i < self.subscriptions.len()
            invariant
                i <= self.subscriptions@.len(),
                forall|j: int|
                    0 <= j && j < i ==> (#[trigger] self.subscriptions@[j]).player_id != pid,
            decreases self.subscriptions@.len() - i,
        {
            if self.subscriptions[i].player_id == pid {
                return Some(i);
            }
            i = i + 1;
        }
        None
    }

    /// The player is connected: a subscription set exists for it. The
    /// transport checks this before routing creates and joins.
    pub fn is_connected(&self, pid: u64) -> (r: bool)
        ensures
            r == self.has_subs(pid),
    {
        match self.find_subs(pid) {
            Some(_) => true,
            None => false,
        }
    }

    /// Inserts the session, queues the `ConnectAck`, and starts the player
    /// with an empty subscription set. A session already present under the
    /// same id is replaced.
    pub fn connect(&mut self, correlation_id: &Vec<u8>, player_id: u64)
        requires
            old(self).wf(),
        ensures
            final(self).wf(),
            final(self).has_session(player_id),
            final(self).outbox_of(player_id) == seq![
                encode_output_view(
                    OutputMessageView::Connect { correlation_id: correlation_id@, success: true },
                ),
            ],
            final(self).has_subs(player_id),
            final(self).subs_of(player_id) == Seq::<(Seq<u8>, Seq<Seq<u8>>)>::empty(),
            forall|q: u64| q != player_id ==> final(self).has_session(q) == old(self).has_session(q),
            forall|q: u64|
                q != player_id && final(self).has_session(q) ==> final(self).outbox_of(q) == old(self).outbox_of(
                    q,
                ),
            forall|q: u64| q != player_id ==> final(self).has_subs(q) == old(self).has_subs(q),
            forall|q: u64|
                q != player_id && final(self).has_subs(q) ==> final(self).subs_of(q) == old(self).subs_of(q),
    {
        let ack = OutputMessage::Connect { correlation_id: clone_bytes(correlation_id), success: true };
        let raw = ack.encode();
        let mut outbox: Vec<Vec<u8>> = Vec::new();
        outbox.push(raw);
        let session = Session { player_id, outbox };
        proof {
            assert(bytes_view(session.outbox@) =~= seq![
                encode_output_view(
                    OutputMessageView::Connect { correlation_id: correlation_id@, success: true },
                ),
            ]);
        }
        let ti: usize;
        match self.find_session(player_id) {
            Some(i) => {
                self.sessions[i] = session;
                ti = i;
            },
            None => {
                self.sessions.push(session);
                ti = self.sessions.len() - 1;
            },
        }
        proof {
            let ss0 = old(self).sessions@;
            let ss1 = self.sessions@;
            assert(ss1[ti as int].player_id == player_id);
            assert forall|k: int| 0 <= k && k < ss1.len() && k != ti implies k < ss0.len() && (
            #[trigger] ss1[k]) == ss0[k] && ss0[k].player_id != player_id by {
                assert(ss1[k] == ss0[k]);
                if sess_has(ss0, player_id) {
                    assert(ss0[ti as int].player_id == player_id);
                }
            }
        }
        let subs = PlayerSubs { player_id, entries: Vec::new() };
        let tk: usize;
        match self.find_subs(player_id) {
            Some(k) => {
                self.subscriptions[k] = subs;
                tk = k;
            },
            None => {
                self.subscriptions.push(subs);
                tk = self.subscriptions.len() - 1;
            },
        }
        proof {
            let sb0 = old(self).subscriptions@;
            let sb1 = self.subscriptions@;
            assert(sb1[tk as int].player_id == player_id && sb1[tk as int].entries@.len() == 0);
            assert forall|k: int| 0 <= k && k < sb1.len() && k != tk implies k < sb0.len() && (
            #[trigger] sb1[k]) == sb0[k] && sb0[k].player_id != player_id by {
                assert(sb1[k] == sb0[k]);
                if subs_has(sb0, player_id) {
                    assert(sb0[tk as int].player_id == player_id);
                }
            }
            self.lemma_connect_post(*old(self), player_id, ti as int, tk as int);
            assert(self.outbox_of(player_id) =~= seq![
                encode_output_view(
                    OutputMessageView::Connect { correlation_id: correlation_id@, success: true },
                ),
            ]);
        }
    }

    proof fn lemma_connect_post(&self, prev: Self, pid: u64, ti: int, tk: int)
        requires
            prev.wf(),
            0 <= ti && ti < self.sessions@.len(),
            self.sessions@[ti].player_id == pid,
            ti < prev.sessions@.len() ==> prev.sessions@[ti].player_id == pid,
            prev.sessions@.len() <= self.sessions@.len(),
            forall|k: int|
                0 <= k && k < self.sessions@.len() && k != ti ==> k < prev.sessions@.len() && (
                #[trigger] self.sessions@[k]) == prev.sessions@[k] && prev.sessions@[k].player_id
                    != pid,
            0 <= tk && tk < self.subscriptions@.len(),
            self.subscriptions@[tk].player_id == pid,
            self.subscriptions@[tk].entries@.len() == 0,
            tk < prev.subscriptions@.len() ==> prev.subscriptions@[tk].player_id == pid,
            prev.subscriptions@.len() <= self.subscriptions@.len(),
            forall|k: int|
                0 <= k && k < self.subscriptions@.len() && k != tk ==> k
                    < prev.subscriptions@.len() && (#[trigger] self.subscriptions@[k])
                    == prev.subscriptions@[k] && prev.subscriptions@[k].player_id != pid,
        ensures
            self.wf(),
            self.has_session(pid),
            sess_idx(self.sessions@, pid) == ti,
            self.has_subs(pid),
            self.subs_of(pid) == Seq::<(Seq<u8>, Seq<Seq<u8>>)>::empty(),
            forall|q: u64| q != pid ==> self.has_session(q) == prev.has_session(q),
            forall|q: u64|
                q != pid && self.has_session(q) ==> self.outbox_of(q) == prev.outbox_of(q),
            forall|q: u64| q != pid ==> self.has_subs(q) == prev.has_subs(q),
            forall|q: u64| q != pid && self.has_subs(q) ==> self.subs_of(q) == prev.subs_of(q),
    {
        let ss0 = prev.sessions@;
        let ss1 = self.sessions@;
        let sb0 = prev.subscriptions@;
        let sb1 = self.subscriptions@;
        assert(sess_distinct(ss1)) by {
            assert forall|a: int, b: int|
                #![trigger ss1[a], ss1[b]]
                0 <= a && a < b && b < ss1.len() implies ss1[a].player_id != ss1[b].player_id by {
                if a != ti && b != ti {
                    assert(ss1[a] == ss0[a] && ss1[b] == ss0[b]);
                }
            }
        }
        assert(subs_distinct(sb1)) by {
            assert forall|a: int, b: int|
                #![trigger sb1[a], sb1[b]]
                0 <= a && a < b && b < sb1.len() implies sb1[a].player_id != sb1[b].player_id by {
                if a != tk && b != tk {
                    assert(sb1[a] == sb0[a] && sb1[b] == sb0[b]);
                }
            }
        }
        assert forall|k: int| 0 <= k && k < sb1.len() implies entries_wf(
            (#[trigger] sb1[k]).entries@.map_values(|e: SubEntry| entry_view(e)),
        ) by {
            if k == tk {
                assert(sb1[k].entries@.map_values(|e: SubEntry| entry_view(e)).len() == 0);
            } else {
                assert(sb1[k] == sb0[k]);
            }
        }
        lemma_sess_pick(ss1, ti);
        lemma_subs_pick(sb1, tk);
        assert(self.subs_of(pid) =~= Seq::<(Seq<u8>, Seq<Seq<u8>>)>::empty());
        assert forall|q: u64| q != pid implies self.has_session(q) == prev.has_session(q) && (
        self.has_session(q) ==> self.outbox_of(q) == prev.outbox_of(q)) by {
            if prev.has_session(q) {
                let oi = sess_idx(ss0, q);
                assert(0 <= oi && oi < ss0.len() && ss0[oi].player_id == q);
                assert(oi != ti);
                assert(ss1[oi] == ss0[oi]);
                lemma_sess_pick(ss1, oi);
                lemma_sess_pick(ss0, oi);
            }
            if self.has_session(q) {
                let ni = sess_idx(ss1, q);
                assert(0 <= ni && ni < ss1.len() && ss1[ni].player_id == q);
                assert(ni != ti);
                assert(ss1[ni] == ss0[ni]);
                lemma_sess_pick(ss0, ni);
            }
        }
        assert forall|q: u64| q != pid implies self.has_subs(q) == prev.has_subs(q) && (
        self.has_subs(q) ==> self.subs_of(q) == prev.subs_of(q)) by {
            if prev.has_subs(q) {
                let oi = subs_idx(sb0, q);
                assert(0 <= oi && oi < sb0.len() && sb0[oi].player_id == q);
                assert(oi != tk);
                assert(sb1[oi] == sb0[oi]);
                lemma_subs_pick(sb1, oi);
                lemma_subs_pick(sb0, oi);
            }
            if self.has_subs(q) {
                let ni = subs_idx(sb1, q);
                assert(0 <= ni && ni < sb1.len() && sb1[ni].player_id == q);
                assert(ni != tk);
                assert(sb1[ni] == sb0[ni]);
                lemma_subs_pick(sb0, ni);
            }
        }
    }

    /// Encodes the message once and queues it for the player; a missing
    /// session is a silent drop.
    pub fn send(&mut self, player_id: u64, message: &OutputMessage)
        requires
            old(self).wf(),
        ensures
            final(self).wf(),
            final(self).has_session(player_id) == old(self).has_session(player_id),
            old(self).has_session(player_id) ==> final(self).outbox_of(player_id) == old(self).outbox_of(
                player_id,
            ).push(encode_output_view(message@)),
            forall|q: u64| q != player_id ==> final(self).has_session(q) == old(self).has_session(q),
            forall|q: u64|
                q != player_id && final(self).has_session(q) ==> final(self).outbox_of(q) == old(self).outbox_of(
                    q,
                ),
            forall|q: u64|
                final(self).has_subs(q) == old(self).has_subs(q) && (final(self).has_subs(q) ==> final(self).subs_of(q)
                    == old(self).subs_of(q)),
    {
        let raw = message.encode();
        match self.find_session(player_id) {
            None => {},
            Some(i) => {
                proof {
                    lemma_sess_pick(old(self).sessions@, i as int);
                }
                self.sessions[i].outbox.push(raw);
                proof {
                    self.lemma_send_post(*old(self), player_id, i as int);
                }
            },
        }
    }

    proof fn lemma_send_post(&self, prev: Self, pid: u64, i: int)
        requires
            prev.wf(),
            0 <= i && i < prev.sessions@.len(),
            prev.sessions@[i].player_id == pid,
            self.subscriptions@ == prev.subscriptions@,
            self.sessions@ == prev.sessions@.update(i, self.sessions@[i]),
            self.sessions@[i].player_id == pid,
            self.sessions@[i].outbox@ == prev.sessions@[i].outbox@.push(
                self.sessions@[i].outbox@.last(),
            ),
        ensures
            self.wf(),
            self.has_session(pid),
            self.outbox_of(pid) == prev.outbox_of(pid).push(
                self.sessions@[i].outbox@.last()@,
            ),
            forall|q: u64| self.has_session(q) == prev.has_session(q),
            forall|q: u64|
                q != pid && self.has_session(q) ==> self.outbox_of(q) == prev.outbox_of(q),
            forall|q: u64|
                self.has_subs(q) == prev.has_subs(q) && (self.has_subs(q) ==> self.subs_of(q)
                    == prev.subs_of(q)),
    {
        let ss0 = prev.sessions@;
        let ss1 = self.sessions@;
        assert(sess_distinct(ss1)) by {
            assert forall|a: int, b: int|
                #![trigger ss1[a], ss1[b]]
                0 <= a && a < b && b < ss1.len() implies ss1[a].player_id != ss1[b].player_id by {
                assert(ss1[a].player_id == ss0[a].player_id);
                assert(ss1[b].player_id == ss0[b].player_id);
            }
        }
        lemma_sess_pick(ss1, i);
        lemma_sess_pick(ss0, i);
        assert(self.outbox_of(pid) =~= prev.outbox_of(pid).push(
            self.sessions@[i].outbox@.last()@,
        ));
        assert forall|q: u64| self.has_session(q) == prev.has_session(q) && (q != pid
            && self.has_session(q) ==> self.outbox_of(q) == prev.outbox_of(q)) by {
            if prev.has_session(q) {
                let oi = sess_idx(ss0, q);
                assert(0 <= oi && oi < ss0.len() && ss0[oi].player_id == q);
                assert(ss1[oi].player_id == q);
                lemma_sess_pick(ss1, oi);
                if q != pid {
                    assert(oi != i);
                    assert(ss1[oi] == ss0[oi]);
                }
            }
            if self.has_session(q) {
                let ni = sess_idx(ss1, q);
                assert(0 <= ni && ni < ss1.len() && ss1[ni].player_id == q);
                assert(ss0[ni].player_id == q);
                lemma_sess_pick(ss0, ni);
            }
        }
    }

    /// Hands out everything queued for the player, oldest first, leaving the
    /// queue empty. The transport writer drains through this.
    pub fn drain(&mut self, player_id: u64) -> (r: Vec<Vec<u8>>)
        requires
            old(self).wf(),
        ensures
            final(self).wf(),
            forall|q: u64| final(self).has_session(q) == old(self).has_session(q),
            forall|q: u64|
                q != player_id && final(self).has_session(q) ==> final(self).outbox_of(q) == old(self).outbox_of(
                    q,
                ),
            forall|q: u64|
                final(self).has_subs(q) == old(self).has_subs(q) && (final(self).has_subs(q) ==> final(self).subs_of(q)
                    == old(self).subs_of(q)),
            old(self).has_session(player_id) ==> bytes_view(r@) == old(self).outbox_of(player_id)
                && final(self).outbox_of(player_id) == Seq::<Seq<u8>>::empty(),
            !old(self).has_session(player_id) ==> r@.len() == 0,
    {
        match self.find_session(player_id) {
            None => Vec::new(),
            Some(i) => {
                proof {
                    lemma_sess_pick(old(self).sessions@, i as int);
                }
                let mut taken: Vec<Vec<u8>> = Vec::new();
                core::mem::swap(&mut self.sessions[i].outbox, &mut taken);
                proof {
                    self.lemma_drain_post(*old(self), player_id, i as int);
                }
                taken
            },
        }
    }

    proof fn lemma_drain_post(&self, prev: Self, pid: u64, i: int)
        requires
            prev.wf(),
            0 <= i && i < prev.sessions@.len(),
            prev.sessions@[i].player_id == pid,
            self.subscriptions@ == prev.subscriptions@,
            self.sessions@ == prev.sessions@.update(i, self.sessions@[i]),
            self.sessions@[i].player_id == pid,
            self.sessions@[i].outbox@.len() == 0,
        ensures
            self.wf(),
            self.has_session(pid),
            self.outbox_of(pid) == Seq::<Seq<u8>>::empty(),
            prev.outbox_of(pid) == bytes_view(prev.sessions@[i].outbox@),
            forall|q: u64| self.has_session(q) == prev.has_session(q),
            forall|q: u64|
                q != pid && self.has_session(q) ==> self.outbox_of(q) == prev.outbox_of(q),
            forall|q: u64|
                self.has_subs(q) == prev.has_subs(q) && (self.has_subs(q) ==> self.subs_of(q)
                    == prev.subs_of(q)),
    {
        let ss0 = prev.sessions@;
        let ss1 = self.sessions@;
        assert(sess_distinct(ss1)) by {
            assert forall|a: int, b: int|
                #![trigger ss1[a], ss1[b]]
                0 <= a && a < b && b < ss1.len() implies ss1[a].player_id != ss1[b].player_id by {
                assert(ss1[a].player_id == ss0[a].player_id);
                assert(ss1[b].player_id == ss0[b].player_id);
            }
        }
        lemma_sess_pick(ss1, i);
        lemma_sess_pick(ss0, i);
        assert(self.outbox_of(pid) =~= Seq::<Seq<u8>>::empty());
        assert forall|q: u64| self.has_session(q) == prev.has_session(q) && (q != pid
            && self.has_session(q) ==> self.outbox_of(q) == prev.outbox_of(q)) by {
            if prev.has_session(q) {
                let oi = sess_idx(ss0, q);
                assert(0 <= oi && oi < ss0.len() && ss0[oi].player_id == q);
                assert(ss1[oi].player_id == q);
                lemma_sess_pick(ss1, oi);
                if q != pid {
                    assert(oi != i);
                    assert(ss1[oi] == ss0[oi]);
                }
            }
            if self.has_session(q) {
                let ni = sess_idx(ss1, q);
                assert(0 <= ni && ni < ss1.len() && ss1[ni].player_id == q);
                assert(ss0[ni].player_id == q);
                lemma_sess_pick(ss0, ni);
            }
        }
    }
    /// Appends the lobby to the player's subscription set; subscribing
    /// twice to the same lobby is a no-op.
    pub fn subscribe(&mut self, player_id: u64, type_: &Vec<u8>, id: &Vec<u8>)
        requires
            old(self).wf(),
            old(self).has_subs(player_id),
        ensures
            final(self).wf(),
            final(self).has_subs(player_id),
            final(self).sub_pairs(player_id) == old(self).sub_pairs(player_id).insert(
                (type_@, id@),
            ),
            forall|q: u64| q != player_id ==> final(self).has_subs(q) == old(self).has_subs(q),
            forall|q: u64|
                q != player_id && final(self).has_subs(q) ==> final(self).subs_of(q) == old(
                    self,
                ).subs_of(q),
            forall|q: u64|
                final(self).has_session(q) == old(self).has_session(q) && (final(self).has_session(
                    q,
                ) ==> final(self).outbox_of(q) == old(self).outbox_of(q)),
    {
        let k = match self.find_subs(player_id) {
            Some(k) => k,
            None => {
                proof {
                    assert(false);
                }
                0
            },
        };
        let ghost es0 = self.subscriptions@[k as int].entries@.map_values(
            |e: SubEntry| entry_view(e),
        );
        proof {
            lemma_subs_pick(self.subscriptions@, k as int);
            assert(old(self).subs_of(player_id) == es0);
        }
        // scan for an entry of this lobby type
        let n = self.subscriptions[k].entries.len();
        let mut e: usize = 0;
        let mut entry_at: Option<usize> = None;
        while e < n && entry_at.is_none()
            invariant
                e <= n,
                k < self.subscriptions@.len(),
                n == self.subscriptions@[k as int].entries@.len(),
                match entry_at {
                    None => forall|j: int|
                        0 <= j && j < e ==> (
                        #[trigger] self.subscriptions@[k as int].entries@[j]).type_@ != type_@,
                    Some(x) => x < n && self.subscriptions@[k as int].entries@[x as int].type_@
                        == type_@,
                },
            decreases n - e, (if entry_at is None { 1int } else { 0int }),
        {
            if bytes_eq(&self.subscriptions[k].entries[e].type_, type_) {
                entry_at = Some(e);
            } else {
                e = e + 1;
            }
        }
        match entry_at {
            None => {
                // first subscription of this lobby type
                let mut ids: Vec<Vec<u8>> = Vec::new();
                ids.push(clone_bytes(id));
                let entry = SubEntry { type_: clone_bytes(type_), ids };
                self.subscriptions[k].entries.push(entry);
                proof {
                    let es1 = self.subscriptions@[k as int].entries@.map_values(
                        |e: SubEntry| entry_view(e),
                    );
                    assert(es1 =~= es0.push((type_@, seq![id@]))) by {
                        assert(bytes_view(seq![self.subscriptions@[k as int].entries@.last().ids@[0]])
                            =~= seq![id@]);
                        assert(entry_view(self.subscriptions@[k as int].entries@.last()).1 =~= seq![
                            id@,
                        ]);
                    }
                    assert(forall|j: int| 0 <= j && j < es0.len() ==> (#[trigger] es0[j]).0 != type_@);
                    lemma_pairs_push_new(es0, type_@, id@);
                    self.lemma_subscribe_post(*old(self), player_id, k as int, es1);
                }
            },
            Some(ei) => {
                // look for the id under the entry
                let m = self.subscriptions[k].entries[ei].ids.len();
                let mut x: usize = 0;
                let mut present = false;
                while x < m && !present
                    invariant
                        x <= m,
                        k < self.subscriptions@.len(),
                        ei < self.subscriptions@[k as int].entries@.len(),
                        m == self.subscriptions@[k as int].entries@[ei as int].ids@.len(),
                        present ==> x < m && (
                        self.subscriptions@[k as int].entries@[ei as int].ids@[x as int])@ == id@,
                        !present ==> forall|j: int|
                            0 <= j && j < x ==> (
                            #[trigger] self.subscriptions@[k as int].entries@[ei as int].ids@[j])@
                                != id@,
                    decreases m - x, (if present { 0int } else { 1int }),
                {
                    if bytes_eq(&self.subscriptions[k].entries[ei].ids[x], id) {
                        present = true;
                    } else {
                        x = x + 1;
                    }
                }
                if present {
                    proof {
                        assert(self.subscriptions@ == old(self).subscriptions@);
                        assert(es0[ei as int].0 == type_@ && es0[ei as int].1.contains(id@)) by {
                            let ids = self.subscriptions@[k as int].entries@[ei as int].ids@;
                            assert(bytes_view(ids)[x as int] == id@);
                        }
                        assert(pairs_of(es0).contains((type_@, id@)));
                        assert(old(self).sub_pairs(player_id).insert((type_@, id@)) =~= old(
                            self,
                        ).sub_pairs(player_id));
                    }
                } else {
                    self.subscriptions[k].entries[ei].ids.push(clone_bytes(id));
                    proof {
                        let es1 = self.subscriptions@[k as int].entries@.map_values(
                            |e: SubEntry| entry_view(e),
                        );
                        assert(es1 =~= es0.update(
                            ei as int,
                            (es0[ei as int].0, es0[ei as int].1.push(id@)),
                        )) by {
                            let ents1 = self.subscriptions@[k as int].entries@;
                            let ents0 = old(self).subscriptions@[k as int].entries@;
                            assert forall|j: int| 0 <= j && j < es1.len() implies es1[j] == es0.update(
                                ei as int,
                                (es0[ei as int].0, es0[ei as int].1.push(id@)),
                            )[j] by {
                                if j == ei {
                                    assert(ents1[j].type_@ == ents0[j].type_@);
                                    assert(bytes_view(ents1[j].ids@) =~= bytes_view(
                                        ents0[j].ids@,
                                    ).push(id@));
                                } else {
                                    assert(ents1[j] == ents0[j]);
                                }
                            }
                        }
                        assert(forall|j: int|
                            0 <= j && j < es0[ei as int].1.len() ==> (#[trigger] es0[ei as int].1[j])
                                != id@) by {
                            let ids = old(self).subscriptions@[k as int].entries@[ei as int].ids@;
                            assert(forall|j: int|
                                0 <= j && j < ids.len() ==> bytes_view(ids)[j] == (
                                #[trigger] ids[j])@);
                        }
                        lemma_pairs_update_add(es0, ei as int, id@);
                        self.lemma_subscribe_post(*old(self), player_id, k as int, es1);
                    }
                }
            },
        }
    }

    /// After one player's entry list changed to `es1`, the fabric still
    /// satisfies its invariant and nobody else moved.
    proof fn lemma_subscribe_post(
        &self,
        prev: Self,
        pid: u64,
        k: int,
        es1: Seq<(Seq<u8>, Seq<Seq<u8>>)>,
    )
        requires
            prev.wf(),
            0 <= k && k < prev.subscriptions@.len(),
            prev.subscriptions@[k].player_id == pid,
            self.sessions@ == prev.sessions@,
            self.subscriptions@ == prev.subscriptions@.update(k, self.subscriptions@[k]),
            self.subscriptions@[k].player_id == pid,
            self.subscriptions@[k].entries@.map_values(|e: SubEntry| entry_view(e)) == es1,
            entries_wf(es1),
        ensures
            self.wf(),
            self.has_subs(pid),
            self.subs_of(pid) == es1,
            forall|q: u64| q != pid ==> self.has_subs(q) == prev.has_subs(q),
            forall|q: u64| q != pid && self.has_subs(q) ==> self.subs_of(q) == prev.subs_of(q),
            forall|q: u64|
                self.has_session(q) == prev.has_session(q) && (self.has_session(q)
                    ==> self.outbox_of(q) == prev.outbox_of(q)),
    {
        let sb0 = prev.subscriptions@;
        let sb1 = self.subscriptions@;
        assert(subs_distinct(sb1)) by {
            assert forall|a: int, b: int|
                #![trigger sb1[a], sb1[b]]
                0 <= a && a < b && b < sb1.len() implies sb1[a].player_id != sb1[b].player_id by {
                assert(sb1[a].player_id == sb0[a].player_id);
                assert(sb1[b].player_id == sb0[b].player_id);
            }
        }
        assert forall|w: int| 0 <= w && w < sb1.len() implies entries_wf(
            (#[trigger] sb1[w]).entries@.map_values(|e: SubEntry| entry_view(e)),
        ) by {
            if w != k {
                assert(sb1[w] == sb0[w]);
            }
        }
        lemma_subs_pick(sb1, k);
        lemma_subs_pick(sb0, k);
        assert forall|q: u64| q != pid implies self.has_subs(q) == prev.has_subs(q) && (
        self.has_subs(q) ==> self.subs_of(q) == prev.subs_of(q)) by {
            if prev.has_subs(q) {
                let oi = subs_idx(sb0, q);
                assert(0 <= oi && oi < sb0.len() && sb0[oi].player_id == q);
                assert(oi != k);
                assert(sb1[oi] == sb0[oi]);
                lemma_subs_pick(sb1, oi);
                lemma_subs_pick(sb0, oi);
            }
            if self.has_subs(q) {
                let ni = subs_idx(sb1, q);
                assert(0 <= ni && ni < sb1.len() && sb1[ni].player_id == q);
                assert(ni != k);
                assert(sb1[ni] == sb0[ni]);
                lemma_subs_pick(sb0, ni);
            }
        }
    }

    /// Removes the player's subscription set and session, handing the set
    /// back so the sweep can issue one Leave per subscribed lobby.
    pub fn unsubscribe_all(&mut self, player_id: u64) -> (r: Option<Vec<SubEntry>>)
        requires
            old(self).wf(),
        ensures
            final(self).wf(),
            !final(self).has_session(player_id),
            !final(self).has_subs(player_id),
            forall|q: u64| q != player_id ==> final(self).has_subs(q) == old(self).has_subs(q),
            forall|q: u64|
                q != player_id && final(self).has_subs(q) ==> final(self).subs_of(q) == old(
                    self,
                ).subs_of(q),
            forall|q: u64| q != player_id ==> final(self).has_session(q) == old(self).has_session(q),
            forall|q: u64|
                q != player_id && final(self).has_session(q) ==> final(self).outbox_of(q) == old(
                    self,
                ).outbox_of(q),
            match r {
                Some(entries) => old(self).has_subs(player_id) && entries@.map_values(
                    |e: SubEntry| entry_view(e),
                ) == old(self).subs_of(player_id) && entries_wf(
                    entries@.map_values(|e: SubEntry| entry_view(e)),
                ),
                None => !old(self).has_subs(player_id),
            },
    {
        let ghost prev = *self;
        match self.find_session(player_id) {
            None => {},
            Some(i) => {
                proof {
                    lemma_sess_pick(self.sessions@, i as int);
                }
                self.sessions.remove(i);
                proof {
                    lemma_sess_remove(prev.sessions@, i as int);
                }
            },
        }
        let ghost mid = *self;
        let taken = match self.find_subs(player_id) {
            None => None,
            Some(k) => {
                proof {
                    lemma_subs_pick(self.subscriptions@, k as int);
                }
                let ps = self.subscriptions.remove(k);
                proof {
                    lemma_subs_remove(mid.subscriptions@, k as int);
                    lemma_subs_pick(prev.subscriptions@, k as int);
                    assert(prev.subs_of(player_id) == ps.entries@.map_values(
                        |e: SubEntry| entry_view(e),
                    ));
                    assert(entries_wf(
                        (prev.subscriptions@[k as int]).entries@.map_values(
                            |e: SubEntry| entry_view(e),
                        ),
                    ));
                }
                Some(ps.entries)
            },
        };
        proof {
            assert(self.sessions@ == mid.sessions@);
            assert forall|q: u64| q != player_id && self.has_subs(q) implies self.subs_of(q)
                == old(self).subs_of(q) by {
                assert(subs_has(prev.subscriptions@, q));
            }
            assert forall|q: u64| q != player_id && self.has_session(q) implies self.outbox_of(q)
                == old(self).outbox_of(q) by {
                assert(sess_has(prev.sessions@, q));
            }
        }
        taken
    }

    /// Encodes the message once and queues one copy for each named
    /// recipient; recipients without a session are dropped silently.
    pub fn send_all(&mut self, player_ids: &Vec<u64>, message: &OutputMessage)
        requires
            old(self).wf(),
            distinct_u64(player_ids@),
        ensures
            final(self).wf(),
            forall|q: u64| final(self).has_session(q) == old(self).has_session(q),
            forall|q: u64|
                old(self).has_session(q) ==> final(self).outbox_of(q) == (if player_ids@.contains(
                    q,
                ) {
                    old(self).outbox_of(q).push(encode_output_view(message@))
                } else {
                    old(self).outbox_of(q)
                }),
            forall|q: u64|
                final(self).has_subs(q) == old(self).has_subs(q) && (final(self).has_subs(q)
                    ==> final(self).subs_of(q) == old(self).subs_of(q)),
    {
        let raw = message.encode();
        let n = player_ids.len();
        let mut i: usize = 0;
        while i < n
            invariant
                i <= n,
                n == player_ids@.len(),
                distinct_u64(player_ids@),
                self.wf(),
                raw@ == encode_output_view(message@),
                forall|q: u64| self.has_session(q) == old(self).has_session(q),
                forall|q: u64|
                    old(self).has_session(q) ==> self.outbox_of(q) == (if player_ids@.take(
                        i as int,
                    ).contains(q) {
                        old(self).outbox_of(q).push(encode_output_view(message@))
                    } else {
                        old(self).outbox_of(q)
                    }),
                forall|q: u64|
                    self.has_subs(q) == old(self).has_subs(q) && (self.has_subs(q)
                        ==> self.subs_of(q) == old(self).subs_of(q)),
            decreases n - i,
        {
            let pid = player_ids[i];
            proof {
                assert(!player_ids@.take(i as int).contains(pid)) by {
                    if player_ids@.take(i as int).contains(pid) {
                        let w = choose|w: int|
                            0 <= w && w < i && player_ids@.take(i as int)[w] == pid;
                        assert(player_ids@[w] == pid && player_ids@[i as int] == pid);
                    }
                }
            }
            let ghost before = *self;
            match self.find_session(pid) {
                None => {},
                Some(si) => {
                    proof {
                        lemma_sess_pick(before.sessions@, si as int);
                    }
                    self.sessions[si].outbox.push(clone_bytes(&raw));
                    proof {
                        self.lemma_send_post(before, pid, si as int);
                    }
                },
            }
            proof {
                assert forall|q: u64| old(self).has_session(q) implies self.outbox_of(q) == (
                if player_ids@.take(i + 1).contains(q) {
                    old(self).outbox_of(q).push(encode_output_view(message@))
                } else {
                    old(self).outbox_of(q)
                }) by {
                    assert(player_ids@.take(i + 1) =~= player_ids@.take(i as int).push(
                        player_ids@[i as int],
                    ));
                    if player_ids@.take(i + 1).contains(q) {
                        if q != pid {
                            let w = choose|w: int|
                                0 <= w && w < player_ids@.take(i + 1).len() && #[trigger] player_ids@.take(
                                    i + 1,
                                )[w] == q;
                            assert(player_ids@.take(i as int)[w] == q);
                        }
                    } else {
                        assert(player_ids@.take(i + 1)[i as int] == pid);
                        assert(q != pid);
                        if player_ids@.take(i as int).contains(q) {
                            let w = choose|w: int|
                                0 <= w && w < player_ids@.take(i as int).len() && #[trigger] player_ids@.take(
                                    i as int,
                                )[w] == q;
                            assert(player_ids@.take(i + 1)[w] == q);
                        }
                    }
                }
            }
            i = i + 1;
        }
        proof {
            assert(player_ids@.take(n as int) =~= player_ids@);
        }
    }
}

/// The lobby pairs named after pushing a brand-new lobby type.
proof fn lemma_pairs_push_new(es: Seq<(Seq<u8>, Seq<Seq<u8>>)>, t: Seq<u8>, id: Seq<u8>)
    requires
        entries_wf(es),
        forall|j: int| 0 <= j && j < es.len() ==> (#[trigger] es[j]).0 != t,
    ensures
        entries_wf(es.push((t, seq![id]))),
        pairs_of(es.push((t, seq![id]))) == pairs_of(es).insert((t, id)),
{
    let es1 = es.push((t, seq![id]));
    assert(entries_wf(es1)) by {
        assert forall|i: int| 0 <= i && i < es1.len() implies distinct_seqs(
            (#[trigger] es1[i]).1,
        ) by {
            if i < es.len() {
                assert(es1[i] == es[i]);
            } else {
                assert(es1[i].1 =~= seq![id]);
            }
        }
        assert forall|i: int, j: int|
            #![trigger es1[i], es1[j]]
            0 <= i && i < j && j < es1.len() implies es1[i].0 !== es1[j].0 by {
            if j < es.len() {
                assert(es1[i] == es[i] && es1[j] == es[j]);
            } else {
                assert(es1[i] == es[i] && es1[j].0 == t);
            }
        }
    }
    assert forall|p: (Seq<u8>, Seq<u8>)| pairs_of(es1).contains(p) == pairs_of(es).insert(
        (t, id),
    ).contains(p) by {
        if pairs_of(es1).contains(p) {
            let w = choose|w: int|
                0 <= w && w < es1.len() && (#[trigger] es1[w]).0 == p.0 && es1[w].1.contains(p.1);
            if w < es.len() {
                assert(es[w] == es1[w]);
                assert(pairs_of(es).contains(p));
            } else {
                assert(es1[w].0 == t && es1[w].1 =~= seq![id]);
                assert(p.1 == id) by {
                    let v = choose|v: int| 0 <= v && v < es1[w].1.len() && es1[w].1[v] == p.1;
                    assert(es1[w].1[v] == id);
                }
            }
        }
        if pairs_of(es).insert((t, id)).contains(p) {
            if pairs_of(es).contains(p) {
                let w = choose|w: int|
                    0 <= w && w < es.len() && (#[trigger] es[w]).0 == p.0 && es[w].1.contains(p.1);
                assert(es1[w] == es[w]);
                assert(pairs_of(es1).contains(p));
            } else {
                assert(p == (t, id));
                assert(es1[es.len() as int].0 == t && es1[es.len() as int].1.contains(id)) by {
                    assert(es1[es.len() as int].1 =~= seq![id]);
                    assert(seq![id][0] == id);
                }
                assert(pairs_of(es1).contains(p));
            }
        }
    }
    assert(pairs_of(es1) =~= pairs_of(es).insert((t, id)));
}

/// The lobby pairs named after adding one id under an existing lobby type.
proof fn lemma_pairs_update_add(es: Seq<(Seq<u8>, Seq<Seq<u8>>)>, ei: int, id: Seq<u8>)
    requires
        entries_wf(es),
        0 <= ei && ei < es.len(),
        forall|j: int| 0 <= j && j < es[ei].1.len() ==> (#[trigger] es[ei].1[j]) != id,
    ensures
        entries_wf(es.update(ei, (es[ei].0, es[ei].1.push(id)))),
        pairs_of(es.update(ei, (es[ei].0, es[ei].1.push(id)))) == pairs_of(es).insert(
            (es[ei].0, id),
        ),
{
    let t = es[ei].0;
    let e1 = (t, es[ei].1.push(id));
    let es1 = es.update(ei, e1);
    assert(entries_wf(es1)) by {
        assert forall|i: int| 0 <= i && i < es1.len() implies distinct_seqs(
            (#[trigger] es1[i]).1,
        ) by {
            if i != ei {
                assert(es1[i] == es[i]);
            } else {
                let v = es[ei].1;
                assert forall|a: int, b: int|
                    #![trigger v.push(id)[a], v.push(id)[b]]
                    0 <= a && a < b && b < v.push(id).len() implies v.push(id)[a] !== v.push(
                        id,
                    )[b] by {
                    if b < v.len() {
                        assert(v.push(id)[a] == v[a] && v.push(id)[b] == v[b]);
                    } else {
                        assert(v.push(id)[a] == v[a] && v.push(id)[b] == id);
                    }
                }
            }
        }
        assert forall|i: int, j: int|
            #![trigger es1[i], es1[j]]
            0 <= i && i < j && j < es1.len() implies es1[i].0 !== es1[j].0 by {
            assert(es1[i].0 == es[i].0 && es1[j].0 == es[j].0);
        }
    }
    assert forall|p: (Seq<u8>, Seq<u8>)| pairs_of(es1).contains(p) == pairs_of(es).insert(
        (t, id),
    ).contains(p) by {
        if pairs_of(es1).contains(p) {
            let w = choose|w: int|
                0 <= w && w < es1.len() && (#[trigger] es1[w]).0 == p.0 && es1[w].1.contains(p.1);
            if w != ei {
                assert(es[w] == es1[w]);
                assert(pairs_of(es).contains(p));
            } else {
                assert(p.0 == t);
                let v = choose|v: int| 0 <= v && v < es1[ei].1.len() && es1[ei].1[v] == p.1;
                if v < es[ei].1.len() {
                    assert(es[ei].1[v] == p.1);
                    assert(pairs_of(es).contains(p));
                } else {
                    assert(p.1 == id);
                }
            }
        }
        if pairs_of(es).insert((t, id)).contains(p) {
            if pairs_of(es).contains(p) {
                let w = choose|w: int|
                    0 <= w && w < es.len() && (#[trigger] es[w]).0 == p.0 && es[w].1.contains(p.1);
                if w != ei {
                    assert(es1[w] == es[w]);
                } else {
                    let v = choose|v: int| 0 <= v && v < es[ei].1.len() && es[ei].1[v] == p.1;
                    assert(es1[ei].1[v] == p.1);
                    assert(es1[ei].0 == p.0 && es1[ei].1.contains(p.1));
                }
                assert(pairs_of(es1).contains(p));
            } else {
                assert(p == (t, id));
                assert(es1[ei].1[es[ei].1.len() as int] == id);
                assert(es1[ei].0 == t && es1[ei].1.contains(id));
                assert(pairs_of(es1).contains(p));
            }
        }
    }
    assert(pairs_of(es1) =~= pairs_of(es).insert((t, id)));
}

/// Removing one session leaves every other player's session in place.
proof fn lemma_sess_remove(ss: Seq<Session>, i: int)
    requires
        sess_distinct(ss),
        0 <= i && i < ss.len(),
    ensures
        sess_distinct(ss.remove(i)),
        !sess_has(ss.remove(i), ss[i].player_id),
        forall|q: u64|
            q != ss[i].player_id ==> sess_has(ss.remove(i), q) == sess_has(ss, q),
        forall|q: u64|
            q != ss[i].player_id && sess_has(ss, q) ==> ss.remove(i)[sess_idx(ss.remove(i), q)]
                == ss[sess_idx(ss, q)],
{
    let pid = ss[i].player_id;
    let ss1 = ss.remove(i);
    ss.remove_ensures(i);
    assert(sess_distinct(ss1)) by {
        assert forall|a: int, b: int|
            #![trigger ss1[a], ss1[b]]
            0 <= a && a < b && b < ss1.len() implies ss1[a].player_id != ss1[b].player_id by {
            assert(ss1[a] == ss[if a < i {
                a
            } else {
                a + 1
            }]);
            assert(ss1[b] == ss[if b < i {
                b
            } else {
                b + 1
            }]);
        }
    }
    assert(!sess_has(ss1, pid)) by {
        if sess_has(ss1, pid) {
            let w = sess_idx(ss1, pid);
            assert(0 <= w && w < ss1.len() && ss1[w].player_id == pid);
            assert(ss1[w] == ss[if w < i {
                w
            } else {
                w + 1
            }]);
        }
    }
    assert forall|q: u64| q != pid implies sess_has(ss1, q) == sess_has(ss, q) && (sess_has(ss, q)
        ==> ss1[sess_idx(ss1, q)] == ss[sess_idx(ss, q)]) by {
        if sess_has(ss, q) {
            let oi = sess_idx(ss, q);
            assert(0 <= oi && oi < ss.len() && ss[oi].player_id == q);
            assert(oi != i);
            let ni = if oi < i {
                oi
            } else {
                oi - 1
            };
            assert(ss1[ni] == ss[oi]);
            lemma_sess_pick(ss1, ni);
            lemma_sess_pick(ss, oi);
        }
        if sess_has(ss1, q) {
            let w = sess_idx(ss1, q);
            assert(0 <= w && w < ss1.len() && ss1[w].player_id == q);
            assert(ss1[w] == ss[if w < i {
                w
            } else {
                w + 1
            }]);
            assert(sess_has(ss, q));
        }
    }
}

/// Removing one subscription set leaves every other player's in place.
proof fn lemma_subs_remove(ss: Seq<PlayerSubs>, i: int)
    requires
        subs_distinct(ss),
        0 <= i && i < ss.len(),
    ensures
        subs_distinct(ss.remove(i)),
        !subs_has(ss.remove(i), ss[i].player_id),
        forall|q: u64|
            q != ss[i].player_id ==> subs_has(ss.remove(i), q) == subs_has(ss, q),
        forall|q: u64|
            q != ss[i].player_id && subs_has(ss, q) ==> ss.remove(i)[subs_idx(ss.remove(i), q)]
                == ss[subs_idx(ss, q)],
        forall|k: int|
            0 <= k && k < ss.remove(i).len() ==> exists|j: int|
                0 <= j && j < ss.len() && #[trigger] ss.remove(i)[k] == ss[j],
{
    let pid = ss[i].player_id;
    let ss1 = ss.remove(i);
    ss.remove_ensures(i);
    assert(subs_distinct(ss1)) by {
        assert forall|a: int, b: int|
            #![trigger ss1[a], ss1[b]]
            0 <= a && a < b && b < ss1.len() implies ss1[a].player_id != ss1[b].player_id by {
            assert(ss1[a] == ss[if a < i {
                a
            } else {
                a + 1
            }]);
            assert(ss1[b] == ss[if b < i {
                b
            } else {
                b + 1
            }]);
        }
    }
    assert(!subs_has(ss1, pid)) by {
        if subs_has(ss1, pid) {
            let w = subs_idx(ss1, pid);
            assert(0 <= w && w < ss1.len() && ss1[w].player_id == pid);
            assert(ss1[w] == ss[if w < i {
                w
            } else {
                w + 1
            }]);
        }
    }
    assert forall|k: int| 0 <= k && k < ss1.len() implies exists|j: int|
        0 <= j && j < ss.len() && #[trigger] ss1[k] == ss[j] by {
        let j = if k < i {
            k
        } else {
            k + 1
        };
        assert(ss1[k] == ss[j]);
    }
    assert forall|q: u64| q != pid implies subs_has(ss1, q) == subs_has(ss, q) && (subs_has(ss, q)
        ==> ss1[subs_idx(ss1, q)] == ss[subs_idx(ss, q)]) by {
        if subs_has(ss, q) {
            let oi = subs_idx(ss, q);
            assert(0 <= oi && oi < ss.len() && ss[oi].player_id == q);
            assert(oi != i);
            let ni = if oi < i {
                oi
            } else {
                oi - 1
            };
            assert(ss1[ni] == ss[oi]);
            lemma_subs_pick(ss1, ni);
            lemma_subs_pick(ss, oi);
        }
        if subs_has(ss1, q) {
            let w = subs_idx(ss1, q);
            assert(0 <= w && w < ss1.len() && ss1[w].player_id == q);
            assert(ss1[w] == ss[if w < i {
                w
            } else {
                w + 1
            }]);
            assert(subs_has(ss, q));
        }
    }
}

} // verus!
