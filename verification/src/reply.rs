//! The client's pending-reply registry: one entry per correlation id, each
//! with an absolute expiry. An entry is resolved at most once — success,
//! error and expiry all move it from pending to resolved, so whichever comes
//! first wins and the recorded outcome never changes. The caller that awaits
//! the reply collects the outcome with `take`.

use vstd::prelude::*;

use crate::session::{bytes_view, distinct_seqs};

verus! {

/// How a correlated call ends: with the reply, with an error, or by
/// expiring.
pub enum Reply<R, E> {
    Done(R),
    Failed(E),
    Timeout,
}

/// Which resolution won a pending reply.
#[derive(Debug, Clone, Copy, PartialEq, Eq, Structural)]
pub enum Resolution {
    Done,
    Failed,
    TimedOut,
}

struct PendingReply {
    id: Vec<u8>,
    expires_at: u64,
}

struct ResolvedReply {
    id: Vec<u8>,
    outcome: Resolution,
}

/// The registry of correlated calls: those still waiting for their reply,
/// and those resolved but not yet collected.
pub struct ReplyManager {
    pending: Vec<PendingReply>,
    resolved: Vec<ResolvedReply>,
}

spec fn pend_distinct(ps: Seq<PendingReply>) -> bool {
    forall|i: int, j: int|
        #![trigger ps[i], ps[j]]
        0 <= i && i < j && j < ps.len() ==> ps[i].id@ !== ps[j].id@
}

spec fn pend_has(ps: Seq<PendingReply>, id: Seq<u8>) -> bool {
    exists|i: int| 0 <= i && i < ps.len() && (#[trigger] ps[i]).id@ == id
}

spec fn pend_at(ps: Seq<PendingReply>, id: Seq<u8>) -> int {
    choose|i: int| 0 <= i && i < ps.len() && (#[trigger] ps[i]).id@ == id
}

spec fn res_distinct(rs: Seq<ResolvedReply>) -> bool {
    forall|i: int, j: int|
        #![trigger rs[i], rs[j]]
        0 <= i && i < j && j < rs.len() ==> rs[i].id@ !== rs[j].id@
}

spec fn res_has(rs: Seq<ResolvedReply>, id: Seq<u8>) -> bool {
    exists|i: int| 0 <= i && i < rs.len() && (#[trigger] rs[i]).id@ == id
}

spec fn res_at(rs: Seq<ResolvedReply>, id: Seq<u8>) -> int {
    choose|i: int| 0 <= i && i < rs.len() && (#[trigger] rs[i]).id@ == id
}

/// No correlation id is both pending and resolved.
spec fn pend_res_disjoint(ps: Seq<PendingReply>, rs: Seq<ResolvedReply>) -> bool {
    forall|i: int, j: int|
        #![trigger ps[i], rs[j]]
        0 <= i && i < ps.len() && 0 <= j && j < rs.len() ==> ps[i].id@ !== rs[j].id@
}

proof fn lemma_pend_pick(ps: Seq<PendingReply>, i: int)
    requires
        pend_distinct(ps),
        0 <= i && i < ps.len(),
    ensures
        pend_has(ps, ps[i].id@),
        pend_at(ps, ps[i].id@) == i,
{
    let id = ps[i].id@;
    assert(pend_has(ps, id));
    let k = pend_at(ps, id);
    if k != i {
        assert(ps[k].id@ == ps[i].id@);
        assert(false);
    }
}

proof fn lemma_res_pick(rs: Seq<ResolvedReply>, i: int)
    requires
        res_distinct(rs),
        0 <= i && i < rs.len(),
    ensures
        res_has(rs, rs[i].id@),
        res_at(rs, rs[i].id@) == i,
{
    let id = rs[i].id@;
    assert(res_has(rs, id));
    let k = res_at(rs, id);
    if k != i {
        assert(rs[k].id@ == rs[i].id@);
        assert(false);
    }
}

proof fn lemma_pend_remove(ps: Seq<PendingReply>, i: int)
    requires
        pend_distinct(ps),
        0 <= i && i < ps.len(),
    ensures
        pend_distinct(ps.remove(i)),
        !pend_has(ps.remove(i), ps[i].id@),
        forall|id: Seq<u8>| id !== ps[i].id@ ==> pend_has(ps.remove(i), id) == pend_has(ps, id),
        forall|id: Seq<u8>|
            id !== ps[i].id@ && pend_has(ps, id) ==> ps.remove(i)[pend_at(ps.remove(i), id)] == ps[
                pend_at(ps, id)
            ],
        forall|k: int|
            0 <= k && k < ps.remove(i).len() ==> exists|j: int|
                0 <= j && j < ps.len() && #[trigger] ps.remove(i)[k] == ps[j],
{
    let key = ps[i].id@;
    let ps1 = ps.remove(i);
    ps.remove_ensures(i);
    assert(pend_distinct(ps1)) by {
        assert forall|a: int, b: int|
            #![trigger ps1[a], ps1[b]]
            0 <= a && a < b && b < ps1.len() implies ps1[a].id@ !== ps1[b].id@ by {
            assert(ps1[a] == ps[if a < i {
                a
            } else {
                a + 1
            }]);
            assert(ps1[b] == ps[if b < i {
                b
            } else {
                b + 1
            }]);
        }
    }
    assert(!pend_has(ps1, key)) by {
        if pend_has(ps1, key) {
            let w = pend_at(ps1, key);
            assert(0 <= w && w < ps1.len() && ps1[w].id@ == key);
            assert(ps1[w] == ps[if w < i {
                w
            } else {
                w + 1
            }]);
        }
    }
    assert forall|k: int| 0 <= k && k < ps1.len() implies exists|j: int|
        0 <= j && j < ps.len() && #[trigger] ps1[k] == ps[j] by {
        let j = if k < i {
            k
        } else {
            k + 1
        };
        assert(ps1[k] == ps[j]);
    }
    assert forall|id: Seq<u8>| id !== key implies pend_has(ps1, id) == pend_has(ps, id) && (
    pend_has(ps, id) ==> ps1[pend_at(ps1, id)] == ps[pend_at(ps, id)]) by {
        if pend_has(ps, id) {
            let oi = pend_at(ps, id);
            assert(0 <= oi && oi < ps.len() && ps[oi].id@ == id);
            assert(oi != i);
            let ni = if oi < i {
                oi
            } else {
                oi - 1
            };
            assert(ps1[ni] == ps[oi]);
            lemma_pend_pick(ps1, ni);
            lemma_pend_pick(ps, oi);
        }
        if pend_has(ps1, id) {
            let w = pend_at(ps1, id);
            assert(0 <= w && w < ps1.len() && ps1[w].id@ == id);
            assert(ps1[w] == ps[if w < i {
                w
            } else {
                w + 1
            }]);
            assert(pend_has(ps, id));
        }
    }
}

proof fn lemma_res_remove(rs: Seq<ResolvedReply>, i: int)
    requires
        res_distinct(rs),
        0 <= i && i < rs.len(),
    ensures
        res_distinct(rs.remove(i)),
        !res_has(rs.remove(i), rs[i].id@),
        forall|id: Seq<u8>| id !== rs[i].id@ ==> res_has(rs.remove(i), id) == res_has(rs, id),
        forall|id: Seq<u8>|
            id !== rs[i].id@ && res_has(rs, id) ==> rs.remove(i)[res_at(rs.remove(i), id)] == rs[
                res_at(rs, id)
            ],
        forall|k: int|
            0 <= k && k < rs.remove(i).len() ==> exists|j: int|
                0 <= j && j < rs.len() && #[trigger] rs.remove(i)[k] == rs[j],
{
    let key = rs[i].id@;
    let rs1 = rs.remove(i);
    rs.remove_ensures(i);
    assert(res_distinct(rs1)) by {
        assert forall|a: int, b: int|
            #![trigger rs1[a], rs1[b]]
            0 <= a && a < b && b < rs1.len() implies rs1[a].id@ !== rs1[b].id@ by {
            assert(rs1[a] == rs[if a < i {
                a
            } else {
                a + 1
            }]);
            assert(rs1[b] == rs[if b < i {
                b
            } else {
                b + 1
            }]);
        }
    }
    assert(!res_has(rs1, key)) by {
        if res_has(rs1, key) {
            let w = res_at(rs1, key);
            assert(0 <= w && w < rs1.len() && rs1[w].id@ == key);
            assert(rs1[w] == rs[if w < i {
                w
            } else {
                w + 1
            }]);
        }
    }
    assert forall|k: int| 0 <= k && k < rs1.len() implies exists|j: int|
        0 <= j && j < rs.len() && #[trigger] rs1[k] == rs[j] by {
        let j = if k < i {
            k
        } else {
            k + 1
        };
        assert(rs1[k] == rs[j]);
    }
    assert forall|id: Seq<u8>| id !== key implies res_has(rs1, id) == res_has(rs, id) && (res_has(
        rs,
        id,
    ) ==> rs1[res_at(rs1, id)] == rs[res_at(rs, id)]) by {
        if res_has(rs, id) {
            let oi = res_at(rs, id);
            assert(0 <= oi && oi < rs.len() && rs[oi].id@ == id);
            assert(oi != i);
            let ni = if oi < i {
                oi
            } else {
                oi - 1
            };
            assert(rs1[ni] == rs[oi]);
            lemma_res_pick(rs1, ni);
            lemma_res_pick(rs, oi);
        }
        if res_has(rs1, id) {
            let w = res_at(rs1, id);
            assert(0 <= w && w < rs1.len() && rs1[w].id@ == id);
            assert(rs1[w] == rs[if w < i {
                w
            } else {
                w + 1
            }]);
            assert(res_has(rs, id));
        }
    }
}

fn clone_bytes(v: &Vec<u8>) -> (r: Vec<u8>)
    ensures
        r@ == v@,
{
    let mut r: Vec<u8> = Vec::new();
    let mut i: usize = 0;
    while i < v.len()
        invariant
            i <= v@.len(),
            r@ == v@.subrange(0, i as int),
        decreases v@.len() - i,
    {
        r.push(v[i]);
        assert(v@.subrange(0, i + 1 as int) =~= v@.subrange(0, i as int).push(v@[i as int]));
        i = i + 1;
    }
    assert(v@.subrange(0, v@.len() as int) =~= v@);
    r
}

fn bytes_eq(a: &Vec<u8>, b: &Vec<u8>) -> (r: bool)
    ensures
        r == (a@ == b@),
{
    if a.len() != b.len() {
        assert(a@ != b@);
        return false;
    }
    let n = a.len();
    let mut i: usize = 0;
    while i < n
        invariant
            i <= n,
            n == a@.len() && n == b@.len(),
            forall|j: int| 0 <= j && j < i ==> a@[j] == b@[j],
        decreases n - i,
    {
        if a[i] != b[i] {
            return false;
        }
        i = i + 1;
    }
    assert(a@ =~= b@);
    true
}

impl ReplyManager {
    /// A reply is still awaited under this correlation id.
    pub closed spec fn has_pending(&self, id: Seq<u8>) -> bool {
        pend_has(self.pending@, id)
    }

    /// When the pending reply under this id gives up and times out.
    pub closed spec fn expiry_of(&self, id: Seq<u8>) -> u64 {
        self.pending@[pend_at(self.pending@, id)].expires_at
    }

    /// The id was resolved and its outcome not yet collected.
    pub closed spec fn has_resolution(&self, id: Seq<u8>) -> bool {
        res_has(self.resolved@, id)
    }

    /// The outcome that won the pending reply under this id.
    pub closed spec fn resolution_of(&self, id: Seq<u8>) -> Resolution {
        self.resolved@[res_at(self.resolved@, id)].outcome
    }

    /// Correlation ids are unique, and never both pending and resolved.
    pub closed spec fn wf(&self) -> bool {
        &&& pend_distinct(self.pending@)
        &&& res_distinct(self.resolved@)
        &&& pend_res_disjoint(self.pending@, self.resolved@)
    }

    pub fn new() -> (r: Self)
        ensures
            r.wf(),
            forall|id: Seq<u8>| !r.has_pending(id) && !r.has_resolution(id),
    {
        ReplyManager { pending: Vec::new(), resolved: Vec::new() }
    }

    fn find(&self, id: &Vec<u8>) -> (r: Option<usize>)
        ensures
            match r {
                Some(i) => i < self.pending@.len() && self.pending@[i as int].id@ == id@
                    && self.has_pending(id@),
                None => !self.has_pending(id@),
            },
    {
        let mut i: usize = 0;
        while i < self.pending.len()
            invariant
                i <= self.pending@.len(),
                forall|j: int| 0 <= j && j < i ==> (#[trigger] self.pending@[j]).id@ != id@,
            decreases self.pending@.len() - i,
        {
            if bytes_eq(&self.pending[i].id, id) {
                return Some(i);
            }
            i = i + 1;
        }
        None
    }

    fn find_resolved(&self, id: &Vec<u8>) -> (r: Option<usize>)
        ensures
            match r {
                Some(i) => i < self.resolved@.len() && self.resolved@[i as int].id@ == id@
                    && self.has_resolution(id@),
                None => !self.has_resolution(id@),
            },
    {
        let mut i: usize = 0;
        while i < self.resolved.len()
            invariant
                i <= self.resolved@.len(),
                forall|j: int| 0 <= j && j < i ==> (#[trigger] self.resolved@[j]).id@ != id@,
            decreases self.resolved@.len() - i,
        {
            if bytes_eq(&self.resolved[i].id, id) {
                return Some(i);
            }
            i = i + 1;
        }
        None
    }

    /// Registers a correlated call with an absolute expiry. Registering an
    /// id again moves its expiry and forgets any stale uncollected outcome.
    #[verifier::rlimit(100)]
    pub fn register(&mut self, id: &Vec<u8>, expires_at: u64)
        requires
            old(self).wf(),
        ensures
            final(self).wf(),
            final(self).has_pending(id@),
            final(self).expiry_of(id@) == expires_at,
            !final(self).has_resolution(id@),
            forall|q: Seq<u8>| q !== id@ ==> final(self).has_pending(q) == old(self).has_pending(q),
            forall|q: Seq<u8>|
                q !== id@ && final(self).has_pending(q) ==> final(self).expiry_of(q) == old(self).expiry_of(q),
            forall|q: Seq<u8>|
                q !== id@ ==> final(self).has_resolution(q) == old(self).has_resolution(q),
            forall|q: Seq<u8>|
                q !== id@ && final(self).has_resolution(q) ==> final(self).resolution_of(q) == old(self).resolution_of(q),
    {
        let ghost rs0 = self.resolved@;
        match self.find_resolved(id) {
            Some(i) => {
                proof {
                    lemma_res_remove(rs0, i as int);
                }
                self.resolved.remove(i);
            },
            None => {},
        }
        let ghost rs1 = self.resolved@;
        proof {
            assert(!res_has(rs1, id@));
            assert forall|k: int| 0 <= k && k < rs1.len() implies exists|j: int|
                0 <= j && j < rs0.len() && #[trigger] rs1[k] == rs0[j] by {
                if rs1.len() == rs0.len() {
                    assert(rs1[k] == rs0[k]);
                }
            }
        }
        let entry = PendingReply { id: clone_bytes(id), expires_at };
        let ti: usize;
        match self.find(id) {
            Some(i) => {
                self.pending[i] = entry;
                ti = i;
            },
            None => {
                self.pending.push(entry);
                ti = self.pending.len() - 1;
            },
        }
        proof {
            let ps0 = old(self).pending@;
            let ps1 = self.pending@;
            assert(ps1[ti as int].id@ == id@ && ps1[ti as int].expires_at == expires_at);
            assert forall|k: int| 0 <= k && k < ps1.len() && k != ti implies k < ps0.len() && (
            #[trigger] ps1[k]) == ps0[k] && ps0[k].id@ != id@ by {
                assert(ps1[k] == ps0[k]);
                if pend_has(ps0, id@) {
                    assert(ps0[ti as int].id@ == id@);
                }
            }
            assert(pend_distinct(ps1)) by {
                assert forall|a: int, b: int|
                    #![trigger ps1[a], ps1[b]]
                    0 <= a && a < b && b < ps1.len() implies ps1[a].id@ !== ps1[b].id@ by {
                    if a != ti && b != ti {
                        assert(ps1[a] == ps0[a] && ps1[b] == ps0[b]);
                    }
                }
            }
            assert(pend_res_disjoint(ps1, rs1)) by {
                assert forall|a: int, b: int|
                    #![trigger ps1[a], rs1[b]]
                    0 <= a && a < ps1.len() && 0 <= b && b < rs1.len() implies ps1[a].id@
                    !== rs1[b].id@ by {
                    let j = choose|j: int| 0 <= j && j < rs0.len() && rs1[b] == rs0[j];
                    if a == ti {
                        assert(rs1[b].id@ != id@) by {
                            if rs1[b].id@ == id@ {
                                lemma_res_pick(rs1, b);
                            }
                        }
                    } else {
                        assert(ps1[a] == ps0[a]);
                        assert(ps0[a].id@ !== rs0[j].id@);
                    }
                }
            }
            lemma_pend_pick(ps1, ti as int);
            assert forall|q: Seq<u8>| q !== id@ implies final(self).has_pending(q) == old(self).has_pending(q) && (final(self).has_pending(q) ==> final(self).expiry_of(q) == old(self).expiry_of(q)) by {
                if pend_has(ps0, q) {
                    let oi = pend_at(ps0, q);
                    assert(0 <= oi && oi < ps0.len() && ps0[oi].id@ == q);
                    assert(oi != ti);
                    assert(ps1[oi] == ps0[oi]);
                    lemma_pend_pick(ps1, oi);
                    lemma_pend_pick(ps0, oi);
                }
                if pend_has(ps1, q) {
                    let ni = pend_at(ps1, q);
                    assert(0 <= ni && ni < ps1.len() && ps1[ni].id@ == q);
                    assert(ni != ti);
                    assert(ps1[ni] == ps0[ni]);
                    lemma_pend_pick(ps0, ni);
                }
            }
        }
    }

    /// Resolves the pending reply with the given outcome, reporting whether
    /// there was one to resolve. First wins: once an id is resolved, a later
    /// resolution of any kind finds nothing and changes nothing.
    pub fn resolve(&mut self, id: &Vec<u8>, outcome: Resolution) -> (r: bool)
        requires
            old(self).wf(),
        ensures
            final(self).wf(),
            r == old(self).has_pending(id@),
            !final(self).has_pending(id@),
            r ==> final(self).has_resolution(id@) && final(self).resolution_of(id@) == outcome,
            !r ==> final(self).has_resolution(id@) == old(self).has_resolution(id@) && (final(self).has_resolution(id@) ==> final(self).resolution_of(id@) == old(self).resolution_of(
                id@,
            )),
            forall|q: Seq<u8>| q !== id@ ==> final(self).has_pending(q) == old(self).has_pending(q),
            forall|q: Seq<u8>|
                q !== id@ && final(self).has_pending(q) ==> final(self).expiry_of(q) == old(self).expiry_of(q),
            forall|q: Seq<u8>|
                q !== id@ ==> final(self).has_resolution(q) == old(self).has_resolution(q),
            forall|q: Seq<u8>|
                q !== id@ && final(self).has_resolution(q) ==> final(self).resolution_of(q) == old(self).resolution_of(q),
    {
        match self.find(id) {
            None => false,
            Some(i) => {
                let ghost ps0 = self.pending@;
                let ghost rs0 = self.resolved@;
                proof {
                    lemma_pend_remove(ps0, i as int);
                }
                self.pending.remove(i);
                self.resolved.push(ResolvedReply { id: clone_bytes(id), outcome });
                proof {
                    let ps1 = self.pending@;
                    let rs1 = self.resolved@;
                    assert(rs1 == rs0.push(rs1.last()));
                    assert(rs1.last().id@ == id@ && rs1.last().outcome == outcome);
                    assert(!res_has(rs0, id@)) by {
                        if res_has(rs0, id@) {
                            let w = res_at(rs0, id@);
                            assert(ps0[i as int].id@ !== rs0[w].id@);
                        }
                    }
                    assert(res_distinct(rs1)) by {
                        assert forall|a: int, b: int|
                            #![trigger rs1[a], rs1[b]]
                            0 <= a && a < b && b < rs1.len() implies rs1[a].id@ !== rs1[b].id@ by {
                            if b < rs0.len() {
                                assert(rs1[a] == rs0[a] && rs1[b] == rs0[b]);
                            } else {
                                assert(rs1[a] == rs0[a]);
                                if rs0[a].id@ == id@ {
                                    lemma_res_pick(rs0, a);
                                }
                            }
                        }
                    }
                    assert(pend_res_disjoint(ps1, rs1)) by {
                        assert forall|a: int, b: int|
                            #![trigger ps1[a], rs1[b]]
                            0 <= a && a < ps1.len() && 0 <= b && b < rs1.len() implies ps1[a].id@
                            !== rs1[b].id@ by {
                            let j = choose|j: int| 0 <= j && j < ps0.len() && ps1[a] == ps0[j];
                            if b < rs0.len() {
                                assert(ps0[j].id@ !== rs0[b].id@);
                            } else {
                                assert(rs1[b].id@ == id@);
                                assert(!pend_has(ps1, id@));
                                if ps1[a].id@ == id@ {
                                    lemma_pend_pick(ps1, a);
                                }
                            }
                        }
                    }
                    lemma_res_pick(rs1, rs1.len() - 1);
                    assert forall|q: Seq<u8>| q !== id@ implies final(self).has_resolution(q)
                        == old(self).has_resolution(q) && (final(self).has_resolution(q) ==> final(self).resolution_of(q) == old(self).resolution_of(q)) by {
                        if res_has(rs0, q) {
                            let oi = res_at(rs0, q);
                            assert(0 <= oi && oi < rs0.len() && rs0[oi].id@ == q);
                            assert(rs1[oi] == rs0[oi]);
                            lemma_res_pick(rs1, oi);
                            lemma_res_pick(rs0, oi);
                        }
                        if res_has(rs1, q) {
                            let ni = res_at(rs1, q);
                            assert(0 <= ni && ni < rs1.len() && rs1[ni].id@ == q);
                            assert(ni < rs0.len());
                            assert(rs1[ni] == rs0[ni]);
                            lemma_res_pick(rs0, ni);
                        }
                    }
                }
                true
            },
        }
    }

    /// A successful reply arrived for the correlation id.
    pub fn ok(&mut self, id: &Vec<u8>) -> (r: bool)
        requires
            old(self).wf(),
        ensures
            final(self).wf(),
            r == old(self).has_pending(id@),
            !final(self).has_pending(id@),
            r ==> final(self).has_resolution(id@) && final(self).resolution_of(id@)
                == Resolution::Done,
            forall|q: Seq<u8>| q !== id@ ==> final(self).has_pending(q) == old(self).has_pending(q),
            forall|q: Seq<u8>|
                q !== id@ && final(self).has_pending(q) ==> final(self).expiry_of(q) == old(self).expiry_of(q),
            forall|q: Seq<u8>|
                q !== id@ ==> final(self).has_resolution(q) == old(self).has_resolution(q),
    {
        self.resolve(id, Resolution::Done)
    }

    /// A failed reply arrived for the correlation id.
    pub fn error(&mut self, id: &Vec<u8>) -> (r: bool)
        requires
            old(self).wf(),
        ensures
            final(self).wf(),
            r == old(self).has_pending(id@),
            !final(self).has_pending(id@),
            r ==> final(self).has_resolution(id@) && final(self).resolution_of(id@)
                == Resolution::Failed,
            forall|q: Seq<u8>| q !== id@ ==> final(self).has_pending(q) == old(self).has_pending(q),
            forall|q: Seq<u8>|
                q !== id@ && final(self).has_pending(q) ==> final(self).expiry_of(q) == old(self).expiry_of(q),
            forall|q: Seq<u8>|
                q !== id@ ==> final(self).has_resolution(q) == old(self).has_resolution(q),
    {
        self.resolve(id, Resolution::Failed)
    }

    /// Collects and forgets the recorded outcome for the id, if any.
    pub fn take(&mut self, id: &Vec<u8>) -> (r: Option<Resolution>)
        requires
            old(self).wf(),
        ensures
            final(self).wf(),
            r is Some <==> old(self).has_resolution(id@),
            r matches Some(o) ==> o == old(self).resolution_of(id@),
            !final(self).has_resolution(id@),
            forall|q: Seq<u8>|
                final(self).has_pending(q) == old(self).has_pending(q) && (final(self).has_pending(
                    q,
                ) ==> final(self).expiry_of(q) == old(self).expiry_of(q)),
            forall|q: Seq<u8>|
                q !== id@ ==> final(self).has_resolution(q) == old(self).has_resolution(q),
            forall|q: Seq<u8>|
                q !== id@ && final(self).has_resolution(q) ==> final(self).resolution_of(q) == old(self).resolution_of(q),
    {
        match self.find_resolved(id) {
            None => None,
            Some(i) => {
                proof {
                    lemma_res_pick(old(self).resolved@, i as int);
                    lemma_res_remove(old(self).resolved@, i as int);
                }
                let entry = self.resolved.remove(i);
                proof {
                    let ps = self.pending@;
                    let rs0 = old(self).resolved@;
                    let rs1 = self.resolved@;
                    assert(pend_res_disjoint(ps, rs1)) by {
                        assert forall|a: int, b: int|
                            #![trigger ps[a], rs1[b]]
                            0 <= a && a < ps.len() && 0 <= b && b < rs1.len() implies ps[a].id@
                            !== rs1[b].id@ by {
                            let j = choose|j: int| 0 <= j && j < rs0.len() && rs1[b] == rs0[j];
                            assert(ps[a].id@ !== rs0[j].id@);
                        }
                    }
                    assert forall|q: Seq<u8>|
                        q !== id@ && final(self).has_resolution(q) implies final(self).resolution_of(q) == old(self).resolution_of(q) by {
                        assert(res_has(rs0, q));
                    }
                }
                Some(entry.outcome)
            },
        }
    }

    fn find_expired(&self, now: u64) -> (r: Option<usize>)
        ensures
            match r {
                Some(i) => i < self.pending@.len() && self.pending@[i as int].expires_at <= now,
                None => forall|j: int|
                    0 <= j && j < self.pending@.len() ==> (#[trigger] self.pending@[j]).expires_at
                        > now,
            },
    {
        let mut i: usize = 0;
        while i < self.pending.len()
            invariant
                i <= self.pending@.len(),
                forall|j: int| 0 <= j && j < i ==> (#[trigger] self.pending@[j]).expires_at > now,
            decreases self.pending@.len() - i,
        {
            if self.pending[i].expires_at <= now {
                return Some(i);
            }
            i = i + 1;
        }
        None
    }

    /// Resolves every entry whose expiry has passed with `TimedOut` —
    /// exactly once each — and hands their ids back.
    pub fn vacuum(&mut self, now: u64) -> (r: Vec<Vec<u8>>)
        requires
            old(self).wf(),
        ensures
            final(self).wf(),
            forall|q: Seq<u8>|
                final(self).has_pending(q) == (old(self).has_pending(q) && old(self).expiry_of(q)
                    > now),
            forall|q: Seq<u8>|
                final(self).has_pending(q) ==> final(self).expiry_of(q) == old(self).expiry_of(q),
            distinct_seqs(bytes_view(r@)),
            forall|q: Seq<u8>|
                bytes_view(r@).contains(q) == (old(self).has_pending(q) && old(self).expiry_of(q)
                    <= now),
            forall|q: Seq<u8>|
                bytes_view(r@).contains(q) ==> final(self).has_resolution(q) && final(self).resolution_of(q) == Resolution::TimedOut,
            forall|q: Seq<u8>|
                !bytes_view(r@).contains(q) ==> final(self).has_resolution(q) == old(self).has_resolution(q),
            forall|q: Seq<u8>|
                !bytes_view(r@).contains(q) && final(self).has_resolution(q) ==> final(self).resolution_of(q) == old(self).resolution_of(q),
    {
        let mut expired: Vec<Vec<u8>> = Vec::new();
        loop
            invariant
                self.wf(),
                distinct_seqs(bytes_view(expired@)),
                forall|q: Seq<u8>|
                    old(self).has_pending(q) == (self.has_pending(q) || bytes_view(
                        expired@,
                    ).contains(q)),
                forall|q: Seq<u8>| !(self.has_pending(q) && bytes_view(expired@).contains(q)),
                forall|q: Seq<u8>|
                    self.has_pending(q) ==> old(self).has_pending(q) && self.expiry_of(q) == old(self).expiry_of(q),
                forall|q: Seq<u8>|
                    bytes_view(expired@).contains(q) ==> old(self).has_pending(q) && old(self).expiry_of(q) <= now,
                forall|q: Seq<u8>|
                    bytes_view(expired@).contains(q) ==> self.has_resolution(q)
                        && self.resolution_of(q) == Resolution::TimedOut,
                forall|q: Seq<u8>|
                    !bytes_view(expired@).contains(q) ==> self.has_resolution(q) == old(self).has_resolution(q),
                forall|q: Seq<u8>|
                    !bytes_view(expired@).contains(q) && self.has_resolution(q)
                        ==> self.resolution_of(q) == old(self).resolution_of(q),
            ensures
                forall|j: int|
                    0 <= j && j < self.pending@.len() ==> (#[trigger] self.pending@[j]).expires_at
                        > now,
            decreases self.pending@.len(),
        {
            let i = match self.find_expired(now) {
                None => {
                    break ;
                },
                Some(i) => i,
            };
            let ghost before = *self;
            proof {
                lemma_pend_pick(before.pending@, i as int);
                lemma_pend_remove(before.pending@, i as int);
            }
            let entry = self.pending.remove(i);
            self.resolved.push(ResolvedReply { id: clone_bytes(&entry.id), outcome: Resolution::TimedOut });
            let ghost prev_expired = expired@;
            let ghost key = entry.id@;
            expired.push(entry.id);
            proof {
                let ps0 = before.pending@;
                let rs0 = before.resolved@;
                let ps1 = self.pending@;
                let rs1 = self.resolved@;
                assert(before.has_pending(key) && before.expiry_of(key) <= now) by {
                    lemma_pend_pick(ps0, i as int);
                }
                assert(ps1 == ps0.remove(i as int));
                assert(!pend_has(ps1, key));
                assert(forall|q: Seq<u8>|
                    q !== key ==> pend_has(ps1, q) == pend_has(ps0, q));
                assert(forall|q: Seq<u8>|
                    q !== key && pend_has(ps0, q) ==> ps1[pend_at(ps1, q)] == ps0[pend_at(
                        ps0,
                        q,
                    )]);
                // the recorded timeout
                assert(rs1 == rs0.push(rs1.last()));
                assert(rs1.last().id@ == key && rs1.last().outcome == Resolution::TimedOut);
                assert(!res_has(rs0, key)) by {
                    if res_has(rs0, key) {
                        let w = res_at(rs0, key);
                        assert(ps0[i as int].id@ !== rs0[w].id@);
                    }
                }
                assert(res_distinct(rs1)) by {
                    assert forall|a: int, b: int|
                        #![trigger rs1[a], rs1[b]]
                        0 <= a && a < b && b < rs1.len() implies rs1[a].id@ !== rs1[b].id@ by {
                        if b < rs0.len() {
                            assert(rs1[a] == rs0[a] && rs1[b] == rs0[b]);
                        } else {
                            assert(rs1[a] == rs0[a]);
                            if rs0[a].id@ == key {
                                lemma_res_pick(rs0, a);
                            }
                        }
                    }
                }
                assert(pend_res_disjoint(ps1, rs1)) by {
                    assert forall|a: int, b: int|
                        #![trigger ps1[a], rs1[b]]
                        0 <= a && a < ps1.len() && 0 <= b && b < rs1.len() implies ps1[a].id@
                        !== rs1[b].id@ by {
                        let j = choose|j: int| 0 <= j && j < ps0.len() && ps1[a] == ps0[j];
                        if b < rs0.len() {
                            assert(ps0[j].id@ !== rs0[b].id@);
                        } else {
                            assert(rs1[b].id@ == key);
                            if ps1[a].id@ == key {
                                lemma_pend_pick(ps1, a);
                            }
                        }
                    }
                }
                lemma_res_pick(rs1, rs1.len() - 1);
                assert forall|q: Seq<u8>| q !== key implies self.has_resolution(q)
                    == before.has_resolution(q) && (self.has_resolution(q) ==> self.resolution_of(
                    q,
                ) == before.resolution_of(q)) by {
                    if res_has(rs0, q) {
                        let oi = res_at(rs0, q);
                        assert(0 <= oi && oi < rs0.len() && rs0[oi].id@ == q);
                        assert(rs1[oi] == rs0[oi]);
                        lemma_res_pick(rs1, oi);
                        lemma_res_pick(rs0, oi);
                    }
                    if res_has(rs1, q) {
                        let ni = res_at(rs1, q);
                        assert(0 <= ni && ni < rs1.len() && rs1[ni].id@ == q);
                        assert(ni < rs0.len());
                        assert(rs1[ni] == rs0[ni]);
                        lemma_res_pick(rs0, ni);
                    }
                }
                // the expired list grows by exactly this id
                assert(expired@ == prev_expired.push(expired@.last()));
                assert(bytes_view(expired@) =~= bytes_view(prev_expired).push(key));
                assert(!bytes_view(prev_expired).contains(key));
                assert forall|q: Seq<u8>| #[trigger] bytes_view(expired@).contains(q) implies (q
                    == key || bytes_view(prev_expired).contains(q)) by {
                    let w = choose|w: int|
                        0 <= w && w < bytes_view(expired@).len() && #[trigger] bytes_view(
                            expired@,
                        )[w] == q;
                    if w < prev_expired.len() {
                        assert(bytes_view(prev_expired)[w] == q);
                    }
                }
                assert forall|q: Seq<u8>| (bytes_view(prev_expired).contains(q) || q
                    == key) implies #[trigger] bytes_view(expired@).contains(q) by {
                    if bytes_view(prev_expired).contains(q) {
                        let w = choose|w: int|
                            0 <= w && w < bytes_view(prev_expired).len() && #[trigger] bytes_view(
                                prev_expired,
                            )[w] == q;
                        assert(bytes_view(expired@)[w] == q);
                    } else {
                        assert(bytes_view(expired@)[prev_expired.len() as int] == key);
                    }
                }
                assert forall|q: Seq<u8>| !(self.has_pending(q) && bytes_view(expired@).contains(
                    q,
                )) by {
                    if bytes_view(expired@).contains(q) {
                        if q !== key {
                            assert(bytes_view(prev_expired).contains(q));
                            assert(!before.has_pending(q));
                            assert(self.has_pending(q) == before.has_pending(q));
                        }
                    }
                }
                assert(distinct_seqs(bytes_view(expired@))) by {
                    let bv = bytes_view(expired@);
                    let pv = bytes_view(prev_expired);
                    assert forall|a: int, b: int|
                        #![trigger bv[a], bv[b]]
                        0 <= a && a < b && b < bv.len() implies bv[a] !== bv[b] by {
                        if b < pv.len() {
                            assert(bv[a] == pv[a] && bv[b] == pv[b]);
                        } else {
                            assert(bv[b] == key);
                            assert(bv[a] == pv[a]);
                            assert(pv.contains(pv[a]));
                        }
                    }
                }
                assert forall|q: Seq<u8>| #[trigger] bytes_view(expired@).contains(q) implies
                    self.has_resolution(q) && self.resolution_of(q) == Resolution::TimedOut by {
                    if q !== key {
                        assert(bytes_view(prev_expired).contains(q));
                        assert(before.has_resolution(q) && before.resolution_of(q)
                            == Resolution::TimedOut);
                    }
                }
                assert forall|q: Seq<u8>| !(#[trigger] bytes_view(expired@).contains(q)) implies
                    self.has_resolution(q) == old(self).has_resolution(q) && (self.has_resolution(
                    q,
                ) ==> self.resolution_of(q) == old(self).resolution_of(q)) by {
                    assert(q !== key);
                    assert(!bytes_view(prev_expired).contains(q));
                }
            }
        }
        proof {
            assert forall|q: Seq<u8>| final(self).has_pending(q) implies final(self).expiry_of(q)
                > now by {
                let w = pend_at(self.pending@, q);
                assert(0 <= w && w < self.pending@.len() && self.pending@[w].id@ == q);
            }
        }
        expired
    }
}

} // verus!
