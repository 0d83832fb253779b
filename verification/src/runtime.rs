//! The lobby worker: one authoritative loop per lobby.
//!
//! The worker state machine lives here, verified: membership bookkeeping,
//! the action batching window, and delta fan-out. The blocking receive that
//! drives it — take one event or time out after `wait_budget` — belongs to
//! the embedding, which owns the thread and the clock.
//!
//! The `GameHooks` instance is a plain field of the worker: it is read and
//! written through `&mut self` alone, so no two threads ever touch it
//! concurrently — single-writer by ownership.

use vstd::prelude::*;

use crate::codec::encode_output_view;
use crate::context::PlayerContext;
use crate::hooks::{Diff, DiffNotification, GameHooks, RuntimeAction};
use crate::message::OutputMessageView;
use crate::schema::{Schema, Serialize};
use crate::session::{distinct_u64, SessionManager};

verus! {

/// The two timings of a lobby loop: how long to dwell when idle, and how
/// long the batching window stays open once an action arrives.
pub struct Settings {
    pub tick_no_action_millis: u64,
    pub tick_millis: u64,
}

/// One lobby's worker state.
pub struct SyncRuntime<H: GameHooks> {
    type_: Vec<u8>,
    id: Vec<u8>,
    hooks: H,
    tick_no_action: u64,
    tick: u64,
    players_cxts: Vec<PlayerContext>,
    actions_buffer: Vec<(u64, H::Action)>,
    deadline: Option<u64>,
}

/// `a + b`, stopping at the top of `u64`.
pub open spec fn sat_add(a: u64, b: u64) -> u64 {
    if a + b > 0xffff_ffff_ffff_ffffu64 {
        0xffff_ffff_ffff_ffffu64
    } else {
        (a + b) as u64
    }
}

/// Who one diff is addressed to, out of the lobby's current members.
pub open spec fn diff_targets<D>(d: Diff<D>, players: Seq<u64>, q: u64) -> bool {
    match d {
        Diff::All { .. } => players.contains(q),
        Diff::TargetUnique { id, .. } => q == id,
        Diff::TargetList { ids, .. } => ids@.contains(q),
    }
}

/// The fabric after a worker step: the same sessions and subscriptions, with
/// each queue only appended to.
pub open spec fn fabric_extends(a: SessionManager, b: SessionManager) -> bool {
    &&& forall|q: u64| b.has_session(q) == a.has_session(q)
    &&& forall|q: u64| a.has_session(q) ==> a.outbox_of(q).is_prefix_of(b.outbox_of(q))
    &&& forall|q: u64|
        b.has_subs(q) == a.has_subs(q) && (b.has_subs(q) ==> b.subs_of(q) == a.subs_of(q))
}

pub proof fn lemma_fabric_extends_trans(a: SessionManager, b: SessionManager, c: SessionManager)
    requires
        fabric_extends(a, b),
        fabric_extends(b, c),
    ensures
        fabric_extends(a, c),
{
    assert forall|q: u64| a.has_session(q) implies a.outbox_of(q).is_prefix_of(
        c.outbox_of(q),
    ) by {
        assert(a.outbox_of(q).is_prefix_of(b.outbox_of(q)));
        assert(b.outbox_of(q).is_prefix_of(c.outbox_of(q)));
        assert(a.outbox_of(q) =~= c.outbox_of(q).take(a.outbox_of(q).len() as int)) by {
            assert(a.outbox_of(q) =~= b.outbox_of(q).take(a.outbox_of(q).len() as int));
            assert(b.outbox_of(q) =~= c.outbox_of(q).take(b.outbox_of(q).len() as int));
        }
    }
}

/// The envelopes one batch of diffs queues for player `q`, in emission
/// order: one `Diff` envelope per diff addressed to `q`, carrying the
/// payload that diff was serialized to.
pub open spec fn fanout_for<D>(
    type_: Seq<u8>,
    id: Seq<u8>,
    players: Seq<u64>,
    diffs: Seq<Diff<D>>,
    datas: Seq<Seq<u8>>,
    q: u64,
) -> Seq<Seq<u8>>
    decreases diffs.len(),
{
    if diffs.len() == 0 {
        Seq::empty()
    } else {
        (if diff_targets(diffs[0], players, q) {
            seq![
                encode_output_view(
                    OutputMessageView::Diff { type_, id, finished: false, data: datas[0] },
                ),
            ]
        } else {
            Seq::<Seq<u8>>::empty()
        }) + fanout_for(type_, id, players, diffs.skip(1), datas.skip(1), q)
    }
}

/// The fabric moved from `a` to `b` by fanning out exactly `diffs`, in
/// order, under some per-diff payloads.
pub open spec fn batch_effect<D>(
    type_: Seq<u8>,
    id: Seq<u8>,
    players: Seq<u64>,
    diffs: Seq<Diff<D>>,
    a: SessionManager,
    b: SessionManager,
) -> bool {
    exists|datas: Seq<Seq<u8>>|
        #![trigger datas.len()]
        datas.len() == diffs.len() && (forall|q: u64|
            #![trigger b.outbox_of(q)]
            a.has_session(q) ==> b.outbox_of(q) == a.outbox_of(q) + fanout_for(
                type_,
                id,
                players,
                diffs,
                datas,
                q,
            ))
}

/// The fabric moved from `a` to `b` by fanning out some diff batch, in
/// order.
pub open spec fn some_batch_effect<D>(
    type_: Seq<u8>,
    id: Seq<u8>,
    players: Seq<u64>,
    a: SessionManager,
    b: SessionManager,
) -> bool {
    exists|diffs: Seq<Diff<D>>|
        #![trigger diffs.len()]
        batch_effect(type_, id, players, diffs, a, b)
}

/// What finishing a lobby queues for player `q`: the optional terminal
/// delta where addressed, then — for every current member — the finish
/// notice, exactly once, last.
pub open spec fn finish_fanout<D>(
    type_: Seq<u8>,
    id: Seq<u8>,
    players: Seq<u64>,
    terminal: Option<Diff<D>>,
    data: Seq<u8>,
    q: u64,
) -> Seq<Seq<u8>> {
    (match terminal {
        Option::Some(d) => if diff_targets(d, players, q) {
            seq![
                encode_output_view(
                    OutputMessageView::Diff { type_, id, finished: false, data },
                ),
            ]
        } else {
            Seq::<Seq<u8>>::empty()
        },
        Option::None => Seq::<Seq<u8>>::empty(),
    }) + (if players.contains(q) {
        seq![
            encode_output_view(
                OutputMessageView::Diff { type_, id, finished: true, data: Seq::<u8>::empty() },
            ),
        ]
    } else {
        Seq::<Seq<u8>>::empty()
    })
}

/// The fabric moved from `a` to `b` by the finish sequence: an optional
/// terminal delta and then one finish notice per member.
pub open spec fn finish_effect<D>(
    type_: Seq<u8>,
    id: Seq<u8>,
    players: Seq<u64>,
    a: SessionManager,
    b: SessionManager,
) -> bool {
    exists|terminal: Option<Diff<D>>, data: Seq<u8>|
        #![trigger finish_fanout(type_, id, players, terminal, data, 0u64)]
        forall|q: u64|
            #![trigger b.outbox_of(q)]
            a.has_session(q) ==> b.outbox_of(q) == a.outbox_of(q) + finish_fanout(
                type_,
                id,
                players,
                terminal,
                data,
                q,
            )
}

/// `fanout_for` distributes over appending one diff at the end.
proof fn lemma_fanout_snoc<D>(
    type_: Seq<u8>,
    id: Seq<u8>,
    players: Seq<u64>,
    diffs: Seq<Diff<D>>,
    datas: Seq<Seq<u8>>,
    d: Diff<D>,
    w: Seq<u8>,
    q: u64,
)
    requires
        datas.len() == diffs.len(),
    ensures
        fanout_for(type_, id, players, diffs.push(d), datas.push(w), q) == fanout_for(
            type_,
            id,
            players,
            diffs,
            datas,
            q,
        ) + (if diff_targets(d, players, q) {
            seq![
                encode_output_view(
                    OutputMessageView::Diff { type_, id, finished: false, data: w },
                ),
            ]
        } else {
            Seq::<Seq<u8>>::empty()
        }),
    decreases diffs.len(),
{
    let tail = if diff_targets(d, players, q) {
        seq![
            encode_output_view(OutputMessageView::Diff { type_, id, finished: false, data: w }),
        ]
    } else {
        Seq::<Seq<u8>>::empty()
    };
    let head = if diff_targets(diffs.push(d)[0], players, q) {
        seq![
            encode_output_view(
                OutputMessageView::Diff {
                    type_,
                    id,
                    finished: false,
                    data: datas.push(w)[0],
                },
            ),
        ]
    } else {
        Seq::<Seq<u8>>::empty()
    };
    assert(fanout_for(type_, id, players, diffs.push(d), datas.push(w), q) == head + fanout_for(
        type_,
        id,
        players,
        diffs.push(d).skip(1),
        datas.push(w).skip(1),
        q,
    ));
    if diffs.len() == 0 {
        assert(diffs.push(d).skip(1) =~= Seq::<Diff<D>>::empty());
        assert(datas.push(w).skip(1) =~= Seq::<Seq<u8>>::empty());
        assert(diffs.push(d)[0] == d && datas.push(w)[0] == w);
        assert(fanout_for(
            type_,
            id,
            players,
            Seq::<Diff<D>>::empty(),
            Seq::<Seq<u8>>::empty(),
            q,
        ) == Seq::<Seq<u8>>::empty());
        assert(diffs =~= Seq::<Diff<D>>::empty());
        assert(fanout_for(type_, id, players, diffs, datas, q) == Seq::<Seq<u8>>::empty());
        assert(head + Seq::<Seq<u8>>::empty() =~= Seq::<Seq<u8>>::empty() + tail);
    } else {
        assert(diffs.push(d).skip(1) =~= diffs.skip(1).push(d));
        assert(datas.push(w).skip(1) =~= datas.skip(1).push(w));
        lemma_fanout_snoc(type_, id, players, diffs.skip(1), datas.skip(1), d, w, q);
        assert(diffs.push(d)[0] == diffs[0] && datas.push(w)[0] == datas[0]);
        let rest = fanout_for(type_, id, players, diffs.skip(1), datas.skip(1), q);
        assert(fanout_for(type_, id, players, diffs.push(d), datas.push(w), q) == head + (rest
            + tail));
        assert(fanout_for(type_, id, players, diffs, datas, q) == head + rest);
        assert(head + (rest + tail) =~= (head + rest) + tail);
    }
}

impl<H: GameHooks> SyncRuntime<H> {
    pub closed spec fn spec_type(&self) -> Seq<u8> {
        self.type_@
    }

    pub closed spec fn spec_id(&self) -> Seq<u8> {
        self.id@
    }

    pub closed spec fn tick(&self) -> u64 {
        self.tick
    }

    pub closed spec fn tick_no_action(&self) -> u64 {
        self.tick_no_action
    }

    /// The ids of the current members, in join order.
    pub closed spec fn players_ids(&self) -> Seq<u64> {
        self.players_cxts@.map_values(|c: PlayerContext| c.spec_id())
    }

    /// The batched actions, in arrival order.
    pub closed spec fn buffer(&self) -> Seq<(u64, H::Action)> {
        self.actions_buffer@
    }

    /// When the open batching window closes, if one is open.
    pub closed spec fn deadline(&self) -> Option<u64> {
        self.deadline
    }

    /// Member ids are unique.
    pub closed spec fn wf(&self) -> bool {
        distinct_u64(self.players_ids())
    }

    pub fn build(type_: Vec<u8>, id: Vec<u8>, hooks: H, settings: &Settings) -> (r: Self)
        ensures
            r.wf(),
            r.spec_type() == type_@,
            r.spec_id() == id@,
            r.tick() == settings.tick_millis,
            r.tick_no_action() == settings.tick_no_action_millis,
            r.players_ids() == Seq::<u64>::empty(),
            r.buffer() == Seq::<(u64, H::Action)>::empty(),
            r.deadline() is None,
    {
        let r = SyncRuntime {
            type_,
            id,
            hooks,
            tick_no_action: settings.tick_no_action_millis,
            tick: settings.tick_millis,
            players_cxts: Vec::new(),
            actions_buffer: Vec::new(),
            deadline: None,
        };
        proof {
            assert(r.players_ids() =~= Seq::<u64>::empty());
        }
        r
    }

    /// How long the embedding may block for the next event: the remaining
    /// batching budget while a window is open, the idle dwell otherwise.
    pub fn wait_budget(&self, now: u64) -> (r: u64)
        ensures
            r == match self.deadline() {
                Option::None => self.tick_no_action(),
                Option::Some(d) => if d > now {
                    (d - now) as u64
                } else {
                    0u64
                },
            },
    {
        match self.deadline {
            None => self.tick_no_action,
            Some(d) => {
                if d > now {
                    d - now
                } else {
                    0
                }
            },
        }
    }

    /// The member ids, for fan-out.
    fn player_ids_vec(&self) -> (r: Vec<u64>)
        ensures
            r@ == self.players_ids(),
    {
        let mut r: Vec<u64> = Vec::new();
        let mut i: usize = 0;
        while i < self.players_cxts.len()
            invariant
                i <= self.players_cxts@.len(),
                r@ == self.players_cxts@.map_values(|c: PlayerContext| c.spec_id()).take(i as int),
            decreases self.players_cxts@.len() - i,
        {
            r.push(self.players_cxts[i].id());
            proof {
                let all = self.players_cxts@.map_values(|c: PlayerContext| c.spec_id());
                assert(all.take(i + 1) =~= all.take(i as int).push(all[i as int]));
            }
            i = i + 1;
        }
        proof {
            let all = self.players_cxts@.map_values(|c: PlayerContext| c.spec_id());
            assert(all.take(all.len() as int) =~= all);
        }
        r
    }

    fn find_player(&self, pid: u64) -> (r: Option<usize>)
        ensures
            match r {
                Some(i) => i < self.players_cxts@.len() && self.players_cxts@[i as int].spec_id()
                    == pid && self.players_ids().contains(pid),
                None => !self.players_ids().contains(pid),
            },
    {
        let mut i: usize = 0;
        while i < self.players_cxts.len()
            invariant
                i <= self.players_cxts@.len(),
                forall|j: int|
                    0 <= j && j < i ==> (#[trigger] self.players_cxts@[j]).spec_id() != pid,
            decreases self.players_cxts@.len() - i,
        {
            if self.players_cxts[i].id() == pid {
                proof {
                    let all = self.players_cxts@.map_values(|c: PlayerContext| c.spec_id());
                    assert(all[i as int] == pid);
                }
                return Some(i);
            }
            i = i + 1;
        }
        proof {
            let all = self.players_cxts@.map_values(|c: PlayerContext| c.spec_id());
            assert forall|j: int| 0 <= j && j < all.len() implies all[j] != pid by {
                assert(all[j] == self.players_cxts@[j].spec_id());
            }
            if all.contains(pid) {
                let w = choose|w: int| 0 <= w && w < all.len() && all[w] == pid;
            }
        }
        None
    }

    fn dedup_ids(ids: &Vec<u64>) -> (r: Vec<u64>)
        ensures
            distinct_u64(r@),
            forall|q: u64| r@.contains(q) == ids@.contains(q),
    {
        let mut r: Vec<u64> = Vec::new();
        let mut i: usize = 0;
        while i < ids.len()
            invariant
                i <= ids@.len(),
                distinct_u64(r@),
                forall|q: u64| #[trigger] r@.contains(q) == ids@.take(i as int).contains(q),
            decreases ids@.len() - i,
        {
            let cur = ids[i];
            let mut seen = false;
            let mut j: usize = 0;
            while j < r.len()
                invariant
                    j <= r@.len(),
                    seen ==> r@.contains(cur),
                    !seen ==> forall|w: int| 0 <= w && w < j ==> r@[w] != cur,
                decreases r@.len() - j,
            {
                if r[j] == cur {
                    seen = true;
                    proof {
                        assert(r@[j as int] == cur);
                    }
                    j = r.len();
                } else {
                    j = j + 1;
                }
            }
            let ghost prev = r@;
            if !seen {
                proof {
                    if prev.contains(cur) {
                        let w = choose|w: int| 0 <= w && w < prev.len() && prev[w] == cur;
                    }
                }
                r.push(cur);
                proof {
                    assert(distinct_u64(r@)) by {
                        assert forall|a: int, b: int|
                            #![trigger r@[a], r@[b]]
                            0 <= a && a < b && b < r@.len() implies r@[a] != r@[b] by {
                            if b < prev.len() {
                                assert(r@[a] == prev[a] && r@[b] == prev[b]);
                            } else {
                                assert(r@[b] == cur && r@[a] == prev[a]);
                                assert(prev.contains(prev[a]));
                            }
                        }
                    }
                }
            }
            proof {
                assert forall|q: u64| #[trigger] r@.contains(q) == ids@.take(i + 1).contains(
                    q,
                ) by {
                    assert(ids@.take(i + 1) =~= ids@.take(i as int).push(ids@[i as int]));
                    if r@.contains(q) {
                        let w = choose|w: int| 0 <= w && w < r@.len() && r@[w] == q;
                        if w < prev.len() {
                            assert(prev[w] == q && prev.contains(q));
                            let v = choose|v: int|
                                0 <= v && v < ids@.take(i as int).len() && ids@.take(i as int)[v]
                                    == q;
                            assert(ids@.take(i + 1)[v] == q);
                        } else {
                            assert(q == cur);
                            assert(ids@.take(i + 1)[i as int] == cur);
                        }
                    }
                    if ids@.take(i + 1).contains(q) {
                        let w = choose|w: int|
                            0 <= w && w < ids@.take(i + 1).len() && #[trigger] ids@.take(i + 1)[w]
                                == q;
                        if w < i {
                            assert(ids@.take(i as int)[w] == q);
                            assert(prev.contains(q));
                            let v = choose|v: int| 0 <= v && v < prev.len() && prev[v] == q;
                            assert(r@[v] == q);
                        } else {
                            assert(q == cur);
                            if seen {
                                let v = choose|v: int| 0 <= v && v < prev.len() && prev[v] == cur;
                                assert(r@[v] == cur);
                            } else {
                                assert(r@[prev.len() as int] == cur);
                            }
                        }
                    }
                }
            }
            i = i + 1;
        }
        proof {
            assert(ids@.take(ids@.len() as int) =~= ids@);
        }
        r
    }

    /// Serializes the delta once, wraps it in a `Diff` envelope, and queues
    /// one copy for each addressee. Everyone addressed sees the same bytes,
    /// exactly once; the returned ghost value is the payload that went out.
    fn notify<S: Schema>(&self, sm: &mut SessionManager, diff: Diff<H::Delta>) -> (r: Ghost<
        Seq<u8>,
    >) where H::Delta: Serialize<S>
        requires
            old(sm).wf(),
            self.wf(),
        ensures
            final(sm).wf(),
            fabric_extends(*old(sm), *final(sm)),
            forall|q: u64|
                #![trigger final(sm).outbox_of(q)]
                old(sm).has_session(q) ==> final(sm).outbox_of(q) == (if diff_targets(
                    diff,
                    self.players_ids(),
                    q,
                ) {
                    old(sm).outbox_of(q).push(
                        encode_output_view(
                            OutputMessageView::Diff {
                                type_: self.spec_type(),
                                id: self.spec_id(),
                                finished: false,
                                data: r@,
                            },
                        ),
                    )
                } else {
                    old(sm).outbox_of(q)
                }),
    {
        match diff {
            Diff::All { delta } => {
                let payload = delta.serialize();
                let ghost data = payload@;
                let msg = DiffNotification::new(
                    clone_bytes(&self.type_),
                    clone_bytes(&self.id),
                    payload,
                ).into_message();
                let ids = self.player_ids_vec();
                sm.send_all(&ids, &msg);
                let r = Ghost(data);
                proof {
                    assert(msg@ == (OutputMessageView::Diff {
                        type_: self.spec_type(),
                        id: self.spec_id(),
                        finished: false,
                        data,
                    }));
                    assert forall|q: u64|
                        #![trigger final(sm).outbox_of(q)]
                        old(sm).has_session(q) implies sm.outbox_of(q) == (if diff_targets(
                        diff,
                        self.players_ids(),
                        q,
                    ) {
                        old(sm).outbox_of(q).push(
                            encode_output_view(
                                OutputMessageView::Diff {
                                    type_: self.spec_type(),
                                    id: self.spec_id(),
                                    finished: false,
                                    data,
                                },
                            ),
                        )
                    } else {
                        old(sm).outbox_of(q)
                    }) by {}
                    lemma_prefix_of_push_cases(*old(sm), *sm);
                }
                r
            },
            Diff::TargetUnique { id, delta } => {
                let payload = delta.serialize();
                let ghost data = payload@;
                let msg = DiffNotification::new(
                    clone_bytes(&self.type_),
                    clone_bytes(&self.id),
                    payload,
                ).into_message();
                sm.send(id, &msg);
                let r = Ghost(data);
                proof {
                    assert(msg@ == (OutputMessageView::Diff {
                        type_: self.spec_type(),
                        id: self.spec_id(),
                        finished: false,
                        data,
                    }));
                    assert forall|q: u64|
                        #![trigger final(sm).outbox_of(q)]
                        old(sm).has_session(q) implies sm.outbox_of(q) == (if diff_targets(
                        diff,
                        self.players_ids(),
                        q,
                    ) {
                        old(sm).outbox_of(q).push(
                            encode_output_view(
                                OutputMessageView::Diff {
                                    type_: self.spec_type(),
                                    id: self.spec_id(),
                                    finished: false,
                                    data,
                                },
                            ),
                        )
                    } else {
                        old(sm).outbox_of(q)
                    }) by {}
                    lemma_prefix_of_push_cases(*old(sm), *sm);
                }
                r
            },
            Diff::TargetList { ids, delta } => {
                let payload = delta.serialize();
                let ghost data = payload@;
                let msg = DiffNotification::new(
                    clone_bytes(&self.type_),
                    clone_bytes(&self.id),
                    payload,
                ).into_message();
                let unique = Self::dedup_ids(&ids);
                sm.send_all(&unique, &msg);
                let r = Ghost(data);
                proof {
                    assert(msg@ == (OutputMessageView::Diff {
                        type_: self.spec_type(),
                        id: self.spec_id(),
                        finished: false,
                        data,
                    }));
                    assert forall|q: u64|
                        #![trigger final(sm).outbox_of(q)]
                        old(sm).has_session(q) implies sm.outbox_of(q) == (if diff_targets(
                        diff,
                        self.players_ids(),
                        q,
                    ) {
                        old(sm).outbox_of(q).push(
                            encode_output_view(
                                OutputMessageView::Diff {
                                    type_: self.spec_type(),
                                    id: self.spec_id(),
                                    finished: false,
                                    data,
                                },
                            ),
                        )
                    } else {
                        old(sm).outbox_of(q)
                    }) by {}
                    lemma_prefix_of_push_cases(*old(sm), *sm);
                }
                r
            },
        }
    }
}

fn clone_bytes(v: &Vec<u8>) -> (r: Vec<u8>)
    ensures
        r@ == v@,
{
    let mut r: Vec<u8> = Vec::new();
    let mut i: usize = 0;
    while i < v.len()
        invariant
            i <= v@.len(),
            r@ == v@.subrange(0, i as int),
        decreases v@.len() - i,
    {
        r.push(v[i]);
        assert(v@.subrange(0, i + 1 as int) =~= v@.subrange(0, i as int).push(v@[i as int]));
        i = i + 1;
    }
    assert(v@.subrange(0, v@.len() as int) =~= v@);
    r
}

impl<H: GameHooks> SyncRuntime<H> {
    /// Fans a batch of diffs out, first to last: per member, one envelope
    /// for every diff addressed to it, in emission order.
    fn notify_all<S: Schema>(&self, sm: &mut SessionManager, diffs: Vec<Diff<H::Delta>>) where
        H::Delta: Serialize<S>,

        requires
            old(sm).wf(),
            self.wf(),
        ensures
            final(sm).wf(),
            fabric_extends(*old(sm), *final(sm)),
            batch_effect(
                self.spec_type(),
                self.spec_id(),
                self.players_ids(),
                diffs@,
                *old(sm),
                *final(sm),
            ),
    {
        let ghost orig = diffs@;
        let ghost start = *sm;
        let mut diffs = diffs;
        let ghost mut datas: Seq<Seq<u8>> = Seq::empty();
        proof {
            assert forall|q: u64| #![trigger sm.outbox_of(q)] start.has_session(q) implies
                sm.outbox_of(q) == start.outbox_of(q) + fanout_for(
                self.spec_type(),
                self.spec_id(),
                self.players_ids(),
                orig.take(0),
                datas,
                q,
            ) by {
                assert(orig.take(0) =~= Seq::<Diff<H::Delta>>::empty());
                assert(start.outbox_of(q) + fanout_for(
                    self.spec_type(),
                    self.spec_id(),
                    self.players_ids(),
                    Seq::<Diff<H::Delta>>::empty(),
                    datas,
                    q,
                ) =~= start.outbox_of(q));
            }
        }
        loop
            invariant
                sm.wf(),
                self.wf(),
                fabric_extends(start, *sm),
                datas.len() + diffs@.len() == orig.len(),
                diffs@ == orig.skip(datas.len() as int),
                forall|q: u64|
                    #![trigger sm.outbox_of(q)]
                    start.has_session(q) ==> sm.outbox_of(q) == start.outbox_of(q) + fanout_for(
                        self.spec_type(),
                        self.spec_id(),
                        self.players_ids(),
                        orig.take(datas.len() as int),
                        datas,
                        q,
                    ),
            ensures
                diffs@.len() == 0,
            decreases diffs@.len(),
        {
            if diffs.len() == 0 {
                break ;
            }
            let ghost k = datas.len() as int;
            let d = diffs.remove(0);
            proof {
                assert(orig.skip(k)[0] == orig[k]);
                assert(diffs@ =~= orig.skip(k + 1)) by {
                    assert forall|j: int| 0 <= j && j < diffs@.len() implies diffs@[j] == orig.skip(
                        k + 1,
                    )[j] by {
                        assert(diffs@[j] == orig.skip(k)[j + 1]);
                    }
                }
            }
            let ghost mid = *sm;
            let w = self.notify::<S>(sm, d);
            proof {
                lemma_fabric_extends_trans(start, mid, *sm);
                let prev = datas;
                datas = datas.push(w@);
                assert(orig.take(k + 1) =~= orig.take(k).push(orig[k]));
                assert forall|q: u64| #![trigger sm.outbox_of(q)] start.has_session(q) implies
                    sm.outbox_of(q) == start.outbox_of(q) + fanout_for(
                    self.spec_type(),
                    self.spec_id(),
                    self.players_ids(),
                    orig.take(k + 1),
                    datas,
                    q,
                ) by {
                    lemma_fanout_snoc(
                        self.spec_type(),
                        self.spec_id(),
                        self.players_ids(),
                        orig.take(k),
                        prev,
                        orig[k],
                        w@,
                        q,
                    );
                    let head = fanout_for(
                        self.spec_type(),
                        self.spec_id(),
                        self.players_ids(),
                        orig.take(k),
                        prev,
                        q,
                    );
                    let env = encode_output_view(
                        OutputMessageView::Diff {
                            type_: self.spec_type(),
                            id: self.spec_id(),
                            finished: false,
                            data: w@,
                        },
                    );
                    if diff_targets(d, self.players_ids(), q) {
                        assert(sm.outbox_of(q) == mid.outbox_of(q).push(env));
                        assert((start.outbox_of(q) + head).push(env) =~= start.outbox_of(q) + (
                        head + seq![env]));
                    } else {
                        assert(sm.outbox_of(q) == mid.outbox_of(q));
                        assert(head + Seq::<Seq<u8>>::empty() =~= head);
                    }
                }
            }
        }
        proof {
            assert(orig.take(orig.len() as int) =~= orig);
            assert(datas.len() == diffs@.len() + datas.len() - diffs@.len());
            assert(batch_effect(
                self.spec_type(),
                self.spec_id(),
                self.players_ids(),
                orig,
                start,
                *sm,
            )) by {
                assert(datas.len() == orig.len());
            }
        }
    }

    /// One event from the registry, at time `now` (milliseconds).
    ///
    /// Joins and leaves take effect at once: membership changes and the
    /// hook's diffs go out. An action only joins the batch; the first one
    /// opens a window that closes `tick` later and is never extended by the
    /// actions that follow — that bounds how long an action can wait.
    pub fn on_event<S: Schema>(
        &mut self,
        sm: &mut SessionManager,
        p_id: u64,
        event: RuntimeAction<H>,
        now: u64,
    ) where H::Delta: Serialize<S>
        requires
            old(self).wf(),
            old(sm).wf(),
        ensures
            final(self).wf(),
            final(sm).wf(),
            fabric_extends(*old(sm), *final(sm)),
            final(self).spec_type() == old(self).spec_type(),
            final(self).spec_id() == old(self).spec_id(),
            final(self).tick() == old(self).tick(),
            final(self).tick_no_action() == old(self).tick_no_action(),
            match event {
                RuntimeAction::Action(a) => final(self).buffer() == old(self).buffer().push(
                    (p_id, a),
                ) && final(self).players_ids() == old(self).players_ids() && final(self).deadline()
                    == (match old(self).deadline() {
                    Option::Some(d) => Option::Some(d),
                    Option::None => Option::Some(sat_add(now, old(self).tick())),
                }) && *final(sm) == *old(sm),
                RuntimeAction::Join(cxt) => final(self).buffer() == old(self).buffer()
                    && final(self).deadline() == old(self).deadline() && (forall|q: u64|
                    final(self).players_ids().contains(q) == (old(self).players_ids().contains(q)
                        || q == cxt.spec_id())) && some_batch_effect::<H::Delta>(
                    final(self).spec_type(),
                    final(self).spec_id(),
                    final(self).players_ids(),
                    *old(sm),
                    *final(sm),
                ),
                RuntimeAction::Leave(pid) => final(self).buffer() == old(self).buffer()
                    && final(self).deadline() == old(self).deadline() && (forall|q: u64|
                    final(self).players_ids().contains(q) == (old(self).players_ids().contains(q)
                        && q != pid)) && some_batch_effect::<H::Delta>(
                    final(self).spec_type(),
                    final(self).spec_id(),
                    final(self).players_ids(),
                    *old(sm),
                    *final(sm),
                ) && (!old(self).players_ids().contains(pid) ==> *final(sm) == *old(sm)),
            },
    {
        match event {
            RuntimeAction::Action(a) => {
                self.actions_buffer.push((p_id, a));
                if self.deadline.is_none() {
                    let d = if now <= u64::MAX - self.tick {
                        now + self.tick
                    } else {
                        u64::MAX
                    };
                    self.deadline = Some(d);
                }
            },
            RuntimeAction::Join(cxt) => {
                let ghost before = self.players_cxts@;
                let pid = cxt.id();
                let ti: usize;
                match self.find_player(pid) {
                    Some(i) => {
                        self.players_cxts[i] = cxt;
                        ti = i;
                        proof {
                            let all0 = before.map_values(|c: PlayerContext| c.spec_id());
                            let all1 = self.players_cxts@.map_values(
                                |c: PlayerContext| c.spec_id(),
                            );
                            assert(all1 =~= all0.update(i as int, pid));
                            assert(all0[i as int] == pid);
                            assert(all1 =~= all0);
                        }
                    },
                    None => {
                        self.players_cxts.push(cxt);
                        ti = self.players_cxts.len() - 1;
                        proof {
                            let all0 = before.map_values(|c: PlayerContext| c.spec_id());
                            let all1 = self.players_cxts@.map_values(
                                |c: PlayerContext| c.spec_id(),
                            );
                            assert(all1 =~= all0.push(pid));
                            assert(distinct_u64(all1)) by {
                                assert forall|x: int, y: int|
                                    #![trigger all1[x], all1[y]]
                                    0 <= x && x < y && y < all1.len() implies all1[x] != all1[y] by {
                                    if y < all0.len() {
                                        assert(all1[x] == all0[x] && all1[y] == all0[y]);
                                    } else {
                                        assert(all1[y] == pid && all1[x] == all0[x]);
                                        assert(all0.contains(all0[x]));
                                    }
                                }
                            }
                            assert forall|q: u64| all1.contains(q) == (all0.contains(q) || q
                                == pid) by {
                                if all1.contains(q) {
                                    let w = choose|w: int|
                                        0 <= w && w < all1.len() && all1[w] == q;
                                    if w < all0.len() {
                                        assert(all0[w] == q);
                                    }
                                }
                                if all0.contains(q) {
                                    let w = choose|w: int|
                                        0 <= w && w < all0.len() && all0[w] == q;
                                    assert(all1[w] == q);
                                }
                                if q == pid {
                                    assert(all1[all0.len() as int] == pid);
                                }
                            }
                        }
                    },
                }
                let diffs = match self.hooks.on_join(&self.players_cxts[ti]) {
                    Some(diffs) => diffs,
                    None => Vec::new(),
                };
                let ghost emitted = diffs@;
                self.notify_all::<S>(sm, diffs);
                proof {
                    let all0 = before.map_values(|c: PlayerContext| c.spec_id());
                    if all0.contains(cxt.spec_id()) {
                        assert forall|q: u64| self.players_ids().contains(q) == (all0.contains(q)
                            || q == cxt.spec_id()) by {}
                    }
                    assert(emitted.len() >= 0);
                    assert(some_batch_effect::<H::Delta>(
                        self.spec_type(),
                        self.spec_id(),
                        self.players_ids(),
                        *old(sm),
                        *sm,
                    ));
                }
            },
            RuntimeAction::Leave(pid) => {
                let ghost before = self.players_cxts@;
                match self.find_player(pid) {
                    None => {},
                    Some(i) => {
                        let gone = self.players_cxts.remove(i);
                        proof {
                            let all0 = before.map_values(|c: PlayerContext| c.spec_id());
                            let all1 = self.players_cxts@.map_values(
                                |c: PlayerContext| c.spec_id(),
                            );
                            assert(all1 =~= all0.remove(i as int)) by {
                                all0.remove_ensures(i as int);
                                assert forall|j: int| 0 <= j && j < all1.len() implies all1[j]
                                    == all0.remove(i as int)[j] by {
                                    assert(all1[j] == self.players_cxts@[j].spec_id());
                                    assert(self.players_cxts@[j] == before[if j < i {
                                        j
                                    } else {
                                        j + 1
                                    }]);
                                }
                            }
                            all0.remove_ensures(i as int);
                            assert(distinct_u64(all1)) by {
                                assert forall|x: int, y: int|
                                    #![trigger all1[x], all1[y]]
                                    0 <= x && x < y && y < all1.len() implies all1[x] != all1[y] by {
                                    assert(all1[x] == all0[if x < i {
                                        x
                                    } else {
                                        x + 1
                                    }]);
                                    assert(all1[y] == all0[if y < i {
                                        y
                                    } else {
                                        y + 1
                                    }]);
                                }
                            }
                            assert forall|q: u64| all1.contains(q) == (all0.contains(q) && q
                                != pid) by {
                                if all1.contains(q) {
                                    let w = choose|w: int|
                                        0 <= w && w < all1.len() && all1[w] == q;
                                    let w0 = if w < i {
                                        w
                                    } else {
                                        w + 1
                                    };
                                    assert(all0[w0] == q);
                                    assert(w0 != i);
                                    assert(all0[i as int] == pid);
                                }
                                if all0.contains(q) && q != pid {
                                    let w = choose|w: int|
                                        0 <= w && w < all0.len() && all0[w] == q;
                                    assert(w != i);
                                    let w1 = if w < i {
                                        w
                                    } else {
                                        w - 1
                                    };
                                    assert(all1[w1] == q);
                                }
                            }
                        }
                        let diffs = match self.hooks.on_leave(&gone) {
                            Some(diff) => {
                                let mut one: Vec<Diff<H::Delta>> = Vec::new();
                                one.push(diff);
                                one
                            },
                            None => Vec::new(),
                        };
                        let ghost emitted = diffs@;
                        self.notify_all::<S>(sm, diffs);
                        proof {
                            assert(emitted.len() >= 0);
                            assert(some_batch_effect::<H::Delta>(
                                self.spec_type(),
                                self.spec_id(),
                                self.players_ids(),
                                *old(sm),
                                *sm,
                            ));
                        }
                    },
                }
                proof {
                    let ghost none_emitted = Seq::<Diff<H::Delta>>::empty();
                    if *sm == *old(sm) {
                        assert(none_emitted.len() >= 0);
                        assert(batch_effect(
                            self.spec_type(),
                            self.spec_id(),
                            self.players_ids(),
                            none_emitted,
                            *old(sm),
                            *sm,
                        )) by {
                            let ghost datas = Seq::<Seq<u8>>::empty();
                            assert(datas.len() == none_emitted.len());
                            assert forall|q: u64| #![trigger sm.outbox_of(q)] old(sm).has_session(
                                q,
                            ) implies sm.outbox_of(q) == old(sm).outbox_of(q) + fanout_for(
                                self.spec_type(),
                                self.spec_id(),
                                self.players_ids(),
                                none_emitted,
                                datas,
                                q,
                            ) by {
                                assert(old(sm).outbox_of(q) + fanout_for(
                                    self.spec_type(),
                                    self.spec_id(),
                                    self.players_ids(),
                                    none_emitted,
                                    datas,
                                    q,
                                ) =~= old(sm).outbox_of(q));
                            }
                        }
                    }
                }
            },
        }
    }

    /// The window (or the idle dwell) ran out: hand the whole batch — in
    /// arrival order, possibly empty on an idle tick — to `on_tick`, fan its
    /// diffs out in emission order, and close the window.
    pub fn on_timeout<S: Schema>(&mut self, sm: &mut SessionManager) where H::Delta: Serialize<S>
        requires
            old(self).wf(),
            old(sm).wf(),
        ensures
            final(self).wf(),
            final(sm).wf(),
            fabric_extends(*old(sm), *final(sm)),
            some_batch_effect::<H::Delta>(
                old(self).spec_type(),
                old(self).spec_id(),
                old(self).players_ids(),
                *old(sm),
                *final(sm),
            ),
            final(self).buffer() == Seq::<(u64, H::Action)>::empty(),
            final(self).deadline() is None,
            final(self).players_ids() == old(self).players_ids(),
            final(self).spec_type() == old(self).spec_type(),
            final(self).spec_id() == old(self).spec_id(),
            final(self).tick() == old(self).tick(),
            final(self).tick_no_action() == old(self).tick_no_action(),
    {
        self.deadline = None;
        let mut actions: Vec<(u64, H::Action)> = Vec::new();
        core::mem::swap(&mut self.actions_buffer, &mut actions);
        let diffs = match self.hooks.on_tick(&self.players_cxts, actions) {
            Some(diffs) => diffs,
            None => Vec::new(),
        };
        let ghost emitted = diffs@;
        self.notify_all::<S>(sm, diffs);
        proof {
            assert(emitted.len() >= 0);
            assert(some_batch_effect::<H::Delta>(
                self.spec_type(),
                self.spec_id(),
                self.players_ids(),
                *old(sm),
                *sm,
            ));
        }
    }

    /// Asks the hooks whether the lobby is over. If it is, the terminal
    /// delta (if any) goes out to its addressees, and then every current
    /// member is told the lobby finished — exactly once, as the last message
    /// queued for each.
    pub fn check_finished<S: Schema>(&self, sm: &mut SessionManager) -> (r: bool) where
        H::Delta: Serialize<S>,

        requires
            old(sm).wf(),
            self.wf(),
        ensures
            final(sm).wf(),
            fabric_extends(*old(sm), *final(sm)),
            !r ==> *final(sm) == *old(sm),
            r ==> finish_effect::<H::Delta>(
                self.spec_type(),
                self.spec_id(),
                self.players_ids(),
                *old(sm),
                *final(sm),
            ),
            r ==> forall|q: u64|
                self.players_ids().contains(q) && old(sm).has_session(q) ==> final(sm).outbox_of(
                    q,
                ).len() > 0 && final(sm).outbox_of(q).last() == encode_output_view(
                    OutputMessageView::Diff {
                        type_: self.spec_type(),
                        id: self.spec_id(),
                        finished: true,
                        data: Seq::<u8>::empty(),
                    },
                ),
    {
        let (finished, last) = self.hooks.is_finished();
        if !finished {
            return false;
        }
        let ghost start = *sm;
        let ghost terminal = last;
        let ghost mut data: Seq<u8> = Seq::empty();
        match last {
            Some(diff) => {
                let w = self.notify::<S>(sm, diff);
                proof {
                    data = w@;
                }
            },
            None => {},
        }
        let ghost mid = *sm;
        let fin = DiffNotification::finish(
            clone_bytes(&self.type_),
            clone_bytes(&self.id),
        ).into_message();
        let ids = self.player_ids_vec();
        sm.send_all(&ids, &fin);
        proof {
            assert(fin@ == (OutputMessageView::Diff {
                type_: self.spec_type(),
                id: self.spec_id(),
                finished: true,
                data: Seq::<u8>::empty(),
            }));
            lemma_prefix_of_push_cases(mid, *sm);
            lemma_fabric_extends_trans(start, mid, *sm);
            assert(finish_fanout(
                self.spec_type(),
                self.spec_id(),
                self.players_ids(),
                terminal,
                data,
                0u64,
            ).len() >= 0);
            assert forall|q: u64| #![trigger sm.outbox_of(q)] start.has_session(q) implies
                sm.outbox_of(q) == start.outbox_of(q) + finish_fanout(
                self.spec_type(),
                self.spec_id(),
                self.players_ids(),
                terminal,
                data,
                q,
            ) by {
                let term_seq: Seq<Seq<u8>> = match terminal {
                    Option::Some(d) => if diff_targets(d, self.players_ids(), q) {
                        seq![
                            encode_output_view(
                                OutputMessageView::Diff {
                                    type_: self.spec_type(),
                                    id: self.spec_id(),
                                    finished: false,
                                    data,
                                },
                            ),
                        ]
                    } else {
                        Seq::<Seq<u8>>::empty()
                    },
                    Option::None => Seq::<Seq<u8>>::empty(),
                };
                assert(mid.outbox_of(q) == start.outbox_of(q) + term_seq) by {
                    match terminal {
                        Option::Some(d) => {
                            if diff_targets(d, self.players_ids(), q) {
                                assert(start.outbox_of(q).push(term_seq[0]) =~= start.outbox_of(q)
                                    + term_seq);
                            } else {
                                assert(start.outbox_of(q) + term_seq =~= start.outbox_of(q));
                            }
                        },
                        Option::None => {
                            assert(start.outbox_of(q) + term_seq =~= start.outbox_of(q));
                        },
                    }
                }
                if self.players_ids().contains(q) {
                    assert(sm.outbox_of(q) == mid.outbox_of(q).push(encode_output_view(fin@)));
                    assert((start.outbox_of(q) + term_seq).push(encode_output_view(fin@)) =~= start.outbox_of(
                        q,
                    ) + (term_seq + seq![encode_output_view(fin@)]));
                } else {
                    assert(sm.outbox_of(q) == mid.outbox_of(q));
                    assert(term_seq + Seq::<Seq<u8>>::empty() =~= term_seq);
                }
            }
        }
        true
    }
}

/// A queue equal to the old one, or to the old one plus one message, has the
/// old one as a prefix.
proof fn lemma_prefix_of_push_cases(a: SessionManager, b: SessionManager)
    requires
        forall|q: u64| b.has_session(q) == a.has_session(q),
        forall|q: u64|
            a.has_session(q) ==> b.outbox_of(q) == a.outbox_of(q) || exists|m: Seq<u8>|
                b.outbox_of(q) == a.outbox_of(q).push(m),
    ensures
        forall|q: u64| a.has_session(q) ==> a.outbox_of(q).is_prefix_of(b.outbox_of(q)),
{
    assert forall|q: u64| a.has_session(q) implies a.outbox_of(q).is_prefix_of(
        b.outbox_of(q),
    ) by {
        if b.outbox_of(q) == a.outbox_of(q) {
            assert(a.outbox_of(q) =~= b.outbox_of(q).take(a.outbox_of(q).len() as int));
        } else {
            let m = choose|m: Seq<u8>| b.outbox_of(q) == a.outbox_of(q).push(m);
            assert(a.outbox_of(q) =~= b.outbox_of(q).take(a.outbox_of(q).len() as int));
        }
    }
}

} // verus!
