//! The client-side mirror: per lobby type, the map of lobby id to the
//! user's typed `GameState`, and the routing of inbound deltas into it.

use vstd::prelude::*;

use crate::error::ThundersClientError;
use crate::reply::Resolution;
use crate::schema::{Deserialize, Schema};
use crate::session::distinct_seqs;

verus! {

/// The client-side user contract: local state, changes from the server,
/// optimistic local actions, and the end of the lobby.
pub trait GameState: Sized {
    type Change;

    type Action;

    type Options: Default;

    fn build(options: &Self::Options) -> Self;

    fn on_change(&mut self, change: Self::Change);

    fn on_action(&mut self, action: Self::Action);

    fn on_finish(self);
}

/// A `GameState` seen through bytes: the decoded change type is erased.
pub trait GenericGameState<S: Schema>: Sized {
    fn on_change_raw(&mut self, change: &[u8]) -> Result<(), ThundersClientError>;

    fn on_finished(self);
}

impl<S: Schema, T: GameState> GenericGameState<S> for T where T::Change: Deserialize<S> {
    fn on_change_raw(&mut self, change: &[u8]) -> Result<(), ThundersClientError> {
        match <T::Change as Deserialize<S>>::deserialize(change) {
            Ok(c) => {
                self.on_change(c);
                Ok(())
            },
            Err(_) => Err(ThundersClientError::UnknownMessage),
        }
    }

    fn on_finished(self) {
        self.on_finish()
    }
}

/// What the client hands its transport writer.
pub enum InboundAction {
    Raw(Vec<u8>),
    Stop,
}

/// A read-only view of one active game.
pub struct GameStateView<'a, G: GameState> {
    game: &'a G,
}

impl<'a, G: GameState> GameStateView<'a, G> {
    /// The instance this view reads.
    pub closed spec fn spec_game(&self) -> G {
        *self.game
    }

    pub fn get(&self) -> (r: &G)
        ensures
            *r == self.spec_game(),
    {
        self.game
    }
}

/// The active games of one lobby type on the client.
pub struct ActiveGames<G: GameState> {
    type_: Vec<u8>,
    games: Vec<(Vec<u8>, G)>,
}

spec fn game_has<G: GameState>(gs: Seq<(Vec<u8>, G)>, id: Seq<u8>) -> bool {
    exists|i: int| 0 <= i && i < gs.len() && (#[trigger] gs[i]).0@ == id
}

spec fn game_at<G: GameState>(gs: Seq<(Vec<u8>, G)>, id: Seq<u8>) -> int {
    choose|i: int| 0 <= i && i < gs.len() && (#[trigger] gs[i]).0@ == id
}

proof fn lemma_game_pick<G: GameState>(gs: Seq<(Vec<u8>, G)>, i: int)
    requires
        distinct_seqs(gs.map_values(|g: (Vec<u8>, G)| g.0@)),
        0 <= i && i < gs.len(),
    ensures
        game_has(gs, gs[i].0@),
        game_at(gs, gs[i].0@) == i,
{
    let ids = gs.map_values(|g: (Vec<u8>, G)| g.0@);
    let id = gs[i].0@;
    assert(game_has(gs, id));
    let k = game_at(gs, id);
    if k != i {
        assert(ids[k] == ids[i]);
        assert(false);
    }
}

impl<G: GameState> ActiveGames<G> {
    /// The ids of the active games, in creation order.
    pub closed spec fn game_ids(&self) -> Seq<Seq<u8>> {
        self.games@.map_values(|g: (Vec<u8>, G)| g.0@)
    }

    pub closed spec fn has_game(&self, id: Seq<u8>) -> bool {
        game_has(self.games@, id)
    }

    /// The instance stored under the id.
    pub closed spec fn stored_game(&self, id: Seq<u8>) -> G {
        self.games@[game_at(self.games@, id)].1
    }

    pub closed spec fn spec_type(&self) -> Seq<u8> {
        self.type_@
    }

    pub closed spec fn wf(&self) -> bool {
        distinct_seqs(self.game_ids())
    }

    /// Nothing changed: the same ids bound to the same instances.
    pub closed spec fn same_games(self, other: Self) -> bool {
        self.games@ == other.games@
    }

    pub fn new(type_: Vec<u8>) -> (r: Self)
        ensures
            r.wf(),
            r.spec_type() == type_@,
            r.game_ids() == Seq::<Seq<u8>>::empty(),
    {
        let r = ActiveGames { type_, games: Vec::new() };
        proof {
            assert(r.game_ids() =~= Seq::<Seq<u8>>::empty());
        }
        r
    }

    fn find_game(&self, id: &Vec<u8>) -> (r: Option<usize>)
        ensures
            match r {
                Some(i) => i < self.games@.len() && self.games@[i as int].0@ == id@
                    && self.has_game(id@) && (self.wf() ==> i as int == game_at(
                    self.games@,
                    id@,
                )),
                None => !self.has_game(id@),
            },
    {
        let mut i: usize = 0;
        while i < self.games.len()
            invariant
                i <= self.games@.len(),
                forall|j: int| 0 <= j && j < i ==> (#[trigger] self.games@[j].0)@ != id@,
            decreases self.games@.len() - i,
        {
            if bytes_eq(&self.games[i].0, id) {
                proof {
                    assert(game_has(self.games@, id@));
                    if self.wf() {
                        lemma_game_pick(self.games@, i as int);
                    }
                }
                return Some(i);
            }
            i = i + 1;
        }
        None
    }

    /// Installs a local instance for a lobby; creating over an existing id
    /// replaces that instance. Every other instance stays as it was.
    pub fn create(&mut self, type_: &Vec<u8>, id: Vec<u8>, game: G) -> (r: Result<
        (),
        ThundersClientError,
    >)
        requires
            old(self).wf(),
        ensures
            final(self).wf(),
            final(self).spec_type() == old(self).spec_type(),
            r is Err <==> type_@ != old(self).spec_type(),
            r is Err ==> final(self).same_games(*old(self)),
            r is Ok ==> final(self).has_game(id@) && final(self).stored_game(id@) == game,
            r is Ok ==> forall|q: Seq<u8>|
                q !== id@ ==> final(self).has_game(q) == old(self).has_game(q),
            r is Ok ==> forall|q: Seq<u8>|
                q !== id@ && final(self).has_game(q) ==> final(self).stored_game(q) == old(
                    self,
                ).stored_game(q),
    {
        if !bytes_eq(type_, &self.type_) {
            return Err(ThundersClientError::RoomTypeNotFound);
        }
        let ghost before = self.games@;
        let ti: usize;
        match self.find_game(&id) {
            Some(i) => {
                self.games[i] = (id, game);
                ti = i;
            },
            None => {
                self.games.push((id, game));
                ti = self.games.len() - 1;
            },
        }
        proof {
            let ids0 = before.map_values(|g: (Vec<u8>, G)| g.0@);
            assert forall|k: int| 0 <= k && k < self.games@.len() && k != ti implies k
                < before.len() && (#[trigger] self.games@[k]) == before[k] && before[k].0@
                != self.games@[ti as int].0@ by {
                assert(self.games@[k] == before[k]);
                if (ti as int) < before.len() {
                    assert(ids0[k] !== ids0[ti as int]);
                } else {
                    if before[k].0@ == self.games@[ti as int].0@ {
                        assert(game_has(before, self.games@[ti as int].0@));
                    }
                }
            }
            self.lemma_upsert_post(before, ti as int, game);
        }
        Ok(())
    }

    /// After storing one instance at slot `ti`, the registry is still
    /// well-formed and every other instance is untouched.
    proof fn lemma_upsert_post(&self, before: Seq<(Vec<u8>, G)>, ti: int, game: G)
        requires
            distinct_seqs(before.map_values(|g: (Vec<u8>, G)| g.0@)),
            0 <= ti && ti < self.games@.len(),
            self.games@[ti].1 == game,
            ti < before.len() ==> before[ti].0@ == self.games@[ti].0@,
            before.len() <= self.games@.len(),
            forall|k: int|
                0 <= k && k < self.games@.len() && k != ti ==> k < before.len() && (
                #[trigger] self.games@[k]) == before[k] && before[k].0@ != self.games@[ti].0@,
        ensures
            self.wf(),
            self.has_game(self.games@[ti].0@),
            self.stored_game(self.games@[ti].0@) == game,
            forall|q: Seq<u8>|
                q !== self.games@[ti].0@ ==> self.has_game(q) == game_has(before, q),
            forall|q: Seq<u8>|
                q !== self.games@[ti].0@ && self.has_game(q) ==> self.stored_game(q) == before[
                    game_at(before, q)
                ].1,
    {
        let gs1 = self.games@;
        let ids1 = self.game_ids();
        let id = gs1[ti].0@;
        assert(distinct_seqs(ids1)) by {
            assert forall|a: int, b: int|
                #![trigger ids1[a], ids1[b]]
                0 <= a && a < b && b < ids1.len() implies ids1[a] !== ids1[b] by {
                if a != ti && b != ti {
                    assert(gs1[a] == before[a] && gs1[b] == before[b]);
                    let ids0 = before.map_values(|g: (Vec<u8>, G)| g.0@);
                    assert(ids0[a] == ids1[a] && ids0[b] == ids1[b]);
                }
            }
        }
        lemma_game_pick(gs1, ti);
        assert forall|q: Seq<u8>| q !== id implies self.has_game(q) == game_has(before, q) && (
        self.has_game(q) ==> self.stored_game(q) == before[game_at(before, q)].1) by {
            if game_has(before, q) {
                let oi = game_at(before, q);
                assert(0 <= oi && oi < before.len() && before[oi].0@ == q);
                assert(oi != ti);
                assert(gs1[oi] == before[oi]);
                lemma_game_pick(gs1, oi);
                lemma_game_pick(before, oi);
            }
            if game_has(gs1, q) {
                let w = choose|w: int| 0 <= w && w < gs1.len() && (#[trigger] gs1[w]).0@ == q;
                assert(w != ti);
                assert(gs1[w] == before[w]);
                assert(game_has(before, q));
            }
        }
    }

    /// Routes an inbound delta to the instance it names and applies it; no
    /// other instance is touched.
    pub fn route_message<S: Schema>(
        &mut self,
        type_: &Vec<u8>,
        id: &Vec<u8>,
        message: &[u8],
    ) -> (r: Result<(), ThundersClientError>) where G: GenericGameState<S>
        requires
            old(self).wf(),
        ensures
            final(self).wf(),
            final(self).game_ids() == old(self).game_ids(),
            final(self).spec_type() == old(self).spec_type(),
            r == Err::<(), ThundersClientError>(ThundersClientError::RoomTypeNotFound) <==> type_@
                != old(self).spec_type(),
            type_@ == old(self).spec_type() ==> (r == Err::<(), ThundersClientError>(
                ThundersClientError::RoomNotFound,
            ) <==> !old(self).has_game(id@)),
            forall|q: Seq<u8>|
                q !== id@ && final(self).has_game(q) ==> final(self).stored_game(q) == old(
                    self,
                ).stored_game(q),
    {
        if !bytes_eq(type_, &self.type_) {
            return Err(ThundersClientError::RoomTypeNotFound);
        }
        let ghost before = self.games@;
        match self.find_game(id) {
            None => Err(ThundersClientError::RoomNotFound),
            Some(i) => {
                let r = match self.games[i].1.on_change_raw(message) {
                    Ok(()) => Ok(()),
                    Err(_) => Err(ThundersClientError::UnknownMessage),
                };
                proof {
                    self.lemma_touch_post(before, i as int);
                }
                r
            },
        }
    }

    /// After mutating the instance at slot `ti` in place, ids and every
    /// other instance are untouched.
    proof fn lemma_touch_post(&self, before: Seq<(Vec<u8>, G)>, ti: int)
        requires
            distinct_seqs(before.map_values(|g: (Vec<u8>, G)| g.0@)),
            0 <= ti && ti < before.len(),
            self.games@ == before.update(ti, self.games@[ti]),
            self.games@[ti].0 == before[ti].0,
        ensures
            self.wf(),
            self.game_ids() == before.map_values(|g: (Vec<u8>, G)| g.0@),
            forall|q: Seq<u8>|
                q !== before[ti].0@ && self.has_game(q) ==> self.stored_game(q) == before[game_at(
                    before,
                    q,
                )].1,
    {
        let gs1 = self.games@;
        let ids0 = before.map_values(|g: (Vec<u8>, G)| g.0@);
        let ids1 = self.game_ids();
        assert(ids1 =~= ids0);
        assert forall|q: Seq<u8>| q !== before[ti].0@ && self.has_game(q) implies self.stored_game(
            q,
        ) == before[game_at(before, q)].1 by {
            let w = choose|w: int| 0 <= w && w < gs1.len() && (#[trigger] gs1[w]).0@ == q;
            assert(w != ti);
            assert(gs1[w] == before[w]);
            lemma_game_pick(gs1, w);
            lemma_game_pick(before, w);
        }
    }

    /// Applies a local action optimistically to the named instance; no
    /// other instance is touched.
    pub fn action(&mut self, type_: &Vec<u8>, id: &Vec<u8>, action: G::Action) -> (r: Result<
        (),
        ThundersClientError,
    >)
        requires
            old(self).wf(),
        ensures
            final(self).wf(),
            final(self).game_ids() == old(self).game_ids(),
            final(self).spec_type() == old(self).spec_type(),
            r == Err::<(), ThundersClientError>(ThundersClientError::RoomTypeNotFound) <==> type_@
                != old(self).spec_type(),
            type_@ == old(self).spec_type() ==> (r is Err <==> !old(self).has_game(id@)),
            forall|q: Seq<u8>|
                q !== id@ && final(self).has_game(q) ==> final(self).stored_game(q) == old(
                    self,
                ).stored_game(q),
    {
        if !bytes_eq(type_, &self.type_) {
            return Err(ThundersClientError::RoomTypeNotFound);
        }
        let ghost before = self.games@;
        match self.find_game(id) {
            None => Err(ThundersClientError::RoomNotFound),
            Some(i) => {
                self.games[i].1.on_action(action);
                proof {
                    self.lemma_touch_post(before, i as int);
                }
                Ok(())
            },
        }
    }

    /// Removes the named instance and hands back exactly the stored value,
    /// for rollback or finish; every other instance stays.
    pub fn remove(&mut self, type_: &Vec<u8>, id: &Vec<u8>) -> (r: Result<G, ThundersClientError>)
        requires
            old(self).wf(),
        ensures
            final(self).wf(),
            final(self).spec_type() == old(self).spec_type(),
            r is Ok <==> (type_@ == old(self).spec_type() && old(self).has_game(id@)),
            r matches Ok(g) ==> g == old(self).stored_game(id@),
            r is Ok ==> !final(self).has_game(id@),
            r is Ok ==> forall|q: Seq<u8>|
                q !== id@ ==> final(self).has_game(q) == old(self).has_game(q),
            r is Ok ==> forall|q: Seq<u8>|
                q !== id@ && final(self).has_game(q) ==> final(self).stored_game(q) == old(
                    self,
                ).stored_game(q),
            r is Err ==> final(self).same_games(*old(self)),
    {
        if !bytes_eq(type_, &self.type_) {
            return Err(ThundersClientError::RoomTypeNotFound);
        }
        let ghost before = self.games@;
        match self.find_game(id) {
            None => Err(ThundersClientError::RoomNotFound),
            Some(i) => {
                proof {
                    lemma_game_pick(before, i as int);
                }
                let (_, game) = self.games.remove(i);
                proof {
                    self.lemma_remove_post(before, i as int);
                }
                Ok(game)
            },
        }
    }

    /// After removing the slot `ti`, the other instances keep their ids and
    /// values.
    proof fn lemma_remove_post(&self, before: Seq<(Vec<u8>, G)>, ti: int)
        requires
            distinct_seqs(before.map_values(|g: (Vec<u8>, G)| g.0@)),
            0 <= ti && ti < before.len(),
            self.games@ == before.remove(ti),
        ensures
            self.wf(),
            !self.has_game(before[ti].0@),
            forall|q: Seq<u8>|
                q !== before[ti].0@ ==> self.has_game(q) == game_has(before, q),
            forall|q: Seq<u8>|
                q !== before[ti].0@ && self.has_game(q) ==> self.stored_game(q) == before[game_at(
                    before,
                    q,
                )].1,
    {
        let gs1 = self.games@;
        let ids0 = before.map_values(|g: (Vec<u8>, G)| g.0@);
        let ids1 = self.game_ids();
        let id = before[ti].0@;
        before.remove_ensures(ti);
        assert forall|j: int| 0 <= j && j < gs1.len() implies #[trigger] gs1[j] == before[if j < ti {
            j
        } else {
            j + 1
        }] by {}
        assert(distinct_seqs(ids1)) by {
            assert forall|a: int, b: int|
                #![trigger ids1[a], ids1[b]]
                0 <= a && a < b && b < ids1.len() implies ids1[a] !== ids1[b] by {
                assert(gs1[a] == before[if a < ti {
                    a
                } else {
                    a + 1
                }]);
                assert(gs1[b] == before[if b < ti {
                    b
                } else {
                    b + 1
                }]);
                assert(ids1[a] == ids0[if a < ti {
                    a
                } else {
                    a + 1
                }]);
                assert(ids1[b] == ids0[if b < ti {
                    b
                } else {
                    b + 1
                }]);
            }
        }
        assert(!self.has_game(id)) by {
            if game_has(gs1, id) {
                let w = choose|w: int| 0 <= w && w < gs1.len() && (#[trigger] gs1[w]).0@ == id;
                assert(gs1[w] == before[if w < ti {
                    w
                } else {
                    w + 1
                }]);
                assert(ids0[if w < ti {
                    w
                } else {
                    w + 1
                }] == id);
                assert(ids0[ti] == id);
            }
        }
        assert forall|q: Seq<u8>| q !== id implies self.has_game(q) == game_has(before, q) && (
        self.has_game(q) ==> self.stored_game(q) == before[game_at(before, q)].1) by {
            if game_has(before, q) {
                let oi = game_at(before, q);
                assert(0 <= oi && oi < before.len() && before[oi].0@ == q);
                assert(oi != ti);
                let ni = if oi < ti {
                    oi
                } else {
                    oi - 1
                };
                assert(gs1[ni] == before[oi]);
                lemma_game_pick(gs1, ni);
                lemma_game_pick(before, oi);
            }
            if game_has(gs1, q) {
                let w = choose|w: int| 0 <= w && w < gs1.len() && (#[trigger] gs1[w]).0@ == q;
                assert(gs1[w] == before[if w < ti {
                    w
                } else {
                    w + 1
                }]);
                assert(before[if w < ti {
                    w
                } else {
                    w + 1
                }].0@ == q);
                assert(game_has(before, q));
            }
        }
    }

    /// A read-only view of the named instance, if it is active.
    pub fn get_as(&self, type_: &Vec<u8>, id: &Vec<u8>) -> (r: Option<GameStateView<G>>)
        requires
            self.wf(),
        ensures
            r is Some <==> (type_@ == self.spec_type() && self.has_game(id@)),
            r matches Some(v) ==> v.spec_game() == self.stored_game(id@),
    {
        if !bytes_eq(type_, &self.type_) {
            return None;
        }
        match self.find_game(id) {
            None => None,
            Some(i) => Some(GameStateView { game: &self.games[i].1 }),
        }
    }
}

/// Settles an optimistic create once its reply resolved: only a success
/// keeps the local instance; failure or timeout rolls it back out.
pub fn settle_create<G: GameState>(
    games: &mut ActiveGames<G>,
    type_: &Vec<u8>,
    id: &Vec<u8>,
    outcome: Resolution,
) -> (r: bool)
    requires
        old(games).wf(),
        type_@ == old(games).spec_type(),
    ensures
        final(games).wf(),
        r == (outcome is Done),
        !r ==> !final(games).has_game(id@),
        r ==> final(games).has_game(id@) == old(games).has_game(id@),
        forall|q: Seq<u8>| q !== id@ ==> final(games).has_game(q) == old(games).has_game(q),
        forall|q: Seq<u8>|
            q !== id@ && final(games).has_game(q) ==> final(games).stored_game(q) == old(
                games,
            ).stored_game(q),
{
    match outcome {
        Resolution::Done => true,
        _ => {
            let _ = games.remove(type_, id);
            false
        },
    }
}

fn bytes_eq(a: &Vec<u8>, b: &Vec<u8>) -> (r: bool)
    ensures
        r == (a@ == b@),
{
    if a.len() != b.len() {
        assert(a@ != b@);
        return false;
    }
    let n = a.len();
    let mut i: usize = 0;
    while i < n
        invariant
            i <= n,
            n == a@.len() && n == b@.len(),
            forall|j: int| 0 <= j && j < i ==> a@[j] == b@[j],
        decreases n - i,
    {
        if a[i] != b[i] {
            return false;
        }
        i = i + 1;
    }
    assert(a@ =~= b@);
    true
}

} // verus!
