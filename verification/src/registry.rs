//! The per-type lobby registry: lobby id to runtime handle, with creation,
//! duplicate rejection, and routing of join/leave/action events.

use vstd::prelude::*;

use crate::context::PlayerContext;
use crate::error::ThundersError;
use crate::hooks::{GameHooks, RuntimeAction};
use crate::schema::{Deserialize, Schema};
use crate::session::distinct_seqs;

verus! {

/// The input endpoint of one running lobby worker.
pub trait GameHandle<H: GameHooks> {
    fn send(&self, p_id: u64, action: RuntimeAction<H>);
}

/// How lobby workers are built and started. The embedding implements this:
/// starting a worker means giving it a thread and a queue.
pub trait GameRuntime<H: GameHooks, S: Schema>: Sized {
    type Handle: GameHandle<H>;

    type Settings;

    fn build(type_: Vec<u8>, id: Vec<u8>, hooks: H, settings: &Self::Settings) -> Self;

    fn start(self) -> Self::Handle;
}

/// The registry for one lobby type.
pub struct GameRuntimeHandle<R: GameRuntime<H, S>, H: GameHooks, S: Schema> {
    type_: Vec<u8>,
    settings: R::Settings,
    handles: Vec<(Vec<u8>, R::Handle)>,
    marker: core::marker::PhantomData<(H, S)>,
}

impl<R: GameRuntime<H, S>, H: GameHooks, S: Schema> GameRuntimeHandle<R, H, S> {
    /// The ids of the lobbies currently registered, in creation order.
    pub closed spec fn lobby_ids(&self) -> Seq<Seq<u8>> {
        self.handles@.map_values(|h: (Vec<u8>, R::Handle)| h.0@)
    }

    pub open spec fn has_lobby(&self, id: Seq<u8>) -> bool {
        self.lobby_ids().contains(id)
    }

    pub closed spec fn spec_type(&self) -> Seq<u8> {
        self.type_@
    }

    /// Lobby ids are unique within the type.
    pub closed spec fn wf(&self) -> bool {
        distinct_seqs(self.lobby_ids())
    }

    pub fn new(type_: Vec<u8>, settings: R::Settings) -> (r: Self)
        ensures
            r.wf(),
            r.spec_type() == type_@,
            r.lobby_ids() == Seq::<Seq<u8>>::empty(),
    {
        let r = GameRuntimeHandle {
            type_,
            settings,
            handles: Vec::new(),
            marker: core::marker::PhantomData,
        };
        proof {
            assert(r.lobby_ids() =~= Seq::<Seq<u8>>::empty());
        }
        r
    }

    /// The lobby type this registry serves, for subscription bookkeeping.
    pub fn type_bytes(&self) -> (r: Vec<u8>)
        ensures
            r@ == self.spec_type(),
    {
        clone_bytes(&self.type_)
    }

    fn find_lobby(&self, id: &Vec<u8>) -> (r: Option<usize>)
        ensures
            match r {
                Some(i) => i < self.handles@.len() && self.handles@[i as int].0@ == id@
                    && self.has_lobby(id@),
                None => !self.has_lobby(id@),
            },
    {
        let mut i: usize = 0;
        while i < self.handles.len()
            invariant
                i <= self.handles@.len(),
                forall|j: int| 0 <= j && j < i ==> (#[trigger] self.handles@[j].0)@ != id@,
            decreases self.handles@.len() - i,
        {
            if bytes_eq(&self.handles[i].0, id) {
                proof {
                    assert(self.lobby_ids()[i as int] == id@);
                }
                return Some(i);
            }
            i = i + 1;
        }
        proof {
            let all = self.lobby_ids();
            if all.contains(id@) {
                let w = choose|w: int| 0 <= w && w < all.len() && all[w] == id@;
                assert(self.handles@[w].0@ == id@);
            }
        }
        None
    }

    /// Creates a new lobby with this player as its first member. A lobby id
    /// already in use is refused and the existing lobby is left untouched;
    /// so is an options payload the user codec rejects.
    pub fn register(&mut self, cxt: PlayerContext, room_id: &Vec<u8>, options: Option<&Vec<u8>>) -> (r:
        bool) where H::Options: Deserialize<S> + Default
        requires
            old(self).wf(),
        ensures
            final(self).wf(),
            old(self).has_lobby(room_id@) ==> !r,
            !r ==> final(self).lobby_ids() == old(self).lobby_ids(),
            r ==> !old(self).has_lobby(room_id@) && final(self).lobby_ids() == old(
                self,
            ).lobby_ids().push(room_id@),
            (!old(self).has_lobby(room_id@) && options is None) ==> r,
            final(self).spec_type() == old(self).spec_type(),
    {
        if let Some(_) = self.find_lobby(room_id) {
            return false;
        }
        let hooks = match options {
            None => H::build(<H::Options as Default>::default()),
            Some(o) => {
                match <H::Options as Deserialize<S>>::deserialize(o.as_slice()) {
                    Ok(op) => H::build(op),
                    Err(_) => {
                        return false;
                    },
                }
            },
        };
        let runtime = R::build(clone_bytes(&self.type_), clone_bytes(room_id), hooks, &self.settings);
        let handle = runtime.start();
        handle.send(cxt.id(), RuntimeAction::Join(cxt));
        let ghost before = self.lobby_ids();
        self.handles.push((clone_bytes(room_id), handle));
        proof {
            let after = self.lobby_ids();
            assert(after =~= before.push(room_id@));
            assert(distinct_seqs(after)) by {
                assert forall|a: int, b: int|
                    #![trigger after[a], after[b]]
                    0 <= a && a < b && b < after.len() implies after[a] !== after[b] by {
                    if b < before.len() {
                        assert(after[a] == before[a] && after[b] == before[b]);
                    } else {
                        assert(after[b] == room_id@ && after[a] == before[a]);
                        assert(before.contains(before[a]));
                    }
                }
            }
        }
        true
    }

    /// Forwards a join; a lobby that is gone answers `false` so the caller
    /// can still acknowledge.
    pub fn join(&self, cxt: PlayerContext, room_id: &Vec<u8>) -> (r: bool)
        ensures
            r == self.has_lobby(room_id@),
    {
        match self.find_lobby(room_id) {
            None => false,
            Some(i) => {
                let pid = cxt.id();
                self.handles[i].1.send(pid, RuntimeAction::Join(cxt));
                true
            },
        }
    }

    /// Forwards a leave; unknown lobbies are a silent no-op.
    pub fn leave(&self, p_id: u64, room_id: &Vec<u8>) -> (r: bool)
        ensures
            r == self.has_lobby(room_id@),
    {
        match self.find_lobby(room_id) {
            None => false,
            Some(i) => {
                self.handles[i].1.send(p_id, RuntimeAction::Leave(p_id));
                true
            },
        }
    }

    /// Decodes an action with the user codec and forwards it; a payload the
    /// codec rejects is reported to the caller and the lobby is undisturbed.
    pub fn action(&self, p_id: u64, room_id: &Vec<u8>, action: &Vec<u8>) -> (r: Result<
        (),
        ThundersError,
    >) where H::Action: Deserialize<S>
    {
        match <H::Action as Deserialize<S>>::deserialize(action.as_slice()) {
            Err(e) => Err(e),
            Ok(a) => {
                match self.find_lobby(room_id) {
                    None => Ok(()),
                    Some(i) => {
                        self.handles[i].1.send(p_id, RuntimeAction::Action(a));
                        Ok(())
                    },
                }
            },
        }
    }
}

fn bytes_eq(a: &Vec<u8>, b: &Vec<u8>) -> (r: bool)
    ensures
        r == (a@ == b@),
{
    if a.len() != b.len() {
        assert(a@ != b@);
        return false;
    }
    let n = a.len();
    let mut i: usize = 0;
    while i < n
        invariant
            i <= n,
            n == a@.len() && n == b@.len(),
            forall|j: int| 0 <= j && j < i ==> a@[j] == b@[j],
        decreases n - i,
    {
        if a[i] != b[i] {
            return false;
        }
        i = i + 1;
    }
    assert(a@ =~= b@);
    true
}

fn clone_bytes(v: &Vec<u8>) -> (r: Vec<u8>)
    ensures
        r@ == v@,
{
    let mut r: Vec<u8> = Vec::new();
    let mut i: usize = 0;
    while i < v.len()
        invariant
            i <= v@.len(),
            r@ == v@.subrange(0, i as int),
        decreases v@.len() - i,
    {
        r.push(v[i]);
        assert(v@.subrange(0, i + 1 as int) =~= v@.subrange(0, i as int).push(v@[i as int]));
        i = i + 1;
    }
    assert(v@.subrange(0, v@.len() as int) =~= v@);
    r
}

} // verus!
