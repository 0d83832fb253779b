//! The server-side user contract: the authoritative game logic a lobby
//! worker drives, and the delta fan-out shapes it can ask for.

use vstd::prelude::*;

use crate::context::PlayerContext;
use crate::message::{OutputMessage, OutputMessageView};

verus! {

/// A state change plus its fan-out target: every current member, one member,
/// or a named list of members.
pub enum Diff<D> {
    All { delta: D },
    TargetUnique { id: u64, delta: D },
    TargetList { ids: Vec<u64>, delta: D },
}

/// Authoritative game logic. One instance lives inside one lobby worker and
/// is read and written by that worker alone.
pub trait GameHooks: Sized {
    type Delta;

    type Action;

    type Options;

    fn build(options: Self::Options) -> Self;

    fn on_tick(
        &mut self,
        players_cxts: &Vec<PlayerContext>,
        actions: Vec<(u64, Self::Action)>,
    ) -> Option<Vec<Diff<Self::Delta>>>;

    fn on_join(&mut self, player_cxt: &PlayerContext) -> Option<Vec<Diff<Self::Delta>>>;

    fn on_leave(&mut self, player_cxt: &PlayerContext) -> Option<Diff<Self::Delta>>;

    fn is_finished(&self) -> (bool, Option<Diff<Self::Delta>>);
}

/// One event handed to a lobby worker, tagged with the player that caused it.
pub enum RuntimeAction<H: GameHooks> {
    Action(H::Action),
    Join(PlayerContext),
    Leave(u64),
}

/// A delta wrapped with the lobby that emitted it, ready for the envelope.
pub struct DiffNotification {
    pub type_: Vec<u8>,
    pub id: Vec<u8>,
    pub finished: bool,
    pub data: Vec<u8>,
}

impl DiffNotification {
    pub fn new(type_: Vec<u8>, id: Vec<u8>, data: Vec<u8>) -> (r: Self)
        ensures
            r.type_ == type_ && r.id == id && !r.finished && r.data == data,
    {
        DiffNotification { type_, id, finished: false, data }
    }

    pub fn finish(type_: Vec<u8>, id: Vec<u8>) -> (r: Self)
        ensures
            r.type_ == type_ && r.id == id && r.finished && r.data@ == Seq::<u8>::empty(),
    {
        DiffNotification { type_, id, finished: true, data: Vec::new() }
    }

    /// The envelope that carries this notification.
    pub fn into_message(self) -> (m: OutputMessage)
        ensures
            m@ == (OutputMessageView::Diff {
                type_: self.type_@,
                id: self.id@,
                finished: self.finished,
                data: self.data@,
            }),
    {
        OutputMessage::Diff {
            type_: self.type_,
            id: self.id,
            finished: self.finished,
            data: self.data,
        }
    }
}

} // verus!
