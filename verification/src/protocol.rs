//! Connection-level message handling, and the WebSocket endpoint settings.
//!
//! The transport owns sockets and tasks; what it does with each message —
//! connect first, then route creates, joins and actions, and sweep
//! subscriptions on disconnect — is decided here.

use vstd::prelude::*;

use crate::codec::{decode_input_view, encode_output_view};
use crate::context::PlayerContext;
use crate::error::{generic_description, ThundersServerError};
use crate::hooks::GameHooks;
use crate::message::{InputMessage, InputMessageView, OutputMessage, OutputMessageView};
use crate::registry::{GameRuntime, GameRuntimeHandle};
use crate::schema::{Deserialize, Schema};
use crate::session::{entries_wf, SessionManager, SubEntry};

verus! {

/// Where the server listens.
pub struct WebSocketProtocol {
    pub addr: String,
    pub port: u16,
}

impl WebSocketProtocol {
    pub fn new(addr: String, port: u16) -> (r: Self)
        ensures
            r.addr@ == addr@ && r.port == port,
    {
        WebSocketProtocol { addr, port }
    }
}

/// Where the client connects to.
pub struct WebSocketClientProtocol {
    pub addr: String,
    pub port: u16,
}

impl WebSocketClientProtocol {
    pub fn new(addr: String, port: u16) -> (r: Self)
        ensures
            r.addr@ == addr@ && r.port == port,
    {
        WebSocketClientProtocol { addr, port }
    }
}

/// The first message of a connection must be a well-formed `Connect`; it
/// opens the session, queues exactly the `ConnectAck`, and starts the player
/// with an empty subscription set, touching nobody else. Anything else is
/// refused and no session exists.
pub fn connect(sm: &mut SessionManager, raw_message: &[u8]) -> (r: Result<
    PlayerContext,
    ThundersServerError,
>)
    requires
        old(sm).wf(),
    ensures
        final(sm).wf(),
        match r {
            Ok(cxt) => {
                &&& decode_input_view(raw_message@) matches Some(
                    InputMessageView::Connect { correlation_id, id },
                ) && cxt.spec_id() == id && final(sm).outbox_of(id) == seq![
                    encode_output_view(
                        OutputMessageView::Connect { correlation_id, success: true },
                    ),
                ]
                &&& final(sm).has_session(cxt.spec_id())
                &&& final(sm).has_subs(cxt.spec_id())
                &&& final(sm).subs_of(cxt.spec_id()) == Seq::<(Seq<u8>, Seq<Seq<u8>>)>::empty()
                &&& forall|q: u64|
                    q != cxt.spec_id() ==> final(sm).has_session(q) == old(sm).has_session(q)
                &&& forall|q: u64|
                    q != cxt.spec_id() && final(sm).has_session(q) ==> final(sm).outbox_of(q)
                        == old(sm).outbox_of(q)
                &&& forall|q: u64| q != cxt.spec_id() ==> final(sm).has_subs(q) == old(sm).has_subs(q)
                &&& forall|q: u64|
                    q != cxt.spec_id() && final(sm).has_subs(q) ==> final(sm).subs_of(q) == old(
                        sm,
                    ).subs_of(q)
            },
            Err(e) => e == ThundersServerError::MessageNotConnected && !(decode_input_view(
                raw_message@,
            ) matches Some(InputMessageView::Connect { .. })) && *final(sm) == *old(sm),
        },
{
    match InputMessage::decode(raw_message) {
        Some(InputMessage::Connect { correlation_id, id }) => {
            sm.connect(&correlation_id, id);
            Ok(PlayerContext::new(id))
        },
        Some(_) => Err(ThundersServerError::MessageNotConnected),
        None => Err(ThundersServerError::MessageNotConnected),
    }
}

/// A `Create`: subscribe first (so a racing disconnect still sweeps the
/// lobby), then register, then acknowledge with the outcome. A duplicate
/// lobby id or refused options answer `success: false` and leave the
/// existing lobby untouched.
pub fn handle_create<R: GameRuntime<H, S>, H: GameHooks, S: Schema>(
    sm: &mut SessionManager,
    handler: &mut GameRuntimeHandle<R, H, S>,
    cxt: PlayerContext,
    correlation_id: &Vec<u8>,
    room_id: &Vec<u8>,
    options: Option<&Vec<u8>>,
) -> (r: bool) where H::Options: Deserialize<S> + Default
    requires
        old(sm).wf(),
        old(sm).has_subs(cxt.spec_id()),
        old(handler).wf(),
    ensures
        final(sm).wf(),
        final(handler).wf(),
        old(handler).has_lobby(room_id@) ==> !r,
        (!old(handler).has_lobby(room_id@) && options is None) ==> r,
        r ==> final(handler).lobby_ids() == old(handler).lobby_ids().push(room_id@),
        !r ==> final(handler).lobby_ids() == old(handler).lobby_ids(),
        final(sm).sub_pairs(cxt.spec_id()) == old(sm).sub_pairs(cxt.spec_id()).insert(
            (old(handler).spec_type(), room_id@),
        ),
        old(sm).has_session(cxt.spec_id()) ==> final(sm).outbox_of(cxt.spec_id()) == old(sm).outbox_of(cxt.spec_id()).push(
            encode_output_view(
                OutputMessageView::Create { correlation_id: correlation_id@, success: r },
            ),
        ),
{
    let pid = cxt.id();
    let type_bytes = handler.type_bytes();
    sm.subscribe(pid, &type_bytes, room_id);
    let created = handler.register(cxt, room_id, options);
    let ack = OutputMessage::Create { correlation_id: clone_bytes(correlation_id), success: created };
    sm.send(pid, &ack);
    created
}

/// A `Join`: subscribe, forward, acknowledge. The ack answers `true` even
/// when the lobby has just finished; the worker tolerates the stray join.
pub fn handle_join<R: GameRuntime<H, S>, H: GameHooks, S: Schema>(
    sm: &mut SessionManager,
    handler: &GameRuntimeHandle<R, H, S>,
    cxt: PlayerContext,
    correlation_id: &Vec<u8>,
    room_id: &Vec<u8>,
) -> (r: bool)
    requires
        old(sm).wf(),
        old(sm).has_subs(cxt.spec_id()),
        handler.wf(),
    ensures
        final(sm).wf(),
        r == handler.has_lobby(room_id@),
        final(sm).sub_pairs(cxt.spec_id()) == old(sm).sub_pairs(cxt.spec_id()).insert(
            (handler.spec_type(), room_id@),
        ),
        old(sm).has_session(cxt.spec_id()) ==> final(sm).outbox_of(cxt.spec_id()) == old(sm).outbox_of(cxt.spec_id()).push(
            encode_output_view(
                OutputMessageView::Join { correlation_id: correlation_id@, success: r },
            ),
        ),
{
    let pid = cxt.id();
    let type_bytes = handler.type_bytes();
    sm.subscribe(pid, &type_bytes, room_id);
    let found = handler.join(cxt, room_id);
    let ack = OutputMessage::Join { correlation_id: clone_bytes(correlation_id), success: found };
    sm.send(pid, &ack);
    found
}

/// An `Action`: decode and forward, with no ack. A payload the user codec
/// refuses is reported only to its sender — one error envelope, nothing
/// else changed — and the lobby is not disturbed.
pub fn handle_action<R: GameRuntime<H, S>, H: GameHooks, S: Schema>(
    sm: &mut SessionManager,
    handler: &GameRuntimeHandle<R, H, S>,
    p_id: u64,
    room_id: &Vec<u8>,
    data: &Vec<u8>,
) where H::Action: Deserialize<S>
    requires
        old(sm).wf(),
    ensures
        final(sm).wf(),
        ({
            ||| *final(sm) == *old(sm)
            ||| {
                &&& final(sm).has_session(p_id) == old(sm).has_session(p_id)
                &&& old(sm).has_session(p_id) ==> final(sm).outbox_of(p_id) == old(sm).outbox_of(
                    p_id,
                ).push(
                    encode_output_view(
                        OutputMessageView::GenericError { description: generic_description() },
                    ),
                )
                &&& forall|q: u64| q != p_id ==> final(sm).has_session(q) == old(sm).has_session(q)
                &&& forall|q: u64|
                    q != p_id && final(sm).has_session(q) ==> final(sm).outbox_of(q) == old(
                        sm,
                    ).outbox_of(q)
                &&& forall|q: u64|
                    final(sm).has_subs(q) == old(sm).has_subs(q) && (final(sm).has_subs(q)
                        ==> final(sm).subs_of(q) == old(sm).subs_of(q))
            }
        }),
{
    match handler.action(p_id, room_id, data) {
        Ok(()) => {},
        Err(e) => {
            sm.send(p_id, &e.to_output());
        },
    }
}

fn clone_bytes(v: &Vec<u8>) -> (r: Vec<u8>)
    ensures
        r@ == v@,
{
    let mut r: Vec<u8> = Vec::new();
    let mut i: usize = 0;
    while i < v.len()
        invariant
            i <= v@.len(),
            r@ == v@.subrange(0, i as int),
        decreases v@.len() - i,
    {
        r.push(v[i]);
        assert(v@.subrange(0, i + 1 as int) =~= v@.subrange(0, i as int).push(v@[i as int]));
        i = i + 1;
    }
    assert(v@.subrange(0, v@.len() as int) =~= v@);
    r
}

/// Drains the player's subscriptions and session. Every lobby the player
/// had joined appears in the result exactly once (see
/// `lemma_pair_named_once`); the sweep issues one Leave per entry.
pub fn disconnect_sweep(sm: &mut SessionManager, player_id: u64) -> (r: Vec<SubEntry>)
    requires
        old(sm).wf(),
    ensures
        final(sm).wf(),
        !final(sm).has_session(player_id),
        !final(sm).has_subs(player_id),
        old(sm).has_subs(player_id) ==> r@.map_values(|e: SubEntry| crate::session::entry_view(e))
            == old(sm).subs_of(player_id),
        !old(sm).has_subs(player_id) ==> r@.len() == 0,
        entries_wf(r@.map_values(|e: SubEntry| crate::session::entry_view(e))),
        forall|q: u64| q != player_id ==> final(sm).has_subs(q) == old(sm).has_subs(q),
        forall|q: u64|
            q != player_id && final(sm).has_subs(q) ==> final(sm).subs_of(q) == old(sm).subs_of(q),
        forall|q: u64| q != player_id ==> final(sm).has_session(q) == old(sm).has_session(q),
        forall|q: u64|
            q != player_id && final(sm).has_session(q) ==> final(sm).outbox_of(q) == old(sm).outbox_of(q),
{
    match sm.unsubscribe_all(player_id) {
        Some(entries) => entries,
        None => Vec::new(),
    }
}

/// In a well-formed subscription set, a lobby is named at exactly one place:
/// the disconnect sweep issues exactly one Leave for each lobby the player
/// had joined, and none for anyone else.
pub proof fn lemma_pair_named_once(
    es: Seq<(Seq<u8>, Seq<Seq<u8>>)>,
    a_i: int,
    a_j: int,
    b_i: int,
    b_j: int,
)
    requires
        entries_wf(es),
        0 <= a_i && a_i < es.len(),
        0 <= a_j && a_j < es[a_i].1.len(),
        0 <= b_i && b_i < es.len(),
        0 <= b_j && b_j < es[b_i].1.len(),
        es[a_i].0 == es[b_i].0,
        es[a_i].1[a_j] == es[b_i].1[b_j],
    ensures
        a_i == b_i,
        a_j == b_j,
{
    if a_i != b_i {
        if a_i < b_i {
            assert(es[a_i].0 !== es[b_i].0);
        } else {
            assert(es[b_i].0 !== es[a_i].0);
        }
    }
    if a_j != b_j {
        if a_j < b_j {
            assert(es[a_i].1[a_j] !== es[a_i].1[b_j]);
        } else {
            assert(es[a_i].1[b_j] !== es[a_i].1[a_j]);
        }
    }
}

} // verus!
