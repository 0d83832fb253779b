use thunders::context::PlayerContext;
use thunders::hooks::{Diff, GameHooks, RuntimeAction};
use thunders::message::OutputMessage;
use thunders::registry::{GameHandle, GameRuntime, GameRuntimeHandle};
use thunders::runtime::{Settings, SyncRuntime};
use thunders::schema::{Json, Schema, Serialize};
use thunders::session::SessionManager;

fn bytes(s: &str) -> Vec<u8> {
    s.as_bytes().to_vec()
}

struct Delta(Vec<u8>);

impl Serialize<Json> for Delta {
    fn serialize(self) -> Vec<u8> {
        self.0
    }
}

#[derive(Default)]
struct Opts;

struct Act(u8);

/// Echoes each tick's batch back to everyone, greets joiners alone, and
/// finishes once an action of 255 arrives.
struct Recorder {
    done: bool,
}

impl GameHooks for Recorder {
    type Delta = Delta;
    type Action = Act;
    type Options = Opts;

    fn build(_options: Opts) -> Self {
        Recorder { done: false }
    }

    fn on_tick(
        &mut self,
        _players: &Vec<PlayerContext>,
        actions: Vec<(u64, Act)>,
    ) -> Option<Vec<Diff<Delta>>> {
        let mut log: Vec<u8> = Vec::new();
        for (pid, a) in actions {
            if a.0 == 255 {
                self.done = true;
            }
            log.push(pid as u8);
            log.push(a.0);
        }
        Some(vec![Diff::All { delta: Delta(log) }])
    }

    fn on_join(&mut self, player_cxt: &PlayerContext) -> Option<Vec<Diff<Delta>>> {
        Some(vec![Diff::TargetUnique { id: player_cxt.id(), delta: Delta(bytes("\"hello\"")) }])
    }

    fn on_leave(&mut self, _player_cxt: &PlayerContext) -> Option<Diff<Delta>> {
        None
    }

    fn is_finished(&self) -> (bool, Option<Diff<Delta>>) {
        (self.done, None)
    }
}

fn diff_envelope(data: &str) -> Vec<u8> {
    OutputMessage::Diff {
        type_: bytes("chat"),
        id: bytes("room-1"),
        finished: false,
        data: bytes(data),
    }
    .encode()
}

fn fresh() -> (SessionManager, SyncRuntime<Recorder>) {
    let mut sm = SessionManager::new();
    sm.connect(&bytes("a"), 1);
    sm.connect(&bytes("b"), 2);
    sm.drain(1);
    sm.drain(2);
    let settings = Settings { tick_no_action_millis: 1000, tick_millis: 50 };
    let rt = SyncRuntime::build(bytes("chat"), bytes("room-1"), Recorder { done: false }, &settings);
    (sm, rt)
}

#[test]
fn join_diff_goes_only_to_the_joiner() {
    let (mut sm, mut rt) = fresh();
    rt.on_event::<Json>(&mut sm, 1, RuntimeAction::Join(PlayerContext::new(1)), 0);
    rt.on_event::<Json>(&mut sm, 2, RuntimeAction::Join(PlayerContext::new(2)), 0);
    let one = sm.drain(1);
    let two = sm.drain(2);
    assert_eq!(one, vec![diff_envelope("\"hello\"")]);
    assert_eq!(two, vec![diff_envelope("\"hello\"")]);
}

#[test]
fn batching_window_opens_once_and_never_moves() {
    let (mut sm, mut rt) = fresh();
    rt.on_event::<Json>(&mut sm, 1, RuntimeAction::Join(PlayerContext::new(1)), 0);
    sm.drain(1);
    // idle: the worker would dwell the long timeout
    assert_eq!(rt.wait_budget(1000), 1000);
    // three actions at T, T+10ms, T+30ms share one window closing at T+50ms
    rt.on_event::<Json>(&mut sm, 1, RuntimeAction::Action(Act(10)), 1000);
    assert_eq!(rt.wait_budget(1000), 50);
    rt.on_event::<Json>(&mut sm, 1, RuntimeAction::Action(Act(11)), 1010);
    assert_eq!(rt.wait_budget(1010), 40);
    rt.on_event::<Json>(&mut sm, 1, RuntimeAction::Action(Act(12)), 1030);
    assert_eq!(rt.wait_budget(1030), 20);
    assert_eq!(rt.wait_budget(1050), 0);
    // the flush hands the batch over in arrival order, exactly once
    rt.on_timeout::<Json>(&mut sm);
    let out = sm.drain(1);
    assert_eq!(out, vec![diff_envelope_raw(&[1, 10, 1, 11, 1, 12])]);
    // afterwards the worker is idle again
    assert_eq!(rt.wait_budget(1050), 1000);
    rt.on_timeout::<Json>(&mut sm);
    assert_eq!(sm.drain(1), vec![diff_envelope_raw(&[])]);
}

fn diff_envelope_raw(data: &[u8]) -> Vec<u8> {
    OutputMessage::Diff {
        type_: bytes("chat"),
        id: bytes("room-1"),
        finished: false,
        data: data.to_vec(),
    }
    .encode()
}

#[test]
fn leave_for_an_unknown_player_is_a_no_op() {
    let (mut sm, mut rt) = fresh();
    rt.on_event::<Json>(&mut sm, 9, RuntimeAction::Leave(9), 0);
    assert_eq!(sm.drain(1).len(), 0);
    assert_eq!(sm.drain(2).len(), 0);
}

#[test]
fn finish_notifies_every_member_last() {
    let (mut sm, mut rt) = fresh();
    rt.on_event::<Json>(&mut sm, 1, RuntimeAction::Join(PlayerContext::new(1)), 0);
    rt.on_event::<Json>(&mut sm, 2, RuntimeAction::Join(PlayerContext::new(2)), 0);
    sm.drain(1);
    sm.drain(2);
    assert!(!rt.check_finished::<Json>(&mut sm));
    rt.on_event::<Json>(&mut sm, 1, RuntimeAction::Action(Act(255)), 0);
    rt.on_timeout::<Json>(&mut sm);
    sm.drain(1);
    sm.drain(2);
    assert!(rt.check_finished::<Json>(&mut sm));
    let fin = OutputMessage::Diff {
        type_: bytes("chat"),
        id: bytes("room-1"),
        finished: true,
        data: Vec::new(),
    }
    .encode();
    assert_eq!(sm.drain(1), vec![fin.clone()]);
    assert_eq!(sm.drain(2), vec![fin]);
}

// --- registry ---

struct NoopHandle;

impl GameHandle<Recorder> for NoopHandle {
    fn send(&self, _p_id: u64, _action: RuntimeAction<Recorder>) {}
}

struct NoopRuntime;

impl GameRuntime<Recorder, Json> for NoopRuntime {
    type Handle = NoopHandle;
    type Settings = Settings;

    fn build(_type_: Vec<u8>, _id: Vec<u8>, _hooks: Recorder, _settings: &Settings) -> Self {
        NoopRuntime
    }

    fn start(self) -> NoopHandle {
        NoopHandle
    }
}

impl thunders::schema::Deserialize<Json> for Opts {
    fn deserialize(_buf: &[u8]) -> Result<Opts, thunders::error::ThundersError> {
        Ok(Opts)
    }
}

impl thunders::schema::Deserialize<Json> for Act {
    fn deserialize(buf: &[u8]) -> Result<Act, thunders::error::ThundersError> {
        if buf.len() == 1 {
            Ok(Act(buf[0]))
        } else {
            Err(thunders::error::ThundersError::DeserializationFailure)
        }
    }
}

#[test]
fn duplicate_create_is_refused_and_the_lobby_kept() {
    let settings = Settings { tick_no_action_millis: 1000, tick_millis: 50 };
    let mut reg: GameRuntimeHandle<NoopRuntime, Recorder, Json> =
        GameRuntimeHandle::new(bytes("chat"), settings);
    assert!(reg.register(PlayerContext::new(1), &bytes("room-1"), None));
    assert!(!reg.register(PlayerContext::new(1), &bytes("room-1"), None));
    assert!(reg.register(PlayerContext::new(1), &bytes("room-2"), None));
}

#[test]
fn join_and_leave_report_whether_the_lobby_exists() {
    let settings = Settings { tick_no_action_millis: 1000, tick_millis: 50 };
    let mut reg: GameRuntimeHandle<NoopRuntime, Recorder, Json> =
        GameRuntimeHandle::new(bytes("chat"), settings);
    assert!(reg.register(PlayerContext::new(1), &bytes("room-1"), None));
    assert!(reg.join(PlayerContext::new(2), &bytes("room-1")));
    assert!(!reg.join(PlayerContext::new(2), &bytes("room-9")));
    assert!(reg.leave(2, &bytes("room-1")));
    assert!(!reg.leave(2, &bytes("room-9")));
}

#[test]
fn schema_type_is_text() {
    match Json::schema_type() {
        thunders::schema::SchemaType::Text => {}
        thunders::schema::SchemaType::Binary => panic!("the JSON schema is text"),
    }
}

/// Emits two diffs per tick, to watch their order on the wire.
struct TwoDiffs;

impl GameHooks for TwoDiffs {
    type Delta = Delta;
    type Action = Act;
    type Options = Opts;

    fn build(_options: Opts) -> Self {
        TwoDiffs
    }

    fn on_tick(
        &mut self,
        _players: &Vec<PlayerContext>,
        _actions: Vec<(u64, Act)>,
    ) -> Option<Vec<Diff<Delta>>> {
        Some(vec![
            Diff::All { delta: Delta(bytes("\"first\"")) },
            Diff::All { delta: Delta(bytes("\"second\"")) },
        ])
    }

    fn on_join(&mut self, _player_cxt: &PlayerContext) -> Option<Vec<Diff<Delta>>> {
        None
    }

    fn on_leave(&mut self, _player_cxt: &PlayerContext) -> Option<Diff<Delta>> {
        None
    }

    fn is_finished(&self) -> (bool, Option<Diff<Delta>>) {
        (false, None)
    }
}

#[test]
fn batch_diffs_arrive_in_emission_order() {
    let mut sm = SessionManager::new();
    sm.connect(&bytes("a"), 1);
    sm.drain(1);
    let settings = Settings { tick_no_action_millis: 1000, tick_millis: 50 };
    let mut rt = SyncRuntime::build(bytes("chat"), bytes("room-1"), TwoDiffs, &settings);
    rt.on_event::<Json>(&mut sm, 1, RuntimeAction::Join(PlayerContext::new(1)), 0);
    rt.on_timeout::<Json>(&mut sm);
    let out = sm.drain(1);
    assert_eq!(out, vec![diff_envelope("\"first\""), diff_envelope("\"second\"")]);
}

#[test]
fn a_rejoin_greets_the_rejoiner_not_the_last_member() {
    let (mut sm, mut rt) = fresh();
    rt.on_event::<Json>(&mut sm, 1, RuntimeAction::Join(PlayerContext::new(1)), 0);
    rt.on_event::<Json>(&mut sm, 2, RuntimeAction::Join(PlayerContext::new(2)), 0);
    sm.drain(1);
    sm.drain(2);
    // player 1 joins again: the greeting goes to player 1 alone
    rt.on_event::<Json>(&mut sm, 1, RuntimeAction::Join(PlayerContext::new(1)), 0);
    assert_eq!(sm.drain(1), vec![diff_envelope("\"hello\"")]);
    assert_eq!(sm.drain(2).len(), 0);
}
