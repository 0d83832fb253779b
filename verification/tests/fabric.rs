use thunders::message::OutputMessage;
use thunders::protocol::disconnect_sweep;
use thunders::reply::{ReplyManager, Resolution};
use thunders::session::SessionManager;

fn bytes(s: &str) -> Vec<u8> {
    s.as_bytes().to_vec()
}

#[test]
fn connect_queues_the_ack() {
    let mut sm = SessionManager::new();
    sm.connect(&bytes("a"), 7);
    let out = sm.drain(7);
    assert_eq!(out.len(), 1);
    assert_eq!(
        out[0],
        OutputMessage::Connect { correlation_id: bytes("a"), success: true }.encode()
    );
}

#[test]
fn send_to_a_missing_session_is_dropped() {
    let mut sm = SessionManager::new();
    sm.connect(&bytes("a"), 1);
    sm.drain(1);
    sm.send(2, &OutputMessage::GenericError { description: bytes("x") });
    assert_eq!(sm.drain(1).len(), 0);
    assert_eq!(sm.drain(2).len(), 0);
}

#[test]
fn send_all_encodes_once_and_reaches_each_recipient_once() {
    let mut sm = SessionManager::new();
    sm.connect(&bytes("a"), 1);
    sm.connect(&bytes("b"), 2);
    sm.drain(1);
    sm.drain(2);
    let msg = OutputMessage::Diff {
        type_: bytes("chat"),
        id: bytes("room-1"),
        finished: false,
        data: bytes("1"),
    };
    sm.send_all(&vec![1, 2, 9], &msg);
    let one = sm.drain(1);
    let two = sm.drain(2);
    assert_eq!(one.len(), 1);
    assert_eq!(two.len(), 1);
    assert_eq!(one[0], msg.encode());
    assert_eq!(two[0], one[0]);
}

#[test]
fn disconnect_sweep_returns_each_joined_lobby_once() {
    let mut sm = SessionManager::new();
    sm.connect(&bytes("a"), 1);
    sm.subscribe(1, &bytes("chat"), &bytes("room-1"));
    sm.subscribe(1, &bytes("chat"), &bytes("room-2"));
    // a duplicate join is a no-op
    sm.subscribe(1, &bytes("chat"), &bytes("room-1"));
    let entries = disconnect_sweep(&mut sm, 1);
    assert_eq!(entries.len(), 1);
    assert_eq!(entries[0].type_, bytes("chat"));
    assert_eq!(entries[0].ids, vec![bytes("room-1"), bytes("room-2")]);
    // the second sweep finds nothing: no second Leave can be issued
    let again = disconnect_sweep(&mut sm, 1);
    assert_eq!(again.len(), 0);
}

#[test]
fn disconnect_sweep_leaves_other_players_alone() {
    let mut sm = SessionManager::new();
    sm.connect(&bytes("a"), 1);
    sm.connect(&bytes("b"), 2);
    sm.subscribe(1, &bytes("chat"), &bytes("room-1"));
    sm.subscribe(2, &bytes("chat"), &bytes("room-1"));
    let entries = disconnect_sweep(&mut sm, 1);
    assert_eq!(entries.len(), 1);
    let other = disconnect_sweep(&mut sm, 2);
    assert_eq!(other.len(), 1);
    assert_eq!(other[0].ids, vec![bytes("room-1")]);
}

#[test]
fn replies_resolve_at_most_once() {
    let mut rm = ReplyManager::new();
    rm.register(&bytes("cid-1"), 100);
    assert!(rm.ok(&bytes("cid-1")));
    assert!(!rm.ok(&bytes("cid-1")));
    assert!(!rm.error(&bytes("cid-1")));
    assert_eq!(rm.vacuum(1000).len(), 0);
}

#[test]
fn vacuum_times_out_exactly_the_expired() {
    let mut rm = ReplyManager::new();
    rm.register(&bytes("early"), 100);
    rm.register(&bytes("late"), 500);
    assert_eq!(rm.vacuum(99).len(), 0);
    let expired = rm.vacuum(100);
    assert_eq!(expired, vec![bytes("early")]);
    // the timed-out entry is resolved: a late reply finds nothing
    assert!(!rm.ok(&bytes("early")));
    // the live entry is untouched
    assert!(rm.ok(&bytes("late")));
}

#[test]
fn error_resolution_wins_over_a_later_timeout() {
    let mut rm = ReplyManager::new();
    rm.register(&bytes("cid"), 100);
    assert!(rm.error(&bytes("cid")));
    assert_eq!(rm.vacuum(1000).len(), 0);
}

#[test]
fn the_recorded_outcome_is_the_first_resolution() {
    let mut rm = ReplyManager::new();
    rm.register(&bytes("cid"), 100);
    assert!(rm.error(&bytes("cid")));
    // a later success changes nothing: the failure stands
    assert!(!rm.ok(&bytes("cid")));
    assert_eq!(rm.take(&bytes("cid")), Some(Resolution::Failed));
    assert_eq!(rm.take(&bytes("cid")), None);
}

#[test]
fn a_timeout_is_recorded_as_an_outcome() {
    let mut rm = ReplyManager::new();
    rm.register(&bytes("cid"), 100);
    assert_eq!(rm.vacuum(100), vec![bytes("cid")]);
    assert_eq!(rm.take(&bytes("cid")), Some(Resolution::TimedOut));
}

#[test]
fn reregistering_forgets_a_stale_outcome() {
    let mut rm = ReplyManager::new();
    rm.register(&bytes("cid"), 100);
    assert!(rm.ok(&bytes("cid")));
    rm.register(&bytes("cid"), 500);
    assert_eq!(rm.take(&bytes("cid")), None);
    assert!(rm.ok(&bytes("cid")));
    assert_eq!(rm.take(&bytes("cid")), Some(Resolution::Done));
}
