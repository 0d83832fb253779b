use thunders::error::{ThundersClientError, ThundersError};
use thunders::schema::{Deserialize, Json};
use thunders::reply::Resolution;
use thunders::state::{settle_create, ActiveGames, GameState};

fn bytes(s: &str) -> Vec<u8> {
    s.as_bytes().to_vec()
}

struct Mirror {
    changes: Vec<Vec<u8>>,
    actions: Vec<u8>,
}

struct Change(Vec<u8>);

impl Deserialize<Json> for Change {
    fn deserialize(buf: &[u8]) -> Result<Change, ThundersError> {
        if buf.is_empty() {
            Err(ThundersError::DeserializationFailure)
        } else {
            Ok(Change(buf.to_vec()))
        }
    }
}

impl GameState for Mirror {
    type Change = Change;
    type Action = u8;
    type Options = ();

    fn build(_options: &()) -> Self {
        Mirror { changes: Vec::new(), actions: Vec::new() }
    }

    fn on_change(&mut self, change: Change) {
        self.changes.push(change.0);
    }

    fn on_action(&mut self, action: u8) {
        self.actions.push(action);
    }

    fn on_finish(self) {}
}

#[test]
fn routing_reaches_the_named_instance() {
    let mut games: ActiveGames<Mirror> = ActiveGames::new(bytes("chat"));
    games.create(&bytes("chat"), bytes("room-1"), Mirror::build(&())).unwrap();
    games.route_message::<Json>(&bytes("chat"), &bytes("room-1"), b"[1]").unwrap();
    let view = games.get_as(&bytes("chat"), &bytes("room-1")).unwrap();
    assert_eq!(view.get().changes, vec![bytes("[1]")]);
}

#[test]
fn routing_rejects_unknown_types_and_rooms() {
    let mut games: ActiveGames<Mirror> = ActiveGames::new(bytes("chat"));
    games.create(&bytes("chat"), bytes("room-1"), Mirror::build(&())).unwrap();
    assert_eq!(
        games.route_message::<Json>(&bytes("pong"), &bytes("room-1"), b"[1]"),
        Err(ThundersClientError::RoomTypeNotFound)
    );
    assert_eq!(
        games.route_message::<Json>(&bytes("chat"), &bytes("room-9"), b"[1]"),
        Err(ThundersClientError::RoomNotFound)
    );
    assert_eq!(
        games.route_message::<Json>(&bytes("chat"), &bytes("room-1"), b""),
        Err(ThundersClientError::UnknownMessage)
    );
}

#[test]
fn a_rolled_back_create_leaves_no_entry() {
    // a create that times out is rolled back: the optimistic instance goes
    let mut games: ActiveGames<Mirror> = ActiveGames::new(bytes("chat"));
    games.create(&bytes("chat"), bytes("room-1"), Mirror::build(&())).unwrap();
    assert!(games.get_as(&bytes("chat"), &bytes("room-1")).is_some());
    games.remove(&bytes("chat"), &bytes("room-1")).ok().unwrap();
    assert!(games.get_as(&bytes("chat"), &bytes("room-1")).is_none());
    assert_eq!(
        games.remove(&bytes("chat"), &bytes("room-1")).err().unwrap(),
        ThundersClientError::RoomNotFound
    );
}

#[test]
fn local_actions_apply_optimistically() {
    let mut games: ActiveGames<Mirror> = ActiveGames::new(bytes("chat"));
    games.create(&bytes("chat"), bytes("room-1"), Mirror::build(&())).unwrap();
    games.action(&bytes("chat"), &bytes("room-1"), 9).unwrap();
    let removed = games.remove(&bytes("chat"), &bytes("room-1")).ok().unwrap();
    assert_eq!(removed.actions, vec![9]);
}

#[test]
fn settling_a_create_keeps_it_only_on_success() {
    let mut games: ActiveGames<Mirror> = ActiveGames::new(bytes("chat"));
    games.create(&bytes("chat"), bytes("room-1"), Mirror::build(&())).unwrap();
    assert!(settle_create(&mut games, &bytes("chat"), &bytes("room-1"), Resolution::Done));
    assert!(games.get_as(&bytes("chat"), &bytes("room-1")).is_some());
    assert!(!settle_create(&mut games, &bytes("chat"), &bytes("room-1"), Resolution::Failed));
    assert!(games.get_as(&bytes("chat"), &bytes("room-1")).is_none());
    // a timed-out create settles the same way: rolled back, nothing left
    games.create(&bytes("chat"), bytes("room-2"), Mirror::build(&())).unwrap();
    assert!(!settle_create(&mut games, &bytes("chat"), &bytes("room-2"), Resolution::TimedOut));
    assert!(games.get_as(&bytes("chat"), &bytes("room-2")).is_none());
}
