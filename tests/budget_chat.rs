use protohackers::handshake::{get_username, WELCOME};
use protohackers::room::{Delivery, Room};
use protohackers::session::{Input, Phase, Session, Step};

fn texts_for(ds: &[Delivery], who: u128) -> Vec<String> {
    ds.iter().filter(|d| d.to == who).map(|d| d.text.clone()).collect()
}

#[test]
fn three_clients_join_chat_and_leave() {
    let mut room = Room::new();
    let first = Room::new().join("Alice".to_string()).unwrap();
    assert_eq!(first.roster, "* The room contains: \n");
    let alice = room.join_as(1, "Alice".to_string()).unwrap();
    assert_eq!(alice.roster, "* The room contains: \n");
    assert!(alice.deliveries.is_empty());

    let bob = room.join_as(2, "Bob".to_string()).unwrap();
    assert_eq!(bob.roster, "* The room contains: Alice\n");
    assert_eq!(texts_for(&bob.deliveries, 1), vec!["* Bob has entered the room\n"]);

    let carol = room.join_as(3, "Carol".to_string()).unwrap();
    assert_eq!(carol.roster, "* The room contains: Alice, Bob\n");
    assert_eq!(carol.deliveries.len(), 2);
    assert_eq!(texts_for(&carol.deliveries, 1), vec!["* Carol has entered the room\n"]);
    assert_eq!(texts_for(&carol.deliveries, 2), vec!["* Carol has entered the room\n"]);

    let hello = room.broadcast(1, "hello\n");
    assert_eq!(hello.len(), 2);
    assert!(texts_for(&hello, 1).is_empty());
    assert_eq!(texts_for(&hello, 2), vec!["[Alice] hello\n"]);
    assert_eq!(texts_for(&hello, 3), vec!["[Alice] hello\n"]);

    let gone = room.leave(2);
    assert_eq!(gone.len(), 2);
    assert_eq!(texts_for(&gone, 1), vec!["* Bob has left the room\n"]);
    assert_eq!(texts_for(&gone, 3), vec!["* Bob has left the room\n"]);
    assert_eq!(room.get_usernames(), "Alice, Carol");
}

#[test]
fn roster_lists_earlier_joiners_in_order() {
    let mut room = Room::new();
    let names = ["Ann", "Ben", "Cid", "Dee"];
    for (k, name) in names.iter().enumerate() {
        let joined = room.join_as(100 + k as u128, name.to_string()).unwrap();
        assert_eq!(joined.roster, format!("* The room contains: {}\n", names[..k].join(", ")));
    }
    assert_eq!(room.len(), 4);
}

#[test]
fn broadcast_never_returns_to_sender() {
    let mut room = Room::new();
    room.join_as(7, "Solo".to_string()).unwrap();
    assert!(room.broadcast(7, "anyone?\n").is_empty());
    room.join_as(8, "Pal".to_string()).unwrap();
    let ds = room.broadcast(7, "\n");
    assert_eq!(ds.len(), 1);
    assert_eq!(ds[0].to, 8);
    assert_eq!(ds[0].text, "[Solo] \n");
    assert!(!room.contains(9));
}

#[test]
fn departed_member_is_gone_and_its_id_retired() {
    let mut room = Room::new();
    room.join_as(1, "A".to_string()).unwrap();
    room.join_as(2, "B".to_string()).unwrap();
    assert_eq!(room.leave(2).len(), 1);
    assert!(!room.contains(2));
    assert!(room.was_issued(2));
    assert!(room.join_as(2, "B".to_string()).is_none());
    assert!(room.broadcast(1, "x\n").is_empty());
    assert_eq!(room.join_as(3, "C".to_string()).unwrap().roster, "* The room contains: A\n");
}

#[test]
fn taken_id_and_duplicate_names() {
    let mut room = Room::new();
    room.join_as(1, "Same".to_string()).unwrap();
    assert!(room.join_as(1, "Other".to_string()).is_none());
    assert_eq!(room.len(), 1);
    let twin = room.join_as(2, "Same".to_string()).unwrap();
    assert_eq!(twin.roster, "* The room contains: Same\n");
    let joined = room.join("Third".to_string()).unwrap();
    assert_eq!(joined.roster, "* The room contains: Same, Same\n");
    assert!(room.contains(joined.id));
}

#[test]
fn messages_reach_observer_in_order_accepted() {
    let mut room = Room::new();
    room.join_as(1, "A".to_string()).unwrap();
    room.join_as(2, "B".to_string()).unwrap();
    room.join_as(3, "C".to_string()).unwrap();
    let mut log = room.broadcast(1, "first\n");
    log.extend(room.broadcast(2, "second\n"));
    assert_eq!(texts_for(&log, 3), vec!["[A] first\n", "[B] second\n"]);
}

#[test]
fn usernames_validated() {
    assert!(get_username("").is_err());
    assert!(get_username("john doe").is_err());
    assert!(get_username("john!").is_err());
    assert_eq!(get_username("John").unwrap(), "John");
    assert_eq!(get_username("user123").unwrap(), "user123");
    assert_eq!(get_username("42").unwrap(), "42");
    assert_eq!(get_username("  Bob \n").unwrap(), "Bob");
    assert_eq!(get_username("bad name\n").unwrap_err().name, "bad name");
    assert!(WELCOME.ends_with('\n'));
}

#[test]
fn session_leaves_once_on_eof() {
    let mut s = Session::new();
    assert_eq!(s.on_input(Input::Line("Alice\n".to_string())), Step::Join("Alice".to_string()));
    assert_eq!(s.phase(), Phase::Active);
    assert_eq!(s.on_input(Input::Line("\n".to_string())), Step::Broadcast("\n".to_string()));
    assert_eq!(s.on_input(Input::Eof), Step::Leave);
    assert_eq!(s.phase(), Phase::Closed);
    assert_eq!(s.on_input(Input::ReadFailed), Step::Ignore);
    assert_eq!(s.on_input(Input::Eof), Step::Ignore);
}

#[test]
fn session_leaves_once_on_read_error() {
    let mut s = Session::new();
    assert_eq!(s.on_input(Input::Line("Bob".to_string())), Step::Join("Bob".to_string()));
    assert_eq!(s.on_input(Input::ReadFailed), Step::Leave);
    assert_eq!(s.on_input(Input::Line("late\n".to_string())), Step::Ignore);
}

#[test]
fn session_rejects_invalid_username() {
    let mut s = Session::new();
    assert_eq!(s.on_input(Input::Line("john doe\n".to_string())), Step::Reject);
    assert_eq!(s.phase(), Phase::Closed);
    assert_eq!(s.on_input(Input::Eof), Step::Ignore);
    let mut t = Session::new();
    assert_eq!(t.on_input(Input::Eof), Step::Reject);
}
