use broadcast_chat::handler::apply_write_outcomes;
use broadcast_chat::handler::failed_indices;
use broadcast_chat::handler::next_action;
use broadcast_chat::handler::Action;
use broadcast_chat::handler::ReadEvent;
use broadcast_chat::peer::PeerId;
use broadcast_chat::registry::ClientEntry;
use broadcast_chat::registry::ClientRegistry;

fn entry(host: u128, port: u16, handle: usize) -> ClientEntry {
    ClientEntry { peer: PeerId::new(host, port), handle }
}

#[test]
fn a_read_line_is_framed_and_delivered() {
    match next_action(ReadEvent::Line(b"hello".to_vec())) {
        Action::Deliver(line) => assert_eq!(line, b"hello\n".to_vec()),
        Action::Stop => panic!("a line must be delivered"),
    }
}

#[test]
fn an_empty_line_is_still_delivered() {
    // A bare newline from a client is broadcast as an empty message;
    // it never ends the handler.
    match next_action(ReadEvent::Line(Vec::new())) {
        Action::Deliver(line) => assert_eq!(line, b"\n".to_vec()),
        Action::Stop => panic!("an empty line must be delivered"),
    }
}

#[test]
fn end_of_stream_stops_the_handler() {
    match next_action(ReadEvent::Closed) {
        Action::Deliver(_) => panic!("nothing is delivered at end of stream"),
        Action::Stop => {}
    }
}

#[test]
fn failed_indices_are_collected_in_order() {
    let r = failed_indices(&vec![false, true, false, false, true]);
    assert_eq!(r, vec![0, 2, 3]);
    assert_eq!(failed_indices(&vec![true, true]), Vec::<usize>::new());
}

#[test]
fn pruning_removes_exactly_the_failed_writes() {
    // One dead recipient is dropped; delivery to the others stands.
    let mut reg = ClientRegistry::new();
    reg.register(entry(1, 10, 0));
    reg.register(entry(2, 20, 1));
    reg.register(entry(3, 30, 2));
    apply_write_outcomes(&mut reg, &vec![true, false, true]);
    assert_eq!(reg.len(), 2);
    assert_eq!(reg.entry_at(0), entry(1, 10, 0));
    assert_eq!(reg.entry_at(1), entry(3, 30, 2));
}

#[test]
fn two_clients_one_line() {
    // Clients A and B are connected; A sends "hello". The handler frames
    // exactly the line "hello" for every registered entry — B, and A
    // itself, since the protocol echoes the sender's line back.
    let mut reg = ClientRegistry::new();
    reg.register(entry(1, 10, 0));
    reg.register(entry(2, 20, 1));
    let line = match next_action(ReadEvent::Line(b"hello".to_vec())) {
        Action::Deliver(line) => line,
        Action::Stop => panic!("a line must be delivered"),
    };
    let mut outcomes = Vec::new();
    for _ in 0..reg.len() {
        // Every write of `line` succeeds.
        outcomes.push(true);
    }
    apply_write_outcomes(&mut reg, &outcomes);
    assert_eq!(line, b"hello\n".to_vec());
    assert_eq!(reg.len(), 2);
}
