use broadcast_chat::peer::PeerId;
use broadcast_chat::registry::ClientEntry;
use broadcast_chat::registry::ClientRegistry;

fn entry(host: u128, port: u16, handle: usize) -> ClientEntry {
    ClientEntry { peer: PeerId::new(host, port), handle }
}

#[test]
fn register_grows_by_one_each_time() {
    let mut reg = ClientRegistry::new();
    assert_eq!(reg.len(), 0);
    for k in 0..4usize {
        reg.register(entry(k as u128 + 1, 1000, k));
        assert_eq!(reg.len(), k + 1);
    }
}

#[test]
fn size_after_registrations_and_removals() {
    // Three registrations and one confirmed removal leave two entries.
    let mut reg = ClientRegistry::new();
    reg.register(entry(1, 10, 0));
    reg.register(entry(2, 20, 1));
    reg.register(entry(3, 30, 2));
    let removed = reg.remove_by_identifier(PeerId::new(2, 20));
    assert_eq!(removed, Some(1));
    assert_eq!(reg.len(), 2);
    assert_eq!(reg.entry_at(0), entry(1, 10, 0));
    assert_eq!(reg.entry_at(1), entry(3, 30, 2));
}

#[test]
fn batch_removal_processes_indices_in_reverse() {
    // Removing positions 1, 3 and 4 from five entries must leave the
    // entries that stood at positions 0 and 2, in that order.
    let mut reg = ClientRegistry::new();
    for k in 0..5usize {
        reg.register(entry(k as u128 + 1, 100, k));
    }
    reg.remove_indices(&vec![1, 3, 4]);
    assert_eq!(reg.len(), 2);
    assert_eq!(reg.entry_at(0), entry(1, 100, 0));
    assert_eq!(reg.entry_at(1), entry(3, 100, 2));
}

#[test]
fn batch_removal_of_nothing_changes_nothing() {
    let mut reg = ClientRegistry::new();
    reg.register(entry(7, 70, 0));
    reg.remove_indices(&vec![]);
    assert_eq!(reg.len(), 1);
    assert_eq!(reg.entry_at(0), entry(7, 70, 0));
}

#[test]
fn removal_by_identifier_is_idempotent() {
    // The index path and the identifier path can both target one entry;
    // the loser of that race must see a harmless no-op.
    let mut reg = ClientRegistry::new();
    reg.register(entry(1, 10, 0));
    reg.register(entry(2, 20, 1));
    assert_eq!(reg.remove_by_identifier(PeerId::new(2, 20)), Some(1));
    assert_eq!(reg.remove_by_identifier(PeerId::new(2, 20)), None);
    assert_eq!(reg.len(), 1);
    assert_eq!(reg.entry_at(0), entry(1, 10, 0));
}

#[test]
fn removal_by_identifier_takes_the_first_match() {
    let mut reg = ClientRegistry::new();
    reg.register(entry(5, 50, 0));
    reg.register(entry(5, 50, 1));
    assert_eq!(reg.remove_by_identifier(PeerId::new(5, 50)), Some(0));
    assert_eq!(reg.len(), 1);
    assert_eq!(reg.entry_at(0), entry(5, 50, 1));
}

#[test]
fn connect_then_silent_disconnect_restores_count() {
    // A client that connects and leaves without sending is cleaned up by
    // the exit path alone: nobody has to broadcast for it to go.
    let mut reg = ClientRegistry::new();
    reg.register(entry(1, 10, 0));
    reg.register(entry(2, 20, 1));
    let before = reg.len();
    reg.register(entry(9, 90, 2));
    assert_eq!(reg.len(), before + 1);
    assert_eq!(reg.remove_by_identifier(PeerId::new(9, 90)), Some(2));
    assert_eq!(reg.len(), before);
}
