use gbpplanner::message::{FactorId, Inbox, Message, RemoveConnectionToError};

fn fid(graph: usize, index: usize) -> FactorId {
    FactorId { factorgraph_id: graph, factor_index: index }
}

#[test]
fn empty_message_carries_nothing() {
    let m: Message<i64> = Message::empty(4);
    assert!(m.is_empty());
    assert_eq!(m.payload(), None);
    assert_eq!(m.dofs(), 4);
    let m = Message::new(4, 7i64);
    assert!(!m.is_empty());
    assert_eq!(m.payload(), Some(&7));
}

#[test]
fn combining_adds_payloads() {
    let a = Message::new(2, (1i64, 10i64));
    let b = Message::new(2, (2i64, 20i64));
    let c = a.combine(b, |x, y| (x.0 + y.0, x.1 + y.1));
    assert_eq!(c.payload(), Some(&(3, 30)));
    assert_eq!(c.dofs(), 2);
}

#[test]
fn combining_with_empty_is_identity() {
    let a = Message::new(2, 5i64);
    let c = a.combine(Message::empty(2), |x, y| x + y);
    assert_eq!(c.payload(), Some(&5));
    let c = Message::empty(2).combine(Message::new(2, 6i64), |x, y| x + y);
    assert_eq!(c.payload(), Some(&6));
    let c: Message<i64> = Message::empty(2).combine(Message::empty(2), |x, y| x + y);
    assert!(c.is_empty());
}

#[test]
fn combining_is_commutative_on_integers() {
    let ab = Message::new(1, 3i64).combine(Message::new(1, 4i64), |x, y| x + y);
    let ba = Message::new(1, 4i64).combine(Message::new(1, 3i64), |x, y| x + y);
    assert_eq!(ab.payload(), ba.payload());
}

#[test]
fn inbox_overwrites_per_factor() {
    let mut inbox: Inbox<i64> = Inbox::new();
    inbox.receive_message_from(fid(0, 1), Message::new(4, 1));
    inbox.receive_message_from(fid(1, 0), Message::new(4, 2));
    inbox.receive_message_from(fid(0, 1), Message::new(4, 3));
    assert_eq!(inbox.len(), 2);
    assert_eq!(inbox.read_message_from(fid(0, 1)).and_then(|m| m.payload()), Some(&3));
    assert_eq!(inbox.read_message_from(fid(1, 0)).and_then(|m| m.payload()), Some(&2));
    assert!(inbox.read_message_from(fid(2, 0)).is_none());
    assert_eq!(inbox.factor_ids(), vec![fid(0, 1), fid(1, 0)]);
}

#[test]
fn inbox_keeps_empty_messages() {
    let mut inbox: Inbox<i64> = Inbox::new();
    inbox.receive_message_from(fid(0, 0), Message::empty(4));
    assert_eq!(inbox.len(), 1);
    assert!(inbox.read_message_from(fid(0, 0)).unwrap().is_empty());
}

#[test]
fn remove_connection_to_graph() {
    let mut inbox: Inbox<i64> = Inbox::new();
    inbox.receive_message_from(fid(0, 0), Message::new(4, 1));
    inbox.receive_message_from(fid(5, 0), Message::new(4, 2));
    inbox.receive_message_from(fid(5, 1), Message::new(4, 3));
    inbox.receive_message_from(fid(0, 1), Message::new(4, 4));
    assert_eq!(inbox.remove_connection_to(5), Ok(()));
    assert_eq!(inbox.factor_ids(), vec![fid(0, 0), fid(0, 1)]);
    assert_eq!(inbox.remove_connection_to(5), Err(RemoveConnectionToError));
    assert_eq!(inbox.factor_ids(), vec![fid(0, 0), fid(0, 1)]);
}

#[test]
fn clear_messages_empties_every_entry() {
    let mut inbox: Inbox<i64> = Inbox::new();
    inbox.receive_message_from(fid(0, 0), Message::new(4, 1));
    inbox.receive_message_from(fid(0, 1), Message::new(4, 2));
    inbox.clear_messages(4);
    assert_eq!(inbox.factor_ids(), vec![fid(0, 0), fid(0, 1)]);
    assert!(inbox.read_message_from(fid(0, 0)).unwrap().is_empty());
    assert!(inbox.read_message_from(fid(0, 1)).unwrap().is_empty());
    assert_eq!(inbox.read_message_from(fid(0, 1)).unwrap().dofs(), 4);
}

#[test]
fn belief_of_empty_inbox_is_prior() {
    let inbox: Inbox<i64> = Inbox::new();
    assert_eq!(inbox.fold_payloads(42, |acc, g| acc + *g), 42);
    let mut inbox: Inbox<i64> = Inbox::new();
    inbox.receive_message_from(fid(0, 0), Message::empty(4));
    inbox.receive_message_from(fid(0, 1), Message::empty(4));
    assert_eq!(inbox.fold_payloads(42, |acc, g| acc + *g), 42);
}

#[test]
fn belief_sums_informative_messages() {
    let mut inbox: Inbox<i64> = Inbox::new();
    inbox.receive_message_from(fid(0, 0), Message::new(4, 5));
    inbox.receive_message_from(fid(0, 1), Message::empty(4));
    inbox.receive_message_from(fid(1, 0), Message::new(4, 7));
    assert_eq!(inbox.fold_payloads(1, |acc, g| acc + *g), 13);
    assert_eq!(inbox.fold_payloads(1, |acc, g| acc * 10 + *g), 157);
}

#[test]
fn responses_follow_inbox_order() {
    let mut inbox: Inbox<i64> = Inbox::new();
    inbox.receive_message_from(fid(0, 2), Message::new(4, 5));
    inbox.receive_message_from(fid(0, 1), Message::empty(4));
    inbox.receive_message_from(fid(1, 0), Message::new(4, 7));
    let belief = 100i64;
    let out = inbox.responses(|received| match received {
        None => belief,
        Some(g) => belief - *g,
    });
    assert_eq!(out, vec![(fid(0, 2), 95), (fid(0, 1), 100), (fid(1, 0), 93)]);
}
