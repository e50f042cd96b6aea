use electrs::messages::{Message, Notification, ScriptHashSet};
use electrs::server::{parse_request, retain_connected, Delivery, LineFault, Peers};

#[test]
fn lines_become_requests() {
    assert!(parse_request(vec![]).unwrap().is_none());
    match parse_request("{\"id\":\"\u{e4}\"}\n".as_bytes().to_vec()) {
        Ok(Some(Message::Request(text))) => assert_eq!(text, "{\"id\":\"\u{e4}\"}\n"),
        other => panic!("{:?}", other),
    }
    // two bytes of a handshake are not enough
    assert!(matches!(parse_request(vec![22, 3]), Ok(Some(Message::Request(_)))));
    match parse_request(vec![22, 3, 1, 2, 0]) {
        Err(LineFault::Encrypted(bytes)) => assert_eq!(bytes, vec![22, 3, 1, 2, 0]),
        other => panic!("{:?}", other),
    }
    match parse_request(vec![b'a', 0xff, b'\n']) {
        Err(LineFault::InvalidUtf8(bytes)) => assert_eq!(bytes, vec![b'a', 0xff, b'\n']),
        other => panic!("{:?}", other),
    }
}

#[test]
fn notifications_become_messages() {
    let mut dirty = ScriptHashSet::new();
    dirty.insert([3; 32]);
    match Notification::periodic(dirty, true).message() {
        Some(Message::PeriodicUpdate { dirty, tip_changed }) => {
            assert!(tip_changed);
            assert!(dirty.contains(&[3; 32]));
            assert!(!dirty.contains(&[4; 32]));
        }
        other => panic!("{:?}", other),
    }
    match Notification::periodic(ScriptHashSet::new(), false).message() {
        Some(Message::PeriodicUpdate { dirty, tip_changed }) => {
            assert!(!tip_changed && dirty.is_empty());
        }
        other => panic!("{:?}", other),
    }
    assert!(Notification::Exit.message().is_none());
}

#[test]
fn only_connections_that_are_gone_are_forgotten() {
    let mut senders = vec!['a', 'b', 'c', 'd', 'e'];
    retain_connected(
        &mut senders,
        &vec![
            Delivery::Disconnected,
            Delivery::Delivered,
            Delivery::Full,
            Delivery::Disconnected,
            Delivery::Delivered,
        ],
    );
    assert_eq!(senders, vec!['b', 'c', 'e']);
    let mut none: Vec<char> = vec![];
    retain_connected(&mut none, &vec![]);
    assert!(none.is_empty());
}

#[test]
fn threads_are_handed_out_once() {
    let mut peers: Peers<&str> = Peers::new();
    let (a, b) = (peers.reserve(), peers.reserve());
    assert!(a != b);
    peers.insert(a, "first");
    peers.insert(b, "second");
    assert_eq!(peers.remove(a), Some("first"));
    assert_eq!(peers.remove(a), None);
    let c = peers.reserve();
    assert!(c != a && c != b);
    peers.insert(c, "third");
    assert_eq!(peers.threads.len(), 2);
    assert_eq!(peers.remove(c), Some("third"));
    assert_eq!(peers.remove(b), Some("second"));
    assert_eq!(peers.remove(99), None);
}

#[test]
fn script_hashes_are_found_among_many() {
    let hash = |i: u32| {
        let mut hash = [0u8; 32];
        // many share their first bytes
        hash[0] = (i % 7) as u8;
        hash[20..24].copy_from_slice(&i.to_le_bytes());
        hash
    };
    let mut set = ScriptHashSet::new();
    assert!(set.is_empty());
    for i in 0..500 {
        assert!(set.insert(hash(2 * i)));
        assert!(!set.insert(hash(2 * i)));
    }
    assert!(!set.is_empty());
    for i in 0..500 {
        assert!(set.contains(&hash(2 * i)));
        assert!(!set.contains(&hash(2 * i + 1)));
    }
}
