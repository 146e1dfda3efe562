use p3p::addr::PeerAddr;
use p3p::bootstrap_discovery::discovery_message::DiscoveryMessage;
use p3p::bootstrap_discovery::peer::{Gossip, PeerId};
use p3p::bootstrap_discovery::DiscoveryError;
use p3p::decimal::ParseIntErrorKind;

fn addr(a: u8, b: u8, c: u8, d: u8, port: u16) -> PeerAddr {
    PeerAddr::new(a, b, c, d, port)
}

#[test]
fn peer_id_from_string_trims_whitespace() {
    assert_eq!(PeerId::from_string("  42 \t"), Ok(PeerId(42)));
    assert_eq!(PeerId::from_string("7"), Ok(PeerId(7)));
    assert_eq!(PeerId::from_string("+5"), Ok(PeerId(5)));
    assert_eq!(PeerId::from_string("4294967295"), Ok(PeerId(u32::MAX)));
}

#[test]
fn peer_id_from_string_errors() {
    assert_eq!(
        PeerId::from_string(""),
        Err(DiscoveryError::InvalidIntNumber(ParseIntErrorKind::Empty))
    );
    assert_eq!(
        PeerId::from_string("   "),
        Err(DiscoveryError::InvalidIntNumber(ParseIntErrorKind::Empty))
    );
    assert_eq!(
        PeerId::from_string("-5"),
        Err(DiscoveryError::InvalidIntNumber(ParseIntErrorKind::InvalidDigit))
    );
    assert_eq!(
        PeerId::from_string("+"),
        Err(DiscoveryError::InvalidIntNumber(ParseIntErrorKind::InvalidDigit))
    );
    assert_eq!(
        PeerId::from_string("12a"),
        Err(DiscoveryError::InvalidIntNumber(ParseIntErrorKind::InvalidDigit))
    );
    assert_eq!(
        PeerId::from_string("4294967296"),
        Err(DiscoveryError::InvalidIntNumber(ParseIntErrorKind::PosOverflow))
    );
    assert_eq!(
        PeerId::from_string("1 2"),
        Err(DiscoveryError::InvalidIntNumber(ParseIntErrorKind::InvalidDigit))
    );
}

#[test]
fn peer_id_generate_in_range_and_to_string() {
    for _ in 0..50 {
        let id = PeerId::generate();
        assert!(id.0 >= 1 && id.0 < u32::MAX);
    }
    assert_eq!(PeerId::new(5322).to_string(), "5322");
    assert_eq!(PeerId::new(0).to_string(), "0");
}

#[test]
fn ping_and_pong_are_read() {
    match DiscoveryMessage::from_string("PING FROM 42") {
        Ok(DiscoveryMessage::Ping { from }) => assert_eq!(from, PeerId(42)),
        other => panic!("unexpected {:?}", other),
    }
    match DiscoveryMessage::from_string("pong FROM   9  ") {
        Ok(DiscoveryMessage::Pong { from }) => assert_eq!(from, PeerId(9)),
        other => panic!("unexpected {:?}", other),
    }
    match DiscoveryMessage::from_string("PING FROM4") {
        Ok(DiscoveryMessage::Ping { from }) => assert_eq!(from, PeerId(4)),
        other => panic!("unexpected {:?}", other),
    }
}

#[test]
fn ping_errors() {
    assert_eq!(
        DiscoveryMessage::from_string("PING from 42").err(),
        Some(DiscoveryError::InvalidDiscoveryMessage)
    );
    assert_eq!(
        DiscoveryMessage::from_string("PING FROM").err(),
        Some(DiscoveryError::InvalidIntNumber(ParseIntErrorKind::Empty))
    );
    assert_eq!(
        DiscoveryMessage::from_string("PING FROM abc").err(),
        Some(DiscoveryError::InvalidIntNumber(ParseIntErrorKind::InvalidDigit))
    );
    assert_eq!(
        DiscoveryMessage::from_string("HELLO FROM 1").err(),
        Some(DiscoveryError::InvalidDiscoveryMessage)
    );
    assert_eq!(
        DiscoveryMessage::from_string("").err(),
        Some(DiscoveryError::InvalidDiscoveryMessage)
    );
    assert_eq!(
        DiscoveryMessage::from_string(" PING FROM 1").err(),
        Some(DiscoveryError::InvalidDiscoveryMessage)
    );
}

#[test]
fn gossip_is_read() {
    match DiscoveryMessage::from_string("GOSSIP FROM 1. 2=1.2.3.4:5, 3=10.0.0.8:4000") {
        Ok(DiscoveryMessage::Gossip { from, gossips }) => {
            assert_eq!(from, PeerId(1));
            assert_eq!(
                gossips,
                vec![
                    Gossip { peer_id: PeerId(2), addr: addr(1, 2, 3, 4, 5) },
                    Gossip { peer_id: PeerId(3), addr: addr(10, 0, 0, 8, 4000) },
                ]
            );
        },
        other => panic!("unexpected {:?}", other),
    }
    match DiscoveryMessage::from_string("GOSSIP FROM 1. ") {
        Ok(DiscoveryMessage::Gossip { from, gossips }) => {
            assert_eq!(from, PeerId(1));
            assert!(gossips.is_empty());
        },
        other => panic!("unexpected {:?}", other),
    }
}

#[test]
fn gossip_errors() {
    assert_eq!(
        DiscoveryMessage::from_string("GOSSIP FROM 1").err(),
        Some(DiscoveryError::InvalidDiscoveryMessage)
    );
    assert_eq!(
        DiscoveryMessage::from_string("GOSSIP 1. 2=1.2.3.4:5").err(),
        Some(DiscoveryError::InvalidDiscoveryMessage)
    );
    assert_eq!(
        DiscoveryMessage::from_string("GOSSIP FROM 1. 2=nowhere").err(),
        Some(DiscoveryError::InvalidAddr)
    );
    assert_eq!(
        DiscoveryMessage::from_string("GOSSIP FROM 1. 2").err(),
        Some(DiscoveryError::InvalidDiscoveryMessage)
    );
    assert_eq!(
        DiscoveryMessage::from_string("GOSSIP FROM 1. 2=1.2.3.4:5,").err(),
        Some(DiscoveryError::InvalidDiscoveryMessage)
    );
    assert_eq!(
        DiscoveryMessage::from_string("GOSSIP FROM x. 2=1.2.3.4:5").err(),
        Some(DiscoveryError::InvalidIntNumber(ParseIntErrorKind::InvalidDigit))
    );
    assert_eq!(
        DiscoveryMessage::from_string("GOSSIP FROM 1. 2=1.2.3.4:70000").err(),
        Some(DiscoveryError::InvalidAddr)
    );
}

#[test]
fn messages_are_written() {
    assert_eq!(DiscoveryMessage::Ping { from: PeerId(7) }.to_string(), "PING FROM 7");
    assert_eq!(DiscoveryMessage::Pong { from: PeerId(8) }.to_string(), "PONG FROM 8");
    assert_eq!(
        DiscoveryMessage::Gossip { from: PeerId(1), gossips: vec![] }.to_string(),
        "GOSSIP FROM 1. "
    );
    let g = DiscoveryMessage::Gossip {
        from: PeerId(1),
        gossips: vec![
            Gossip { peer_id: PeerId(2), addr: addr(1, 2, 3, 4, 5) },
            Gossip { peer_id: PeerId(3), addr: addr(0, 0, 0, 0, 4000) },
        ],
    };
    assert_eq!(g.to_string(), "GOSSIP FROM 1. 2=1.2.3.4:5, 3=0.0.0.0:4000");
}

#[test]
fn written_messages_read_back() {
    let g = DiscoveryMessage::Gossip {
        from: PeerId(11),
        gossips: vec![
            Gossip { peer_id: PeerId(2), addr: addr(127, 0, 0, 1, 80) },
            Gossip { peer_id: PeerId(4000000000), addr: addr(255, 255, 255, 255, 65535) },
        ],
    };
    let text = g.to_string();
    match DiscoveryMessage::from_string(&text) {
        Ok(DiscoveryMessage::Gossip { from, gossips }) => {
            assert_eq!(from, PeerId(11));
            assert_eq!(gossips.len(), 2);
            assert_eq!(gossips[1].peer_id, PeerId(4000000000));
            assert_eq!(gossips[1].addr, addr(255, 255, 255, 255, 65535));
        },
        other => panic!("unexpected {:?}", other),
    }
    let p = DiscoveryMessage::Ping { from: PeerId(0) };
    match DiscoveryMessage::from_string(&p.to_string()) {
        Ok(DiscoveryMessage::Ping { from }) => assert_eq!(from, PeerId(0)),
        other => panic!("unexpected {:?}", other),
    }
}

#[test]
fn gossip_with_ipv6_address() {
    let text = "GOSSIP FROM 1. 2=[::1]:80, 3=[fe80::2%4]:9";
    match DiscoveryMessage::from_string(text) {
        Ok(DiscoveryMessage::Gossip { from, gossips }) => {
            assert_eq!(from, PeerId(1));
            assert_eq!(gossips[0].addr.to_string(), "[::1]:80");
            assert_eq!(gossips[1].addr.to_string(), "[fe80::2%4]:9");
            let back = DiscoveryMessage::Gossip { from, gossips }.to_string();
            assert_eq!(back, text);
        },
        other => panic!("unexpected {:?}", other),
    }
}
