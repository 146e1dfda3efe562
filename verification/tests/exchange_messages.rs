use p3p::addr::PeerAddr;
use p3p::decimal::ParseIntErrorKind;
use p3p::peer_exchange::message::{
    DiscoveryMessage, IncomingDiscoveryMessage, OutgoingDiscoveryMessage, PeerGossip,
};
use p3p::peer_exchange::DiscoveryError;
use p3p::transport::TransportMessage;

fn addr(a: u8, b: u8, c: u8, d: u8, port: u16) -> PeerAddr {
    PeerAddr::new(a, b, c, d, port)
}

fn err_of(s: &str) -> Option<DiscoveryError> {
    DiscoveryMessage::from_string(s).err()
}

#[test]
fn exchange_ping_pong_read() {
    assert!(matches!(DiscoveryMessage::from_string("PING"), Ok(DiscoveryMessage::Ping)));
    assert!(matches!(DiscoveryMessage::from_string("  pong  "), Ok(DiscoveryMessage::Pong)));
    assert!(matches!(DiscoveryMessage::from_string("Ping and more"), Ok(DiscoveryMessage::Ping)));
    assert_eq!(err_of(""), Some(DiscoveryError::InvalidDiscoveryMessage));
    assert_eq!(err_of("   "), Some(DiscoveryError::InvalidDiscoveryMessage));
    assert_eq!(err_of("HELLO"), Some(DiscoveryError::InvalidDiscoveryMessage));
}

#[test]
fn exchange_peer_lists_read() {
    match DiscoveryMessage::from_string("PEERLIST 3432 45333 3432") {
        Ok(DiscoveryMessage::PeerList { peers }) => assert_eq!(peers, vec![3432, 45333]),
        other => panic!("unexpected {:?}", other),
    }
    match DiscoveryMessage::from_string("peerlistget 1 2") {
        Ok(DiscoveryMessage::PeerListGet { peers }) => assert_eq!(peers, vec![1, 2]),
        other => panic!("unexpected {:?}", other),
    }
    match DiscoveryMessage::from_string("PEERLIST") {
        Ok(DiscoveryMessage::PeerList { peers }) => assert!(peers.is_empty()),
        other => panic!("unexpected {:?}", other),
    }
    assert_eq!(
        err_of("PEERLIST 1 x"),
        Some(DiscoveryError::InvalidIntNumber(ParseIntErrorKind::InvalidDigit))
    );
    assert_eq!(
        err_of("PEERLISTGET 99999999999"),
        Some(DiscoveryError::InvalidIntNumber(ParseIntErrorKind::PosOverflow))
    );
}

#[test]
fn exchange_gossip_read() {
    match DiscoveryMessage::from_string("GOSSIP 5 1.2.3.4:80 5.6.7.8:90 1.2.3.4:80") {
        Ok(DiscoveryMessage::PeerGossip { gossip }) => {
            assert_eq!(gossip.peer_id, 5);
            assert_eq!(gossip.addr, vec![addr(1, 2, 3, 4, 80), addr(5, 6, 7, 8, 90)]);
        },
        other => panic!("unexpected {:?}", other),
    }
    match DiscoveryMessage::from_string("GOSSIPGET 6 1.2.3.4:80") {
        Ok(DiscoveryMessage::PeerGossipGet { gossip }) => {
            assert_eq!(gossip.peer_id, 6);
            assert!(gossip.addr.is_empty());
        },
        other => panic!("unexpected {:?}", other),
    }
    assert_eq!(err_of("GOSSIP"), Some(DiscoveryError::InvalidDiscoveryMessage));
    assert_eq!(err_of("GOSSIPGET"), Some(DiscoveryError::InvalidDiscoveryMessage));
    assert_eq!(
        err_of("GOSSIP x 1.2.3.4:80"),
        Some(DiscoveryError::InvalidIntNumber(ParseIntErrorKind::InvalidDigit))
    );
    assert_eq!(err_of("GOSSIP 5 1.2.3.4"), Some(DiscoveryError::InvalidAddr));
    assert_eq!(err_of("GOSSIP 5 1.2.3.04:80"), Some(DiscoveryError::InvalidAddr));
}

#[test]
fn exchange_messages_written() {
    assert_eq!(DiscoveryMessage::Ping.to_string(), "PING");
    assert_eq!(DiscoveryMessage::Pong.to_string(), "PONG");
    assert_eq!(DiscoveryMessage::PeerList { peers: vec![1, 22] }.to_string(), "PEERLIST 1 22");
    assert_eq!(DiscoveryMessage::PeerList { peers: vec![] }.to_string(), "PEERLIST ");
    assert_eq!(DiscoveryMessage::PeerListGet { peers: vec![7] }.to_string(), "PEERLISTGET 7");
    let g = PeerGossip { peer_id: 5, addr: vec![addr(1, 2, 3, 4, 80), addr(0, 0, 0, 0, 1)] };
    assert_eq!(DiscoveryMessage::PeerGossip { gossip: g.clone() }.to_string(), "GOSSIP 5 1.2.3.4:80 0.0.0.0:1");
    assert_eq!(DiscoveryMessage::PeerGossipGet { gossip: g }.to_string(), "GOSSIPGET 5");
    assert_eq!(
        DiscoveryMessage::PeerGossip { gossip: PeerGossip::from_peer_id(9) }.to_string(),
        "GOSSIP 9 "
    );
}

#[test]
fn exchange_written_read_back() {
    let m = DiscoveryMessage::PeerListGet { peers: vec![4294967295, 0, 17] };
    match DiscoveryMessage::from_string(&m.to_string()) {
        Ok(DiscoveryMessage::PeerListGet { peers }) => assert_eq!(peers, vec![4294967295, 0, 17]),
        other => panic!("unexpected {:?}", other),
    }
    let g = PeerGossip { peer_id: 5, addr: vec![addr(192, 168, 1, 10, 4000)] };
    match DiscoveryMessage::from_string(&DiscoveryMessage::PeerGossip { gossip: g }.to_string()) {
        Ok(DiscoveryMessage::PeerGossip { gossip }) => {
            assert_eq!(gossip.peer_id, 5);
            assert_eq!(gossip.addr, vec![addr(192, 168, 1, 10, 4000)]);
        },
        other => panic!("unexpected {:?}", other),
    }
}

#[test]
fn envelope_is_read() {
    let t = TransportMessage {
        msg: "FROM 23434 PORT 8080 TO 167.12.19.4:8081 PEERLIST 1234 4324".to_string(),
        addr: addr(10, 0, 0, 1, 5555),
    };
    let inc = IncomingDiscoveryMessage::from_transportmessage(&t).unwrap();
    assert_eq!(inc.from_peer_id, 23434);
    assert_eq!(inc.from_peer_addr, addr(10, 0, 0, 1, 8080));
    assert_eq!(inc.my_perceived_addr, addr(167, 12, 19, 4, 8081));
    match inc.message {
        DiscoveryMessage::PeerList { peers } => assert_eq!(peers, vec![1234, 4324]),
        other => panic!("unexpected {:?}", other),
    }
    let t2 = TransportMessage {
        msg: "from 1 port 2 to 1.1.1.1:1   ping".to_string(),
        addr: addr(9, 9, 9, 9, 9),
    };
    let inc2 = IncomingDiscoveryMessage::from_transportmessage(&t2).unwrap();
    assert_eq!(inc2.from_peer_addr, addr(9, 9, 9, 9, 2));
    assert!(matches!(inc2.message, DiscoveryMessage::Ping));
}

#[test]
fn envelope_errors() {
    let read = |s: &str| {
        IncomingDiscoveryMessage::from_transportmessage(&TransportMessage {
            msg: s.to_string(),
            addr: addr(1, 1, 1, 1, 1),
        })
        .err()
    };
    assert_eq!(read("PING"), Some(DiscoveryError::InvalidDiscoveryMessage));
    assert_eq!(read("FROM"), Some(DiscoveryError::InvalidDiscoveryMessage));
    assert_eq!(
        read("FROM x PORT 1 TO 1.1.1.1:1 PING"),
        Some(DiscoveryError::InvalidIntNumber(ParseIntErrorKind::InvalidDigit))
    );
    assert_eq!(read("FROM 1 TO 1 TO 1.1.1.1:1 PING"), Some(DiscoveryError::InvalidDiscoveryMessage));
    assert_eq!(read("FROM 1 PORT 70000 TO 1.1.1.1:1 PING"), Some(DiscoveryError::InvalidDiscoveryMessage));
    assert_eq!(read("FROM 1 PORT 1 AT 1.1.1.1:1 PING"), Some(DiscoveryError::InvalidDiscoveryMessage));
    assert_eq!(read("FROM 1 PORT 1 TO somewhere PING"), Some(DiscoveryError::InvalidAddr));
    assert_eq!(read("FROM 1 PORT 1 TO 1.1.1.1:1"), Some(DiscoveryError::InvalidDiscoveryMessage));
    assert_eq!(read("FROM 1 PORT 1 TO 1.1.1.1:1 NOPE"), Some(DiscoveryError::InvalidDiscoveryMessage));
}

#[test]
fn envelope_is_written_and_read_back() {
    let out = OutgoingDiscoveryMessage {
        to: addr(1, 2, 3, 4, 5),
        my_listening_port: 8080,
        from_peer_id: 3,
        message: DiscoveryMessage::PeerListGet { peers: vec![3, 9] },
    };
    let t = out.into_transport();
    assert_eq!(t.addr, addr(1, 2, 3, 4, 5));
    assert_eq!(t.msg, "FROM 3 PORT 8080 TO 1.2.3.4:5 PEERLISTGET 3 9");
    // The receiver sees it coming from the sender's host, answered at its listening port.
    let back = TransportMessage { msg: t.msg, addr: addr(7, 7, 7, 7, 40000) };
    let inc = IncomingDiscoveryMessage::from_transportmessage(&back).unwrap();
    assert_eq!(inc.from_peer_id, 3);
    assert_eq!(inc.from_peer_addr, addr(7, 7, 7, 7, 8080));
    assert_eq!(inc.my_perceived_addr, addr(1, 2, 3, 4, 5));
    match inc.message {
        DiscoveryMessage::PeerListGet { peers } => assert_eq!(peers, vec![3, 9]),
        other => panic!("unexpected {:?}", other),
    }
}
