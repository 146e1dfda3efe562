use p3p::addr::PeerAddr;
use p3p::bootstrap_discovery::peer::{Gossip, Peer, PeerId, PeerList};
use p3p::bootstrap_discovery::{BootstrapDiscoveryV1, DiscoveryError, Settings};
use p3p::transport::TransportMessage;

fn addr(d: u8, port: u16) -> PeerAddr {
    PeerAddr::new(10, 0, 0, d, port)
}

fn settings(k: usize, payload_size: usize) -> Settings {
    Settings {
        k,
        payload_size,
        t_gossip_ms: 20000,
        t_ping_ms: 5000,
        my_peer_id: PeerId(5322),
        tt_suspect_ms: 10000,
        tt_faulty_ms: 20000,
    }
}

fn ids(peers: &[Peer]) -> Vec<u32> {
    peers.iter().map(|p| p.peer_id.0).collect()
}

#[test]
fn peer_refreshes() {
    let mut p = Peer::new(PeerId(3), addr(1, 100));
    assert_eq!(p.get_last_ping(), None);
    assert_eq!(p.get_addr(), addr(1, 100));
    p.refresh_from_ping(500);
    assert_eq!(p.get_last_ping(), Some(500));
    p.refresh_from_gossip(Gossip { peer_id: PeerId(3), addr: addr(2, 200) });
    assert_eq!(p.get_addr(), addr(2, 200));
    assert_eq!(p.get_last_ping(), Some(500));
    assert_eq!(p.to_gossip(), Gossip { peer_id: PeerId(3), addr: addr(2, 200) });
}

#[test]
fn peer_list_classifies_by_last_ping() {
    let mut list = PeerList::new(1000, 3000);
    list.add_trusty_peer(Peer::new(PeerId(1), addr(1, 1)), 10_000);
    list.add_trusty_peer(Peer::new(PeerId(2), addr(2, 2)), 8_000);
    let _ = list.get_or_create(PeerId(3), addr(3, 3));
    assert_eq!(list.len(), 3);
    // At 10_500: peer 1 answered 500 ms ago, peer 2 2500 ms ago, peer 3 never.
    assert_eq!(ids(&list.get_trusty_peers(None, 10_500)), vec![1]);
    assert_eq!(ids(&list.get_suspects(10_500)), vec![2, 3]);
    list.remove_faulty_peers(10_500);
    assert_eq!(ids(&list.peers), vec![1, 2]);
    list.remove_faulty_peers(11_001);
    assert_eq!(ids(&list.peers), vec![1]);
}

#[test]
fn peer_list_boundary_is_neither_trusty_nor_suspect() {
    let mut list = PeerList::new(1000, 1000);
    list.add_trusty_peer(Peer::new(PeerId(1), addr(1, 1)), 0);
    assert!(list.get_trusty_peers(None, 1000).is_empty());
    assert!(list.get_suspects(1000).is_empty());
    assert_eq!(ids(&list.get_trusty_peers(None, 999)), vec![1]);
    assert_eq!(ids(&list.get_suspects(1001)), vec![1]);
    // A time before the last answer counts as no time elapsed.
    assert_eq!(ids(&list.get_trusty_peers(None, 0)), vec![1]);
}

#[test]
fn peer_list_trusty_limit_and_replacement() {
    let mut list = PeerList::new(1000, 1000);
    for i in 1..=5u32 {
        list.add_trusty_peer(Peer::new(PeerId(i), addr(i as u8, 1)), 100);
    }
    assert_eq!(ids(&list.get_trusty_peers(Some(2), 100)), vec![1, 2]);
    assert_eq!(ids(&list.get_trusty_peers(Some(0), 100)), Vec::<u32>::new());
    assert_eq!(ids(&list.get_trusty_peers(Some(10), 100)), vec![1, 2, 3, 4, 5]);
    // Adding a known identifier replaces that peer.
    list.add_trusty_peer(Peer::new(PeerId(3), addr(9, 9)), 200);
    assert_eq!(list.len(), 5);
    let p = list.get(PeerId(3)).unwrap();
    assert_eq!(p.addr, addr(9, 9));
    assert_eq!(p.last_ping, Some(200));
    assert!(list.get(PeerId(77)).is_none());
}

#[test]
fn get_or_create_keeps_known_peer() {
    let mut list = PeerList::new(1000, 1000);
    let a = list.get_or_create(PeerId(4), addr(4, 4));
    assert_eq!(a.addr, addr(4, 4));
    let b = list.get_or_create(PeerId(4), addr(5, 5));
    assert_eq!(b.addr, addr(4, 4));
    assert_eq!(list.len(), 1);
}

#[test]
fn node_starts_with_bootstrap_nodes() {
    let boot = vec![Peer::new(PeerId(1), addr(1, 4000))];
    let node = BootstrapDiscoveryV1::new(settings(3, 10), boot, 1000);
    assert_eq!(node.peers.tt_suspect, 10000);
    assert_eq!(node.peers.tt_faulty, 20000);
    assert_eq!(ids(&node.peers.peers), vec![1]);
    assert_eq!(node.peers.peers[0].last_ping, Some(1000));
}

#[test]
fn node_answers_ping_with_pong() {
    let mut node = BootstrapDiscoveryV1::new(settings(3, 10), vec![], 0);
    let incoming = TransportMessage { msg: "PING FROM 42".to_string(), addr: addr(7, 4001) };
    let reply = node.receive_message(&incoming, 50).unwrap().unwrap();
    assert_eq!(reply.msg, "PONG FROM 5322");
    assert_eq!(reply.addr, addr(7, 4001));
    let p = node.peers.get(PeerId(42)).unwrap();
    assert_eq!(p.addr, addr(7, 4001));
    assert_eq!(p.last_ping, Some(50));
}

#[test]
fn node_records_pong_without_answer() {
    let mut node = BootstrapDiscoveryV1::new(settings(3, 10), vec![Peer::new(PeerId(8), addr(8, 1))], 0);
    let incoming = TransportMessage { msg: "PONG FROM 8".to_string(), addr: addr(9, 2) };
    assert!(node.receive_message(&incoming, 70).unwrap().is_none());
    let p = node.peers.get(PeerId(8)).unwrap();
    // A known peer keeps its address; only the time of its answer changes.
    assert_eq!(p.addr, addr(8, 1));
    assert_eq!(p.last_ping, Some(70));
}

#[test]
fn node_applies_gossip_but_not_about_itself() {
    let mut node = BootstrapDiscoveryV1::new(settings(3, 10), vec![Peer::new(PeerId(8), addr(8, 1))], 0);
    let incoming = TransportMessage {
        msg: "GOSSIP FROM 8. 8=10.0.0.88:1, 5322=1.1.1.1:1, 9=10.0.0.9:9".to_string(),
        addr: addr(8, 1),
    };
    assert!(node.receive_message(&incoming, 70).unwrap().is_none());
    assert_eq!(ids(&node.peers.peers), vec![8, 9]);
    assert_eq!(node.peers.get(PeerId(8)).unwrap().addr, addr(88, 1));
    assert_eq!(node.peers.get(PeerId(8)).unwrap().last_ping, Some(0));
    assert_eq!(node.peers.get(PeerId(9)).unwrap().last_ping, None);
    assert!(node.peers.get(PeerId(5322)).is_none());
}

#[test]
fn node_refuses_unreadable_message() {
    let mut node = BootstrapDiscoveryV1::new(settings(3, 10), vec![], 0);
    let incoming = TransportMessage { msg: "HELLO".to_string(), addr: addr(7, 4001) };
    assert_eq!(node.receive_message(&incoming, 1).err(), Some(DiscoveryError::InvalidDiscoveryMessage));
    assert_eq!(node.peers.len(), 0);
}

#[test]
fn gossip_round_reports_trusty_peers() {
    let boot = vec![
        Peer::new(PeerId(1), addr(1, 1)),
        Peer::new(PeerId(2), addr(2, 2)),
        Peer::new(PeerId(3), addr(3, 3)),
    ];
    let node = BootstrapDiscoveryV1::new(settings(2, 1), boot, 100);
    let out = node.gossip(200);
    assert_eq!(out.len(), 2);
    assert_eq!(out[0].addr, addr(1, 1));
    assert_eq!(out[1].addr, addr(2, 2));
    assert_eq!(out[0].msg, "GOSSIP FROM 5322. 1=10.0.0.1:1");
    assert_eq!(out[1].msg, out[0].msg);
    // Long after the last answers nobody is trusty and no gossip is sent.
    assert!(node.gossip(100_000).is_empty());
}

#[test]
fn ping_round_pings_suspects() {
    let boot = vec![Peer::new(PeerId(1), addr(1, 1))];
    let mut node = BootstrapDiscoveryV1::new(settings(2, 1), boot, 0);
    let incoming = TransportMessage { msg: "GOSSIP FROM 1. 2=10.0.0.2:2".to_string(), addr: addr(1, 1) };
    node.receive_message(&incoming, 10).unwrap();
    let out = node.ping_peers(20);
    assert_eq!(out.len(), 1);
    assert_eq!(out[0].addr, addr(2, 2));
    assert_eq!(out[0].msg, "PING FROM 5322");
    let later = node.ping_peers(20_000);
    assert_eq!(later.len(), 2);
    // Peer 1 answered 20000 ms ago, not more: it stays; peer 2 never answered.
    node.prune_peers(20_000);
    assert_eq!(ids(&node.peers.peers), vec![1]);
    node.prune_peers(20_001);
    assert_eq!(node.peers.len(), 0);
}
