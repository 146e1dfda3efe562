use p3p::addr::PeerAddr;
use p3p::peer_exchange::message::{DiscoveryMessage, PeerGossip};
use p3p::peer_exchange::node::BootstrapDiscoveryV1;
use p3p::peer_exchange::peer::Peer;
use p3p::peer_exchange::DiscoveryError;
use p3p::transport::TransportMessage;

fn addr(d: u8, port: u16) -> PeerAddr {
    PeerAddr::new(10, 0, 0, d, port)
}

fn msg(text: &str, from: PeerAddr) -> TransportMessage {
    TransportMessage { msg: text.to_string(), addr: from }
}

fn table_ids(node: &BootstrapDiscoveryV1) -> Vec<u32> {
    node.peers.iter().map(|p| p.peer_id).collect()
}

fn peer(node: &BootstrapDiscoveryV1, id: u32) -> Peer {
    node.peers.iter().find(|p| p.peer_id == id).unwrap().clone()
}

#[test]
fn node_knows_only_itself_at_start() {
    let node = BootstrapDiscoveryV1::new(1, 4000);
    assert_eq!(table_ids(&node), vec![1]);
    assert!(peer(&node, 1).addr_to_last_ping.is_empty());
    assert_eq!(node.get_all_peer_ids(), vec![1]);
    assert_eq!(node.get_trusty_peers(), vec![1]);
}

#[test]
fn node_answers_ping_and_records_both_ends() {
    let mut node = BootstrapDiscoveryV1::new(1, 4000);
    let out = node
        .handle_message(&msg("FROM 7 PORT 9000 TO 10.0.0.2:4000 PING", addr(5, 5555)), 100)
        .unwrap();
    assert_eq!(out.len(), 1);
    assert_eq!(out[0].addr, addr(5, 9000));
    assert_eq!(out[0].msg, "FROM 1 PORT 4000 TO 10.0.0.5:9000 PONG");
    assert_eq!(table_ids(&node), vec![1, 7]);
    assert_eq!(peer(&node, 7).addr_to_last_ping, vec![(addr(5, 9000), Some(100))]);
    assert_eq!(peer(&node, 1).addr_to_last_ping, vec![(addr(2, 4000), Some(100))]);
}

#[test]
fn node_ignores_messages_from_itself() {
    let mut node = BootstrapDiscoveryV1::new(1, 4000);
    let out = node.handle_message(&msg("FROM 1 PORT 9000 TO 10.0.0.2:4000 PING", addr(5, 5)), 100).unwrap();
    assert!(out.is_empty());
    assert_eq!(table_ids(&node), vec![1]);
    assert!(peer(&node, 1).addr_to_last_ping.is_empty());
}

#[test]
fn exchange_node_refuses_unreadable_message() {
    let mut node = BootstrapDiscoveryV1::new(1, 4000);
    let r = node.handle_message(&msg("FROM 7 PORT 9000 TO nowhere PING", addr(5, 5)), 100);
    assert_eq!(r.err(), Some(DiscoveryError::InvalidAddr));
    assert_eq!(table_ids(&node), vec![1]);
}

#[test]
fn node_answers_peer_list_request() {
    let mut node = BootstrapDiscoveryV1::new(1, 4000);
    let out = node
        .handle_message(&msg("FROM 7 PORT 9000 TO 10.0.0.2:4000 PEERLISTGET 5 7 6", addr(5, 1)), 100)
        .unwrap();
    let texts: Vec<String> = out.iter().map(|t| t.msg.clone()).collect();
    assert_eq!(
        texts,
        vec![
            "FROM 1 PORT 4000 TO 10.0.0.5:9000 GOSSIPGET 5".to_string(),
            "FROM 1 PORT 4000 TO 10.0.0.5:9000 GOSSIPGET 6".to_string(),
            "FROM 1 PORT 4000 TO 10.0.0.5:9000 PEERLIST 1 7".to_string(),
        ]
    );
    assert_eq!(table_ids(&node), vec![1, 7, 5, 6]);
    assert!(peer(&node, 5).addr_to_last_ping.is_empty());
}

#[test]
fn node_requests_gossip_for_new_peers_of_a_list() {
    let mut node = BootstrapDiscoveryV1::new(1, 4000);
    let out = node
        .handle_message(&msg("FROM 7 PORT 9000 TO 10.0.0.2:4000 PEERLIST 1 8", addr(5, 1)), 100)
        .unwrap();
    assert_eq!(out.len(), 1);
    assert_eq!(out[0].msg, "FROM 1 PORT 4000 TO 10.0.0.5:9000 GOSSIPGET 8");
    assert_eq!(table_ids(&node), vec![1, 7, 8]);
}

#[test]
fn node_answers_gossip_request() {
    let mut node = BootstrapDiscoveryV1::new(1, 4000);
    node.handle_message(&msg("FROM 7 PORT 9000 TO 10.0.0.2:4000 GOSSIP 9 10.0.0.9:1", addr(5, 1)), 100)
        .unwrap();
    assert_eq!(peer(&node, 9).addr_to_last_ping, vec![(addr(9, 1), None)]);
    let out = node
        .handle_message(&msg("FROM 7 PORT 9000 TO 10.0.0.2:4000 GOSSIPGET 9", addr(5, 1)), 200)
        .unwrap();
    assert_eq!(out.len(), 1);
    assert_eq!(out[0].msg, "FROM 1 PORT 4000 TO 10.0.0.5:9000 GOSSIP 9 10.0.0.9:1");
    let out2 = node
        .handle_message(&msg("FROM 7 PORT 9000 TO 10.0.0.2:4000 GOSSIPGET 11", addr(5, 1)), 300)
        .unwrap();
    assert_eq!(out2[0].msg, "FROM 1 PORT 4000 TO 10.0.0.5:9000 GOSSIP 11 ");
    assert_eq!(table_ids(&node), vec![1, 7, 9, 11]);
}

#[test]
fn node_gossip_adds_only_new_addresses() {
    let mut node = BootstrapDiscoveryV1::new(1, 4000);
    node.refresh_seen_peer(9, addr(9, 1), 50);
    let g = node.refresh_peer_from_gossip(PeerGossip { peer_id: 9, addr: vec![addr(9, 1), addr(9, 2)] });
    assert_eq!(g.peer_id, 9);
    assert_eq!(g.addr, vec![addr(9, 1), addr(9, 2)]);
    assert_eq!(peer(&node, 9).addr_to_last_ping, vec![(addr(9, 1), Some(50)), (addr(9, 2), None)]);
}

#[test]
fn node_add_peers_gives_unknown_ones() {
    let mut node = BootstrapDiscoveryV1::new(1, 4000);
    let new = node.add_peers(&vec![1, 4, 5]);
    assert_eq!(new, vec![4, 5]);
    assert_eq!(table_ids(&node), vec![1, 4, 5]);
    assert_eq!(node.add_peers(&vec![4]), Vec::<u32>::new());
}

#[test]
fn node_ping_round_prune_and_gossip() {
    let mut node = BootstrapDiscoveryV1::new(1, 4000);
    node.refresh_seen_peer(7, addr(7, 7), 1000);
    node.refresh_peer_from_gossip(PeerGossip { peer_id: 7, addr: vec![addr(7, 8)] });
    node.refresh_seen_peer(8, addr(8, 8), 10);
    // Addresses not answered at since 500 are pinged.
    let (pinged, pings) = node.ping_peers(500);
    assert_eq!(pinged, vec![7, 8]);
    let targets: Vec<PeerAddr> = pings.iter().map(|t| t.addr).collect();
    assert_eq!(targets, vec![addr(7, 8), addr(8, 8)]);
    assert_eq!(pings[0].msg, "FROM 1 PORT 4000 TO 10.0.0.7:8 PING");
    // Pruning forgets those addresses; peer 8 has none left and is dropped.
    let survived = node.prune_peers(&pinged, 500);
    assert_eq!(survived, vec![7]);
    assert_eq!(table_ids(&node), vec![1, 7]);
    assert_eq!(peer(&node, 7).addr_to_last_ping, vec![(addr(7, 7), Some(1000))]);
    // The gossip round asks the survivors, at their latest address, for peers.
    let out = node.gossip(&survived);
    assert_eq!(out.len(), 1);
    assert_eq!(out[0].addr, addr(7, 7));
    assert_eq!(out[0].msg, "FROM 1 PORT 4000 TO 10.0.0.7:7 PEERLISTGET 1 7");
}

#[test]
fn node_addresses_of_peers() {
    let mut node = BootstrapDiscoveryV1::new(1, 4000);
    node.refresh_seen_peer(7, addr(7, 1), 100);
    node.refresh_seen_peer(7, addr(7, 2), 300);
    node.refresh_seen_peer(7, addr(7, 3), 200);
    node.refresh_peer_from_gossip(PeerGossip { peer_id: 8, addr: vec![addr(8, 1)] });
    assert_eq!(node.get_peer_addresses(&vec![7, 8]), vec![addr(7, 2)]);
    assert_eq!(node.get_all_old_addresses(&vec![7, 8], 250), vec![addr(7, 1), addr(7, 3), addr(8, 1)]);
    assert_eq!(node.get_trusty_peers(), vec![1, 7]);
}

#[test]
fn peer_keeps_times_per_address() {
    let mut p = Peer::from_id(4);
    assert!(p.should_be_dropped());
    assert!(!p.is_trusty());
    assert_eq!(p.get_address(), None);
    p.refresh_addr(addr(4, 1), 10);
    p.refresh_addr(addr(4, 2), 30);
    p.update_from_gossip(&PeerGossip { peer_id: 4, addr: vec![addr(4, 3), addr(4, 1)] });
    assert!(p.is_trusty());
    assert_eq!(p.get_address(), Some(addr(4, 2)));
    assert_eq!(p.get_old_addresses(20), vec![addr(4, 1), addr(4, 3)]);
    assert_eq!(p.get_addresses_to_ping(20), vec![addr(4, 1), addr(4, 3)]);
    let g = p.get_gossip();
    assert_eq!(g.addr, vec![addr(4, 1), addr(4, 2), addr(4, 3)]);
    p.remove_old_addresses(20);
    assert_eq!(p.addr_to_last_ping, vec![(addr(4, 2), Some(30))]);
    p.remove_old_addresses(31);
    assert!(p.should_be_dropped());
}

#[test]
fn peer_latest_address_of_equal_times_is_the_later_entry() {
    let mut p = Peer::from_seen_addr(2, addr(2, 1), 5);
    p.refresh_addr(addr(2, 2), 5);
    assert_eq!(p.get_address(), Some(addr(2, 2)));
    let q = Peer::from_gossip(PeerGossip { peer_id: 3, addr: vec![addr(3, 1)] });
    assert_eq!(q.addr_to_last_ping, vec![(addr(3, 1), None)]);
    assert!(!q.is_trusty());
}

#[test]
fn peer_updated_from_message() {
    let mut p = Peer::from_id(7);
    let inc = p3p::peer_exchange::message::IncomingDiscoveryMessage {
        from_peer_id: 7,
        from_peer_addr: addr(7, 9000),
        my_perceived_addr: addr(1, 1),
        message: DiscoveryMessage::Ping,
    };
    p.update_from_message(&inc, 42);
    assert_eq!(p.addr_to_last_ping, vec![(addr(7, 9000), Some(42))]);
}

#[test]
fn pruning_splits_old_and_kept_addresses() {
    let mut p = Peer::from_seen_addr(4, addr(4, 1), 100);
    p.refresh_addr(addr(4, 2), 10);
    p.update_from_gossip(&PeerGossip { peer_id: 4, addr: vec![addr(4, 3)] });
    let old = p.get_old_addresses(50);
    assert_eq!(old, vec![addr(4, 2), addr(4, 3)]);
    p.remove_old_addresses(50);
    let kept: Vec<PeerAddr> = p.addr_to_last_ping.iter().map(|e| e.0).collect();
    assert_eq!(kept, vec![addr(4, 1)]);
    assert!(p.get_old_addresses(50).is_empty());
}
