//! Discovery by pinging and gossiping: the state a node keeps of its peers and
//! the decisions it takes on each tick and on each incoming message.
use vstd::prelude::*;
use crate::addr::PeerAddr;
use crate::bootstrap_discovery::discovery_message::{message_from_text, message_text, DiscoveryMessage, MessageView};
use crate::bootstrap_discovery::peer::{
    first_n, gossiped, insert_peer, not_faulty, suspects, trusty, pinged, Gossip, Peer,
    PeerId, PeerList,
};
use crate::decimal::ParseIntErrorKind;
use crate::transport::{carries, TransportMessage};

pub mod peer;
pub mod discovery_message;

verus! {

/// Why a discovery message was refused.
#[derive(Debug, Clone, Copy, PartialEq, Eq, Structural)]
pub enum DiscoveryError {
    /// The message does not follow the grammar.
    InvalidDiscoveryMessage,
    /// A peer identifier is not a number.
    InvalidIntNumber(ParseIntErrorKind),
    /// An address is not a socket address (`a.b.c.d:port` or `[ipv6]:port`).
    InvalidAddr,
    /// Sending or receiving failed.
    TransportError,
}

} // verus!

verus! {

/// The parameters of a node (times in milliseconds).
#[derive(Debug, Clone, Copy, PartialEq, Eq, Structural)]
pub struct Settings {
    /// How many peers receive each gossip.
    pub k: usize,
    /// How many peers a gossip reports.
    pub payload_size: usize,
    /// The time between gossip rounds.
    pub t_gossip_ms: u64,
    /// The time between ping rounds.
    pub t_ping_ms: u64,
    pub my_peer_id: PeerId,
    /// The time since the last answer after which a peer is suspected.
    pub tt_suspect_ms: u64,
    /// The time since the last answer after which a peer is dropped.
    pub tt_faulty_ms: u64,
}

/// The state of a discovering node: its settings and the peers it knows.
pub struct BootstrapDiscoveryV1 {
    pub peers: PeerList,
    pub settings: Settings,
}

/// `s` after adding each of `nodes` as a peer that answered at `now`.
pub open spec fn with_trusty_peers(s: Seq<Peer>, nodes: Seq<Peer>, now: u64) -> Seq<Peer>
    decreases nodes.len(),
{
    if nodes.len() == 0 {
        s
    } else {
        insert_peer(
            with_trusty_peers(s, nodes.drop_last(), now),
            Peer { last_ping: Some(now), ..nodes.last() },
        )
    }
}

/// `s` after the gossips `gs`, in order, leaving out those about `me`.
pub open spec fn with_gossips(s: Seq<Peer>, gs: Seq<Gossip>, me: PeerId) -> Seq<Peer>
    decreases gs.len(),
{
    if gs.len() == 0 {
        s
    } else {
        let r = with_gossips(s, gs.drop_last(), me);
        if gs.last().peer_id != me {
            gossiped(r, gs.last())
        } else {
            r
        }
    }
}

/// What a peer tells of itself.
pub open spec fn gossip_of(p: Peer) -> Gossip {
    Gossip { peer_id: p.peer_id, addr: p.addr }
}

impl BootstrapDiscoveryV1 {
    pub open spec fn wf(&self) -> bool {
        self.peers.wf()
    }

    /// A node that starts with the bootstrap nodes as peers that answered at `now`.
    pub fn new(settings: Settings, bootstrap_nodes: Vec<Peer>, now: u64) -> (r: Self)
        ensures
            r.wf(),
            r.settings == settings,
            r.peers.tt_suspect == settings.tt_suspect_ms,
            r.peers.tt_faulty == settings.tt_faulty_ms,
            r.peers@ == with_trusty_peers(Seq::empty(), bootstrap_nodes@, now),
    {
        let mut peers = PeerList::new(settings.tt_suspect_ms, settings.tt_faulty_ms);
        let mut i: usize = 0;
        while i < bootstrap_nodes.len()
            invariant
                i <= bootstrap_nodes@.len(),
                peers.wf(),
                peers.tt_suspect == settings.tt_suspect_ms,
                peers.tt_faulty == settings.tt_faulty_ms,
                peers@ == with_trusty_peers(Seq::empty(), bootstrap_nodes@.take(i as int), now),
            decreases bootstrap_nodes@.len() - i,
        {
            assert(bootstrap_nodes@.take(i + 1).drop_last() =~= bootstrap_nodes@.take(i as int));
            peers.add_trusty_peer(bootstrap_nodes[i], now);
            i = i + 1;
        }
        assert(bootstrap_nodes@.take(i as int) =~= bootstrap_nodes@);
        BootstrapDiscoveryV1 { peers, settings }
    }

    /// The gossip round at `now`: a gossip from this node reporting up to
    /// `payload_size` trusty peers, sent to up to `k` trusty peers.
    pub fn gossip(&self, now: u64) -> (r: Vec<TransportMessage>)
        requires
            self.wf(),
        ensures
            ({
                let t = trusty(self.peers@, now, self.peers.tt_suspect);
                let text = message_text(
                    MessageView::Gossip(
                        self.settings.my_peer_id,
                        first_n(t, self.settings.payload_size as nat).map_values(|p: Peer| gossip_of(p)),
                    ),
                );
                let to = first_n(t, self.settings.k as nat);
                &&& r@.len() == to.len()
                &&& forall|i: int| 0 <= i < to.len() ==> carries(#[trigger] r@[i], to[i].addr, text)
            }),
    {
        let trusty_peers = self.peers.get_trusty_peers(Some(self.settings.payload_size), now);
        let mut gossips: Vec<Gossip> = Vec::new();
        let mut i: usize = 0;
        while i < trusty_peers.len()
            invariant
                i <= trusty_peers@.len(),
                gossips@ == trusty_peers@.take(i as int).map_values(|p: Peer| gossip_of(p)),
            decreases trusty_peers@.len() - i,
        {
            gossips.push(trusty_peers[i].to_gossip());
            i = i + 1;
            assert(gossips@ =~= trusty_peers@.take(i as int).map_values(|p: Peer| gossip_of(p)));
        }
        assert(trusty_peers@.take(i as int) =~= trusty_peers@);
        let discovery_message = DiscoveryMessage::Gossip {
            from: self.settings.my_peer_id,
            gossips,
        };
        let k_peers = self.peers.get_trusty_peers(Some(self.settings.k), now);
        let mut out: Vec<TransportMessage> = Vec::new();
        let mut j: usize = 0;
        while j < k_peers.len()
            invariant
                j <= k_peers@.len(),
                out@.len() == j,
                forall|x: int|
                    0 <= x < j ==> carries(
                        #[trigger] out@[x],
                        k_peers@[x].addr,
                        message_text(discovery_message@),
                    ),
            decreases k_peers@.len() - j,
        {
            out.push(self.send_msg(k_peers[j].get_addr(), &discovery_message));
            j = j + 1;
        }
        out
    }

    /// The ping round at `now`: a ping from this node to each suspected peer.
    pub fn ping_peers(&self, now: u64) -> (r: Vec<TransportMessage>)
        requires
            self.wf(),
        ensures
            ({
                let sus = suspects(self.peers@, now, self.peers.tt_suspect);
                let text = message_text(MessageView::Ping(self.settings.my_peer_id));
                &&& r@.len() == sus.len()
                &&& forall|i: int| 0 <= i < sus.len() ==> carries(#[trigger] r@[i], sus[i].addr, text)
            }),
    {
        let suspects = self.peers.get_suspects(now);
        let ping = DiscoveryMessage::Ping { from: self.settings.my_peer_id };
        let mut out: Vec<TransportMessage> = Vec::new();
        let mut j: usize = 0;
        while j < suspects.len()
            invariant
                j <= suspects@.len(),
                out@.len() == j,
                forall|x: int|
                    0 <= x < j ==> carries(#[trigger] out@[x], suspects@[x].addr, message_text(ping@)),
            decreases suspects@.len() - j,
        {
            out.push(self.send_msg(suspects[j].get_addr(), &ping));
            j = j + 1;
        }
        out
    }

    /// Drops the peers that are faulty at `now`.
    pub fn prune_peers(&mut self, now: u64)
        requires
            old(self).wf(),
        ensures
            final(self).wf(),
            final(self).settings == old(self).settings,
            final(self).peers@ == not_faulty(old(self).peers@, now, old(self).peers.tt_faulty),
            final(self).peers.tt_suspect == old(self).peers.tt_suspect,
            final(self).peers.tt_faulty == old(self).peers.tt_faulty,
    {
        self.peers.remove_faulty_peers(now);
    }

    /// Handles a message received at `now`. A ping or a pong refreshes its
    /// sender (created at the address it came from when unknown), and a ping is
    /// answered with a pong; a gossip updates the reported peers other than this
    /// node. A message that cannot be read changes nothing and gives its error.
    pub fn receive_message(&mut self, incoming: &TransportMessage, now: u64) -> (r: Result<
        Option<TransportMessage>,
        DiscoveryError,
    >)
        requires
            old(self).wf(),
        ensures
            final(self).wf(),
            final(self).settings == old(self).settings,
            final(self).peers.tt_suspect == old(self).peers.tt_suspect,
            final(self).peers.tt_faulty == old(self).peers.tt_faulty,
            match message_from_text(incoming.msg@) {
                Err(e) => r == Err::<Option<TransportMessage>, DiscoveryError>(e) && final(self).peers@
                    == old(self).peers@,
                Ok(MessageView::Ping(from)) => {
                    &&& final(self).peers@ == pinged(old(self).peers@, from, incoming.addr, now)
                    &&& r matches Ok(Some(reply)) && carries(
                        reply,
                        incoming.addr,
                        message_text(MessageView::Pong(old(self).settings.my_peer_id)),
                    )
                },
                Ok(MessageView::Pong(from)) => {
                    &&& final(self).peers@ == pinged(old(self).peers@, from, incoming.addr, now)
                    &&& r matches Ok(None)
                },
                Ok(MessageView::Gossip(_, gs)) => {
                    &&& final(self).peers@ == with_gossips(
                        old(self).peers@,
                        gs,
                        old(self).settings.my_peer_id,
                    )
                    &&& r matches Ok(None)
                },
            },
    {
        let addr = incoming.addr;
        match DiscoveryMessage::from_string(incoming.msg.as_str()) {
            Err(e) => Err(e),
            Ok(discovery_message) => match discovery_message {
                DiscoveryMessage::Ping { from } => {
                    self.peers.record_ping(from, addr, now);
                    let pong = DiscoveryMessage::Pong { from: self.settings.my_peer_id };
                    Ok(Some(self.send_msg(addr, &pong)))
                },
                DiscoveryMessage::Pong { from } => {
                    self.peers.record_ping(from, addr, now);
                    Ok(None)
                },
                DiscoveryMessage::Gossip { from: _, gossips } => {
                    let ghost s0 = self.peers@;
                    let me = self.settings.my_peer_id;
                    let mut i: usize = 0;
                    assert(gossips@.take(0) =~= Seq::<Gossip>::empty());
                    while i < gossips.len()
                        invariant
                            i <= gossips@.len(),
                            self.peers.wf(),
                            self.settings == old(self).settings,
                            me == self.settings.my_peer_id,
                            self.peers.tt_suspect == old(self).peers.tt_suspect,
                            self.peers.tt_faulty == old(self).peers.tt_faulty,
                            self.peers@ == with_gossips(s0, gossips@.take(i as int), me),
                        decreases gossips@.len() - i,
                    {
                        assert(gossips@.take(i + 1).drop_last() =~= gossips@.take(i as int));
                        let gossip = gossips[i];
                        if gossip.peer_id.0 != me.0 {
                            self.peers.record_gossip(gossip);
                        }
                        i = i + 1;
                    }
                    assert(gossips@.take(i as int) =~= gossips@);
                    Ok(None)
                },
            },
        }
    }

    /// The transport message that carries `discovery_message` to `addr`.
    pub fn send_msg(&self, addr: PeerAddr, discovery_message: &DiscoveryMessage) -> (r:
        TransportMessage)
        ensures
            carries(r, addr, message_text(discovery_message@)),
    {
        TransportMessage { addr, msg: discovery_message.to_string() }
    }
}

} // verus!
