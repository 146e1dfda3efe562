//! The peer-exchange node: its table of peers (one per identifier, this node
//! included) and what it does on each message and each round.
use vstd::prelude::*;
use crate::addr::PeerAddr;
use crate::peer_exchange::message::{
    contains_addr, contains_id, incoming_from, outgoing_text, set_insert, well_formed,
    DiscoveryMessage, ExchangeView, IncomingDiscoveryMessage, IncomingView,
    OutgoingDiscoveryMessage, PeerGossip,
};
use crate::peer_exchange::peer::{
    addr_pos, addrs_unique, ever_answered, fresh_entries, keys, latest_addr, learn, lemma_addr_pos_bound, old_addrs, put, AddrEntry,
    Peer, PeerView,
};
use crate::peer_exchange::DiscoveryError;
use crate::transport::{carries, TransportMessage};

verus! {

/// The state of a peer-exchange node.
pub struct BootstrapDiscoveryV1 {
    pub peers: Vec<Peer>,
    pub my_peer_id: u32,
    /// The port this node listens on, announced in each message it sends.
    pub listening_port: u16,
}

/// The contents of the peers.
pub open spec fn views_of(peers: Seq<Peer>) -> Seq<PeerView> {
    peers.map_values(|p: Peer| p@)
}

/// One peer per identifier, and each peer's addresses distinct.
pub open spec fn table_wf(t: Seq<PeerView>) -> bool {
    &&& forall|i: int, j: int|
        0 <= i < t.len() && 0 <= j < t.len() && i != j ==> t[i].peer_id != t[j].peer_id
    &&& forall|i: int| 0 <= i < t.len() ==> addrs_unique(#[trigger] t[i].entries)
}

/// The position of the peer with identifier `id`.
pub open spec fn pos_of(t: Seq<PeerView>, id: u32) -> Option<nat>
    decreases t.len(),
{
    if t.len() == 0 {
        None
    } else if t[0].peer_id == id {
        Some(0)
    } else {
        match pos_of(t.drop_first(), id) {
            Some(i) => Some(i + 1),
            None => None,
        }
    }
}

/// The table after peer `id` was seen at `addr` at `now` (the peer is created when unknown).
pub open spec fn seen(t: Seq<PeerView>, id: u32, addr: PeerAddr, now: u64) -> Seq<PeerView> {
    match pos_of(t, id) {
        Some(i) => t.update(
            i as int,
            PeerView { peer_id: id, entries: put(t[i as int].entries, addr, Some(now)) },
        ),
        None => t.push(PeerView { peer_id: id, entries: seq![(addr, Some(now))] }),
    }
}

/// The table after a gossip about `id` at `addrs`: the addresses the peer lacks are
/// added as never answered, or the peer is created with them.
pub open spec fn gossip_applied(t: Seq<PeerView>, id: u32, addrs: Seq<PeerAddr>) -> Seq<PeerView> {
    match pos_of(t, id) {
        Some(i) => t.update(
            i as int,
            PeerView { peer_id: id, entries: learn(t[i as int].entries, addrs) },
        ),
        None => t.push(
            PeerView { peer_id: id, entries: addrs.map_values(|a: PeerAddr| (a, None::<u64>)) },
        ),
    }
}

/// The identifiers of `ids` that the table lacks, in order.
pub open spec fn unknown_ids(t: Seq<PeerView>, ids: Seq<u32>) -> Seq<u32>
    decreases ids.len(),
{
    if ids.len() == 0 {
        Seq::empty()
    } else {
        let r = unknown_ids(t, ids.drop_last());
        if pos_of(t, ids.last()) is None {
            r.push(ids.last())
        } else {
            r
        }
    }
}

/// Peers with no address for each of `ids`.
pub open spec fn blank_peers(ids: Seq<u32>) -> Seq<PeerView> {
    ids.map_values(|id: u32| PeerView { peer_id: id, entries: Seq::empty() })
}

/// The identifiers of the peers, in table order.
pub open spec fn all_ids(t: Seq<PeerView>) -> Seq<u32> {
    t.map_values(|p: PeerView| p.peer_id)
}

/// `ids` without `x`.
pub open spec fn drop_id(ids: Seq<u32>, x: u32) -> Seq<u32>
    decreases ids.len(),
{
    if ids.len() == 0 {
        Seq::empty()
    } else {
        let r = drop_id(ids.drop_last(), x);
        if ids.last() != x {
            r.push(ids.last())
        } else {
            r
        }
    }
}

/// The peers that answered at some address, and this node, by identifier in table order.
pub open spec fn trusty_ids(t: Seq<PeerView>, me: u32) -> Seq<u32>
    decreases t.len(),
{
    if t.len() == 0 {
        Seq::empty()
    } else {
        let r = trusty_ids(t.drop_last(), me);
        if ever_answered(t.last().entries) || t.last().peer_id == me {
            r.push(t.last().peer_id)
        } else {
            r
        }
    }
}

/// `s` with each of `xs` added unless present.
pub open spec fn insert_all(s: Seq<PeerAddr>, xs: Seq<PeerAddr>) -> Seq<PeerAddr>
    decreases xs.len(),
{
    if xs.len() == 0 {
        s
    } else {
        set_insert(insert_all(s, xs.drop_last()), xs.last())
    }
}

/// The old addresses of the peers whose identifiers are in `ids`, without repeats,
/// in table order.
pub open spec fn old_addr_union(t: Seq<PeerView>, ids: Seq<u32>, older_than: u64) -> Seq<PeerAddr>
    decreases t.len(),
{
    if t.len() == 0 {
        Seq::empty()
    } else {
        let r = old_addr_union(t.drop_last(), ids, older_than);
        if ids.contains(t.last().peer_id) {
            insert_all(r, old_addrs(t.last().entries, older_than))
        } else {
            r
        }
    }
}

/// The address each peer of `ids` answered at last, without repeats, in table order.
pub open spec fn latest_addrs(t: Seq<PeerView>, ids: Seq<u32>) -> Seq<PeerAddr>
    decreases t.len(),
{
    if t.len() == 0 {
        Seq::empty()
    } else {
        let r = latest_addrs(t.drop_last(), ids);
        if ids.contains(t.last().peer_id) {
            match latest_addr(t.last().entries) {
                Some(a) => set_insert(r, a),
                None => r,
            }
        } else {
            r
        }
    }
}

/// The table after pruning the peers of `ids`: their old addresses are forgotten,
/// and those left without an address are dropped.
pub open spec fn pruned(t: Seq<PeerView>, ids: Seq<u32>, older_than: u64) -> Seq<PeerView>
    decreases t.len(),
{
    if t.len() == 0 {
        Seq::empty()
    } else {
        let r = pruned(t.drop_last(), ids, older_than);
        let p = t.last();
        if ids.contains(p.peer_id) {
            let e = fresh_entries(p.entries, older_than);
            if e.len() == 0 {
                r
            } else {
                r.push(PeerView { peer_id: p.peer_id, entries: e })
            }
        } else {
            r.push(p)
        }
    }
}

/// The identifiers of the peers that are in `ids`, in table order.
pub open spec fn kept_ids(t: Seq<PeerView>, ids: Seq<u32>) -> Seq<u32>
    decreases t.len(),
{
    if t.len() == 0 {
        Seq::empty()
    } else {
        let r = kept_ids(t.drop_last(), ids);
        if ids.contains(t.last().peer_id) {
            r.push(t.last().peer_id)
        } else {
            r
        }
    }
}

// ---------------------------------------------------------------------------
// Lemmas on the table
// ---------------------------------------------------------------------------

pub proof fn lemma_pos_of(t: Seq<PeerView>, id: u32, i: int)
    requires
        0 <= i <= t.len(),
        forall|k: int| 0 <= k < i ==> t[k].peer_id != id,
    ensures
        i < t.len() && t[i].peer_id == id ==> pos_of(t, id) == Some(i as nat),
        i == t.len() ==> pos_of(t, id) is None,
    decreases i,
{
    if i > 0 {
        lemma_pos_of(t.drop_first(), id, i - 1);
    }
}

pub proof fn lemma_pos_of_bound(t: Seq<PeerView>, id: u32)
    ensures
        pos_of(t, id) matches Some(i) ==> i < t.len() && t[i as int].peer_id == id,
        pos_of(t, id) is None ==> forall|k: int| 0 <= k < t.len() ==> t[k].peer_id != id,
    decreases t.len(),
{
    if t.len() > 0 && t[0].peer_id != id {
        lemma_pos_of_bound(t.drop_first(), id);
        if pos_of(t.drop_first(), id) is None {
            assert forall|k: int| 0 <= k < t.len() implies t[k].peer_id != id by {
                if k > 0 {
                    assert(t[k] == t.drop_first()[k - 1]);
                }
            }
        }
    }
}

/// Replacing the entries of the peer at a position, or appending a new peer, keeps
/// the table well formed.
proof fn lemma_replace_wf(t: Seq<PeerView>, i: int, p: PeerView)
    requires
        table_wf(t),
        0 <= i < t.len(),
        t[i].peer_id == p.peer_id,
        addrs_unique(p.entries),
    ensures
        table_wf(t.update(i, p)),
{
    let r = t.update(i, p);
    assert forall|a: int, b: int|
        0 <= a < r.len() && 0 <= b < r.len() && a != b implies r[a].peer_id != r[b].peer_id by {
        if a != i && b != i {
            assert(r[a] == t[a] && r[b] == t[b]);
        } else if a == i {
            assert(r[b] == t[b]);
        } else {
            assert(r[a] == t[a]);
        }
    }
    assert forall|a: int| 0 <= a < r.len() implies addrs_unique(#[trigger] r[a].entries) by {
        if a != i {
            assert(r[a] == t[a]);
        }
    }
}

proof fn lemma_push_wf(t: Seq<PeerView>, p: PeerView)
    requires
        table_wf(t),
        pos_of(t, p.peer_id) is None,
        addrs_unique(p.entries),
    ensures
        table_wf(t.push(p)),
{
    lemma_pos_of_bound(t, p.peer_id);
    let r = t.push(p);
    assert forall|a: int, b: int|
        0 <= a < r.len() && 0 <= b < r.len() && a != b implies r[a].peer_id != r[b].peer_id by {
        if a < t.len() && b < t.len() {
            assert(r[a] == t[a] && r[b] == t[b]);
        } else if a < t.len() {
            assert(r[a] == t[a]);
        } else {
            assert(r[b] == t[b]);
        }
    }
    assert forall|a: int| 0 <= a < r.len() implies addrs_unique(#[trigger] r[a].entries) by {
        if a < t.len() {
            assert(r[a] == t[a]);
        }
    }
}

// ---------------------------------------------------------------------------
// The node
// ---------------------------------------------------------------------------

impl BootstrapDiscoveryV1 {
    /// The contents of the table of peers.
    pub open spec fn table(&self) -> Seq<PeerView> {
        views_of(self.peers@)
    }

    pub open spec fn wf(&self) -> bool {
        table_wf(self.table())
    }

    /// A node that knows only itself, with no address.
    pub fn new(my_peer_id: u32, listening_port: u16) -> (r: Self)
        ensures
            r.wf(),
            r.my_peer_id == my_peer_id,
            r.listening_port == listening_port,
            r.table() == seq![PeerView { peer_id: my_peer_id, entries: Seq::empty() }],
    {
        let mut peers: Vec<Peer> = Vec::new();
        peers.push(Peer::from_id(my_peer_id));
        let r = BootstrapDiscoveryV1 { peers, my_peer_id, listening_port };
        assert(r.table() =~= seq![PeerView { peer_id: my_peer_id, entries: Seq::empty() }]);
        r
    }

    fn find(&self, id: u32) -> (r: Option<usize>)
        ensures
            match r {
                Some(i) => pos_of(self.table(), id) == Some(i as nat) && i < self.peers@.len(),
                None => pos_of(self.table(), id) is None,
            },
    {
        let ghost t = self.table();
        let mut i: usize = 0;
        while i < self.peers.len()
            invariant
                i <= self.peers@.len(),
                t == self.table(),
                forall|k: int| 0 <= k < i ==> t[k].peer_id != id,
            decreases self.peers@.len() - i,
        {
            if self.peers[i].peer_id == id {
                proof {
                    lemma_pos_of(t, id, i as int);
                }
                return Some(i);
            }
            i = i + 1;
        }
        proof {
            lemma_pos_of(t, id, i as int);
        }
        None
    }

    /// Records that peer `peer_id` was seen at `addr` at `now`.
    pub fn refresh_seen_peer(&mut self, peer_id: u32, addr: PeerAddr, now: u64)
        requires
            old(self).wf(),
        ensures
            final(self).wf(),
            final(self).my_peer_id == old(self).my_peer_id,
            final(self).listening_port == old(self).listening_port,
            final(self).table() == seen(old(self).table(), peer_id, addr, now),
    {
        let ghost t = self.table();
        match self.find(peer_id) {
            Some(i) => {
                let mut p = self.peers.remove(i);
                proof {
                    lemma_pos_of_bound(t, peer_id);
                    assert(p@ == t[i as int]);
                    assert(addrs_unique(t[i as int].entries));
                }
                p.refresh_addr(addr, now);
                self.peers.insert(i, p);
                proof {
                    lemma_replace_wf(t, i as int, p@);
                    assert(self.table() =~= t.update(i as int, p@));
                }
            },
            None => {
                let p = Peer::from_seen_addr(peer_id, addr, now);
                self.peers.push(p);
                proof {
                    lemma_push_wf(t, p@);
                    assert(self.table() =~= t.push(p@));
                }
            },
        }
        assert(self.table() =~= seen(t, peer_id, addr, now));
    }

    /// Applies a gossip about a peer and gives what is now known of that peer.
    pub fn refresh_peer_from_gossip(&mut self, gossip: PeerGossip) -> (r: PeerGossip)
        requires
            old(self).wf(),
            gossip.addr@.no_duplicates(),
        ensures
            final(self).wf(),
            final(self).my_peer_id == old(self).my_peer_id,
            final(self).listening_port == old(self).listening_port,
            final(self).table() == gossip_applied(old(self).table(), gossip.peer_id, gossip.addr@),
            pos_of(final(self).table(), gossip.peer_id) matches Some(i) && r.peer_id == gossip.peer_id
                && r.addr@ == keys(final(self).table()[i as int].entries),
            r.addr@.no_duplicates(),
    {
        let ghost t = self.table();
        let peer_id = gossip.peer_id;
        match self.find(peer_id) {
            Some(i) => {
                let mut p = self.peers.remove(i);
                proof {
                    lemma_pos_of_bound(t, peer_id);
                    assert(p@ == t[i as int]);
                    assert(addrs_unique(t[i as int].entries));
                }
                p.update_from_gossip(&gossip);
                let g = p.get_gossip();
                self.peers.insert(i, p);
                proof {
                    lemma_replace_wf(t, i as int, p@);
                    assert(self.table() =~= t.update(i as int, p@));
                    assert forall|k: int| 0 <= k < i implies self.table()[k].peer_id != peer_id by {
                        assert(self.table()[k] == t[k]);
                        assert(t[k].peer_id != t[i as int].peer_id);
                    }
                    lemma_pos_of(self.table(), peer_id, i as int);
                }
                assert(self.table() =~= gossip_applied(t, peer_id, gossip.addr@));
                g
            },
            None => {
                let p = Peer::from_gossip(gossip);
                let g = p.get_gossip();
                self.peers.push(p);
                proof {
                    lemma_push_wf(t, p@);
                    assert(self.table() =~= t.push(p@));
                    lemma_pos_of_bound(t, peer_id);
                    assert forall|k: int| 0 <= k < t.len() implies self.table()[k].peer_id
                        != peer_id by {
                        assert(self.table()[k] == t[k]);
                    }
                    lemma_pos_of(self.table(), peer_id, t.len() as int);
                }
                assert(self.table() =~= gossip_applied(t, peer_id, p@.entries.map_values(|x: AddrEntry| x.0)))
                    by {
                    assert(p@.entries.map_values(|x: AddrEntry| x.0) =~= gossip.addr@) by {
                        assert forall|k: int| 0 <= k < gossip.addr@.len() implies #[trigger] p@.entries[k].0
                            == gossip.addr@[k] by {}
                    }
                }
                g
            },
        }
    }

    /// Adds a peer with no address for each of `gossip_peers` that is unknown, and
    /// gives those identifiers.
    pub fn add_peers(&mut self, gossip_peers: &Vec<u32>) -> (r: Vec<u32>)
        requires
            old(self).wf(),
            gossip_peers@.no_duplicates(),
        ensures
            final(self).wf(),
            final(self).my_peer_id == old(self).my_peer_id,
            final(self).listening_port == old(self).listening_port,
            r@ == unknown_ids(old(self).table(), gossip_peers@),
            final(self).table() == old(self).table() + blank_peers(r@),
    {
        let ghost t = self.table();
        let mut new_peers: Vec<u32> = Vec::new();
        let ghost mut idx: Seq<int> = Seq::empty();
        let mut i: usize = 0;
        while i < gossip_peers.len()
            invariant
                i <= gossip_peers@.len(),
                t == old(self).table(),
                self.peers == old(self).peers,
                new_peers@ == unknown_ids(t, gossip_peers@.take(i as int)),
                gossip_peers@.no_duplicates(),
                idx.len() == new_peers@.len(),
                forall|k: int|
                    0 <= k < idx.len() ==> 0 <= #[trigger] idx[k] < i && new_peers@[k]
                        == gossip_peers@[idx[k]],
                forall|x: int, y: int| 0 <= x < y < idx.len() ==> idx[x] < idx[y],
                forall|k: int| 0 <= k < new_peers@.len() ==> pos_of(t, #[trigger] new_peers@[k]) is None,
            decreases gossip_peers@.len() - i,
        {
            let id = gossip_peers[i];
            assert(gossip_peers@.take(i + 1).drop_last() =~= gossip_peers@.take(i as int));
            if self.find(id).is_none() {
                new_peers.push(id);
                proof {
                    idx = idx.push(i as int);
                }
            }
            i = i + 1;
        }
        assert(new_peers@.no_duplicates()) by {
            assert forall|x: int, y: int|
                0 <= x < new_peers@.len() && 0 <= y < new_peers@.len() && x != y implies new_peers@[x]
                != new_peers@[y] by {
                if x < y {
                    assert(idx[x] < idx[y]);
                } else {
                    assert(idx[y] < idx[x]);
                }
            }
        }
        assert(gossip_peers@.take(i as int) =~= gossip_peers@);
        let mut j: usize = 0;
        while j < new_peers.len()
            invariant
                j <= new_peers@.len(),
                table_wf(self.table()),
                self.my_peer_id == old(self).my_peer_id,
                self.listening_port == old(self).listening_port,
                self.table() == t + blank_peers(new_peers@.take(j as int)),
                new_peers@.no_duplicates(),
                forall|k: int| 0 <= k < new_peers@.len() ==> pos_of(t, #[trigger] new_peers@[k]) is None,
            decreases new_peers@.len() - j,
        {
            let id = new_peers[j];
            let ghost before = self.table();
            proof {
                lemma_pos_of_bound(t, id);
                assert forall|k: int| 0 <= k < before.len() implies before[k].peer_id != id by {
                    if k >= t.len() {
                        assert(before[k].peer_id == new_peers@[k - t.len()]);
                        assert(new_peers@[k - t.len()] != new_peers@[j as int]);
                    }
                }
                lemma_pos_of(before, id, before.len() as int);
            }
            let p = Peer::from_id(id);
            self.peers.push(p);
            proof {
                lemma_push_wf(before, p@);
                assert(self.table() =~= before.push(p@));
            }
            j = j + 1;
            assert(self.table() =~= t + blank_peers(new_peers@.take(j as int)));
        }
        assert(new_peers@.take(j as int) =~= new_peers@);
        new_peers
    }

    /// The identifiers of all known peers, this node included, in table order.
    pub fn get_all_peer_ids(&self) -> (r: Vec<u32>)
        ensures
            r@ == all_ids(self.table()),
    {
        let mut out: Vec<u32> = Vec::new();
        let mut i: usize = 0;
        while i < self.peers.len()
            invariant
                i <= self.peers@.len(),
                out@ == all_ids(self.table()).take(i as int),
            decreases self.peers@.len() - i,
        {
            out.push(self.peers[i].peer_id);
            i = i + 1;
            assert(out@ =~= all_ids(self.table()).take(i as int));
        }
        assert(all_ids(self.table()).take(i as int) =~= all_ids(self.table()));
        out
    }

    /// The peers that can be told to others (those that answered at some address)
    /// and this node, by identifier in table order.
    pub fn get_trusty_peers(&self) -> (r: Vec<u32>)
        ensures
            r@ == trusty_ids(self.table(), self.my_peer_id),
    {
        let ghost t = self.table();
        let mut out: Vec<u32> = Vec::new();
        let mut i: usize = 0;
        while i < self.peers.len()
            invariant
                i <= self.peers@.len(),
                t == self.table(),
                out@ == trusty_ids(t.take(i as int), self.my_peer_id),
            decreases self.peers@.len() - i,
        {
            assert(t.take(i + 1).drop_last() =~= t.take(i as int));
            assert(t.take(i + 1).last() == self.peers@[i as int]@);
            if self.peers[i].is_trusty() || self.peers[i].peer_id == self.my_peer_id {
                out.push(self.peers[i].peer_id);
            }
            i = i + 1;
        }
        assert(t.take(i as int) =~= t);
        out
    }

    /// The old addresses of the peers of `peer_ids`, without repeats.
    pub fn get_all_old_addresses(&self, peer_ids: &Vec<u32>, addr_older_than: u64) -> (r: Vec<
        PeerAddr,
    >)
        ensures
            r@ == old_addr_union(self.table(), peer_ids@, addr_older_than),
    {
        let ghost t = self.table();
        let mut out: Vec<PeerAddr> = Vec::new();
        let mut i: usize = 0;
        while i < self.peers.len()
            invariant
                i <= self.peers@.len(),
                t == self.table(),
                out@ == old_addr_union(t.take(i as int), peer_ids@, addr_older_than),
            decreases self.peers@.len() - i,
        {
            assert(t.take(i + 1).drop_last() =~= t.take(i as int));
            assert(t.take(i + 1).last() == self.peers@[i as int]@);
            if contains_id(peer_ids, self.peers[i].peer_id) {
                let olds = self.peers[i].get_old_addresses(addr_older_than);
                let ghost base = out@;
                let mut j: usize = 0;
                assert(olds@.take(0) =~= Seq::<PeerAddr>::empty());
                while j < olds.len()
                    invariant
                        j <= olds@.len(),
                        out@ == insert_all(base, olds@.take(j as int)),
                    decreases olds@.len() - j,
                {
                    assert(olds@.take(j + 1).drop_last() =~= olds@.take(j as int));
                    if !contains_addr(&out, &olds[j]) {
                        out.push(olds[j]);
                    }
                    j = j + 1;
                }
                assert(olds@.take(j as int) =~= olds@);
            }
            i = i + 1;
        }
        assert(t.take(i as int) =~= t);
        out
    }

    /// The address each peer of `peer_ids` answered at last, without repeats.
    pub fn get_peer_addresses(&self, peer_ids: &Vec<u32>) -> (r: Vec<PeerAddr>)
        ensures
            r@ == latest_addrs(self.table(), peer_ids@),
    {
        let ghost t = self.table();
        let mut out: Vec<PeerAddr> = Vec::new();
        let mut i: usize = 0;
        while i < self.peers.len()
            invariant
                i <= self.peers@.len(),
                t == self.table(),
                out@ == latest_addrs(t.take(i as int), peer_ids@),
            decreases self.peers@.len() - i,
        {
            assert(t.take(i + 1).drop_last() =~= t.take(i as int));
            assert(t.take(i + 1).last() == self.peers@[i as int]@);
            if contains_id(peer_ids, self.peers[i].peer_id) {
                match self.peers[i].get_address() {
                    Some(a) => {
                        if !contains_addr(&out, &a) {
                            out.push(a);
                        }
                    },
                    None => {},
                }
            }
            i = i + 1;
        }
        assert(t.take(i as int) =~= t);
        out
    }

    /// Prunes the peers of `peer_ids`: forgets their addresses not answered at since
    /// `addr_older_than`, drops those left without an address, and gives the
    /// identifiers of `peer_ids` that are still known.
    pub fn prune_peers(&mut self, peer_ids: &Vec<u32>, addr_older_than: u64) -> (r: Vec<u32>)
        requires
            old(self).wf(),
        ensures
            final(self).wf(),
            final(self).my_peer_id == old(self).my_peer_id,
            final(self).listening_port == old(self).listening_port,
            final(self).table() == pruned(old(self).table(), peer_ids@, addr_older_than),
            r@ == kept_ids(final(self).table(), peer_ids@),
    {
        let ghost t = self.table();
        let mut kept: Vec<Peer> = Vec::new();
        let ghost mut idx: Seq<int> = Seq::empty();
        let mut i: usize = 0;
        while i < self.peers.len()
            invariant
                i <= self.peers@.len(),
                t == self.table(),
                table_wf(t),
                views_of(kept@) == pruned(t.take(i as int), peer_ids@, addr_older_than),
                idx.len() == kept@.len(),
                forall|x: int|
                    0 <= x < idx.len() ==> 0 <= #[trigger] idx[x] < i && kept@[x]@.peer_id
                        == t[idx[x]].peer_id,
                forall|x: int, y: int| 0 <= x < y < idx.len() ==> idx[x] < idx[y],
                forall|x: int| 0 <= x < kept@.len() ==> addrs_unique(#[trigger] kept@[x]@.entries),
            decreases self.peers@.len() - i,
        {
            assert(t.take(i + 1).drop_last() =~= t.take(i as int));
            assert(t.take(i + 1).last() == self.peers@[i as int]@);
            let ghost before = views_of(kept@);
            assert(addrs_unique(t[i as int].entries));
            if contains_id(peer_ids, self.peers[i].peer_id) {
                let mut p = self.peers[i].duplicate();
                p.remove_old_addresses(addr_older_than);
                if !p.should_be_dropped() {
                    kept.push(p);
                    proof {
                        idx = idx.push(i as int);
                        assert(views_of(kept@) =~= before.push(p@));
                    }
                }
            } else {
                let p = self.peers[i].duplicate();
                kept.push(p);
                proof {
                    idx = idx.push(i as int);
                    assert(views_of(kept@) =~= before.push(p@));
                }
            }
            i = i + 1;
        }
        assert(t.take(i as int) =~= t);
        self.peers = kept;
        proof {
            let nt = self.table();
            assert forall|a: int, b: int|
                0 <= a < nt.len() && 0 <= b < nt.len() && a != b implies nt[a].peer_id
                != nt[b].peer_id by {
                if a < b {
                    assert(idx[a] < idx[b]);
                } else {
                    assert(idx[b] < idx[a]);
                }
            }
        }
        let ghost nt = self.table();
        let mut out: Vec<u32> = Vec::new();
        let mut j: usize = 0;
        while j < self.peers.len()
            invariant
                j <= self.peers@.len(),
                nt == self.table(),
                out@ == kept_ids(nt.take(j as int), peer_ids@),
            decreases self.peers@.len() - j,
        {
            assert(nt.take(j + 1).drop_last() =~= nt.take(j as int));
            assert(nt.take(j + 1).last() == self.peers@[j as int]@);
            if contains_id(peer_ids, self.peers[j].peer_id) {
                out.push(self.peers[j].peer_id);
            }
            j = j + 1;
        }
        assert(nt.take(j as int) =~= nt);
        out
    }
}

} // verus!

verus! {

/// The content of a request for gossip about `id`.
pub open spec fn gossip_get(id: u32) -> ExchangeView {
    ExchangeView::PeerGossipGet(id, Seq::empty())
}

/// The table after the message `m` and the answers to send back.
pub open spec fn respond(t: Seq<PeerView>, me: u32, m: ExchangeView) -> (Seq<PeerView>, Seq<ExchangeView>) {
    match m {
        ExchangeView::Ping => (t, seq![ExchangeView::Pong]),
        ExchangeView::Pong => (t, Seq::empty()),
        ExchangeView::PeerList(ids) => {
            let new = unknown_ids(t, ids);
            (t + blank_peers(new), new.map_values(|id: u32| gossip_get(id)))
        },
        ExchangeView::PeerListGet(ids) => {
            let new = unknown_ids(t, ids);
            let t3 = t + blank_peers(new);
            (
                t3,
                new.map_values(|id: u32| gossip_get(id)).push(
                    ExchangeView::PeerList(trusty_ids(t3, me)),
                ),
            )
        },
        ExchangeView::PeerGossip(id, a) => (gossip_applied(t, id, a), Seq::empty()),
        ExchangeView::PeerGossipGet(id, a) => {
            let t3 = gossip_applied(t, id, a);
            (
                t3,
                seq![
                    ExchangeView::PeerGossip(id, keys(t3[pos_of(t3, id)->Some_0 as int].entries)),
                ],
            )
        },
    }
}

/// The table after a received message and the answers to send back: nothing
/// happens for a message from this node itself; otherwise the sender is seen at
/// the address to answer it at, this node at the address the sender sent to,
/// and then the message is handled.
pub open spec fn handled(t: Seq<PeerView>, me: u32, inc: IncomingView, now: u64) -> (Seq<PeerView>, Seq<ExchangeView>) {
    if inc.from_peer_id == me {
        (t, Seq::empty())
    } else {
        let t1 = seen(t, inc.from_peer_id, inc.from_peer_addr, now);
        let t2 = seen(t1, me, inc.my_perceived_addr, now);
        respond(t2, me, inc.message)
    }
}

/// A copy of the identifiers.
fn copy_ids(v: &Vec<u32>) -> (r: Vec<u32>)
    ensures
        r@ == v@,
{
    let mut r: Vec<u32> = Vec::new();
    let mut i: usize = 0;
    while i < v.len()
        invariant
            i <= v@.len(),
            r@ == v@.take(i as int),
        decreases v@.len() - i,
    {
        r.push(v[i]);
        i = i + 1;
        assert(r@ =~= v@.take(i as int));
    }
    assert(v@.take(i as int) =~= v@);
    r
}

impl BootstrapDiscoveryV1 {
    /// The transport message that carries `message` from this node to `to`.
    pub fn send(&self, message: DiscoveryMessage, to: PeerAddr) -> (r: TransportMessage)
        ensures
            carries(r, to, outgoing_text(to, self.listening_port, self.my_peer_id, message@)),
    {
        OutgoingDiscoveryMessage {
            to,
            my_listening_port: self.listening_port,
            from_peer_id: self.my_peer_id,
            message,
        }.into_transport()
    }

    /// The ping round: the peers to ping are all known peers but this node; each of
    /// their old addresses gets a ping. Gives those peers and the pings.
    pub fn ping_peers(&self, older_than: u64) -> (r: (Vec<u32>, Vec<TransportMessage>))
        ensures
            r.0@ == drop_id(all_ids(self.table()), self.my_peer_id),
            ({
                let addrs = old_addr_union(self.table(), r.0@, older_than);
                &&& r.1@.len() == addrs.len()
                &&& forall|i: int|
                    0 <= i < addrs.len() ==> carries(
                        #[trigger] r.1@[i],
                        addrs[i],
                        outgoing_text(addrs[i], self.listening_port, self.my_peer_id, ExchangeView::Ping),
                    )
            }),
    {
        let all = self.get_all_peer_ids();
        let mut pinged: Vec<u32> = Vec::new();
        let mut i: usize = 0;
        while i < all.len()
            invariant
                i <= all@.len(),
                pinged@ == drop_id(all@.take(i as int), self.my_peer_id),
            decreases all@.len() - i,
        {
            assert(all@.take(i + 1).drop_last() =~= all@.take(i as int));
            if all[i] != self.my_peer_id {
                pinged.push(all[i]);
            }
            i = i + 1;
        }
        assert(all@.take(i as int) =~= all@);
        let old_addresses = self.get_all_old_addresses(&pinged, older_than);
        let mut msgs: Vec<TransportMessage> = Vec::new();
        let mut j: usize = 0;
        while j < old_addresses.len()
            invariant
                j <= old_addresses@.len(),
                msgs@.len() == j,
                forall|x: int|
                    0 <= x < j ==> carries(
                        #[trigger] msgs@[x],
                        old_addresses@[x],
                        outgoing_text(
                            old_addresses@[x],
                            self.listening_port,
                            self.my_peer_id,
                            ExchangeView::Ping,
                        ),
                    ),
            decreases old_addresses@.len() - j,
        {
            msgs.push(self.send(DiscoveryMessage::Ping, old_addresses[j]));
            j = j + 1;
        }
        (pinged, msgs)
    }

    /// The gossip round: each peer of `peer_ids` gets, at the address it answered at
    /// last, a request for peers that lists the peers this node can tell of.
    pub fn gossip(&self, peer_ids: &Vec<u32>) -> (r: Vec<TransportMessage>)
        ensures
            ({
                let addrs = latest_addrs(self.table(), peer_ids@);
                let m = ExchangeView::PeerListGet(trusty_ids(self.table(), self.my_peer_id));
                &&& r@.len() == addrs.len()
                &&& forall|i: int|
                    0 <= i < addrs.len() ==> carries(
                        #[trigger] r@[i],
                        addrs[i],
                        outgoing_text(addrs[i], self.listening_port, self.my_peer_id, m),
                    )
            }),
    {
        let trusty_peers = self.get_trusty_peers();
        let addrs = self.get_peer_addresses(peer_ids);
        let ghost m = ExchangeView::PeerListGet(trusty_ids(self.table(), self.my_peer_id));
        let mut msgs: Vec<TransportMessage> = Vec::new();
        let mut j: usize = 0;
        while j < addrs.len()
            invariant
                j <= addrs@.len(),
                trusty_peers@ == trusty_ids(self.table(), self.my_peer_id),
                m == ExchangeView::PeerListGet(trusty_ids(self.table(), self.my_peer_id)),
                msgs@.len() == j,
                forall|x: int|
                    0 <= x < j ==> carries(
                        #[trigger] msgs@[x],
                        addrs@[x],
                        outgoing_text(addrs@[x], self.listening_port, self.my_peer_id, m),
                    ),
            decreases addrs@.len() - j,
        {
            let peers = copy_ids(&trusty_peers);
            msgs.push(self.send(DiscoveryMessage::PeerListGet { peers }, addrs[j]));
            j = j + 1;
        }
        msgs
    }

    /// Handles a received message at `now` and gives the answers to send.
    pub fn handle_message(&mut self, msg: &TransportMessage, now: u64) -> (r: Result<
        Vec<TransportMessage>,
        DiscoveryError,
    >)
        requires
            old(self).wf(),
        ensures
            final(self).wf(),
            final(self).my_peer_id == old(self).my_peer_id,
            final(self).listening_port == old(self).listening_port,
            match incoming_from(msg.msg@, msg.addr) {
                Err(e) => r == Err::<Vec<TransportMessage>, DiscoveryError>(e) && final(self).table()
                    == old(self).table(),
                Ok(inc) => {
                    let (t, answers) = handled(old(self).table(), old(self).my_peer_id, inc, now);
                    &&& final(self).table() == t
                    &&& r matches Ok(out) && out@.len() == answers.len() && forall|i: int|
                        0 <= i < answers.len() ==> carries(
                            #[trigger] out@[i],
                            inc.from_peer_addr,
                            outgoing_text(
                                inc.from_peer_addr,
                                old(self).listening_port,
                                old(self).my_peer_id,
                                answers[i],
                            ),
                        )
                },
            },
    {
        let incoming = match IncomingDiscoveryMessage::from_transportmessage(msg) {
            Ok(inc) => inc,
            Err(e) => {
                return Err(e);
            },
        };
        let ghost inc = incoming@;
        proof {
            crate::peer_exchange::message::lemma_read_well_formed(
                crate::text::ws_tokens(crate::text::join_sp(crate::text::ws_tokens(msg.msg@).skip(6))),
            );
        }
        let IncomingDiscoveryMessage { from_peer_id, from_peer_addr, my_perceived_addr, message } =
            incoming;
        if from_peer_id == self.my_peer_id {
            return Ok(Vec::new());
        }
        let me = self.my_peer_id;
        self.refresh_seen_peer(from_peer_id, from_peer_addr, now);
        self.refresh_seen_peer(me, my_perceived_addr, now);
        let ghost t2 = self.table();
        let mut responses: Vec<DiscoveryMessage> = Vec::new();
        match message {
            DiscoveryMessage::Ping => {
                responses.push(DiscoveryMessage::Pong);
            },
            DiscoveryMessage::Pong => {},
            DiscoveryMessage::PeerList { peers } => {
                let new_peers = self.add_peers(&peers);
                self.push_gossip_gets(&new_peers, &mut responses);
            },
            DiscoveryMessage::PeerListGet { peers } => {
                let new_peers = self.add_peers(&peers);
                self.push_gossip_gets(&new_peers, &mut responses);
                responses.push(DiscoveryMessage::PeerList { peers: self.get_trusty_peers() });
            },
            DiscoveryMessage::PeerGossip { gossip } => {
                let _ = self.refresh_peer_from_gossip(gossip);
            },
            DiscoveryMessage::PeerGossipGet { gossip } => {
                let updated_peer_gossip = self.refresh_peer_from_gossip(gossip);
                responses.push(DiscoveryMessage::PeerGossip { gossip: updated_peer_gossip });
            },
        }
        let ghost answers = respond(t2, me, inc.message).1;
        assert(responses@.map_values(|m: DiscoveryMessage| m@) =~= answers);
        let n = responses.len();
        assert(answers.len() == n);
        let mut out: Vec<TransportMessage> = Vec::new();
        let mut k: usize = 0;
        while responses.len() > 0
            invariant
                k <= answers.len(),
                answers.len() == n,
                k + responses@.len() == answers.len(),
                responses@.map_values(|m: DiscoveryMessage| m@) == answers.skip(k as int),
                out@.len() == k,
                forall|i: int|
                    0 <= i < k ==> carries(
                        #[trigger] out@[i],
                        from_peer_addr,
                        outgoing_text(from_peer_addr, self.listening_port, me, answers[i]),
                    ),
            decreases responses@.len(),
        {
            let ghost before = responses@;
            let message = responses.remove(0);
            assert(message@ == answers[k as int]) by {
                assert(before.map_values(|m: DiscoveryMessage| m@)[0] == before[0]@);
                assert(answers.skip(k as int)[0] == answers[k as int]);
            }
            let outgoing = OutgoingDiscoveryMessage {
                my_listening_port: self.listening_port,
                to: from_peer_addr,
                from_peer_id: me,
                message,
            };
            out.push(outgoing.into_transport());
            proof {
                let f = |m: DiscoveryMessage| m@;
                assert(responses@ =~= before.skip(1));
                assert forall|x: int| 0 <= x < responses@.len() implies responses@.map_values(f)[x]
                    == answers.skip(k + 1)[x] by {
                    assert(responses@[x] == before[x + 1]);
                    assert(before.map_values(f)[x + 1] == answers.skip(k as int)[x + 1]);
                }
            }
            k = k + 1;
            assert(responses@.map_values(|m: DiscoveryMessage| m@) =~= answers.skip(k as int));
        }
        assert(answers.skip(k as int).len() == 0);
        Ok(out)
    }

    /// Appends a request for gossip about each of `ids`.
    fn push_gossip_gets(&self, ids: &Vec<u32>, responses: &mut Vec<DiscoveryMessage>)
        ensures
            final(responses)@.map_values(|m: DiscoveryMessage| m@) == old(responses)@.map_values(
                |m: DiscoveryMessage| m@,
            ) + ids@.map_values(|id: u32| gossip_get(id)),
    {
        let ghost start = responses@.map_values(|m: DiscoveryMessage| m@);
        let mut i: usize = 0;
        while i < ids.len()
            invariant
                i <= ids@.len(),
                responses@.map_values(|m: DiscoveryMessage| m@) == start + ids@.take(
                    i as int,
                ).map_values(|id: u32| gossip_get(id)),
            decreases ids@.len() - i,
        {
            let g = PeerGossip::from_peer_id(ids[i]);
            let ghost before = responses@;
            responses.push(DiscoveryMessage::PeerGossipGet { gossip: g });
            proof {
                let f = |m: DiscoveryMessage| m@;
                let h = |id: u32| gossip_get(id);
                assert(responses@ == before.push(DiscoveryMessage::PeerGossipGet { gossip: g }));
                assert(responses@.map_values(f) =~= before.map_values(f).push(gossip_get(ids@[i as int])));
                assert(ids@.take(i + 1).map_values(h) =~= ids@.take(i as int).map_values(h).push(
                    gossip_get(ids@[i as int]),
                ));
            }
            i = i + 1;
            assert(responses@.map_values(|m: DiscoveryMessage| m@) =~= start + ids@.take(
                i as int,
            ).map_values(|id: u32| gossip_get(id)));
        }
        assert(ids@.take(i as int) =~= ids@);
    }
}

} // verus!

verus! {

/// A peer heard from at `addr` at `now` is then in the table, known at `addr`
/// as answered at `now`.
pub proof fn law_seen_peer_known_at_addr(t: Seq<PeerView>, id: u32, addr: PeerAddr, now: u64)
    requires
        table_wf(t),
    ensures
        ({
            let t2 = seen(t, id, addr, now);
            pos_of(t2, id) matches Some(i) && i < t2.len() && exists|k: int|
                0 <= k < t2[i as int].entries.len() && #[trigger] t2[i as int].entries[k] == (
                    addr,
                    Some(now),
                )
        }),
{
    lemma_pos_of_bound(t, id);
    let t2 = seen(t, id, addr, now);
    match pos_of(t, id) {
        Some(i) => {
            let e = t[i as int].entries;
            lemma_addr_pos_bound(e, addr);
            let e2 = put(e, addr, Some(now));
            match addr_pos(e, addr) {
                Some(k) => {
                    assert(t2[i as int].entries[k as int] == (addr, Some(now)));
                },
                None => {
                    assert(t2[i as int].entries[e.len() as int] == (addr, Some(now)));
                },
            }
            assert forall|k: int| 0 <= k < i implies t2[k].peer_id != id by {
                assert(t2[k] == t[k]);
                assert(t[k].peer_id != t[i as int].peer_id);
            }
            lemma_pos_of(t2, id, i as int);
        },
        None => {
            assert forall|k: int| 0 <= k < t.len() implies t2[k].peer_id != id by {
                assert(t2[k] == t[k]);
            }
            lemma_pos_of(t2, id, t.len() as int);
            assert(t2[t.len() as int].entries[0] == (addr, Some(now)));
        },
    }
}

/// Learning addresses from gossip forgets none the peer had and adds each one
/// reported.
pub proof fn law_gossip_keeps_and_adds(e: Seq<AddrEntry>, addrs: Seq<PeerAddr>)
    ensures
        forall|k: int| 0 <= k < e.len() ==> keys(learn(e, addrs)).contains(#[trigger] e[k].0),
        forall|k: int| 0 <= k < addrs.len() ==> keys(learn(e, addrs)).contains(#[trigger] addrs[k]),
    decreases addrs.len(),
{
    if addrs.len() == 0 {
        assert forall|k: int| 0 <= k < e.len() implies keys(learn(e, addrs)).contains(
            #[trigger] e[k].0,
        ) by {
            assert(keys(e)[k] == e[k].0);
        }
    } else {
        let d = addrs.drop_last();
        law_gossip_keeps_and_adds(e, d);
        let r = learn(e, d);
        let r2 = learn(e, addrs);
        lemma_addr_pos_bound(r, addrs.last());
        assert forall|x: PeerAddr| keys(r).contains(x) implies keys(r2).contains(x) by {
            let j = choose|j: int| 0 <= j < keys(r).len() && keys(r)[j] == x;
            assert(r2[j] == r[j]);
            assert(keys(r2)[j] == x);
        }
        assert forall|k: int| 0 <= k < e.len() implies keys(r2).contains(#[trigger] e[k].0) by {
            assert(keys(r).contains(e[k].0));
        }
        assert forall|k: int| 0 <= k < addrs.len() implies keys(r2).contains(#[trigger] addrs[k]) by {
            if k < d.len() {
                assert(d[k] == addrs[k]);
                assert(keys(r).contains(d[k]));
            } else {
                match addr_pos(r, addrs.last()) {
                    Some(p) => {
                        assert(keys(r2)[p as int] == addrs.last());
                    },
                    None => {
                        assert(keys(r2)[r.len() as int] == addrs.last());
                    },
                }
            }
        }
    }
}

} // verus!

verus! {

/// `m` asks for gossip about a peer of `ids` that the table `t` did not know and
/// that is neither the sender nor this node.
pub open spec fn requests_new_peer(m: ExchangeView, ids: Seq<u32>, t: Seq<PeerView>, sender: u32, me: u32) -> bool {
    &&& m matches ExchangeView::PeerGossipGet(x, addrs)
    &&& addrs.len() == 0
    &&& ids.contains(x)
    &&& x != sender
    &&& x != me
    &&& forall|j: int| 0 <= j < t.len() ==> t[j].peer_id != x
}

/// Seeing a peer keeps the identifiers of the table in place and adds the peer's.
proof fn lemma_seen_ids(t: Seq<PeerView>, id: u32, addr: PeerAddr, now: u64)
    ensures
        seen(t, id, addr, now).len() >= t.len(),
        forall|j: int| 0 <= j < t.len() ==> #[trigger] seen(t, id, addr, now)[j].peer_id == t[j].peer_id,
        forall|j: int|
            0 <= j < seen(t, id, addr, now).len() ==> #[trigger] seen(t, id, addr, now)[j].peer_id == id
                || (j < t.len() && seen(t, id, addr, now)[j].peer_id == t[j].peer_id),
        exists|j: int| 0 <= j < seen(t, id, addr, now).len() && #[trigger] seen(t, id, addr, now)[j].peer_id == id,
{
    lemma_pos_of_bound(t, id);
    let s = seen(t, id, addr, now);
    match pos_of(t, id) {
        Some(i) => {
            assert(s[i as int].peer_id == id);
        },
        None => {
            assert(s[t.len() as int].peer_id == id);
        },
    }
}

/// The identifiers that `unknown_ids` gives are exactly those of `ids` that the
/// table lacks.
proof fn lemma_unknown_ids(t: Seq<PeerView>, ids: Seq<u32>, x: u32)
    ensures
        unknown_ids(t, ids).contains(x) <==> ids.contains(x) && pos_of(t, x) is None,
    decreases ids.len(),
{
    if ids.len() > 0 {
        let d = ids.drop_last();
        lemma_unknown_ids(t, d, x);
        let r = unknown_ids(t, d);
        let u = unknown_ids(t, ids);
        if u.contains(x) {
            let k = choose|k: int| 0 <= k < u.len() && u[k] == x;
            if k < r.len() {
                assert(r[k] == x);
                let j = choose|j: int| 0 <= j < d.len() && d[j] == x;
                assert(ids[j] == x);
            } else {
                assert(ids[ids.len() - 1] == x);
            }
        }
        if ids.contains(x) && pos_of(t, x) is None {
            let j = choose|j: int| 0 <= j < ids.len() && ids[j] == x;
            if j < d.len() {
                assert(d[j] == x);
                let k = choose|k: int| 0 <= k < r.len() && r[k] == x;
                if pos_of(t, ids.last()) is None {
                    assert(u[k] == x);
                }
            } else {
                assert(u.last() == x);
            }
        }
    }
}

/// What a node answers, by the kind of message received: nothing to a message
/// of its own, a pong to a ping, nothing to a pong or to a gossip, one gossip
/// about the peer asked for to a gossip request, and to a peer list (and to a
/// peer-list request, followed by its own peer list) a gossip request for each
/// listed peer it did not know (other than the sender and itself), and no other
/// request.
pub proof fn law_answers_by_kind(t: Seq<PeerView>, me: u32, inc: IncomingView, now: u64)
    ensures
        ({
            let (t2, a) = handled(t, me, inc, now);
            let sender = inc.from_peer_id;
            &&& sender == me ==> t2 == t && a.len() == 0
            &&& sender != me ==> match inc.message {
                ExchangeView::Ping => a == seq![ExchangeView::Pong],
                ExchangeView::Pong => a.len() == 0,
                ExchangeView::PeerGossip(_, _) => a.len() == 0,
                ExchangeView::PeerGossipGet(id, _) => a.len() == 1 && (a[0] matches ExchangeView::PeerGossip(
                    x,
                    _,
                ) && x == id),
                ExchangeView::PeerList(ids) => {
                    &&& forall|k: int| 0 <= k < a.len() ==> requests_new_peer(#[trigger] a[k], ids, t, sender, me)
                    &&& forall|x: u32|
                        ids.contains(x) && x != sender && x != me && (forall|j: int|
                            0 <= j < t.len() ==> t[j].peer_id != x) ==> #[trigger] a.contains(gossip_get(x))
                },
                ExchangeView::PeerListGet(ids) => {
                    &&& a.len() >= 1
                    &&& a.last() is PeerList
                    &&& forall|k: int| 0 <= k < a.len() - 1 ==> requests_new_peer(#[trigger] a[k], ids, t, sender, me)
                    &&& forall|x: u32|
                        ids.contains(x) && x != sender && x != me && (forall|j: int|
                            0 <= j < t.len() ==> t[j].peer_id != x) ==> #[trigger] a.contains(gossip_get(x))
                },
            }
        }),
{
    let sender = inc.from_peer_id;
    if sender != me {
        let t1 = seen(t, sender, inc.from_peer_addr, now);
        let t2 = seen(t1, me, inc.my_perceived_addr, now);
        lemma_seen_ids(t, sender, inc.from_peer_addr, now);
        lemma_seen_ids(t1, me, inc.my_perceived_addr, now);
        // the peers that the seen table lacks: not the sender, not this node, none of `t`
        assert forall|x: u32| pos_of(t2, x) is None implies x != sender && x != me && forall|j: int|
            0 <= j < t.len() ==> t[j].peer_id != x by {
            lemma_pos_of_bound(t2, x);
            let j1 = choose|j: int| 0 <= j < t1.len() && #[trigger] t1[j].peer_id == sender;
            assert(t2[j1].peer_id == sender);
            let j2 = choose|j: int| 0 <= j < t2.len() && #[trigger] t2[j].peer_id == me;
            assert forall|j: int| 0 <= j < t.len() implies t[j].peer_id != x by {
                assert(t1[j].peer_id == t[j].peer_id);
                assert(t2[j].peer_id == t1[j].peer_id);
            }
        }
        // the peers of neither `t`, the sender nor this node are lacking
        assert forall|x: u32|
            x != sender && x != me && (forall|j: int| 0 <= j < t.len() ==> t[j].peer_id != x) implies pos_of(
            t2,
            x,
        ) is None by {
            lemma_pos_of_bound(t2, x);
            if pos_of(t2, x) is Some {
                let i = pos_of(t2, x)->Some_0;
                assert(t2[i as int].peer_id == x);
                if !(i < t1.len() && t2[i as int].peer_id == t1[i as int].peer_id) {
                } else {
                    assert(t1[i as int].peer_id == x);
                    if i < t.len() && t1[i as int].peer_id == t[i as int].peer_id {
                        assert(t[i as int].peer_id == x);
                    }
                }
            }
        }
        match inc.message {
            ExchangeView::PeerList(ids) => {
                let u = unknown_ids(t2, ids);
                let a = u.map_values(|id: u32| gossip_get(id));
                assert forall|k: int| 0 <= k < a.len() implies requests_new_peer(#[trigger] a[k], ids, t, sender, me) by {
                    assert(u.contains(u[k]));
                    lemma_unknown_ids(t2, ids, u[k]);
                }
                assert forall|x: u32|
                    ids.contains(x) && x != sender && x != me && (forall|j: int|
                        0 <= j < t.len() ==> t[j].peer_id != x) implies #[trigger] a.contains(gossip_get(x)) by {
                    lemma_unknown_ids(t2, ids, x);
                    let k = choose|k: int| 0 <= k < u.len() && u[k] == x;
                    assert(a[k] == gossip_get(x));
                }
            },
            ExchangeView::PeerListGet(ids) => {
                let u = unknown_ids(t2, ids);
                let r = u.map_values(|id: u32| gossip_get(id));
                let t3 = t2 + blank_peers(u);
                let a = r.push(ExchangeView::PeerList(trusty_ids(t3, me)));
                assert forall|k: int| 0 <= k < a.len() - 1 implies requests_new_peer(#[trigger] a[k], ids, t, sender, me) by {
                    assert(a[k] == r[k]);
                    assert(u.contains(u[k]));
                    lemma_unknown_ids(t2, ids, u[k]);
                }
                assert forall|x: u32|
                    ids.contains(x) && x != sender && x != me && (forall|j: int|
                        0 <= j < t.len() ==> t[j].peer_id != x) implies #[trigger] a.contains(gossip_get(x)) by {
                    lemma_unknown_ids(t2, ids, x);
                    let k = choose|k: int| 0 <= k < u.len() && u[k] == x;
                    assert(a[k] == gossip_get(x));
                }
            },
            _ => {},
        }
    }
}

} // verus!
