//! A peer known under several addresses, each with the time it last answered
//! there (milliseconds on the node's clock), or none when it never did.
use vstd::prelude::*;
use crate::addr::PeerAddr;
use crate::peer_exchange::message::{contains_addr, IncomingDiscoveryMessage, PeerGossip};

verus! {

/// One known address and when the peer last answered there.
pub type AddrEntry = (PeerAddr, Option<u64>);

/// A peer and its addresses, each address at most once.
#[derive(Debug, Clone)]
pub struct Peer {
    pub addr_to_last_ping: Vec<AddrEntry>,
    pub peer_id: u32,
}

/// The content of a peer.
pub struct PeerView {
    pub peer_id: u32,
    pub entries: Seq<AddrEntry>,
}

impl View for Peer {
    type V = PeerView;

    open spec fn view(&self) -> PeerView {
        PeerView { peer_id: self.peer_id, entries: self.addr_to_last_ping@ }
    }
}

/// No address occurs twice.
pub open spec fn addrs_unique(e: Seq<AddrEntry>) -> bool {
    forall|i: int, j: int| 0 <= i < e.len() && 0 <= j < e.len() && i != j ==> e[i].0 != e[j].0
}

/// The position of address `a`.
pub open spec fn addr_pos(e: Seq<AddrEntry>, a: PeerAddr) -> Option<nat>
    decreases e.len(),
{
    if e.len() == 0 {
        None
    } else if e[0].0 == a {
        Some(0)
    } else {
        match addr_pos(e.drop_first(), a) {
            Some(i) => Some(i + 1),
            None => None,
        }
    }
}

/// `e` with address `a` mapped to `v` (what `HashMap::insert` does).
pub open spec fn put(e: Seq<AddrEntry>, a: PeerAddr, v: Option<u64>) -> Seq<AddrEntry> {
    match addr_pos(e, a) {
        Some(i) => e.update(i as int, (a, v)),
        None => e.push((a, v)),
    }
}

/// `e` with each address of `addrs` that it lacks added as never answered there.
pub open spec fn learn(e: Seq<AddrEntry>, addrs: Seq<PeerAddr>) -> Seq<AddrEntry>
    decreases addrs.len(),
{
    if addrs.len() == 0 {
        e
    } else {
        let r = learn(e, addrs.drop_last());
        match addr_pos(r, addrs.last()) {
            Some(_) => r,
            None => r.push((addrs.last(), None)),
        }
    }
}

/// Never answered at that address, or not since `older_than`.
pub open spec fn is_old(v: Option<u64>, older_than: u64) -> bool {
    match v {
        Some(t) => t < older_than,
        None => true,
    }
}

/// The addresses of `e` that are old at `older_than`, in order.
pub open spec fn old_addrs(e: Seq<AddrEntry>, older_than: u64) -> Seq<PeerAddr>
    decreases e.len(),
{
    if e.len() == 0 {
        Seq::empty()
    } else {
        let r = old_addrs(e.drop_last(), older_than);
        if is_old(e.last().1, older_than) {
            r.push(e.last().0)
        } else {
            r
        }
    }
}

/// The entries of `e` that are not old at `older_than`, in order.
pub open spec fn fresh_entries(e: Seq<AddrEntry>, older_than: u64) -> Seq<AddrEntry>
    decreases e.len(),
{
    if e.len() == 0 {
        Seq::empty()
    } else {
        let r = fresh_entries(e.drop_last(), older_than);
        if !is_old(e.last().1, older_than) {
            r.push(e.last())
        } else {
            r
        }
    }
}

/// The addresses of `e`, in order.
pub open spec fn keys(e: Seq<AddrEntry>) -> Seq<PeerAddr> {
    e.map_values(|x: AddrEntry| x.0)
}

/// The position of the address the peer answered at last: the latest time wins,
/// and of equal times the later entry.
pub open spec fn latest_pos(e: Seq<AddrEntry>) -> Option<nat>
    decreases e.len(),
{
    if e.len() == 0 {
        None
    } else {
        let r = latest_pos(e.drop_last());
        match e.last().1 {
            Some(t) => match r {
                None => Some((e.len() - 1) as nat),
                Some(b) => if t >= e[b as int].1->0 {
                    Some((e.len() - 1) as nat)
                } else {
                    r
                },
            },
            None => r,
        }
    }
}

/// The address the peer answered at last, if it ever answered.
pub open spec fn latest_addr(e: Seq<AddrEntry>) -> Option<PeerAddr> {
    match latest_pos(e) {
        Some(i) => Some(e[i as int].0),
        None => None,
    }
}

/// The latest position is an answered entry with the largest time, and there is
/// one exactly when the peer ever answered.
pub proof fn lemma_latest_pos(e: Seq<AddrEntry>)
    ensures
        latest_pos(e) is None <==> !ever_answered(e),
        latest_pos(e) matches Some(b) ==> b < e.len() && e[b as int].1 is Some && forall|j: int|
            0 <= j < e.len() && e[j].1 is Some ==> e[j].1->0 <= e[b as int].1->0,
    decreases e.len(),
{
    if e.len() > 0 {
        let d = e.drop_last();
        lemma_latest_pos(d);
        if ever_answered(d) {
            let k = choose|k: int| 0 <= k < d.len() && d[k].1 is Some;
            assert(e[k] == d[k]);
        }
        if ever_answered(e) && !ever_answered(d) {
            let k = choose|k: int| 0 <= k < e.len() && e[k].1 is Some;
            if k < d.len() {
                assert(d[k] == e[k]);
            }
        }
        assert forall|j: int| 0 <= j < d.len() implies #[trigger] d[j] == e[j] by {}
        let n = e.len() - 1;
        match latest_pos(e) {
            Some(b) => {
                assert forall|j: int| 0 <= j < e.len() && e[j].1 is Some implies e[j].1->0
                    <= e[b as int].1->0 by {
                    if j < n {
                        assert(d[j] == e[j]);
                        match latest_pos(d) {
                            Some(bd) => {
                                assert(d[bd as int] == e[bd as int]);
                            },
                            None => {
                                assert(!ever_answered(d));
                                assert(d[j].1 is Some);
                            },
                        }
                    }
                }
                if b < n {
                    assert(d[b as int] == e[b as int]);
                }
            },
            None => {},
        }
    }
}

/// The peer answered at some address.
pub open spec fn ever_answered(e: Seq<AddrEntry>) -> bool {
    exists|i: int| 0 <= i < e.len() && e[i].1 is Some
}

/// `addr_pos` finds the first entry with that address.
pub proof fn lemma_addr_pos(e: Seq<AddrEntry>, a: PeerAddr, i: int)
    requires
        0 <= i <= e.len(),
        forall|k: int| 0 <= k < i ==> e[k].0 != a,
    ensures
        i < e.len() && e[i].0 == a ==> addr_pos(e, a) == Some(i as nat),
        i == e.len() ==> addr_pos(e, a) is None,
    decreases i,
{
    if i > 0 {
        lemma_addr_pos(e.drop_first(), a, i - 1);
    }
}

/// `addr_pos` points at an entry with that address.
pub proof fn lemma_addr_pos_bound(e: Seq<AddrEntry>, a: PeerAddr)
    ensures
        addr_pos(e, a) matches Some(i) ==> i < e.len() && e[i as int].0 == a,
        addr_pos(e, a) is None ==> forall|k: int| 0 <= k < e.len() ==> e[k].0 != a,
    decreases e.len(),
{
    if e.len() > 0 && e[0].0 != a {
        lemma_addr_pos_bound(e.drop_first(), a);
        if addr_pos(e.drop_first(), a) is None {
            assert forall|k: int| 0 <= k < e.len() implies e[k].0 != a by {
                if k > 0 {
                    assert(e[k] == e.drop_first()[k - 1]);
                }
            }
        }
    }
}

/// `put` keeps addresses distinct.
pub proof fn lemma_put_unique(e: Seq<AddrEntry>, a: PeerAddr, v: Option<u64>)
    requires
        addrs_unique(e),
    ensures
        addrs_unique(put(e, a, v)),
{
    lemma_addr_pos_bound(e, a);
    let r = put(e, a, v);
    assert forall|i: int, j: int|
        0 <= i < r.len() && 0 <= j < r.len() && i != j implies r[i].0 != r[j].0 by {
        match addr_pos(e, a) {
            Some(p) => {
                if i != p && j != p {
                    assert(r[i] == e[i] && r[j] == e[j]);
                } else if i == p {
                    assert(r[j] == e[j]);
                } else {
                    assert(r[i] == e[i]);
                }
            },
            None => {
                if i < e.len() && j < e.len() {
                    assert(r[i] == e[i] && r[j] == e[j]);
                } else if i < e.len() {
                    assert(r[i] == e[i]);
                } else {
                    assert(r[j] == e[j]);
                }
            },
        }
    }
}

/// The position of address `a` in `e`.
fn find_addr(e: &Vec<AddrEntry>, a: &PeerAddr) -> (r: Option<usize>)
    ensures
        match r {
            Some(i) => addr_pos(e@, *a) == Some(i as nat) && i < e@.len(),
            None => addr_pos(e@, *a) is None,
        },
{
    let mut i: usize = 0;
    while i < e.len()
        invariant
            i <= e@.len(),
            forall|k: int| 0 <= k < i ==> e@[k].0 != *a,
        decreases e@.len() - i,
    {
        if e[i].0.same(a) {
            proof {
                lemma_addr_pos(e@, *a, i as int);
            }
            return Some(i);
        }
        i = i + 1;
    }
    proof {
        lemma_addr_pos(e@, *a, i as int);
    }
    None
}

/// Maps address `a` to `v` in `e`.
fn put_entry(e: &mut Vec<AddrEntry>, a: PeerAddr, v: Option<u64>)
    requires
        addrs_unique(old(e)@),
    ensures
        final(e)@ == put(old(e)@, a, v),
        addrs_unique(final(e)@),
{
    proof {
        lemma_put_unique(e@, a, v);
    }
    match find_addr(e, &a) {
        Some(i) => {
            e[i] = (a, v);
        },
        None => {
            e.push((a, v));
        },
    }
}

impl Peer {
    /// Every address of the peer occurs once.
    pub open spec fn wf(&self) -> bool {
        addrs_unique(self.addr_to_last_ping@)
    }

    /// A copy of this peer.
    pub fn duplicate(&self) -> (r: Peer)
        ensures
            r@ == self@,
    {
        let mut e: Vec<AddrEntry> = Vec::new();
        let mut i: usize = 0;
        while i < self.addr_to_last_ping.len()
            invariant
                i <= self.addr_to_last_ping@.len(),
                e@ == self.addr_to_last_ping@.take(i as int),
            decreases self.addr_to_last_ping@.len() - i,
        {
            e.push(self.addr_to_last_ping[i]);
            i = i + 1;
            assert(e@ =~= self.addr_to_last_ping@.take(i as int));
        }
        assert(self.addr_to_last_ping@.take(i as int) =~= self.addr_to_last_ping@);
        Peer { addr_to_last_ping: e, peer_id: self.peer_id }
    }

    /// A peer with no known address.
    pub fn from_id(peer_id: u32) -> (r: Peer)
        ensures
            r.wf(),
            r@.peer_id == peer_id,
            r@.entries == Seq::<AddrEntry>::empty(),
    {
        Peer { addr_to_last_ping: Vec::new(), peer_id }
    }

    /// A peer seen at `addr` at `now`.
    pub fn from_seen_addr(peer_id: u32, addr: PeerAddr, now: u64) -> (r: Peer)
        ensures
            r.wf(),
            r@.peer_id == peer_id,
            r@.entries == seq![(addr, Some(now))],
    {
        let mut e: Vec<AddrEntry> = Vec::new();
        e.push((addr, Some(now)));
        assert(e@ =~= seq![(addr, Some(now))]);
        Peer { addr_to_last_ping: e, peer_id }
    }

    /// A peer known from gossip: its addresses, none of them answered yet.
    pub fn from_gossip(gossip: PeerGossip) -> (r: Peer)
        requires
            gossip.addr@.no_duplicates(),
        ensures
            r.wf(),
            r@.peer_id == gossip.peer_id,
            r@.entries == gossip.addr@.map_values(|a: PeerAddr| (a, None::<u64>)),
    {
        let mut e: Vec<AddrEntry> = Vec::new();
        let mut i: usize = 0;
        while i < gossip.addr.len()
            invariant
                i <= gossip.addr@.len(),
                gossip.addr@.no_duplicates(),
                e@ == gossip.addr@.take(i as int).map_values(|a: PeerAddr| (a, None::<u64>)),
            decreases gossip.addr@.len() - i,
        {
            e.push((gossip.addr[i], None));
            i = i + 1;
            assert(e@ =~= gossip.addr@.take(i as int).map_values(|a: PeerAddr| (a, None::<u64>)));
        }
        assert(gossip.addr@.take(i as int) =~= gossip.addr@);
        let r = Peer { addr_to_last_ping: e, peer_id: gossip.peer_id };
        assert(r.wf()) by {
            assert forall|x: int, y: int|
                0 <= x < e@.len() && 0 <= y < e@.len() && x != y implies e@[x].0 != e@[y].0 by {
                assert(e@[x].0 == gossip.addr@[x] && e@[y].0 == gossip.addr@[y]);
            }
        }
        r
    }

    /// The identifier and the addresses of this peer.
    pub fn get_gossip(&self) -> (r: PeerGossip)
        requires
            self.wf(),
        ensures
            r.peer_id == self.peer_id,
            r.addr@ == keys(self.addr_to_last_ping@),
            r.addr@.no_duplicates(),
    {
        let mut addr: Vec<PeerAddr> = Vec::new();
        let mut i: usize = 0;
        while i < self.addr_to_last_ping.len()
            invariant
                i <= self.addr_to_last_ping@.len(),
                addr@ == keys(self.addr_to_last_ping@.take(i as int)),
            decreases self.addr_to_last_ping@.len() - i,
        {
            addr.push(self.addr_to_last_ping[i].0);
            i = i + 1;
            assert(addr@ =~= keys(self.addr_to_last_ping@.take(i as int)));
        }
        assert(self.addr_to_last_ping@.take(i as int) =~= self.addr_to_last_ping@);
        assert(addr@.no_duplicates()) by {
            assert forall|x: int, y: int|
                0 <= x < addr@.len() && 0 <= y < addr@.len() && x != y implies addr@[x]
                != addr@[y] by {
                assert(addr@[x] == self.addr_to_last_ping@[x].0);
                assert(addr@[y] == self.addr_to_last_ping@[y].0);
            }
        }
        PeerGossip { peer_id: self.peer_id, addr }
    }

    /// The peer was heard from directly at `now`, at the address the message names.
    pub fn update_from_message(&mut self, message: &IncomingDiscoveryMessage, now: u64)
        requires
            old(self).wf(),
        ensures
            final(self).wf(),
            final(self).peer_id == old(self).peer_id,
            final(self).addr_to_last_ping@ == put(
                old(self).addr_to_last_ping@,
                message.from_peer_addr,
                Some(now),
            ),
    {
        put_entry(&mut self.addr_to_last_ping, message.from_peer_addr, Some(now));
    }

    /// Adds the addresses of `gossip` that the peer lacks, as never answered there.
    pub fn update_from_gossip(&mut self, gossip: &PeerGossip)
        requires
            old(self).wf(),
        ensures
            final(self).wf(),
            final(self).peer_id == old(self).peer_id,
            final(self).addr_to_last_ping@ == learn(old(self).addr_to_last_ping@, gossip.addr@),
    {
        let ghost e0 = self.addr_to_last_ping@;
        let mut i: usize = 0;
        assert(gossip.addr@.take(0) =~= Seq::<PeerAddr>::empty());
        while i < gossip.addr.len()
            invariant
                i <= gossip.addr@.len(),
                addrs_unique(self.addr_to_last_ping@),
                self.peer_id == old(self).peer_id,
                self.addr_to_last_ping@ == learn(e0, gossip.addr@.take(i as int)),
            decreases gossip.addr@.len() - i,
        {
            let a = gossip.addr[i];
            assert(gossip.addr@.take(i + 1).drop_last() =~= gossip.addr@.take(i as int));
            assert(gossip.addr@.take(i + 1).last() == a);
            match find_addr(&self.addr_to_last_ping, &a) {
                Some(_) => {},
                None => {
                    proof {
                        lemma_put_unique(self.addr_to_last_ping@, a, None);
                    }
                    self.addr_to_last_ping.push((a, None));
                },
            }
            i = i + 1;
        }
        assert(gossip.addr@.take(i as int) =~= gossip.addr@);
    }

    /// A peer with no known address should be dropped.
    pub fn should_be_dropped(&self) -> (r: bool)
        ensures
            r == (self.addr_to_last_ping@.len() == 0),
    {
        self.addr_to_last_ping.len() == 0
    }

    /// The peer answered at some address, so it can be told to others.
    pub fn is_trusty(&self) -> (r: bool)
        ensures
            r == ever_answered(self.addr_to_last_ping@),
    {
        let mut i: usize = 0;
        while i < self.addr_to_last_ping.len()
            invariant
                i <= self.addr_to_last_ping@.len(),
                forall|k: int| 0 <= k < i ==> self.addr_to_last_ping@[k].1 is None,
            decreases self.addr_to_last_ping@.len() - i,
        {
            if self.addr_to_last_ping[i].1.is_some() {
                return true;
            }
            i = i + 1;
        }
        false
    }

    /// The addresses never answered at, or not since `older_than`, in order.
    pub fn get_addresses_to_ping(&self, older_than: u64) -> (r: Vec<PeerAddr>)
        ensures
            r@ == old_addrs(self.addr_to_last_ping@, older_than),
    {
        self.get_old_addresses(older_than)
    }

    /// The address at which the peer answered last, if it ever answered (of
    /// equal times, the later entry).
    pub fn get_address(&self) -> (r: Option<PeerAddr>)
        ensures
            r == latest_addr(self.addr_to_last_ping@),
    {
        let e = &self.addr_to_last_ping;
        let mut best: Option<usize> = None;
        let mut i: usize = 0;
        while i < e.len()
            invariant
                i <= e@.len(),
                match best {
                    Some(b) => latest_pos(e@.take(i as int)) == Some(b as nat) && b < i,
                    None => latest_pos(e@.take(i as int)) is None,
                },
            decreases e@.len() - i,
        {
            let ghost t = e@.take(i + 1);
            assert(t.drop_last() =~= e@.take(i as int));
            proof {
                if let Some(b) = best {
                    assert(t[b as int] == e@[b as int]);
                }
            }
            match e[i].1 {
                Some(t) => {
                    match best {
                        None => {
                            best = Some(i);
                        },
                        Some(b) => {
                            let tb = match e[b].1 {
                                Some(x) => x,
                                None => 0,
                            };
                            proof {
                                lemma_latest_pos(e@.take(i as int));
                                assert(e@.take(i as int)[b as int] == e@[b as int]);
                            }
                            if t >= tb {
                                best = Some(i);
                            }
                        },
                    }
                },
                None => {},
            }
            i = i + 1;
        }
        assert(e@.take(i as int) =~= e@);
        match best {
            Some(b) => Some(e[b].0),
            None => None,
        }
    }

    /// Records that the peer answered at `addr` at `now`.
    pub fn refresh_addr(&mut self, addr: PeerAddr, now: u64)
        requires
            old(self).wf(),
        ensures
            final(self).wf(),
            final(self).peer_id == old(self).peer_id,
            final(self).addr_to_last_ping@ == put(old(self).addr_to_last_ping@, addr, Some(now)),
    {
        put_entry(&mut self.addr_to_last_ping, addr, Some(now));
    }

    /// The addresses never answered at, or not since `older_than`, in order.
    pub fn get_old_addresses(&self, older_than: u64) -> (r: Vec<PeerAddr>)
        ensures
            r@ == old_addrs(self.addr_to_last_ping@, older_than),
    {
        let e = &self.addr_to_last_ping;
        let mut out: Vec<PeerAddr> = Vec::new();
        let mut i: usize = 0;
        while i < e.len()
            invariant
                i <= e@.len(),
                out@ == old_addrs(e@.take(i as int), older_than),
            decreases e@.len() - i,
        {
            assert(e@.take(i + 1).drop_last() =~= e@.take(i as int));
            let old = match e[i].1 {
                Some(t) => t < older_than,
                None => true,
            };
            if old {
                out.push(e[i].0);
            }
            i = i + 1;
        }
        assert(e@.take(i as int) =~= e@);
        out
    }

    /// Forgets the addresses never answered at, or not since `older_than`.
    pub fn remove_old_addresses(&mut self, older_than: u64)
        requires
            old(self).wf(),
        ensures
            final(self).wf(),
            final(self).peer_id == old(self).peer_id,
            final(self).addr_to_last_ping@ == fresh_entries(old(self).addr_to_last_ping@, older_than),
    {
        let ghost e0 = self.addr_to_last_ping@;
        let mut out: Vec<AddrEntry> = Vec::new();
        let ghost mut idx: Seq<int> = Seq::empty();
        let mut i: usize = 0;
        while i < self.addr_to_last_ping.len()
            invariant
                i <= e0.len(),
                self.addr_to_last_ping@ == e0,
                addrs_unique(e0),
                out@ == fresh_entries(e0.take(i as int), older_than),
                idx.len() == out@.len(),
                forall|x: int| 0 <= x < idx.len() ==> 0 <= #[trigger] idx[x] < i && out@[x] == e0[idx[x]],
                forall|x: int, y: int| 0 <= x < y < idx.len() ==> idx[x] < idx[y],
            decreases e0.len() - i,
        {
            assert(e0.take(i + 1).drop_last() =~= e0.take(i as int));
            let entry = self.addr_to_last_ping[i];
            let keep = match entry.1 {
                Some(t) => t >= older_than,
                None => false,
            };
            if keep {
                out.push(entry);
                proof {
                    idx = idx.push(i as int);
                }
            }
            i = i + 1;
        }
        assert(e0.take(i as int) =~= e0);
        assert(addrs_unique(out@)) by {
            assert forall|x: int, y: int|
                0 <= x < out@.len() && 0 <= y < out@.len() && x != y implies out@[x].0 != out@[y].0 by {
                assert(out@[x] == e0[idx[x]] && out@[y] == e0[idx[y]]);
                if x < y {
                    assert(idx[x] < idx[y]);
                } else {
                    assert(idx[y] < idx[x]);
                }
            }
        }
        self.addr_to_last_ping = out;
    }
}

} // verus!

verus! {

/// An address is old in `e` exactly when some entry for it is old.
proof fn lemma_old_addrs_members(e: Seq<AddrEntry>, older_than: u64, a: PeerAddr)
    ensures
        old_addrs(e, older_than).contains(a) <==> exists|i: int|
            0 <= i < e.len() && #[trigger] e[i].0 == a && is_old(e[i].1, older_than),
    decreases e.len(),
{
    if e.len() > 0 {
        let d = e.drop_last();
        lemma_old_addrs_members(d, older_than, a);
        let r = old_addrs(d, older_than);
        if old_addrs(e, older_than).contains(a) {
            let j = choose|j: int| 0 <= j < old_addrs(e, older_than).len() && old_addrs(e, older_than)[j] == a;
            if j < r.len() {
                assert(r[j] == a);
                let i = choose|i: int| 0 <= i < d.len() && #[trigger] d[i].0 == a && is_old(d[i].1, older_than);
                assert(e[i] == d[i]);
            } else {
                assert(e[e.len() - 1].0 == a);
            }
        }
        if exists|i: int| 0 <= i < e.len() && #[trigger] e[i].0 == a && is_old(e[i].1, older_than) {
            let i = choose|i: int| 0 <= i < e.len() && #[trigger] e[i].0 == a && is_old(e[i].1, older_than);
            if i < d.len() {
                assert(d[i] == e[i]);
                let j = choose|j: int| 0 <= j < r.len() && r[j] == a;
                if is_old(e.last().1, older_than) {
                    assert(old_addrs(e, older_than)[j] == a);
                }
            } else {
                assert(old_addrs(e, older_than).last() == a);
            }
        }
    }
}

/// An address is kept by `fresh_entries` exactly when some entry for it is not old.
proof fn lemma_fresh_members(e: Seq<AddrEntry>, older_than: u64, a: PeerAddr)
    ensures
        keys(fresh_entries(e, older_than)).contains(a) <==> exists|i: int|
            0 <= i < e.len() && #[trigger] e[i].0 == a && !is_old(e[i].1, older_than),
    decreases e.len(),
{
    if e.len() > 0 {
        let d = e.drop_last();
        lemma_fresh_members(d, older_than, a);
        let r = fresh_entries(d, older_than);
        let f = fresh_entries(e, older_than);
        if keys(f).contains(a) {
            let j = choose|j: int| 0 <= j < keys(f).len() && keys(f)[j] == a;
            if j < r.len() {
                assert(keys(r)[j] == a);
                let i = choose|i: int| 0 <= i < d.len() && #[trigger] d[i].0 == a && !is_old(d[i].1, older_than);
                assert(e[i] == d[i]);
            } else {
                assert(e[e.len() - 1].0 == a);
            }
        }
        if exists|i: int| 0 <= i < e.len() && #[trigger] e[i].0 == a && !is_old(e[i].1, older_than) {
            let i = choose|i: int| 0 <= i < e.len() && #[trigger] e[i].0 == a && !is_old(e[i].1, older_than);
            if i < d.len() {
                assert(d[i] == e[i]);
                let j = choose|j: int| 0 <= j < keys(r).len() && keys(r)[j] == a;
                assert(f[j] == r[j]);
                assert(keys(f)[j] == a);
            } else {
                assert(keys(f)[f.len() - 1] == a);
            }
        }
    }
}

/// No entry that `fresh_entries` keeps is old.
proof fn lemma_fresh_all_new(e: Seq<AddrEntry>, older_than: u64)
    ensures
        forall|j: int|
            0 <= j < fresh_entries(e, older_than).len() ==> !is_old(
                #[trigger] fresh_entries(e, older_than)[j].1,
                older_than,
            ),
    decreases e.len(),
{
    if e.len() > 0 {
        let d = e.drop_last();
        lemma_fresh_all_new(d, older_than);
        let r = fresh_entries(d, older_than);
        let f = fresh_entries(e, older_than);
        assert forall|j: int| 0 <= j < f.len() implies !is_old(#[trigger] f[j].1, older_than) by {
            if j < r.len() {
                assert(f[j] == r[j]);
            }
        }
    }
}

proof fn lemma_no_old_among(s: Seq<AddrEntry>, older_than: u64)
    requires
        forall|j: int| 0 <= j < s.len() ==> !is_old(#[trigger] s[j].1, older_than),
    ensures
        old_addrs(s, older_than).len() == 0,
    decreases s.len(),
{
    if s.len() > 0 {
        let d = s.drop_last();
        assert forall|j: int| 0 <= j < d.len() implies !is_old(#[trigger] d[j].1, older_than) by {
            assert(d[j] == s[j]);
        }
        lemma_no_old_among(d, older_than);
    }
}

/// The old addresses (those pinged and pruned) and the addresses that pruning
/// keeps split the addresses of a peer: no address is in both, every address is
/// in one of them, and after pruning no address is old.
pub proof fn law_old_and_kept_split(e: Seq<AddrEntry>, older_than: u64)
    requires
        addrs_unique(e),
    ensures
        forall|a: PeerAddr|
            !(#[trigger] old_addrs(e, older_than).contains(a) && keys(fresh_entries(e, older_than)).contains(a)),
        forall|a: PeerAddr|
            #[trigger] keys(e).contains(a) <==> (old_addrs(e, older_than).contains(a) || keys(
                fresh_entries(e, older_than),
            ).contains(a)),
        old_addrs(fresh_entries(e, older_than), older_than).len() == 0,
{
    assert forall|a: PeerAddr|
        !(#[trigger] old_addrs(e, older_than).contains(a) && keys(fresh_entries(e, older_than)).contains(a)) by {
        lemma_old_addrs_members(e, older_than, a);
        lemma_fresh_members(e, older_than, a);
        if old_addrs(e, older_than).contains(a) && keys(fresh_entries(e, older_than)).contains(a) {
            let i = choose|i: int| 0 <= i < e.len() && #[trigger] e[i].0 == a && is_old(e[i].1, older_than);
            let j = choose|j: int| 0 <= j < e.len() && #[trigger] e[j].0 == a && !is_old(e[j].1, older_than);
            assert(i != j);
        }
    }
    assert forall|a: PeerAddr|
        #[trigger] keys(e).contains(a) <==> (old_addrs(e, older_than).contains(a) || keys(
            fresh_entries(e, older_than),
        ).contains(a)) by {
        lemma_old_addrs_members(e, older_than, a);
        lemma_fresh_members(e, older_than, a);
        if keys(e).contains(a) {
            let i = choose|i: int| 0 <= i < keys(e).len() && keys(e)[i] == a;
            assert(e[i].0 == a);
        }
        if old_addrs(e, older_than).contains(a) {
            let i = choose|i: int| 0 <= i < e.len() && #[trigger] e[i].0 == a && is_old(e[i].1, older_than);
            assert(keys(e)[i] == a);
        }
        if keys(fresh_entries(e, older_than)).contains(a) {
            let i = choose|i: int| 0 <= i < e.len() && #[trigger] e[i].0 == a && !is_old(e[i].1, older_than);
            assert(keys(e)[i] == a);
        }
    }
    lemma_fresh_all_new(e, older_than);
    lemma_no_old_among(fresh_entries(e, older_than), older_than);
}

} // verus!
