//! Peers, their identifiers and the table of known peers with its
//! suspect / faulty classification by the time of the last ping.
use vstd::prelude::*;
use crate::addr::PeerAddr;
use crate::bootstrap_discovery::DiscoveryError;
use crate::decimal::{dec, decimal_chars, parse_unsigned, parse_unsigned_chars, ParseIntErrorKind};
use crate::text::{chars_string, str_chars, trim, trim_chars};

verus! {

/// The identifier of a peer.
#[derive(Debug, Clone, Copy, PartialEq, Eq, Hash, PartialOrd, Ord, Structural)]
pub struct PeerId(pub u32);

/// The identifier that the text `s` denotes after trimming whitespace, as
/// `PeerId::from_string` reads it.
pub open spec fn peer_id_from_text(s: Seq<char>) -> Result<PeerId, DiscoveryError> {
    match parse_unsigned(trim(s), u32::MAX as nat) {
        Ok(v) => Ok(PeerId(v as u32)),
        Err(k) => Err(DiscoveryError::InvalidIntNumber(k)),
    }
}

/// `rand::rng().random_range(low..high)`: a number drawn from the thread-local
/// generator, with `low <= r < high`; which one is left open.
#[verifier::external_body]
fn random_in_range(low: u32, high: u32) -> (r: u32)
    requires
        low < high,
    ensures
        low <= r < high,
{
    rand::RngExt::random_range(&mut rand::rng(), low..high)
}

impl PeerId {
    pub fn new(id: u32) -> (r: PeerId)
        ensures
            r == PeerId(id),
    {
        PeerId(id)
    }

    /// A random identifier between 1 and `u32::MAX - 1`.
    pub fn generate() -> (r: PeerId)
        ensures
            1 <= r.0 < u32::MAX,
    {
        PeerId::new(random_in_range(1, u32::MAX))
    }

    /// Reads an identifier, surrounding whitespace ignored.
    pub fn from_string(s: &str) -> (r: Result<PeerId, DiscoveryError>)
        ensures
            r == peer_id_from_text(s@),
    {
        let chars = str_chars(s);
        Self::from_chars(&chars)
    }

    /// Reads an identifier from characters, surrounding whitespace ignored.
    pub fn from_chars(s: &Vec<char>) -> (r: Result<PeerId, DiscoveryError>)
        ensures
            r == peer_id_from_text(s@),
    {
        let t = trim_chars(s);
        match parse_unsigned_chars(&t, u32::MAX) {
            Ok(v) => Ok(PeerId(v)),
            Err(k) => Err(DiscoveryError::InvalidIntNumber(k)),
        }
    }

    /// The decimal text of the identifier.
    pub fn to_string(&self) -> (r: String)
        ensures
            r@ == dec(self.0 as nat),
    {
        chars_string(&decimal_chars(self.0))
    }
}

/// What a peer knows of another peer's address.
#[derive(Debug, Clone, Copy, PartialEq, Eq, Structural)]
pub struct Gossip {
    pub peer_id: PeerId,
    pub addr: PeerAddr,
}

/// A known peer: its identifier, the address to reach it at, and when it last
/// answered (milliseconds on the node's clock).
#[derive(Debug, Clone, Copy)]
pub struct Peer {
    pub peer_id: PeerId,
    pub addr: PeerAddr,
    pub last_ping: Option<u64>,
}

impl Peer {
    /// A peer that has not answered yet.
    pub fn new(peer_id: PeerId, addr: PeerAddr) -> (r: Peer)
        ensures
            r == (Peer { peer_id, addr, last_ping: None }),
    {
        Peer { peer_id, addr, last_ping: None }
    }

    pub fn get_addr(&self) -> (r: PeerAddr)
        ensures
            r == self.addr,
    {
        self.addr
    }

    pub fn get_last_ping(&self) -> (r: Option<u64>)
        ensures
            r == self.last_ping,
    {
        self.last_ping
    }

    /// Takes the address that the gossip reports.
    pub fn refresh_from_gossip(&mut self, gossip: Gossip)
        ensures
            *final(self) == (Peer { addr: gossip.addr, ..*old(self) }),
    {
        self.addr = gossip.addr;
    }

    /// Records that the peer answered at `now`.
    pub fn refresh_from_ping(&mut self, now: u64)
        ensures
            *final(self) == (Peer { last_ping: Some(now), ..*old(self) }),
    {
        self.last_ping = Some(now);
    }

    /// What this peer tells others of itself.
    pub fn to_gossip(&self) -> (r: Gossip)
        ensures
            r == (Gossip { peer_id: self.peer_id, addr: self.addr }),
    {
        Gossip { peer_id: self.peer_id, addr: self.get_addr() }
    }
}

// ---------------------------------------------------------------------------
// Classification by time
// ---------------------------------------------------------------------------

/// The time from `t` to `now`, zero when `t` is later (what `Instant::elapsed` gives).
pub open spec fn elapsed(now: u64, t: u64) -> int {
    if now >= t {
        now - t
    } else {
        0
    }
}

/// A peer that answered less than `tt_suspect` ago.
pub open spec fn is_trusty(p: Peer, now: u64, tt_suspect: u64) -> bool {
    match p.last_ping {
        Some(t) => elapsed(now, t) < tt_suspect,
        None => false,
    }
}

/// A peer that never answered, or answered more than `tt_suspect` ago.
pub open spec fn is_suspect(p: Peer, now: u64, tt_suspect: u64) -> bool {
    match p.last_ping {
        Some(t) => elapsed(now, t) > tt_suspect,
        None => true,
    }
}

/// A peer that never answered, or answered more than `tt_faulty` ago.
pub open spec fn is_faulty(p: Peer, now: u64, tt_faulty: u64) -> bool {
    match p.last_ping {
        Some(t) => elapsed(now, t) > tt_faulty,
        None => true,
    }
}

fn elapsed_exec(now: u64, t: u64) -> (r: u64)
    ensures
        r == elapsed(now, t),
{
    if now >= t {
        now - t
    } else {
        0
    }
}

// ---------------------------------------------------------------------------
// Sequences of peers
// ---------------------------------------------------------------------------

/// No two peers of `s` share an identifier.
pub open spec fn ids_unique(s: Seq<Peer>) -> bool {
    forall|i: int, j: int|
        0 <= i < s.len() && 0 <= j < s.len() && i != j ==> s[i].peer_id != s[j].peer_id
}

/// The position of the peer with identifier `id` in `s`.
pub open spec fn id_index(s: Seq<Peer>, id: PeerId) -> Option<nat>
    decreases s.len(),
{
    if s.len() == 0 {
        None
    } else if s[0].peer_id == id {
        Some(0)
    } else {
        match id_index(s.drop_first(), id) {
            Some(i) => Some(i + 1),
            None => None,
        }
    }
}

/// `s` with `p` in place of the peer of the same identifier, or `p` appended
/// (what `HashMap::insert` does to the table).
pub open spec fn insert_peer(s: Seq<Peer>, p: Peer) -> Seq<Peer> {
    match id_index(s, p.peer_id) {
        Some(i) => s.update(i as int, p),
        None => s.push(p),
    }
}

/// `s` after the peer `id` answered from `addr` at `now`: its last ping is `now`,
/// or it is added with that ping when unknown.
pub open spec fn pinged(s: Seq<Peer>, id: PeerId, addr: PeerAddr, now: u64) -> Seq<Peer> {
    match id_index(s, id) {
        Some(i) => s.update(i as int, Peer { last_ping: Some(now), ..s[i as int] }),
        None => s.push(Peer { peer_id: id, addr, last_ping: Some(now) }),
    }
}

/// `s` after gossip `g`: the peer takes the reported address, or is added with it.
pub open spec fn gossiped(s: Seq<Peer>, g: Gossip) -> Seq<Peer> {
    match id_index(s, g.peer_id) {
        Some(i) => s.update(i as int, Peer { addr: g.addr, ..s[i as int] }),
        None => s.push(Peer { peer_id: g.peer_id, addr: g.addr, last_ping: None }),
    }
}

/// The peers of `s` that satisfy `keep`, in order.
pub open spec fn peers_where(s: Seq<Peer>, keep: spec_fn(Peer) -> bool) -> Seq<Peer>
    decreases s.len(),
{
    if s.len() == 0 {
        Seq::empty()
    } else {
        let r = peers_where(s.drop_last(), keep);
        if keep(s.last()) {
            r.push(s.last())
        } else {
            r
        }
    }
}

/// `id_index` finds the first peer with that identifier.
pub proof fn lemma_id_index(s: Seq<Peer>, id: PeerId, i: int)
    requires
        0 <= i <= s.len(),
        forall|k: int| 0 <= k < i ==> s[k].peer_id != id,
    ensures
        i < s.len() && s[i].peer_id == id ==> id_index(s, id) == Some(i as nat),
        i == s.len() ==> id_index(s, id) is None,
    decreases i,
{
    if i > 0 {
        lemma_id_index(s.drop_first(), id, i - 1);
    }
}

/// `id_index` points at a peer with that identifier.
pub proof fn lemma_id_index_bound(s: Seq<Peer>, id: PeerId)
    ensures
        id_index(s, id) matches Some(i) ==> i < s.len() && s[i as int].peer_id == id,
        id_index(s, id) is None ==> forall|k: int| 0 <= k < s.len() ==> s[k].peer_id != id,
    decreases s.len(),
{
    if s.len() > 0 && s[0].peer_id != id {
        lemma_id_index_bound(s.drop_first(), id);
        if id_index(s.drop_first(), id) is None {
            assert forall|k: int| 0 <= k < s.len() implies s[k].peer_id != id by {
                if k > 0 {
                    assert(s[k] == s.drop_first()[k - 1]);
                }
            }
        }
    }
}

/// The peers kept by `peers_where` are peers of `s`.
pub proof fn lemma_peers_where_members(s: Seq<Peer>, keep: spec_fn(Peer) -> bool)
    ensures
        forall|j: int|
            0 <= j < peers_where(s, keep).len() ==> exists|k: int|
                0 <= k < s.len() && #[trigger] peers_where(s, keep)[j] == s[k],
        forall|j: int|
            0 <= j < peers_where(s, keep).len() ==> keep(#[trigger] peers_where(s, keep)[j]),
        peers_where(s, keep).len() <= s.len(),
    decreases s.len(),
{
    if s.len() > 0 {
        let s1 = s.drop_last();
        lemma_peers_where_members(s1, keep);
        let r = peers_where(s, keep);
        assert forall|j: int| 0 <= j < r.len() implies exists|k: int|
            0 <= k < s.len() && #[trigger] r[j] == s[k] by {
            if j < peers_where(s1, keep).len() {
                let k = choose|k: int| 0 <= k < s1.len() && peers_where(s1, keep)[j] == s1[k];
                assert(r[j] == s[k]);
            } else {
                assert(r[j] == s[s.len() - 1]);
            }
        }
    }
}

/// Keeping some of the peers keeps the identifiers distinct.
pub proof fn lemma_peers_where_unique(s: Seq<Peer>, keep: spec_fn(Peer) -> bool)
    requires
        ids_unique(s),
    ensures
        ids_unique(peers_where(s, keep)),
    decreases s.len(),
{
    if s.len() > 0 {
        let s1 = s.drop_last();
        assert(ids_unique(s1)) by {
            assert forall|i: int, j: int|
                0 <= i < s1.len() && 0 <= j < s1.len() && i != j implies s1[i].peer_id
                != s1[j].peer_id by {
                assert(s1[i] == s[i] && s1[j] == s[j]);
            }
        }
        lemma_peers_where_unique(s1, keep);
        lemma_peers_where_members(s1, keep);
        let r1 = peers_where(s1, keep);
        if keep(s.last()) {
            let r = r1.push(s.last());
            assert forall|i: int, j: int|
                0 <= i < r.len() && 0 <= j < r.len() && i != j implies r[i].peer_id
                != r[j].peer_id by {
                if i < r1.len() && j < r1.len() {
                    assert(r[i] == r1[i] && r[j] == r1[j]);
                } else if i < r1.len() {
                    let k = choose|k: int| 0 <= k < s1.len() && #[trigger] r1[i] == s1[k];
                    assert(s[k] == s1[k]);
                    assert(r[j] == s[s.len() - 1]);
                } else {
                    let k = choose|k: int| 0 <= k < s1.len() && #[trigger] r1[j] == s1[k];
                    assert(s[k] == s1[k]);
                    assert(r[i] == s[s.len() - 1]);
                }
            }
        }
    }
}

/// Inserting keeps the identifiers distinct and makes the peer present.
pub proof fn lemma_insert_peer(s: Seq<Peer>, p: Peer)
    requires
        ids_unique(s),
    ensures
        ids_unique(insert_peer(s, p)),
        id_index(insert_peer(s, p), p.peer_id) matches Some(i) && insert_peer(s, p)[i as int]
            == p,
{
    lemma_id_index_bound(s, p.peer_id);
    let r = insert_peer(s, p);
    match id_index(s, p.peer_id) {
        Some(i) => {
            assert forall|a: int, b: int|
                0 <= a < r.len() && 0 <= b < r.len() && a != b implies r[a].peer_id
                != r[b].peer_id by {
                if a != i && b != i {
                    assert(r[a] == s[a] && r[b] == s[b]);
                }
            }
            assert forall|k: int| 0 <= k < i implies r[k].peer_id != p.peer_id by {
                assert(r[k] == s[k]);
            }
            lemma_id_index(r, p.peer_id, i as int);
        },
        None => {
            assert forall|k: int| 0 <= k < s.len() implies r[k].peer_id != p.peer_id by {
                assert(r[k] == s[k]);
            }
            lemma_id_index(r, p.peer_id, s.len() as int);
        },
    }
}

// ---------------------------------------------------------------------------
// The table of known peers
// ---------------------------------------------------------------------------

/// The known peers, at most one per identifier, with the times after which a
/// silent peer is suspected and then taken for faulty (milliseconds).
pub struct PeerList {
    pub tt_suspect: u64,
    pub tt_faulty: u64,
    pub peers: Vec<Peer>,
}

impl View for PeerList {
    type V = Seq<Peer>;

    open spec fn view(&self) -> Seq<Peer> {
        self.peers@
    }
}

impl PeerList {
    /// The table holds at most one peer per identifier.
    pub open spec fn wf(&self) -> bool {
        ids_unique(self@)
    }

    pub fn new(tt_suspect: u64, tt_faulty: u64) -> (r: PeerList)
        ensures
            r.wf(),
            r@ == Seq::<Peer>::empty(),
            r.tt_suspect == tt_suspect,
            r.tt_faulty == tt_faulty,
    {
        PeerList { tt_faulty, tt_suspect, peers: Vec::new() }
    }

    /// The number of known peers.
    pub fn len(&self) -> (r: usize)
        ensures
            r == self@.len(),
    {
        self.peers.len()
    }

    /// The position of the peer with identifier `id`.
    fn find(&self, id: PeerId) -> (r: Option<usize>)
        ensures
            match r {
                Some(i) => id_index(self@, id) == Some(i as nat) && i < self@.len(),
                None => id_index(self@, id) is None,
            },
    {
        let mut i: usize = 0;
        while i < self.peers.len()
            invariant
                i <= self.peers@.len(),
                forall|k: int| 0 <= k < i ==> self.peers@[k].peer_id != id,
            decreases self.peers@.len() - i,
        {
            if self.peers[i].peer_id.0 == id.0 {
                proof {
                    lemma_id_index(self.peers@, id, i as int);
                }
                return Some(i);
            }
            i = i + 1;
        }
        proof {
            lemma_id_index(self.peers@, id, i as int);
        }
        None
    }

    /// The peer with identifier `id`, if known.
    pub fn get(&self, id: PeerId) -> (r: Option<Peer>)
        ensures
            match id_index(self@, id) {
                Some(i) => r == Some(self@[i as int]),
                None => r is None,
            },
    {
        match self.find(id) {
            Some(i) => Some(self.peers[i]),
            None => None,
        }
    }

    /// Puts `p` in the table, replacing the peer with its identifier.
    fn insert(&mut self, p: Peer)
        requires
            old(self).wf(),
        ensures
            final(self).wf(),
            final(self)@ == insert_peer(old(self)@, p),
            final(self).tt_suspect == old(self).tt_suspect,
            final(self).tt_faulty == old(self).tt_faulty,
    {
        proof {
            lemma_insert_peer(self@, p);
        }
        match self.find(p.peer_id) {
            Some(i) => {
                self.peers[i] = p;
            },
            None => {
                self.peers.push(p);
            },
        }
    }

    /// Adds `peer` as one that answered at `now`.
    pub fn add_trusty_peer(&mut self, peer: Peer, now: u64)
        requires
            old(self).wf(),
        ensures
            final(self).wf(),
            final(self)@ == insert_peer(old(self)@, Peer { last_ping: Some(now), ..peer }),
            final(self).tt_suspect == old(self).tt_suspect,
            final(self).tt_faulty == old(self).tt_faulty,
    {
        let mut peer = peer;
        peer.refresh_from_ping(now);
        self.insert(peer);
    }

    /// The known peer with identifier `peer_id`, or a new one at `addr` that is added.
    pub fn get_or_create(&mut self, peer_id: PeerId, addr: PeerAddr) -> (r: Peer)
        requires
            old(self).wf(),
        ensures
            final(self).wf(),
            final(self).tt_suspect == old(self).tt_suspect,
            final(self).tt_faulty == old(self).tt_faulty,
            match id_index(old(self)@, peer_id) {
                Some(i) => r == old(self)@[i as int] && final(self)@ == old(self)@,
                None => r == Peer::new_spec(peer_id, addr) && final(self)@ == old(self)@.push(r),
            },
    {
        match self.find(peer_id) {
            Some(i) => self.peers[i],
            None => {
                let p = Peer::new(peer_id, addr);
                proof {
                    lemma_insert_peer(self@, p);
                }
                self.peers.push(p);
                p
            },
        }
    }

    /// Records that peer `id` answered from `addr` at `now` (the peer is created
    /// when unknown, then refreshed).
    pub fn record_ping(&mut self, id: PeerId, addr: PeerAddr, now: u64)
        requires
            old(self).wf(),
        ensures
            final(self).wf(),
            final(self)@ == pinged(old(self)@, id, addr, now),
            final(self).tt_suspect == old(self).tt_suspect,
            final(self).tt_faulty == old(self).tt_faulty,
    {
        let ghost s0 = self@;
        let mut p = self.get_or_create(id, addr);
        proof {
            lemma_id_index_bound(s0, id);
            if id_index(s0, id) is None {
                lemma_id_index(self@, id, s0.len() as int);
            }
        }
        p.refresh_from_ping(now);
        self.update(p);
        assert(self@ =~= pinged(s0, id, addr, now));
    }

    /// Applies gossip `g`: the peer is created at the reported address when
    /// unknown, else takes that address.
    pub fn record_gossip(&mut self, g: Gossip)
        requires
            old(self).wf(),
        ensures
            final(self).wf(),
            final(self)@ == gossiped(old(self)@, g),
            final(self).tt_suspect == old(self).tt_suspect,
            final(self).tt_faulty == old(self).tt_faulty,
    {
        let ghost s0 = self@;
        let mut p = self.get_or_create(g.peer_id, g.addr);
        proof {
            lemma_id_index_bound(s0, g.peer_id);
            if id_index(s0, g.peer_id) is None {
                lemma_id_index(self@, g.peer_id, s0.len() as int);
            }
        }
        p.refresh_from_gossip(g);
        self.update(p);
        assert(self@ =~= gossiped(s0, g));
    }

    /// Replaces the peer with the same identifier by `p`; no change when it is unknown.
    pub fn update(&mut self, p: Peer)
        requires
            old(self).wf(),
        ensures
            final(self).wf(),
            final(self).tt_suspect == old(self).tt_suspect,
            final(self).tt_faulty == old(self).tt_faulty,
            match id_index(old(self)@, p.peer_id) {
                Some(i) => final(self)@ == old(self)@.update(i as int, p),
                None => final(self)@ == old(self)@,
            },
    {
        proof {
            lemma_insert_peer(self@, p);
        }
        match self.find(p.peer_id) {
            Some(i) => {
                self.peers[i] = p;
            },
            None => {},
        }
    }

    /// The peers that meet `c` at `now`, in table order.
    fn select(&self, c: Criterion, now: u64) -> (r: Vec<Peer>)
        ensures
            r@ == peers_where(self@, keep_fn(c, now, self.tt_suspect, self.tt_faulty)),
    {
        let ghost keep = keep_fn(c, now, self.tt_suspect, self.tt_faulty);
        let mut out: Vec<Peer> = Vec::new();
        let mut i: usize = 0;
        while i < self.peers.len()
            invariant
                i <= self.peers@.len(),
                keep == keep_fn(c, now, self.tt_suspect, self.tt_faulty),
                out@ == peers_where(self.peers@.take(i as int), keep),
            decreases self.peers@.len() - i,
        {
            let p = self.peers[i];
            let b = match p.last_ping {
                Some(t) => {
                    let e = elapsed_exec(now, t);
                    match c {
                        Criterion::Trusty => e < self.tt_suspect,
                        Criterion::Suspect => e > self.tt_suspect,
                        Criterion::NotFaulty => e <= self.tt_faulty,
                    }
                },
                None => match c {
                    Criterion::Suspect => true,
                    _ => false,
                },
            };
            assert(b == keep(p));
            assert(self.peers@.take(i + 1).drop_last() =~= self.peers@.take(i as int));
            if b {
                out.push(p);
            }
            i = i + 1;
        }
        assert(self.peers@.take(i as int) =~= self.peers@);
        out
    }

    /// The peers that answered less than `tt_suspect` before `now`, at most
    /// `peers_number` of them (all when `None`), in table order.
    pub fn get_trusty_peers(&self, peers_number: Option<usize>, now: u64) -> (r: Vec<Peer>)
        requires
            self.wf(),
        ensures
            r@ == first_n(
                trusty(self@, now, self.tt_suspect),
                match peers_number {
                    Some(k) => k as nat,
                    None => self@.len(),
                },
            ),
            ids_unique(r@),
    {
        let ghost keep = keep_fn(Criterion::Trusty, now, self.tt_suspect, self.tt_faulty);
        let k = match peers_number {
            Some(k) => k,
            None => self.peers.len(),
        };
        let mut r = self.select(Criterion::Trusty, now);
        proof {
            lemma_peers_where_members(self@, keep);
            lemma_peers_where_unique(self@, keep);
        }
        let ghost full = r@;
        r.truncate(k);
        proof {
            assert forall|i: int, j: int|
                0 <= i < r@.len() && 0 <= j < r@.len() && i != j implies r@[i].peer_id
                != r@[j].peer_id by {
                assert(r@[i] == full[i] && r@[j] == full[j]);
            }
            if k >= full.len() {
                assert(full.take(full.len() as int) =~= full);
            }
        }
        r
    }

    /// The peers that never answered or answered more than `tt_suspect` before `now`.
    pub fn get_suspects(&self, now: u64) -> (r: Vec<Peer>)
        requires
            self.wf(),
        ensures
            r@ == suspects(self@, now, self.tt_suspect),
            ids_unique(r@),
    {
        let ghost keep = keep_fn(Criterion::Suspect, now, self.tt_suspect, self.tt_faulty);
        proof {
            lemma_peers_where_unique(self@, keep);
        }
        self.select(Criterion::Suspect, now)
    }

    /// Drops the peers that never answered or answered more than `tt_faulty` before `now`.
    pub fn remove_faulty_peers(&mut self, now: u64)
        requires
            old(self).wf(),
        ensures
            final(self).wf(),
            final(self)@ == not_faulty(old(self)@, now, old(self).tt_faulty),
            final(self).tt_suspect == old(self).tt_suspect,
            final(self).tt_faulty == old(self).tt_faulty,
    {
        let ghost keep = keep_fn(Criterion::NotFaulty, now, self.tt_suspect, self.tt_faulty);
        proof {
            lemma_peers_where_unique(self@, keep);
        }
        let kept = self.select(Criterion::NotFaulty, now);
        self.peers = kept;
    }
}

/// Which peers a selection keeps.
enum Criterion {
    Trusty,
    Suspect,
    NotFaulty,
}

spec fn keep_fn(c: Criterion, now: u64, tt_suspect: u64, tt_faulty: u64) -> spec_fn(Peer) -> bool {
    match c {
        Criterion::Trusty => |p: Peer| is_trusty(p, now, tt_suspect),
        Criterion::Suspect => |p: Peer| is_suspect(p, now, tt_suspect),
        Criterion::NotFaulty => |p: Peer| !is_faulty(p, now, tt_faulty),
    }
}

impl Peer {
    pub open spec fn new_spec(peer_id: PeerId, addr: PeerAddr) -> Peer {
        Peer { peer_id, addr, last_ping: None }
    }
}

/// The first `n` elements of `s`, or all when there are fewer.
pub open spec fn first_n<A>(s: Seq<A>, n: nat) -> Seq<A> {
    if n < s.len() {
        s.take(n as int)
    } else {
        s
    }
}

/// The peers that answered less than `tt_suspect` before `now`, in table order.
pub open spec fn trusty(s: Seq<Peer>, now: u64, tt_suspect: u64) -> Seq<Peer> {
    peers_where(s, |p: Peer| is_trusty(p, now, tt_suspect))
}

/// The peers that are suspected at `now`, in table order.
pub open spec fn suspects(s: Seq<Peer>, now: u64, tt_suspect: u64) -> Seq<Peer> {
    peers_where(s, |p: Peer| is_suspect(p, now, tt_suspect))
}

/// The peers that are not faulty at `now`, in table order.
pub open spec fn not_faulty(s: Seq<Peer>, now: u64, tt_faulty: u64) -> Seq<Peer> {
    peers_where(s, |p: Peer| !is_faulty(p, now, tt_faulty))
}

} // verus!

verus! {

/// Every peer of `s` that satisfies `keep` is among the peers `peers_where` keeps.
proof fn lemma_peers_where_complete(s: Seq<Peer>, keep: spec_fn(Peer) -> bool, k: int)
    requires
        0 <= k < s.len(),
        keep(s[k]),
    ensures
        peers_where(s, keep).contains(s[k]),
    decreases s.len(),
{
    let s1 = s.drop_last();
    if k == s.len() - 1 {
        assert(peers_where(s, keep).last() == s[k]);
    } else {
        assert(s1[k] == s[k]);
        lemma_peers_where_complete(s1, keep, k);
        let r1 = peers_where(s1, keep);
        let j = choose|j: int| 0 <= j < r1.len() && r1[j] == s[k];
        if keep(s.last()) {
            assert(peers_where(s, keep)[j] == r1[j]);
        }
    }
}

/// A peer that answered at `now` is trusty at `now` exactly when the time to
/// suspect a silent peer is not zero.
pub proof fn law_just_answered_is_trusty(p: Peer, now: u64, tt_suspect: u64)
    ensures
        is_trusty(Peer { last_ping: Some(now), ..p }, now, tt_suspect) <==> tt_suspect > 0,
{
}

/// No peer is trusty and suspect at once.
pub proof fn law_trusty_excludes_suspect(p: Peer, now: u64, tt_suspect: u64)
    ensures
        !(is_trusty(p, now, tt_suspect) && is_suspect(p, now, tt_suspect)),
{
}

/// Removing the faulty peers keeps exactly the peers that are not faulty: none
/// that is left is faulty, and each one that is not faulty is left.
pub proof fn law_remove_faulty_keeps_exactly(s: Seq<Peer>, now: u64, tt_faulty: u64)
    ensures
        forall|j: int|
            0 <= j < not_faulty(s, now, tt_faulty).len() ==> !is_faulty(
                #[trigger] not_faulty(s, now, tt_faulty)[j],
                now,
                tt_faulty,
            ),
        forall|k: int|
            0 <= k < s.len() && !is_faulty(#[trigger] s[k], now, tt_faulty) ==> not_faulty(
                s,
                now,
                tt_faulty,
            ).contains(s[k]),
{
    let keep = |p: Peer| !is_faulty(p, now, tt_faulty);
    lemma_peers_where_members(s, keep);
    assert forall|k: int| 0 <= k < s.len() && !is_faulty(#[trigger] s[k], now, tt_faulty) implies not_faulty(
        s,
        now,
        tt_faulty,
    ).contains(s[k]) by {
        lemma_peers_where_complete(s, keep, k);
    }
}

} // verus!
