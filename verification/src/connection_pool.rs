//! The bookkeeping of a pool of open connections, at most one per peer address:
//! what is handed out, replaced, dropped and handed back.
use vstd::prelude::*;
use crate::addr::PeerAddr;

verus! {

/// No two entries share an address.
pub open spec fn keys_unique<C>(s: Seq<(PeerAddr, C)>) -> bool {
    forall|i: int, j: int| 0 <= i < s.len() && 0 <= j < s.len() && i != j ==> s[i].0 != s[j].0
}

/// The entries as a map from address to connection (a later entry wins).
pub open spec fn entries_map<C>(s: Seq<(PeerAddr, C)>) -> Map<PeerAddr, C>
    decreases s.len(),
{
    if s.len() == 0 {
        Map::empty()
    } else {
        entries_map(s.drop_last()).insert(s.last().0, s.last().1)
    }
}

/// The connection that `m` holds for `addr`, if any.
pub open spec fn lookup<C>(m: Map<PeerAddr, C>, addr: PeerAddr) -> Option<C> {
    if m.dom().contains(addr) {
        Some(m[addr])
    } else {
        None
    }
}

/// The pool after `connection` was handed back for `addr`: kept only when the pool
/// has no connection for that address (a newer one wins).
pub open spec fn handed_back<C>(m: Map<PeerAddr, C>, addr: PeerAddr, connection: C) -> Map<
    PeerAddr,
    C,
> {
    if m.dom().contains(addr) {
        m
    } else {
        m.insert(addr, connection)
    }
}

proof fn lemma_entries_at<C>(s: Seq<(PeerAddr, C)>, i: int)
    requires
        keys_unique(s),
        0 <= i < s.len(),
    ensures
        entries_map(s).dom().contains(s[i].0),
        entries_map(s)[s[i].0] == s[i].1,
    decreases s.len(),
{
    if i < s.len() - 1 {
        let p = s.drop_last();
        assert forall|a: int, b: int| 0 <= a < p.len() && 0 <= b < p.len() && a != b implies p[a].0
            != p[b].0 by {
            assert(p[a] == s[a] && p[b] == s[b]);
        }
        assert(p[i] == s[i]);
        lemma_entries_at(p, i);
        assert(s.last().0 != s[i].0);
    }
}

proof fn lemma_entries_dom<C>(s: Seq<(PeerAddr, C)>, k: PeerAddr)
    requires
        entries_map(s).dom().contains(k),
    ensures
        exists|i: int| 0 <= i < s.len() && s[i].0 == k,
    decreases s.len(),
{
    if s.len() > 0 && s.last().0 != k {
        let p = s.drop_last();
        lemma_entries_dom(p, k);
        let i = choose|i: int| 0 <= i < p.len() && p[i].0 == k;
        assert(s[i] == p[i]);
    } else if s.len() > 0 {
        assert(s[s.len() - 1].0 == k);
    }
}

proof fn lemma_entries_remove<C>(s: Seq<(PeerAddr, C)>, i: int)
    requires
        keys_unique(s),
        0 <= i < s.len(),
    ensures
        keys_unique(s.remove(i)),
        entries_map(s.remove(i)) == entries_map(s).remove(s[i].0),
{
    let r = s.remove(i);
    assert forall|a: int, b: int| 0 <= a < r.len() && 0 <= b < r.len() && a != b implies r[a].0
        != r[b].0 by {
        let a2 = if a < i { a } else { a + 1 };
        let b2 = if b < i { b } else { b + 1 };
        assert(r[a] == s[a2] && r[b] == s[b2]);
    }
    let lhs = entries_map(r);
    let rhs = entries_map(s).remove(s[i].0);
    assert forall|k: PeerAddr| lhs.dom().contains(k) <==> rhs.dom().contains(k) by {
        if lhs.dom().contains(k) {
            lemma_entries_dom(r, k);
            let j = choose|j: int| 0 <= j < r.len() && r[j].0 == k;
            let j2 = if j < i { j } else { j + 1 };
            assert(r[j] == s[j2]);
            lemma_entries_at(s, j2);
        }
        if rhs.dom().contains(k) {
            lemma_entries_dom(s, k);
            let j = choose|j: int| 0 <= j < s.len() && s[j].0 == k;
            assert(j != i);
            let j1 = if j < i { j } else { j - 1 };
            assert(r[j1] == s[j]);
            lemma_entries_at(r, j1);
        }
    }
    assert forall|k: PeerAddr| #[trigger] lhs.dom().contains(k) implies lhs[k] == rhs[k] by {
        lemma_entries_dom(r, k);
        let j = choose|j: int| 0 <= j < r.len() && r[j].0 == k;
        let j2 = if j < i { j } else { j + 1 };
        assert(r[j] == s[j2]);
        lemma_entries_at(r, j);
        lemma_entries_at(s, j2);
    }
    assert(lhs =~= rhs);
}

proof fn lemma_entries_push<C>(s: Seq<(PeerAddr, C)>, k: PeerAddr, c: C)
    requires
        keys_unique(s),
        !entries_map(s).dom().contains(k),
    ensures
        keys_unique(s.push((k, c))),
        entries_map(s.push((k, c))) == entries_map(s).insert(k, c),
{
    let r = s.push((k, c));
    assert forall|a: int, b: int| 0 <= a < r.len() && 0 <= b < r.len() && a != b implies r[a].0
        != r[b].0 by {
        if a < s.len() && b < s.len() {
            assert(r[a] == s[a] && r[b] == s[b]);
        } else if a < s.len() {
            assert(r[a] == s[a]);
            lemma_entries_at(s, a);
        } else {
            assert(r[b] == s[b]);
            lemma_entries_at(s, b);
        }
    }
    assert(r.drop_last() =~= s);
}

/// Open connections, at most one per address.
pub struct ConnectionPool<C> {
    connections: Vec<(PeerAddr, C)>,
}

impl<C> View for ConnectionPool<C> {
    type V = Map<PeerAddr, C>;

    closed spec fn view(&self) -> Map<PeerAddr, C> {
        entries_map(self.connections@)
    }
}

impl<C> ConnectionPool<C> {
    pub closed spec fn wf(&self) -> bool {
        keys_unique(self.connections@)
    }

    /// An empty pool.
    pub fn new() -> (r: Self)
        ensures
            r.wf(),
            r@ == Map::<PeerAddr, C>::empty(),
    {
        ConnectionPool { connections: Vec::new() }
    }

    fn find(&self, addr: &PeerAddr) -> (r: Option<usize>)
        requires
            self.wf(),
        ensures
            match r {
                Some(i) => i < self.connections@.len() && self.connections@[i as int].0 == *addr,
                None => !self@.dom().contains(*addr),
            },
    {
        let mut i: usize = 0;
        while i < self.connections.len()
            invariant
                i <= self.connections@.len(),
                forall|k: int| 0 <= k < i ==> self.connections@[k].0 != *addr,
            decreases self.connections@.len() - i,
        {
            if self.connections[i].0 == *addr {
                return Some(i);
            }
            i = i + 1;
        }
        proof {
            if self@.dom().contains(*addr) {
                lemma_entries_dom(self.connections@, *addr);
            }
        }
        None
    }

    /// Whether the pool holds a connection for `addr`.
    pub fn contains_key(&self, addr: &PeerAddr) -> (r: bool)
        requires
            self.wf(),
        ensures
            r == self@.dom().contains(*addr),
    {
        match self.find(addr) {
            Some(i) => {
                proof {
                    lemma_entries_at(self.connections@, i as int);
                }
                true
            },
            None => false,
        }
    }

    fn take_entry(&mut self, addr: &PeerAddr) -> (r: Option<C>)
        requires
            old(self).wf(),
        ensures
            final(self).wf(),
            r == lookup(old(self)@, *addr),
            final(self)@ == old(self)@.remove(*addr),
    {
        match self.find(addr) {
            Some(i) => {
                proof {
                    lemma_entries_at(self.connections@, i as int);
                    lemma_entries_remove(self.connections@, i as int);
                }
                let (_, c) = self.connections.remove(i);
                Some(c)
            },
            None => {
                assert(self@.remove(*addr) =~= self@);
                None
            },
        }
    }

    /// Hands out the pooled connection for `addr`, taking it out of the pool
    /// (`None` when the pool has none: then a new one is to be opened).
    pub fn get(&mut self, addr: &PeerAddr) -> (r: Option<C>)
        requires
            old(self).wf(),
        ensures
            final(self).wf(),
            r == lookup(old(self)@, *addr),
            final(self)@ == old(self)@.remove(*addr),
    {
        self.take_entry(addr)
    }

    /// Puts `connection` in the pool for `addr` and gives the connection it had
    /// there, which is to be cancelled.
    pub fn replace(&mut self, addr: PeerAddr, connection: C) -> (r: Option<C>)
        requires
            old(self).wf(),
        ensures
            final(self).wf(),
            r == lookup(old(self)@, addr),
            final(self)@ == old(self)@.insert(addr, connection),
    {
        let removed = self.take_entry(&addr);
        proof {
            lemma_entries_push(self.connections@, addr, connection);
        }
        self.connections.push((addr, connection));
        assert(self@ =~= old(self)@.insert(addr, connection));
        removed
    }

    /// Takes the connection for `addr` out of the pool and gives it, to be
    /// cancelled.
    pub fn remove(&mut self, addr: &PeerAddr) -> (r: Option<C>)
        requires
            old(self).wf(),
        ensures
            final(self).wf(),
            r == lookup(old(self)@, *addr),
            final(self)@ == old(self)@.remove(*addr),
    {
        self.take_entry(addr)
    }

    /// Hands a connection back for `addr`. It is kept only when the pool has no
    /// connection for that address; otherwise the newer one stays and this one is
    /// given back.
    pub fn return_connection(&mut self, addr: PeerAddr, connection: C) -> (r: Option<C>)
        requires
            old(self).wf(),
        ensures
            final(self).wf(),
            final(self)@ == handed_back(old(self)@, addr, connection),
            old(self)@.dom().contains(addr) ==> r == Some(connection),
            !old(self)@.dom().contains(addr) ==> r is None,
    {
        if self.contains_key(&addr) {
            Some(connection)
        } else {
            proof {
                lemma_entries_push(self.connections@, addr, connection);
            }
            self.connections.push((addr, connection));
            None
        }
    }
}

/// A connection handed back to a pool that has none for its address is the one
/// the next `get` for that address hands out.
pub proof fn law_get_after_return<C>(m: Map<PeerAddr, C>, addr: PeerAddr, connection: C)
    requires
        !m.dom().contains(addr),
    ensures
        lookup(handed_back(m, addr, connection), addr) == Some(connection),
{
}

/// Taking a connection out with `get` and handing it back leaves the pool as it was.
pub proof fn law_get_then_return<C>(m: Map<PeerAddr, C>, addr: PeerAddr)
    requires
        m.dom().contains(addr),
    ensures
        lookup(m, addr) matches Some(c) && handed_back(m.remove(addr), addr, c) == m,
{
    assert(m.remove(addr).insert(addr, m[addr]) =~= m);
}

/// A connection handed back while a newer one is pooled for its address changes
/// nothing.
pub proof fn law_newer_connection_wins<C>(m: Map<PeerAddr, C>, addr: PeerAddr, connection: C)
    requires
        m.dom().contains(addr),
    ensures
        handed_back(m, addr, connection) == m,
{
}

/// After `replace`, `get` hands out the new connection and leaves the other
/// addresses' connections as they were before the replacement.
pub proof fn law_get_after_replace<C>(m: Map<PeerAddr, C>, addr: PeerAddr, connection: C)
    ensures
        lookup(m.insert(addr, connection), addr) == Some(connection),
        m.insert(addr, connection).remove(addr) == m.remove(addr),
{
    assert(m.insert(addr, connection).remove(addr) =~= m.remove(addr));
}

} // verus!
