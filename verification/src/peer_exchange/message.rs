//! The peer-exchange messages and their text form, words separated by whitespace:
//!   `PING`, `PONG`,
//!   `PEERLIST {peer_id} ...`, `PEERLISTGET {peer_id} ...`,
//!   `GOSSIP {peer_id} {addr} ...`, `GOSSIPGET {peer_id}`,
//! and the envelope `FROM {peer_id} PORT {port} TO {addr} {message}`.
use vstd::prelude::*;
use crate::addr::{addr_text, lemma_addr_roundtrip, parse_addr, parse_addr_chars, push_addr, PeerAddr};
use crate::decimal::{dec, is_digit, lemma_dec, parse_unsigned, parse_unsigned_chars, push_decimal};
use crate::peer_exchange::DiscoveryError;
use crate::text::{
    ascii_fold, chars_string, eq_ignore_ascii_case, eq_ignore_case, is_ws, join_sp, join_tokens,
    lemma_join_front, lemma_tokens_of_join, no_ws, proper_tokens, slice_chars, split_whitespace,
    str_chars, views, ws_tokens,
};
use crate::transport::{carries, TransportMessage};

verus! {

/// What a peer knows of another peer: its identifier and its addresses.
#[derive(Debug, Clone)]
pub struct PeerGossip {
    pub peer_id: u32,
    /// Distinct addresses.
    pub addr: Vec<PeerAddr>,
}

impl PeerGossip {
    /// A gossip about `peer_id` with no address.
    pub fn from_peer_id(peer_id: u32) -> (r: PeerGossip)
        ensures
            r.peer_id == peer_id,
            r.addr@ == Seq::<PeerAddr>::empty(),
    {
        PeerGossip { peer_id, addr: Vec::new() }
    }
}

/// A peer-exchange message. Lists of identifiers and addresses hold no repeats.
#[derive(Debug, Clone)]
pub enum DiscoveryMessage {
    Ping,
    Pong,
    PeerList { peers: Vec<u32> },
    PeerListGet { peers: Vec<u32> },
    PeerGossip { gossip: PeerGossip },
    PeerGossipGet { gossip: PeerGossip },
}

/// The content of a peer-exchange message.
pub enum ExchangeView {
    Ping,
    Pong,
    PeerList(Seq<u32>),
    PeerListGet(Seq<u32>),
    PeerGossip(u32, Seq<PeerAddr>),
    PeerGossipGet(u32, Seq<PeerAddr>),
}

impl View for DiscoveryMessage {
    type V = ExchangeView;

    open spec fn view(&self) -> ExchangeView {
        match self {
            DiscoveryMessage::Ping => ExchangeView::Ping,
            DiscoveryMessage::Pong => ExchangeView::Pong,
            DiscoveryMessage::PeerList { peers } => ExchangeView::PeerList(peers@),
            DiscoveryMessage::PeerListGet { peers } => ExchangeView::PeerListGet(peers@),
            DiscoveryMessage::PeerGossip { gossip } => ExchangeView::PeerGossip(
                gossip.peer_id,
                gossip.addr@,
            ),
            DiscoveryMessage::PeerGossipGet { gossip } => ExchangeView::PeerGossipGet(
                gossip.peer_id,
                gossip.addr@,
            ),
        }
    }
}

/// A parse result with the message taken by its view.
pub open spec fn exchange_result(r: Result<DiscoveryMessage, DiscoveryError>) -> Result<
    ExchangeView,
    DiscoveryError,
> {
    match r {
        Ok(m) => Ok(m@),
        Err(e) => Err(e),
    }
}

pub open spec fn kw_peerlist() -> Seq<char> {
    seq!['P', 'E', 'E', 'R', 'L', 'I', 'S', 'T']
}

pub open spec fn kw_peerlistget() -> Seq<char> {
    seq!['P', 'E', 'E', 'R', 'L', 'I', 'S', 'T', 'G', 'E', 'T']
}

pub open spec fn kw_gossip() -> Seq<char> {
    seq!['G', 'O', 'S', 'S', 'I', 'P']
}

pub open spec fn kw_gossipget() -> Seq<char> {
    seq!['G', 'O', 'S', 'S', 'I', 'P', 'G', 'E', 'T']
}

pub open spec fn kw_ping() -> Seq<char> {
    seq!['P', 'I', 'N', 'G']
}

pub open spec fn kw_pong() -> Seq<char> {
    seq!['P', 'O', 'N', 'G']
}

pub open spec fn kw_from() -> Seq<char> {
    seq!['F', 'R', 'O', 'M']
}

pub open spec fn kw_port() -> Seq<char> {
    seq!['P', 'O', 'R', 'T']
}

pub open spec fn kw_to() -> Seq<char> {
    seq!['T', 'O']
}

// ---------------------------------------------------------------------------
// Grammar
// ---------------------------------------------------------------------------

/// `s` with `x` added unless it holds it already (what `HashSet::insert` does to the set).
pub open spec fn set_insert<A>(s: Seq<A>, x: A) -> Seq<A> {
    if s.contains(x) {
        s
    } else {
        s.push(x)
    }
}

/// A peer identifier token.
pub open spec fn id_token(t: Seq<char>) -> Result<u32, DiscoveryError> {
    match parse_unsigned(t, u32::MAX as nat) {
        Ok(v) => Ok(v as u32),
        Err(k) => Err(DiscoveryError::InvalidIntNumber(k)),
    }
}

/// The set of identifiers that the tokens name, read from the left; the first bad
/// token decides the error.
pub open spec fn ids_of(ts: Seq<Seq<char>>) -> Result<Seq<u32>, DiscoveryError>
    decreases ts.len(),
{
    if ts.len() == 0 {
        Ok(Seq::empty())
    } else {
        match ids_of(ts.drop_last()) {
            Err(e) => Err(e),
            Ok(s) => match id_token(ts.last()) {
                Err(e) => Err(e),
                Ok(v) => Ok(set_insert(s, v)),
            },
        }
    }
}

/// The set of addresses that the tokens name, read from the left.
pub open spec fn addrs_of(ts: Seq<Seq<char>>) -> Result<Seq<PeerAddr>, DiscoveryError>
    decreases ts.len(),
{
    if ts.len() == 0 {
        Ok(Seq::empty())
    } else {
        match addrs_of(ts.drop_last()) {
            Err(e) => Err(e),
            Ok(s) => match parse_addr(ts.last()) {
                None => Err(DiscoveryError::InvalidAddr),
                Some(a) => Ok(set_insert(s, a)),
            },
        }
    }
}

/// The message that the tokens `ts` make up. Command words are matched without
/// regard to ASCII case; words after `PING`, `PONG` and `GOSSIPGET {peer_id}` are ignored.
pub open spec fn exchange_from_tokens(ts: Seq<Seq<char>>) -> Result<ExchangeView, DiscoveryError> {
    if ts.len() == 0 {
        Err(DiscoveryError::InvalidDiscoveryMessage)
    } else {
        let cmd = ts[0];
        if eq_ignore_case(cmd, kw_peerlist()) {
            match ids_of(ts.skip(1)) {
                Ok(ids) => Ok(ExchangeView::PeerList(ids)),
                Err(e) => Err(e),
            }
        } else if eq_ignore_case(cmd, kw_peerlistget()) {
            match ids_of(ts.skip(1)) {
                Ok(ids) => Ok(ExchangeView::PeerListGet(ids)),
                Err(e) => Err(e),
            }
        } else if eq_ignore_case(cmd, kw_gossip()) {
            if ts.len() < 2 {
                Err(DiscoveryError::InvalidDiscoveryMessage)
            } else {
                match id_token(ts[1]) {
                    Err(e) => Err(e),
                    Ok(id) => match addrs_of(ts.skip(2)) {
                        Err(e) => Err(e),
                        Ok(a) => Ok(ExchangeView::PeerGossip(id, a)),
                    },
                }
            }
        } else if eq_ignore_case(cmd, kw_gossipget()) {
            if ts.len() < 2 {
                Err(DiscoveryError::InvalidDiscoveryMessage)
            } else {
                match id_token(ts[1]) {
                    Err(e) => Err(e),
                    Ok(id) => Ok(ExchangeView::PeerGossipGet(id, Seq::empty())),
                }
            }
        } else if eq_ignore_case(cmd, kw_ping()) {
            Ok(ExchangeView::Ping)
        } else if eq_ignore_case(cmd, kw_pong()) {
            Ok(ExchangeView::Pong)
        } else {
            Err(DiscoveryError::InvalidDiscoveryMessage)
        }
    }
}

/// The message that the text `s` denotes.
pub open spec fn exchange_from_text(s: Seq<char>) -> Result<ExchangeView, DiscoveryError> {
    exchange_from_tokens(ws_tokens(s))
}

// ---------------------------------------------------------------------------
// Text form
// ---------------------------------------------------------------------------

pub open spec fn id_words(ids: Seq<u32>) -> Seq<Seq<char>> {
    ids.map_values(|v: u32| dec(v as nat))
}

pub open spec fn addr_words(a: Seq<PeerAddr>) -> Seq<Seq<char>> {
    a.map_values(|x: PeerAddr| addr_text(x))
}

/// The text of a message.
pub open spec fn exchange_text(m: ExchangeView) -> Seq<char> {
    match m {
        ExchangeView::Ping => kw_ping(),
        ExchangeView::Pong => kw_pong(),
        ExchangeView::PeerList(ids) => kw_peerlist() + seq![' '] + join_sp(id_words(ids)),
        ExchangeView::PeerListGet(ids) => kw_peerlistget() + seq![' '] + join_sp(id_words(ids)),
        ExchangeView::PeerGossip(id, a) => kw_gossip() + seq![' '] + dec(id as nat) + seq![' ']
            + join_sp(addr_words(a)),
        ExchangeView::PeerGossipGet(id, _) => kw_gossipget() + seq![' '] + dec(id as nat),
    }
}

/// A message whose lists hold no repeats, and whose request for gossip names no address
/// (the text of such a request carries none).
pub open spec fn well_formed(m: ExchangeView) -> bool {
    match m {
        ExchangeView::PeerList(ids) => ids.no_duplicates(),
        ExchangeView::PeerListGet(ids) => ids.no_duplicates(),
        ExchangeView::PeerGossip(_, a) => a.no_duplicates(),
        ExchangeView::PeerGossipGet(_, a) => a.len() == 0,
        _ => true,
    }
}

// ---------------------------------------------------------------------------
// Reading and writing messages
// ---------------------------------------------------------------------------

fn word(which: u8) -> (r: Vec<char>)
    ensures
        which == 0 ==> r@ == kw_peerlist(),
        which == 1 ==> r@ == kw_peerlistget(),
        which == 2 ==> r@ == kw_gossip(),
        which == 3 ==> r@ == kw_gossipget(),
        which == 4 ==> r@ == kw_ping(),
        which == 5 ==> r@ == kw_pong(),
        which == 6 ==> r@ == kw_from(),
        which == 7 ==> r@ == kw_port(),
        which >= 8 ==> r@ == kw_to(),
{
    let r = if which == 0 {
        vec!['P', 'E', 'E', 'R', 'L', 'I', 'S', 'T']
    } else if which == 1 {
        vec!['P', 'E', 'E', 'R', 'L', 'I', 'S', 'T', 'G', 'E', 'T']
    } else if which == 2 {
        vec!['G', 'O', 'S', 'S', 'I', 'P']
    } else if which == 3 {
        vec!['G', 'O', 'S', 'S', 'I', 'P', 'G', 'E', 'T']
    } else if which == 4 {
        vec!['P', 'I', 'N', 'G']
    } else if which == 5 {
        vec!['P', 'O', 'N', 'G']
    } else if which == 6 {
        vec!['F', 'R', 'O', 'M']
    } else if which == 7 {
        vec!['P', 'O', 'R', 'T']
    } else {
        vec!['T', 'O']
    };
    assert(which == 0 ==> r@ =~= kw_peerlist());
    assert(which == 1 ==> r@ =~= kw_peerlistget());
    assert(which == 2 ==> r@ =~= kw_gossip());
    assert(which == 3 ==> r@ =~= kw_gossipget());
    assert(which == 4 ==> r@ =~= kw_ping());
    assert(which == 5 ==> r@ =~= kw_pong());
    assert(which == 6 ==> r@ =~= kw_from());
    assert(which == 7 ==> r@ =~= kw_port());
    assert(which >= 8 ==> r@ =~= kw_to());
    r
}

fn push_all(out: &mut Vec<char>, s: &Vec<char>)
    ensures
        final(out)@ == old(out)@ + s@,
{
    let mut i: usize = 0;
    while i < s.len()
        invariant
            i <= s.len(),
            out@ == old(out)@ + s@.take(i as int),
        decreases s.len() - i,
    {
        out.push(s[i]);
        i = i + 1;
        assert(out@ =~= old(out)@ + s@.take(i as int));
    }
    assert(s@.take(s.len() as int) =~= s@);
}

fn id_token_chars(t: &Vec<char>) -> (r: Result<u32, DiscoveryError>)
    ensures
        r == id_token(t@),
{
    match parse_unsigned_chars(t, u32::MAX) {
        Ok(v) => Ok(v),
        Err(k) => Err(DiscoveryError::InvalidIntNumber(k)),
    }
}

/// Whether `v` holds `x`.
pub fn contains_id(v: &Vec<u32>, x: u32) -> (r: bool)
    ensures
        r == v@.contains(x),
{
    let mut i: usize = 0;
    while i < v.len()
        invariant
            i <= v@.len(),
            forall|k: int| 0 <= k < i ==> v@[k] != x,
        decreases v@.len() - i,
    {
        if v[i] == x {
            return true;
        }
        i = i + 1;
    }
    false
}

/// Whether `v` holds `x`.
pub fn contains_addr(v: &Vec<PeerAddr>, x: &PeerAddr) -> (r: bool)
    ensures
        r == v@.contains(*x),
{
    let mut i: usize = 0;
    while i < v.len()
        invariant
            i <= v@.len(),
            forall|k: int| 0 <= k < i ==> v@[k] != *x,
        decreases v@.len() - i,
    {
        if v[i].same(x) {
            return true;
        }
        i = i + 1;
    }
    false
}

/// Reads the identifiers of `ts[from..]` into a set.
fn ids_chars(ts: &Vec<Vec<char>>, from: usize) -> (r: Result<Vec<u32>, DiscoveryError>)
    requires
        from <= ts@.len(),
    ensures
        match r {
            Ok(v) => ids_of(views(ts@).skip(from as int)) == Ok::<Seq<u32>, DiscoveryError>(v@),
            Err(e) => ids_of(views(ts@).skip(from as int)) == Err::<Seq<u32>, DiscoveryError>(e),
        },
{
    let ghost es = views(ts@).skip(from as int);
    let mut out: Vec<u32> = Vec::new();
    let mut i = from;
    assert(es.take(0) =~= Seq::<Seq<char>>::empty());
    while i < ts.len()
        invariant
            from <= i <= ts@.len(),
            es == views(ts@).skip(from as int),
            ids_of(es.take(i - from)) == Ok::<Seq<u32>, DiscoveryError>(out@),
        decreases ts@.len() - i,
    {
        assert(es.take(i - from + 1).drop_last() =~= es.take(i - from));
        assert(es.take(i - from + 1).last() == ts@[i as int]@);
        match id_token_chars(&ts[i]) {
            Err(e) => {
                proof {
                    lemma_ids_prefix_error(es, i - from + 1);
                }
                return Err(e);
            },
            Ok(v) => {
                if !contains_id(&out, v) {
                    out.push(v);
                }
            },
        }
        i = i + 1;
    }
    assert(es.take(i - from) =~= es);
    Ok(out)
}

proof fn lemma_ids_prefix_error(es: Seq<Seq<char>>, n: int)
    requires
        0 <= n <= es.len(),
        ids_of(es.take(n)) is Err,
    ensures
        ids_of(es) == ids_of(es.take(n)),
    decreases es.len() - n,
{
    if n < es.len() {
        assert(es.take(n + 1).drop_last() =~= es.take(n));
        lemma_ids_prefix_error(es, n + 1);
    } else {
        assert(es.take(n) =~= es);
    }
}

/// Reads the addresses of `ts[from..]` into a set.
fn addrs_chars(ts: &Vec<Vec<char>>, from: usize) -> (r: Result<Vec<PeerAddr>, DiscoveryError>)
    requires
        from <= ts@.len(),
    ensures
        match r {
            Ok(v) => addrs_of(views(ts@).skip(from as int)) == Ok::<Seq<PeerAddr>, DiscoveryError>(
                v@,
            ),
            Err(e) => addrs_of(views(ts@).skip(from as int)) == Err::<Seq<PeerAddr>, DiscoveryError>(
                e,
            ),
        },
{
    let ghost es = views(ts@).skip(from as int);
    let mut out: Vec<PeerAddr> = Vec::new();
    let mut i = from;
    assert(es.take(0) =~= Seq::<Seq<char>>::empty());
    while i < ts.len()
        invariant
            from <= i <= ts@.len(),
            es == views(ts@).skip(from as int),
            addrs_of(es.take(i - from)) == Ok::<Seq<PeerAddr>, DiscoveryError>(out@),
        decreases ts@.len() - i,
    {
        assert(es.take(i - from + 1).drop_last() =~= es.take(i - from));
        assert(es.take(i - from + 1).last() == ts@[i as int]@);
        match parse_addr_chars(&ts[i]) {
            None => {
                proof {
                    lemma_addrs_prefix_error(es, i - from + 1);
                }
                return Err(DiscoveryError::InvalidAddr);
            },
            Some(a) => {
                if !contains_addr(&out, &a) {
                    out.push(a);
                }
            },
        }
        i = i + 1;
    }
    assert(es.take(i - from) =~= es);
    Ok(out)
}

proof fn lemma_addrs_prefix_error(es: Seq<Seq<char>>, n: int)
    requires
        0 <= n <= es.len(),
        addrs_of(es.take(n)) is Err,
    ensures
        addrs_of(es) == addrs_of(es.take(n)),
    decreases es.len() - n,
{
    if n < es.len() {
        assert(es.take(n + 1).drop_last() =~= es.take(n));
        lemma_addrs_prefix_error(es, n + 1);
    } else {
        assert(es.take(n) =~= es);
    }
}

impl DiscoveryMessage {
    /// Reads a message from its text.
    pub fn from_string(s: &str) -> (r: Result<DiscoveryMessage, DiscoveryError>)
        ensures
            exchange_result(r) == exchange_from_text(s@),
    {
        let chars = str_chars(s);
        Self::from_chars(&chars)
    }

    /// Reads a message from the characters of its text.
    pub fn from_chars(s: &Vec<char>) -> (r: Result<DiscoveryMessage, DiscoveryError>)
        ensures
            exchange_result(r) == exchange_from_text(s@),
    {
        let ts = split_whitespace(s);
        Self::from_tokens(&ts)
    }

    /// Reads a message from its words.
    pub fn from_tokens(ts: &Vec<Vec<char>>) -> (r: Result<DiscoveryMessage, DiscoveryError>)
        ensures
            exchange_result(r) == exchange_from_tokens(views(ts@)),
    {
        if ts.len() == 0 {
            return Err(DiscoveryError::InvalidDiscoveryMessage);
        }
        let cmd = &ts[0];
        if eq_ignore_ascii_case(cmd, &word(0)) {
            Self::parse_peerlist(ts)
        } else if eq_ignore_ascii_case(cmd, &word(1)) {
            Self::parse_peerlist_get(ts)
        } else if eq_ignore_ascii_case(cmd, &word(2)) {
            Self::parse_gossip(ts)
        } else if eq_ignore_ascii_case(cmd, &word(3)) {
            Self::parse_gossip_get(ts)
        } else if eq_ignore_ascii_case(cmd, &word(4)) {
            Ok(DiscoveryMessage::Ping)
        } else if eq_ignore_ascii_case(cmd, &word(5)) {
            Ok(DiscoveryMessage::Pong)
        } else {
            Err(DiscoveryError::InvalidDiscoveryMessage)
        }
    }

    /// `PEERLIST {peer_id} ...`: the identifiers after the command word.
    fn parse_peerlist(ts: &Vec<Vec<char>>) -> (r: Result<DiscoveryMessage, DiscoveryError>)
        requires
            ts@.len() >= 1,
        ensures
            exchange_result(r) == match ids_of(views(ts@).skip(1)) {
                Ok(ids) => Ok(ExchangeView::PeerList(ids)),
                Err(e) => Err(e),
            },
    {
        match ids_chars(ts, 1) {
            Ok(peers) => Ok(DiscoveryMessage::PeerList { peers }),
            Err(e) => Err(e),
        }
    }

    /// `PEERLISTGET {peer_id} ...`: the identifiers after the command word.
    fn parse_peerlist_get(ts: &Vec<Vec<char>>) -> (r: Result<DiscoveryMessage, DiscoveryError>)
        requires
            ts@.len() >= 1,
        ensures
            exchange_result(r) == match ids_of(views(ts@).skip(1)) {
                Ok(ids) => Ok(ExchangeView::PeerListGet(ids)),
                Err(e) => Err(e),
            },
    {
        match ids_chars(ts, 1) {
            Ok(peers) => Ok(DiscoveryMessage::PeerListGet { peers }),
            Err(e) => Err(e),
        }
    }

    /// `GOSSIP {peer_id} {addr} ...`.
    fn parse_gossip(ts: &Vec<Vec<char>>) -> (r: Result<DiscoveryMessage, DiscoveryError>)
        requires
            ts@.len() >= 1,
        ensures
            exchange_result(r) == (if ts@.len() < 2 {
                Err(DiscoveryError::InvalidDiscoveryMessage)
            } else {
                match id_token(ts@[1]@) {
                    Err(e) => Err(e),
                    Ok(id) => match addrs_of(views(ts@).skip(2)) {
                        Err(e) => Err(e),
                        Ok(a) => Ok(ExchangeView::PeerGossip(id, a)),
                    },
                }
            }),
    {
        if ts.len() < 2 {
            return Err(DiscoveryError::InvalidDiscoveryMessage);
        }
        let peer_id = match id_token_chars(&ts[1]) {
            Ok(v) => v,
            Err(e) => {
                return Err(e);
            },
        };
        match addrs_chars(ts, 2) {
            Ok(addr) => Ok(DiscoveryMessage::PeerGossip { gossip: PeerGossip { peer_id, addr } }),
            Err(e) => Err(e),
        }
    }

    /// `GOSSIPGET {peer_id}`.
    fn parse_gossip_get(ts: &Vec<Vec<char>>) -> (r: Result<DiscoveryMessage, DiscoveryError>)
        requires
            ts@.len() >= 1,
        ensures
            exchange_result(r) == (if ts@.len() < 2 {
                Err(DiscoveryError::InvalidDiscoveryMessage)
            } else {
                match id_token(ts@[1]@) {
                    Err(e) => Err(e),
                    Ok(id) => Ok(ExchangeView::PeerGossipGet(id, Seq::empty())),
                }
            }),
    {
        if ts.len() < 2 {
            return Err(DiscoveryError::InvalidDiscoveryMessage);
        }
        match id_token_chars(&ts[1]) {
            Ok(peer_id) => Ok(
                DiscoveryMessage::PeerGossipGet { gossip: PeerGossip::from_peer_id(peer_id) },
            ),
            Err(e) => Err(e),
        }
    }

    /// Appends the text of this message to `out`.
    pub fn push_text(&self, out: &mut Vec<char>)
        ensures
            final(out)@ == old(out)@ + exchange_text(self@),
    {
        let ghost start = out@;
        match self {
            DiscoveryMessage::Ping => {
                push_all(out, &word(4));
            },
            DiscoveryMessage::Pong => {
                push_all(out, &word(5));
            },
            DiscoveryMessage::PeerList { peers } => {
                push_all(out, &word(0));
                out.push(' ');
                push_ids(out, peers);
            },
            DiscoveryMessage::PeerListGet { peers } => {
                push_all(out, &word(1));
                out.push(' ');
                push_ids(out, peers);
            },
            DiscoveryMessage::PeerGossip { gossip } => {
                push_all(out, &word(2));
                out.push(' ');
                push_decimal(out, gossip.peer_id);
                out.push(' ');
                push_addrs(out, &gossip.addr);
            },
            DiscoveryMessage::PeerGossipGet { gossip } => {
                push_all(out, &word(3));
                out.push(' ');
                push_decimal(out, gossip.peer_id);
            },
        }
        assert(out@ =~= start + exchange_text(self@));
    }

    /// The text of this message.
    pub fn to_string(&self) -> (r: String)
        ensures
            r@ == exchange_text(self@),
    {
        let mut out: Vec<char> = Vec::new();
        self.push_text(&mut out);
        assert(out@ =~= exchange_text(self@));
        chars_string(&out)
    }
}

/// Appends the identifiers, separated by spaces.
fn push_ids(out: &mut Vec<char>, ids: &Vec<u32>)
    ensures
        final(out)@ == old(out)@ + join_sp(id_words(ids@)),
{
    let ghost start = out@;
    let mut i: usize = 0;
    while i < ids.len()
        invariant
            i <= ids@.len(),
            out@ == start + join_sp(id_words(ids@.take(i as int))),
        decreases ids@.len() - i,
    {
        if i > 0 {
            out.push(' ');
        }
        push_decimal(out, ids[i]);
        proof {
            let w = id_words(ids@.take(i + 1));
            assert(w.drop_last() =~= id_words(ids@.take(i as int)));
            assert(w.last() == dec(ids@[i as int] as nat));
            if i == 0 {
                assert(w =~= seq![dec(ids@[0] as nat)]);
            }
        }
        i = i + 1;
        assert(out@ =~= start + join_sp(id_words(ids@.take(i as int))));
    }
    assert(ids@.take(i as int) =~= ids@);
}

/// Appends the addresses, separated by spaces.
fn push_addrs(out: &mut Vec<char>, addrs: &Vec<PeerAddr>)
    ensures
        final(out)@ == old(out)@ + join_sp(addr_words(addrs@)),
{
    let ghost start = out@;
    let mut i: usize = 0;
    while i < addrs.len()
        invariant
            i <= addrs@.len(),
            out@ == start + join_sp(addr_words(addrs@.take(i as int))),
        decreases addrs@.len() - i,
    {
        if i > 0 {
            out.push(' ');
        }
        push_addr(out, &addrs[i]);
        proof {
            let w = addr_words(addrs@.take(i + 1));
            assert(w.drop_last() =~= addr_words(addrs@.take(i as int)));
            assert(w.last() == addr_text(addrs@[i as int]));
            if i == 0 {
                assert(w =~= seq![addr_text(addrs@[0])]);
            }
        }
        i = i + 1;
        assert(out@ =~= start + join_sp(addr_words(addrs@.take(i as int))));
    }
    assert(addrs@.take(i as int) =~= addrs@);
}

} // verus!

verus! {

// ---------------------------------------------------------------------------
// The envelope
// ---------------------------------------------------------------------------

/// A message as received: who sent it, the address to answer it at (the address
/// it came from, with the port the sender listens on), the address the sender
/// sent it to, and the message.
#[derive(Debug, Clone)]
pub struct IncomingDiscoveryMessage {
    pub from_peer_id: u32,
    pub from_peer_addr: PeerAddr,
    pub my_perceived_addr: PeerAddr,
    pub message: DiscoveryMessage,
}

/// The content of a received message.
pub struct IncomingView {
    pub from_peer_id: u32,
    pub from_peer_addr: PeerAddr,
    pub my_perceived_addr: PeerAddr,
    pub message: ExchangeView,
}

impl View for IncomingDiscoveryMessage {
    type V = IncomingView;

    open spec fn view(&self) -> IncomingView {
        IncomingView {
            from_peer_id: self.from_peer_id,
            from_peer_addr: self.from_peer_addr,
            my_perceived_addr: self.my_perceived_addr,
            message: self.message@,
        }
    }
}

/// A message to send: where to, the port this node listens on, this node's
/// identifier, and the message.
#[derive(Debug, Clone)]
pub struct OutgoingDiscoveryMessage {
    pub to: PeerAddr,
    pub my_listening_port: u16,
    pub from_peer_id: u32,
    pub message: DiscoveryMessage,
}

/// The message that the text `msg`, received from `addr`, denotes:
/// `FROM {peer_id} PORT {port} TO {addr} {message}`, keywords matched without
/// regard to ASCII case. A port that cannot be read makes the whole text invalid.
pub open spec fn incoming_from(msg: Seq<char>, addr: PeerAddr) -> Result<IncomingView, DiscoveryError> {
    let ts = ws_tokens(msg);
    if ts.len() < 1 || !eq_ignore_case(ts[0], kw_from()) {
        Err(DiscoveryError::InvalidDiscoveryMessage)
    } else if ts.len() < 2 {
        Err(DiscoveryError::InvalidDiscoveryMessage)
    } else {
        match id_token(ts[1]) {
            Err(e) => Err(e),
            Ok(from_peer_id) => {
                if ts.len() < 3 || !eq_ignore_case(ts[2], kw_port()) {
                    Err(DiscoveryError::InvalidDiscoveryMessage)
                } else if ts.len() < 4 {
                    Err(DiscoveryError::InvalidDiscoveryMessage)
                } else {
                    match parse_unsigned(ts[3], 65535) {
                        Err(_) => Err(DiscoveryError::InvalidDiscoveryMessage),
                        Ok(port) => {
                            if ts.len() < 5 || !eq_ignore_case(ts[4], kw_to()) {
                                Err(DiscoveryError::InvalidDiscoveryMessage)
                            } else if ts.len() < 6 {
                                Err(DiscoveryError::InvalidDiscoveryMessage)
                            } else {
                                match parse_addr(ts[5]) {
                                    None => Err(DiscoveryError::InvalidAddr),
                                    Some(me) => match exchange_from_text(join_sp(ts.skip(6))) {
                                        Err(e) => Err(e),
                                        Ok(message) => Ok(
                                            IncomingView {
                                                from_peer_id,
                                                from_peer_addr: PeerAddr {
                                                    port: port as u16,
                                                    ..addr
                                                },
                                                my_perceived_addr: me,
                                                message,
                                            },
                                        ),
                                    },
                                }
                            }
                        },
                    }
                }
            },
        }
    }
}

/// A read result with the message taken by its view.
pub open spec fn incoming_result(r: Result<IncomingDiscoveryMessage, DiscoveryError>) -> Result<
    IncomingView,
    DiscoveryError,
> {
    match r {
        Ok(m) => Ok(m@),
        Err(e) => Err(e),
    }
}

/// The text of an outgoing message.
pub open spec fn outgoing_text(to: PeerAddr, port: u16, from: u32, m: ExchangeView) -> Seq<char> {
    kw_from() + seq![' '] + dec(from as nat) + seq![' '] + kw_port() + seq![' '] + dec(port as nat)
        + seq![' '] + kw_to() + seq![' '] + addr_text(to) + seq![' '] + exchange_text(m)
}

impl IncomingDiscoveryMessage {
    /// Reads a received transport message.
    pub fn from_transportmessage(value: &TransportMessage) -> (r: Result<
        IncomingDiscoveryMessage,
        DiscoveryError,
    >)
        ensures
            incoming_result(r) == incoming_from(value.msg@, value.addr),
    {
        let chars = str_chars(value.msg.as_str());
        let ts = split_whitespace(&chars);
        let ghost v = views(ts@);
        if ts.len() < 1 || !eq_ignore_ascii_case(&ts[0], &word(6)) {
            return Err(DiscoveryError::InvalidDiscoveryMessage);
        }
        if ts.len() < 2 {
            return Err(DiscoveryError::InvalidDiscoveryMessage);
        }
        let from_peer_id = match id_token_chars(&ts[1]) {
            Ok(v) => v,
            Err(e) => {
                return Err(e);
            },
        };
        if ts.len() < 3 || !eq_ignore_ascii_case(&ts[2], &word(7)) {
            return Err(DiscoveryError::InvalidDiscoveryMessage);
        }
        if ts.len() < 4 {
            return Err(DiscoveryError::InvalidDiscoveryMessage);
        }
        let port = match parse_unsigned_chars(&ts[3], 65535) {
            Ok(p) => p as u16,
            Err(_) => {
                return Err(DiscoveryError::InvalidDiscoveryMessage);
            },
        };
        proof {
            crate::decimal::lemma_digits_value_bound(v[3], 65535);
            crate::decimal::lemma_digits_value_bound(v[3].drop_first(), 65535);
        }
        if ts.len() < 5 || !eq_ignore_ascii_case(&ts[4], &word(8)) {
            return Err(DiscoveryError::InvalidDiscoveryMessage);
        }
        if ts.len() < 6 {
            return Err(DiscoveryError::InvalidDiscoveryMessage);
        }
        let my_perceived_addr = match parse_addr_chars(&ts[5]) {
            Some(a) => a,
            None => {
                return Err(DiscoveryError::InvalidAddr);
            },
        };
        let mut rest_tokens: Vec<Vec<char>> = Vec::new();
        let mut i: usize = 6;
        while i < ts.len()
            invariant
                6 <= i <= ts@.len(),
                v == views(ts@),
                views(rest_tokens@) == v.subrange(6, i as int),
            decreases ts@.len() - i,
        {
            let t = slice_chars(&ts[i], 0, ts[i].len());
            assert(t@ =~= ts@[i as int]@);
            let ghost before = views(rest_tokens@);
            rest_tokens.push(t);
            assert(views(rest_tokens@) =~= before.push(t@));
            assert(v[i as int] == ts@[i as int]@);
            assert(v.subrange(6, i + 1) =~= v.subrange(6, i as int).push(v[i as int]));
            i = i + 1;
            assert(views(rest_tokens@) =~= v.subrange(6, i as int));
        }
        assert(v.subrange(6, i as int) =~= v.skip(6));
        let rest = join_tokens(&rest_tokens);
        let message = match DiscoveryMessage::from_chars(&rest) {
            Ok(m) => m,
            Err(e) => {
                return Err(e);
            },
        };
        let mut from_peer_addr = value.addr;
        from_peer_addr.set_port(port);
        Ok(IncomingDiscoveryMessage { from_peer_id, from_peer_addr, my_perceived_addr, message })
    }
}

impl OutgoingDiscoveryMessage {
    /// The transport message that carries this message to its destination.
    pub fn into_transport(self) -> (r: TransportMessage)
        ensures
            carries(
                r,
                self.to,
                outgoing_text(self.to, self.my_listening_port, self.from_peer_id, self.message@),
            ),
    {
        let mut out: Vec<char> = Vec::new();
        push_all(&mut out, &word(6));
        out.push(' ');
        push_decimal(&mut out, self.from_peer_id);
        out.push(' ');
        push_all(&mut out, &word(7));
        out.push(' ');
        push_decimal(&mut out, self.my_listening_port as u32);
        out.push(' ');
        push_all(&mut out, &word(8));
        out.push(' ');
        push_addr(&mut out, &self.to);
        out.push(' ');
        self.message.push_text(&mut out);
        assert(out@ =~= outgoing_text(
            self.to,
            self.my_listening_port,
            self.from_peer_id,
            self.message@,
        ));
        TransportMessage { addr: self.to, msg: chars_string(&out) }
    }
}

} // verus!

verus! {

// ---------------------------------------------------------------------------
// The text of a message is read back as that message
// ---------------------------------------------------------------------------

/// The words of the text of a message.
pub open spec fn exchange_words(m: ExchangeView) -> Seq<Seq<char>> {
    match m {
        ExchangeView::Ping => seq![kw_ping()],
        ExchangeView::Pong => seq![kw_pong()],
        ExchangeView::PeerList(ids) => seq![kw_peerlist()] + id_words(ids),
        ExchangeView::PeerListGet(ids) => seq![kw_peerlistget()] + id_words(ids),
        ExchangeView::PeerGossip(id, a) => seq![kw_gossip(), dec(id as nat)] + addr_words(a),
        ExchangeView::PeerGossipGet(id, _) => seq![kw_gossipget(), dec(id as nat)],
    }
}

/// The text of a message with an empty list ends with a space.
pub open spec fn trailing_space(m: ExchangeView) -> bool {
    match m {
        ExchangeView::PeerList(ids) => ids.len() == 0,
        ExchangeView::PeerListGet(ids) => ids.len() == 0,
        ExchangeView::PeerGossip(_, a) => a.len() == 0,
        _ => false,
    }
}

/// Joining two nonempty lists of words puts one space between them.
pub proof fn lemma_join_concat(a: Seq<Seq<char>>, b: Seq<Seq<char>>)
    requires
        a.len() > 0,
        b.len() > 0,
    ensures
        join_sp(a + b) == join_sp(a) + seq![' '] + join_sp(b),
    decreases b.len(),
{
    if b.len() == 1 {
        assert((a + b).drop_last() =~= a);
        assert((a + b).last() == b[0]);
    } else {
        lemma_join_concat(a, b.drop_last());
        assert((a + b).drop_last() =~= a + b.drop_last());
        assert((a + b).last() == b.last());
        assert(join_sp(a) + seq![' '] + join_sp(b.drop_last()) + seq![' '] + b.last() =~= join_sp(a)
            + seq![' '] + (join_sp(b.drop_last()) + seq![' '] + b.last()));
    }
}

proof fn lemma_dec_word(n: nat)
    ensures
        dec(n).len() > 0,
        no_ws(dec(n)),
        n <= u32::MAX ==> id_token(dec(n)) == Ok::<u32, DiscoveryError>(n as u32),
        n <= 65535 ==> parse_unsigned(dec(n), 65535) == Ok::<nat, crate::decimal::ParseIntErrorKind>(n),
{
    lemma_dec(n, n);
    let s = dec(n);
    assert forall|i: int| 0 <= i < s.len() implies !is_ws(#[trigger] s[i]) by {
        assert(is_digit(s[i]));
    }
    assert(is_digit(s[0]));
    if n <= u32::MAX {
        lemma_dec(n, u32::MAX as nat);
    }
    if n <= 65535 {
        lemma_dec(n, 65535);
    }
}

proof fn lemma_keywords_proper()
    ensures
        proper_tokens(
            seq![
                kw_ping(),
                kw_pong(),
                kw_peerlist(),
                kw_peerlistget(),
                kw_gossip(),
                kw_gossipget(),
                kw_from(),
                kw_port(),
                kw_to(),
            ],
        ),
{
}

proof fn lemma_id_words(ids: Seq<u32>)
    requires
        ids.no_duplicates(),
    ensures
        proper_tokens(id_words(ids)),
        ids_of(id_words(ids)) == Ok::<Seq<u32>, DiscoveryError>(ids),
    decreases ids.len(),
{
    let w = id_words(ids);
    assert forall|i: int| 0 <= i < w.len() implies #[trigger] w[i].len() > 0 && no_ws(w[i]) by {
        lemma_dec_word(ids[i] as nat);
    }
    if ids.len() == 0 {
        assert(w =~= Seq::<Seq<char>>::empty());
        assert(ids =~= Seq::<u32>::empty());
    } else {
        let d = ids.drop_last();
        assert(d.no_duplicates());
        lemma_id_words(d);
        assert(w.drop_last() =~= id_words(d));
        assert(w.last() == dec(ids.last() as nat));
        lemma_dec_word(ids.last() as nat);
        assert(!d.contains(ids.last())) by {
            if d.contains(ids.last()) {
                let k = choose|k: int| 0 <= k < d.len() && d[k] == ids.last();
                assert(ids[k] == ids[ids.len() - 1]);
            }
        }
        assert(d.push(ids.last()) =~= ids);
    }
}

proof fn lemma_addr_words(a: Seq<PeerAddr>)
    requires
        a.no_duplicates(),
    ensures
        proper_tokens(addr_words(a)),
        addrs_of(addr_words(a)) == Ok::<Seq<PeerAddr>, DiscoveryError>(a),
    decreases a.len(),
{
    let w = addr_words(a);
    assert forall|i: int| 0 <= i < w.len() implies #[trigger] w[i].len() > 0 && no_ws(w[i]) by {
        lemma_addr_roundtrip(a[i]);
    }
    if a.len() == 0 {
        assert(w =~= Seq::<Seq<char>>::empty());
        assert(a =~= Seq::<PeerAddr>::empty());
    } else {
        let d = a.drop_last();
        assert(d.no_duplicates());
        lemma_addr_words(d);
        assert(w.drop_last() =~= addr_words(d));
        assert(w.last() == addr_text(a.last()));
        lemma_addr_roundtrip(a.last());
        assert(!d.contains(a.last())) by {
            if d.contains(a.last()) {
                let k = choose|k: int| 0 <= k < d.len() && d[k] == a.last();
                assert(a[k] == a[a.len() - 1]);
            }
        }
        assert(d.push(a.last()) =~= a);
    }
}

/// The command words differ from each other.
proof fn lemma_commands()
    ensures
        eq_ignore_case(kw_peerlist(), kw_peerlist()),
        eq_ignore_case(kw_peerlistget(), kw_peerlistget()),
        eq_ignore_case(kw_gossip(), kw_gossip()),
        eq_ignore_case(kw_gossipget(), kw_gossipget()),
        eq_ignore_case(kw_ping(), kw_ping()),
        eq_ignore_case(kw_pong(), kw_pong()),
        eq_ignore_case(kw_from(), kw_from()),
        eq_ignore_case(kw_port(), kw_port()),
        eq_ignore_case(kw_to(), kw_to()),
        !eq_ignore_case(kw_pong(), kw_ping()),
{
    assert(ascii_fold(kw_pong()[1]) != ascii_fold(kw_ping()[1]));
}

/// The text of a message is its words joined by spaces, with a trailing space
/// after a command word whose list is empty.
proof fn lemma_text_words(m: ExchangeView)
    requires
        well_formed(m),
    ensures
        proper_tokens(exchange_words(m)),
        exchange_text(m) == join_sp(exchange_words(m)) + (if trailing_space(m) {
            seq![' ']
        } else {
            Seq::<char>::empty()
        }),
        exchange_from_tokens(exchange_words(m)) == Ok::<ExchangeView, DiscoveryError>(m),
{
    lemma_keywords_proper();
    lemma_commands();
    let w = exchange_words(m);
    match m {
        ExchangeView::Ping => {
            assert(join_sp(w) == kw_ping());
            assert(exchange_text(m) =~= kw_ping() + Seq::<char>::empty());
        },
        ExchangeView::Pong => {
            assert(join_sp(w) == kw_pong());
            assert(exchange_text(m) =~= kw_pong() + Seq::<char>::empty());
        },
        ExchangeView::PeerList(ids) => {
            lemma_id_words(ids);
            lemma_join_front(kw_peerlist(), id_words(ids));
            if ids.len() == 0 {
                assert(id_words(ids) =~= Seq::<Seq<char>>::empty());
            }
            assert(w.skip(1) =~= id_words(ids));
        },
        ExchangeView::PeerListGet(ids) => {
            lemma_id_words(ids);
            lemma_join_front(kw_peerlistget(), id_words(ids));
            if ids.len() == 0 {
                assert(id_words(ids) =~= Seq::<Seq<char>>::empty());
            }
            assert(w.skip(1) =~= id_words(ids));
        },
        ExchangeView::PeerGossip(id, a) => {
            lemma_addr_words(a);
            lemma_dec_word(id as nat);
            let d = dec(id as nat);
            lemma_join_front(d, addr_words(a));
            lemma_join_front(kw_gossip(), seq![d] + addr_words(a));
            assert(w =~= seq![kw_gossip()] + (seq![d] + addr_words(a)));
            if a.len() == 0 {
                assert(addr_words(a) =~= Seq::<Seq<char>>::empty());
                assert(seq![d] + addr_words(a) =~= seq![d]);
            }
            assert(w.skip(2) =~= addr_words(a));
            assert(w[1] == d);
        },
        ExchangeView::PeerGossipGet(id, a) => {
            lemma_dec_word(id as nat);
            let d = dec(id as nat);
            lemma_join_front(kw_gossipget(), seq![d]);
            assert(w =~= seq![kw_gossipget()] + seq![d]);
            assert(a =~= Seq::<PeerAddr>::empty());
            assert(exchange_text(m) =~= join_sp(w) + Seq::<char>::empty());
        },
    }
    assert(proper_tokens(w)) by {
        assert forall|i: int| 0 <= i < w.len() implies #[trigger] w[i].len() > 0 && no_ws(w[i]) by {
            match m {
                ExchangeView::PeerList(ids) => {
                    if i > 0 {
                        assert(w[i] == id_words(ids)[i - 1]);
                    }
                },
                ExchangeView::PeerListGet(ids) => {
                    if i > 0 {
                        assert(w[i] == id_words(ids)[i - 1]);
                    }
                },
                ExchangeView::PeerGossip(id, a) => {
                    if i > 1 {
                        assert(w[i] == addr_words(a)[i - 2]);
                    }
                },
                _ => {},
            }
        }
    }
}

/// The set read from identifier tokens has no repeats.
pub proof fn lemma_ids_of_unique(ts: Seq<Seq<char>>)
    ensures
        ids_of(ts) matches Ok(ids) ==> ids.no_duplicates(),
    decreases ts.len(),
{
    if ts.len() > 0 {
        lemma_ids_of_unique(ts.drop_last());
    }
}

/// The set read from address tokens has no repeats.
pub proof fn lemma_addrs_of_unique(ts: Seq<Seq<char>>)
    ensures
        addrs_of(ts) matches Ok(a) ==> a.no_duplicates(),
    decreases ts.len(),
{
    if ts.len() > 0 {
        lemma_addrs_of_unique(ts.drop_last());
    }
}

/// Every message that is read is well formed.
pub proof fn lemma_read_well_formed(ts: Seq<Seq<char>>)
    ensures
        exchange_from_tokens(ts) matches Ok(m) ==> well_formed(m),
{
    if ts.len() > 0 {
        lemma_ids_of_unique(ts.skip(1));
        lemma_addrs_of_unique(ts.skip(2));
    }
}

/// The text of a well-formed message is read back as that message.
pub proof fn lemma_exchange_roundtrip(m: ExchangeView)
    requires
        well_formed(m),
    ensures
        exchange_from_text(exchange_text(m)) == Ok::<ExchangeView, DiscoveryError>(m),
{
    lemma_text_words(m);
    lemma_tokens_of_join(exchange_words(m));
    if !trailing_space(m) {
        assert(join_sp(exchange_words(m)) + Seq::<char>::empty() =~= join_sp(exchange_words(m)));
    }
}

/// The words of the envelope.
pub open spec fn envelope_words(to: PeerAddr, port: u16, from: u32) -> Seq<Seq<char>> {
    seq![kw_from(), dec(from as nat), kw_port(), dec(port as nat), kw_to(), addr_text(to)]
}

proof fn lemma_envelope_head(to: PeerAddr, port: u16, from: u32)
    ensures
        join_sp(envelope_words(to, port, from)) == kw_from() + seq![' '] + dec(from as nat)
            + seq![' '] + kw_port() + seq![' '] + dec(port as nat) + seq![' '] + kw_to() + seq![' ']
            + addr_text(to),
        proper_tokens(envelope_words(to, port, from)),
{
    lemma_keywords_proper();
    lemma_dec_word(from as nat);
    lemma_dec_word(port as nat);
    lemma_addr_roundtrip(to);
    let df = dec(from as nat);
    let dp = dec(port as nat);
    let at = addr_text(to);
    let head = envelope_words(to, port, from);
    lemma_join_front(kw_to(), seq![at]);
    lemma_join_front(dp, seq![kw_to(), at]);
    lemma_join_front(kw_port(), seq![dp, kw_to(), at]);
    lemma_join_front(df, seq![kw_port(), dp, kw_to(), at]);
    lemma_join_front(kw_from(), seq![df, kw_port(), dp, kw_to(), at]);
    assert(seq![kw_to()] + seq![at] =~= seq![kw_to(), at]);
    assert(seq![dp] + seq![kw_to(), at] =~= seq![dp, kw_to(), at]);
    assert(seq![kw_port()] + seq![dp, kw_to(), at] =~= seq![kw_port(), dp, kw_to(), at]);
    assert(seq![df] + seq![kw_port(), dp, kw_to(), at] =~= seq![df, kw_port(), dp, kw_to(), at]);
    assert(seq![kw_from()] + seq![df, kw_port(), dp, kw_to(), at] =~= head);
    assert(join_sp(seq![at]) == at);
    assert(join_sp(head) =~= kw_from() + seq![' '] + df + seq![' '] + kw_port() + seq![' '] + dp
        + seq![' '] + kw_to() + seq![' '] + at);
}

/// The words of an outgoing message are the envelope's, then the message's.
proof fn lemma_envelope_words(to: PeerAddr, port: u16, from: u32, m: ExchangeView)
    requires
        well_formed(m),
    ensures
        ws_tokens(outgoing_text(to, port, from, m)) == envelope_words(to, port, from)
            + exchange_words(m),
{
    lemma_envelope_head(to, port, from);
    lemma_text_words(m);
    let head = envelope_words(to, port, from);
    let w = exchange_words(m);
    lemma_join_concat(head, w);
    let all = head + w;
    assert(proper_tokens(all)) by {
        assert forall|i: int| 0 <= i < all.len() implies #[trigger] all[i].len() > 0 && no_ws(
            all[i],
        ) by {
            if i >= 6 {
                assert(all[i] == w[i - 6]);
            } else {
                assert(all[i] == head[i]);
            }
        }
    }
    let tail = if trailing_space(m) {
        seq![' ']
    } else {
        Seq::<char>::empty()
    };
    assert(outgoing_text(to, port, from, m) =~= join_sp(all) + tail);
    lemma_tokens_of_join(all);
    if !trailing_space(m) {
        assert(join_sp(all) + tail =~= join_sp(all));
    }
}

/// What an outgoing message says is what the receiver reads: the sender, the
/// address it came from with the sender's listening port, the address it was
/// sent to, and the message.
#[verifier::rlimit(30)]
pub proof fn lemma_envelope_roundtrip(to: PeerAddr, port: u16, from: u32, m: ExchangeView, addr: PeerAddr)
    requires
        well_formed(m),
    ensures
        incoming_from(outgoing_text(to, port, from, m), addr) == Ok::<IncomingView, DiscoveryError>(
            IncomingView {
                from_peer_id: from,
                from_peer_addr: PeerAddr { port, ..addr },
                my_perceived_addr: to,
                message: m,
            },
        ),
{
    lemma_commands();
    lemma_text_words(m);
    lemma_dec_word(from as nat);
    lemma_dec_word(port as nat);
    lemma_addr_roundtrip(to);
    lemma_envelope_words(to, port, from, m);
    let w = exchange_words(m);
    let ts = ws_tokens(outgoing_text(to, port, from, m));
    assert(ts.skip(6) =~= w);
    lemma_tokens_of_join(w);
    assert(ts[0] == kw_from());
    assert(ts[1] == dec(from as nat));
    assert(ts[2] == kw_port());
    assert(ts[3] == dec(port as nat));
    assert(ts[4] == kw_to());
    assert(ts[5] == addr_text(to));
}

} // verus!

verus! {

/// The command word of a message is read without regard to ASCII case: token
/// lists whose first words differ only in ASCII case, followed by the same
/// tokens, are read alike (`peerlist 1 2` as `PEERLIST 1 2`).
pub proof fn law_exchange_command_case_insensitive(c1: Seq<char>, c2: Seq<char>, r: Seq<Seq<char>>)
    requires
        crate::text::eq_ignore_case(c1, c2),
    ensures
        exchange_from_tokens(seq![c1] + r) == exchange_from_tokens(seq![c2] + r),
{
    let t1 = seq![c1] + r;
    let t2 = seq![c2] + r;
    assert(t1[0] == c1 && t2[0] == c2);
    assert(t1.skip(1) =~= r && t2.skip(1) =~= r);
    if r.len() > 0 {
        assert(t1[1] == r[0] && t2[1] == r[0]);
        assert(t1.skip(2) =~= t2.skip(2));
    }
    crate::text::lemma_eq_ignore_case_swap(c1, c2, kw_peerlist());
    crate::text::lemma_eq_ignore_case_swap(c1, c2, kw_peerlistget());
    crate::text::lemma_eq_ignore_case_swap(c1, c2, kw_gossip());
    crate::text::lemma_eq_ignore_case_swap(c1, c2, kw_gossipget());
    crate::text::lemma_eq_ignore_case_swap(c1, c2, kw_ping());
    crate::text::lemma_eq_ignore_case_swap(c1, c2, kw_pong());
}

} // verus!

verus! {

/// The keywords of the envelope (`FROM`, `PORT`, `TO`) are read without regard
/// to ASCII case: two texts whose words are the same but for the ASCII case of
/// those keywords are read alike.
pub proof fn law_envelope_keywords_case_insensitive(m1: Seq<char>, m2: Seq<char>, addr: PeerAddr)
    requires
        ws_tokens(m1).len() == ws_tokens(m2).len(),
        forall|i: int|
            0 <= i < ws_tokens(m1).len() && i != 0 && i != 2 && i != 4 ==> #[trigger] ws_tokens(m1)[i]
                == ws_tokens(m2)[i],
        forall|i: int|
            0 <= i < ws_tokens(m1).len() && (i == 0 || i == 2 || i == 4) ==> crate::text::eq_ignore_case(
                #[trigger] ws_tokens(m1)[i],
                ws_tokens(m2)[i],
            ),
    ensures
        incoming_from(m1, addr) == incoming_from(m2, addr),
{
    let t1 = ws_tokens(m1);
    let t2 = ws_tokens(m2);
    if t1.len() >= 1 {
        crate::text::lemma_eq_ignore_case_swap(t1[0], t2[0], kw_from());
    }
    if t1.len() >= 2 {
        assert(t1[1] == t2[1]);
    }
    if t1.len() >= 3 {
        crate::text::lemma_eq_ignore_case_swap(t1[2], t2[2], kw_port());
    }
    if t1.len() >= 4 {
        assert(t1[3] == t2[3]);
    }
    if t1.len() >= 5 {
        crate::text::lemma_eq_ignore_case_swap(t1[4], t2[4], kw_to());
    }
    if t1.len() >= 6 {
        assert(t1[5] == t2[5]);
        assert(t1.skip(6) =~= t2.skip(6)) by {
            assert forall|k: int| 0 <= k < t1.skip(6).len() implies t1.skip(6)[k] == t2.skip(6)[k] by {
                assert(t1[k + 6] == t2[k + 6]);
            }
        }
    }
}

} // verus!
