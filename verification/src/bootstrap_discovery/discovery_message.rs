//! The discovery messages and their text form:
//!   `PING FROM {peer_id}`
//!   `PONG FROM {peer_id}`
//!   `GOSSIP FROM {peer_id}. {peer_id}={addr}, {peer_id}={addr}, ...`
use vstd::prelude::*;
use crate::addr::{addr_text, lemma_addr_roundtrip, parse_addr, parse_addr_chars, push_addr};
use crate::bootstrap_discovery::peer::{peer_id_from_text, Gossip, PeerId};
use crate::bootstrap_discovery::DiscoveryError;
use crate::decimal::{all_digits, dec, is_digit, lemma_dec, push_decimal};
use crate::text::{
    chars_string, eq_ignore_ascii_case, eq_ignore_case, ascii_fold, find_whitespace, index_of,
    index_of_ws, is_ws, lacks, lemma_index_of_concat, lemma_index_of_none, lemma_index_of_ws,
    no_ws, slice_chars, split_on, split_on_chars, split_once, split_once_chars, str_chars,
    strip_prefix, strip_prefix_chars, trim, trim_chars, trim_end, trim_start, views,
};

verus! {

/// A discovery message.
#[derive(Debug, Clone)]
pub enum DiscoveryMessage {
    Ping { from: PeerId },
    Pong { from: PeerId },
    Gossip { from: PeerId, gossips: Vec<Gossip> },
}

/// The content of a discovery message.
pub enum MessageView {
    Ping(PeerId),
    Pong(PeerId),
    Gossip(PeerId, Seq<Gossip>),
}

impl View for DiscoveryMessage {
    type V = MessageView;

    open spec fn view(&self) -> MessageView {
        match self {
            DiscoveryMessage::Ping { from } => MessageView::Ping(*from),
            DiscoveryMessage::Pong { from } => MessageView::Pong(*from),
            DiscoveryMessage::Gossip { from, gossips } => MessageView::Gossip(*from, gossips@),
        }
    }
}

pub open spec fn kw_ping() -> Seq<char> {
    seq!['P', 'I', 'N', 'G']
}

pub open spec fn kw_pong() -> Seq<char> {
    seq!['P', 'O', 'N', 'G']
}

pub open spec fn kw_gossip() -> Seq<char> {
    seq!['G', 'O', 'S', 'S', 'I', 'P']
}

pub open spec fn kw_from() -> Seq<char> {
    seq!['F', 'R', 'O', 'M']
}

/// A parse result with the message taken by its view.
pub open spec fn result_view(r: Result<DiscoveryMessage, DiscoveryError>) -> Result<
    MessageView,
    DiscoveryError,
> {
    match r {
        Ok(m) => Ok(m@),
        Err(e) => Err(e),
    }
}

// ---------------------------------------------------------------------------
// Grammar
// ---------------------------------------------------------------------------

/// The command word (up to the first whitespace character) and what follows
/// that character.
pub open spec fn split_command(s: Seq<char>) -> (Seq<char>, Seq<char>) {
    match index_of_ws(s) {
        Some(i) => (s.take(i as int), s.skip(i as int + 1)),
        None => (s, Seq::empty()),
    }
}

/// The sender of a `FROM {peer_id}` clause.
pub open spec fn from_clause(rest: Seq<char>) -> Result<PeerId, DiscoveryError> {
    match strip_prefix(rest, kw_from()) {
        Some(t) => peer_id_from_text(trim(t)),
        None => Err(DiscoveryError::InvalidDiscoveryMessage),
    }
}

/// One `{peer_id}={addr}` entry of a gossip.
pub open spec fn gossip_entry(e: Seq<char>) -> Result<Gossip, DiscoveryError> {
    match split_once(trim(e), '=') {
        None => Err(DiscoveryError::InvalidDiscoveryMessage),
        Some((id, a)) => match peer_id_from_text(trim(id)) {
            Err(x) => Err(x),
            Ok(peer_id) => match parse_addr(trim(a)) {
                Some(addr) => Ok(Gossip { peer_id, addr }),
                None => Err(DiscoveryError::InvalidAddr),
            },
        },
    }
}

/// The entries of a gossip, read from the left; the first bad one decides the error.
pub open spec fn gossip_entries(es: Seq<Seq<char>>) -> Result<Seq<Gossip>, DiscoveryError>
    decreases es.len(),
{
    if es.len() == 0 {
        Ok(Seq::empty())
    } else {
        match gossip_entries(es.drop_last()) {
            Err(e) => Err(e),
            Ok(gs) => match gossip_entry(es.last()) {
                Err(e) => Err(e),
                Ok(g) => Ok(gs.push(g)),
            },
        }
    }
}

/// The body of a gossip after its command word.
pub open spec fn gossip_body(rest: Seq<char>) -> Result<MessageView, DiscoveryError> {
    match strip_prefix(rest, kw_from()) {
        None => Err(DiscoveryError::InvalidDiscoveryMessage),
        Some(r1) => match split_once(trim(r1), '.') {
            None => Err(DiscoveryError::InvalidDiscoveryMessage),
            Some((fp, gp)) => match peer_id_from_text(trim(fp)) {
                Err(e) => Err(e),
                Ok(from) => {
                    let g = trim(gp);
                    if g.len() == 0 {
                        Ok(MessageView::Gossip(from, Seq::empty()))
                    } else {
                        match gossip_entries(split_on(g, ',')) {
                            Err(e) => Err(e),
                            Ok(gs) => Ok(MessageView::Gossip(from, gs)),
                        }
                    }
                },
            },
        },
    }
}

/// The message that the text `s` denotes. The command word is matched without
/// regard to ASCII case; `FROM` must be upper case.
pub open spec fn message_from_text(s: Seq<char>) -> Result<MessageView, DiscoveryError> {
    let (cmd, raw) = split_command(s);
    let rest = trim(raw);
    if eq_ignore_case(cmd, kw_ping()) {
        match from_clause(rest) {
            Ok(f) => Ok(MessageView::Ping(f)),
            Err(e) => Err(e),
        }
    } else if eq_ignore_case(cmd, kw_pong()) {
        match from_clause(rest) {
            Ok(f) => Ok(MessageView::Pong(f)),
            Err(e) => Err(e),
        }
    } else if eq_ignore_case(cmd, kw_gossip()) {
        gossip_body(rest)
    } else {
        Err(DiscoveryError::InvalidDiscoveryMessage)
    }
}

// ---------------------------------------------------------------------------
// Text form
// ---------------------------------------------------------------------------

pub open spec fn gossip_entry_text(g: Gossip) -> Seq<char> {
    dec(g.peer_id.0 as nat) + seq!['='] + addr_text(g.addr)
}

/// The entries of a gossip, separated by `, `.
pub open spec fn gossip_list_text(gs: Seq<Gossip>) -> Seq<char>
    decreases gs.len(),
{
    if gs.len() == 0 {
        Seq::empty()
    } else if gs.len() == 1 {
        gossip_entry_text(gs[0])
    } else {
        gossip_list_text(gs.drop_last()) + seq![',', ' '] + gossip_entry_text(gs.last())
    }
}

/// The text of a message.
pub open spec fn message_text(m: MessageView) -> Seq<char> {
    match m {
        MessageView::Ping(f) => kw_ping() + seq![' '] + kw_from() + seq![' '] + dec(f.0 as nat),
        MessageView::Pong(f) => kw_pong() + seq![' '] + kw_from() + seq![' '] + dec(f.0 as nat),
        MessageView::Gossip(f, gs) => kw_gossip() + seq![' '] + kw_from() + seq![' '] + dec(
            f.0 as nat,
        ) + seq!['.', ' '] + gossip_list_text(gs),
    }
}

// ---------------------------------------------------------------------------
// Reading and writing
// ---------------------------------------------------------------------------

fn push_all(out: &mut Vec<char>, s: &Vec<char>)
    ensures
        final(out)@ == old(out)@ + s@,
{
    let mut i: usize = 0;
    while i < s.len()
        invariant
            i <= s.len(),
            out@ == old(out)@ + s@.take(i as int),
        decreases s.len() - i,
    {
        out.push(s[i]);
        i = i + 1;
        assert(out@ =~= old(out)@ + s@.take(i as int));
    }
    assert(s@.take(s.len() as int) =~= s@);
}

fn ping_word() -> (r: Vec<char>)
    ensures
        r@ == kw_ping(),
{
    let r = vec!['P', 'I', 'N', 'G'];
    assert(r@ =~= kw_ping());
    r
}

fn pong_word() -> (r: Vec<char>)
    ensures
        r@ == kw_pong(),
{
    let r = vec!['P', 'O', 'N', 'G'];
    assert(r@ =~= kw_pong());
    r
}

fn gossip_word() -> (r: Vec<char>)
    ensures
        r@ == kw_gossip(),
{
    let r = vec!['G', 'O', 'S', 'S', 'I', 'P'];
    assert(r@ =~= kw_gossip());
    r
}

fn from_word() -> (r: Vec<char>)
    ensures
        r@ == kw_from(),
{
    let r = vec!['F', 'R', 'O', 'M'];
    assert(r@ =~= kw_from());
    r
}

fn gossip_entry_chars(e: &Vec<char>) -> (r: Result<Gossip, DiscoveryError>)
    ensures
        r == gossip_entry(e@),
{
    let t = trim_chars(e);
    match split_once_chars(&t, '=') {
        None => Err(DiscoveryError::InvalidDiscoveryMessage),
        Some((id, a)) => match PeerId::from_chars(&trim_chars(&id)) {
            Err(x) => Err(x),
            Ok(peer_id) => {
                let ta = trim_chars(&a);
                match parse_addr_chars(&ta) {
                    Some(addr) => Ok(Gossip { peer_id, addr }),
                    None => Err(DiscoveryError::InvalidAddr),
                }
            },
        },
    }
}

fn gossip_list_chars(g: &Vec<char>) -> (r: Result<Vec<Gossip>, DiscoveryError>)
    ensures
        match r {
            Ok(gs) => gossip_entries(split_on(g@, ',')) == Ok::<Seq<Gossip>, DiscoveryError>(
                gs@,
            ),
            Err(e) => gossip_entries(split_on(g@, ',')) == Err::<Seq<Gossip>, DiscoveryError>(e),
        },
{
    let pieces = split_on_chars(g, ',');
    let ghost es = views(pieces@);
    let mut out: Vec<Gossip> = Vec::new();
    let mut i: usize = 0;
    assert(es.take(0) =~= Seq::<Seq<char>>::empty());
    while i < pieces.len()
        invariant
            i <= pieces@.len(),
            es == views(pieces@),
            es == split_on(g@, ','),
            gossip_entries(es.take(i as int)) == Ok::<Seq<Gossip>, DiscoveryError>(out@),
        decreases pieces@.len() - i,
    {
        assert(es.take(i + 1).drop_last() =~= es.take(i as int));
        assert(es.take(i + 1).last() == pieces@[i as int]@);
        match gossip_entry_chars(&pieces[i]) {
            Err(e) => {
                proof {
                    lemma_entries_prefix_error(es, i + 1);
                }
                return Err(e);
            },
            Ok(x) => {
                out.push(x);
            },
        }
        i = i + 1;
    }
    assert(es.take(i as int) =~= es);
    Ok(out)
}

/// Once a prefix of the entries fails, all of them fail with the same error.
proof fn lemma_entries_prefix_error(es: Seq<Seq<char>>, n: int)
    requires
        0 <= n <= es.len(),
        gossip_entries(es.take(n)) is Err,
    ensures
        gossip_entries(es) == gossip_entries(es.take(n)),
    decreases es.len() - n,
{
    if n < es.len() {
        assert(es.take(n + 1).drop_last() =~= es.take(n));
        lemma_entries_prefix_error(es, n + 1);
    } else {
        assert(es.take(n) =~= es);
    }
}

impl DiscoveryMessage {
    /// Reads a message from its text.
    pub fn from_string(s: &str) -> (r: Result<DiscoveryMessage, DiscoveryError>)
        ensures
            result_view(r) == message_from_text(s@),
    {
        let chars = str_chars(s);
        Self::from_chars(&chars)
    }

    /// Reads a message from the characters of its text.
    pub fn from_chars(s: &Vec<char>) -> (r: Result<DiscoveryMessage, DiscoveryError>)
        ensures
            result_view(r) == message_from_text(s@),
    {
        let (cmd, raw) = match find_whitespace(s) {
            Some(i) => (slice_chars(s, 0, i), slice_chars(s, i + 1, s.len())),
            None => (slice_chars(s, 0, s.len()), Vec::new()),
        };
        assert(s@.subrange(0, s@.len() as int) =~= s@);
        proof {
            let sc = split_command(s@);
            assert(cmd@ =~= sc.0);
            assert(raw@ =~= sc.1);
        }
        let rest = trim_chars(&raw);
        if eq_ignore_ascii_case(&cmd, &ping_word()) {
            match Self::parse_from(&rest) {
                Ok(from) => Ok(DiscoveryMessage::Ping { from }),
                Err(e) => Err(e),
            }
        } else if eq_ignore_ascii_case(&cmd, &pong_word()) {
            match Self::parse_from(&rest) {
                Ok(from) => Ok(DiscoveryMessage::Pong { from }),
                Err(e) => Err(e),
            }
        } else if eq_ignore_ascii_case(&cmd, &gossip_word()) {
            let r1 = match strip_prefix_chars(&rest, &from_word()) {
                Some(t) => trim_chars(&t),
                None => {
                    return Err(DiscoveryError::InvalidDiscoveryMessage);
                },
            };
            let (fp, gp) = match split_once_chars(&r1, '.') {
                Some(parts) => parts,
                None => {
                    return Err(DiscoveryError::InvalidDiscoveryMessage);
                },
            };
            let from = match PeerId::from_chars(&trim_chars(&fp)) {
                Ok(f) => f,
                Err(e) => {
                    return Err(e);
                },
            };
            let g = trim_chars(&gp);
            if g.len() == 0 {
                let gossips: Vec<Gossip> = Vec::new();
                assert(gossips@ =~= Seq::<Gossip>::empty());
                Ok(DiscoveryMessage::Gossip { from, gossips })
            } else {
                match gossip_list_chars(&g) {
                    Ok(gossips) => Ok(DiscoveryMessage::Gossip { from, gossips }),
                    Err(e) => Err(e),
                }
            }
        } else {
            Err(DiscoveryError::InvalidDiscoveryMessage)
        }
    }

    /// Reads the sender of a `FROM {peer_id}` clause.
    fn parse_from(rest: &Vec<char>) -> (r: Result<PeerId, DiscoveryError>)
        ensures
            r == from_clause(rest@),
    {
        match strip_prefix_chars(rest, &from_word()) {
            Some(t) => {
                let id = trim_chars(&t);
                PeerId::from_chars(&id)
            },
            None => Err(DiscoveryError::InvalidDiscoveryMessage),
        }
    }

    /// The characters of the text of this message.
    pub fn to_chars(&self) -> (r: Vec<char>)
        ensures
            r@ == message_text(self@),
    {
        let mut out: Vec<char> = Vec::new();
        match self {
            DiscoveryMessage::Ping { from } => {
                push_all(&mut out, &ping_word());
                out.push(' ');
                push_all(&mut out, &from_word());
                out.push(' ');
                push_decimal(&mut out, from.0);
            },
            DiscoveryMessage::Pong { from } => {
                push_all(&mut out, &pong_word());
                out.push(' ');
                push_all(&mut out, &from_word());
                out.push(' ');
                push_decimal(&mut out, from.0);
            },
            DiscoveryMessage::Gossip { from, gossips } => {
                push_all(&mut out, &gossip_word());
                out.push(' ');
                push_all(&mut out, &from_word());
                out.push(' ');
                push_decimal(&mut out, from.0);
                out.push('.');
                out.push(' ');
                let ghost head = out@;
                let mut i: usize = 0;
                while i < gossips.len()
                    invariant
                        i <= gossips@.len(),
                        out@ == head + gossip_list_text(gossips@.take(i as int)),
                    decreases gossips@.len() - i,
                {
                    let ghost before = out@;
                    if i > 0 {
                        out.push(',');
                        out.push(' ');
                    }
                    push_decimal(&mut out, gossips[i].peer_id.0);
                    out.push('=');
                    push_addr(&mut out, &gossips[i].addr);
                    proof {
                        let t = gossips@.take(i + 1);
                        assert(t.drop_last() =~= gossips@.take(i as int));
                        assert(t.last() == gossips@[i as int]);
                        if i == 0 {
                            assert(gossips@.take(0) =~= Seq::<Gossip>::empty());
                            assert(t =~= seq![gossips@[0]]);
                        }
                    }
                    i = i + 1;
                    assert(out@ =~= head + gossip_list_text(gossips@.take(i as int)));
                }
                assert(gossips@.take(i as int) =~= gossips@);
            },
        }
        assert(out@ =~= message_text(self@));
        out
    }

    /// The text of this message.
    pub fn to_string(&self) -> (r: String)
        ensures
            r@ == message_text(self@),
    {
        chars_string(&self.to_chars())
    }
}

// ---------------------------------------------------------------------------
// The text of a message is read back as that message
// ---------------------------------------------------------------------------

/// Text that neither starts nor ends with whitespace is its own trimming.
pub proof fn lemma_trim_id(x: Seq<char>)
    requires
        x.len() == 0 || (!is_ws(x[0]) && !is_ws(x.last())),
    ensures
        trim(x) == x,
{
}

/// A leading space is trimmed away.
pub proof fn lemma_trim_space_front(x: Seq<char>)
    ensures
        trim_start(seq![' '] + x) == trim_start(x),
{
    assert((seq![' '] + x).drop_first() =~= x);
}

/// A trailing space is trimmed away.
pub proof fn lemma_trim_space_back(x: Seq<char>)
    ensures
        trim_end(x + seq![' ']) == trim_end(x),
{
    assert((x + seq![' ']).drop_last() =~= x);
}

/// The numeral of `n` holds only digits, so no whitespace, dot, comma or equals sign.
proof fn lemma_dec_chars(n: nat)
    ensures
        dec(n).len() > 0,
        no_ws(dec(n)),
        lacks(dec(n), '.'),
        lacks(dec(n), ','),
        lacks(dec(n), '='),
        is_digit(dec(n)[0]),
        is_digit(dec(n).last()),
        peer_id_from_text(dec(n)) == (if n <= u32::MAX { Ok::<PeerId, DiscoveryError>(PeerId(n as u32)) } else { peer_id_from_text(dec(n)) }),
{
    lemma_dec(n, if n <= u32::MAX { u32::MAX as nat } else { n });
    let s = dec(n);
    assert forall|i: int| 0 <= i < s.len() implies !is_ws(#[trigger] s[i]) && s[i] != '.' && s[i]
        != ',' && s[i] != '=' by {
        assert(is_digit(s[i]));
    }
    assert(is_digit(s[s.len() - 1]));
    if n <= u32::MAX {
        lemma_dec(n, u32::MAX as nat);
        lemma_trim_id(s);
    }
}

/// Splitting at every `c` distributes over a `c` between two texts.
pub proof fn lemma_split_on_append(x: Seq<char>, c: char, y: Seq<char>)
    ensures
        split_on(x + seq![c] + y, c) == split_on(x, c) + split_on(y, c),
    decreases x.len(),
{
    let s = x + seq![c] + y;
    match index_of(x, c) {
        None => {
            assert(lacks(x, c)) by {
                crate::text::lemma_index_of_bound(x, c);
                assert forall|k: int| 0 <= k < x.len() implies x[k] != c by {
                    if x[k] == c {
                        crate::text::lemma_index_of(x, c, 0);
                        lemma_first_of(x, c, k);
                    }
                }
            }
            lemma_index_of_concat(x, c, y);
            assert(s.take(x.len() as int) =~= x);
            assert(s.skip(x.len() as int + 1) =~= y);
            lemma_index_of_none(x, c);
        },
        Some(i) => {
            crate::text::lemma_index_of_bound(x, c);
            let x1 = x.take(i as int);
            let x2 = x.skip(i as int + 1);
            assert(lacks(x1, c)) by {
                lemma_before_first(x, c);
            }
            assert(x =~= x1 + seq![c] + x2);
            assert(s =~= x1 + seq![c] + (x2 + seq![c] + y));
            lemma_index_of_concat(x1, c, x2 + seq![c] + y);
            assert(s.take(i as int) =~= x1);
            assert(s.skip(i as int + 1) =~= x2 + seq![c] + y);
            lemma_split_on_append(x2, c, y);
            assert(split_on(x, c) == seq![x1] + split_on(x2, c));
            assert(seq![x1] + (split_on(x2, c) + split_on(y, c)) =~= (seq![x1] + split_on(x2, c))
                + split_on(y, c));
        },
    }
}

/// If `c` occurs at `k`, `index_of` finds some occurrence.
proof fn lemma_first_of(x: Seq<char>, c: char, k: int)
    requires
        0 <= k < x.len(),
        x[k] == c,
    ensures
        index_of(x, c) is Some,
    decreases k,
{
    if k > 0 && x[0] != c {
        assert(x.drop_first()[k - 1] == c);
        lemma_first_of(x.drop_first(), c, k - 1);
    }
}

/// No `c` stands before the first one.
proof fn lemma_before_first(x: Seq<char>, c: char)
    requires
        index_of(x, c) is Some,
    ensures
        lacks(x.take(index_of(x, c)->Some_0 as int), c),
    decreases x.len(),
{
    crate::text::lemma_index_of_bound(x, c);
    if x[0] != c {
        lemma_before_first(x.drop_first(), c);
        crate::text::lemma_index_of_bound(x.drop_first(), c);
        let i = index_of(x, c)->Some_0;
        assert forall|k: int| 0 <= k < i implies #[trigger] x.take(i as int)[k] != c by {
            assert(x.take(i as int)[k] == x[k]);
            if k > 0 {
                assert(x.drop_first()[k - 1] == x[k]);
                assert(x.drop_first().take(i - 1)[k - 1] == x.drop_first()[k - 1]);
            }
        }
    }
}

/// The pieces of a gossip list: the first entry, then each further one after a space.
pub open spec fn gossip_pieces(gs: Seq<Gossip>) -> Seq<Seq<char>>
    decreases gs.len(),
{
    if gs.len() == 0 {
        Seq::empty()
    } else if gs.len() == 1 {
        seq![gossip_entry_text(gs[0])]
    } else {
        gossip_pieces(gs.drop_last()).push(seq![' '] + gossip_entry_text(gs.last()))
    }
}

/// The text of an entry: its first and last characters are digits, it holds no
/// comma, and it is read back as the entry.
proof fn lemma_entry(g: Gossip)
    ensures
        gossip_entry(gossip_entry_text(g)) == Ok::<Gossip, DiscoveryError>(g),
        gossip_entry(seq![' '] + gossip_entry_text(g)) == Ok::<Gossip, DiscoveryError>(g),
        lacks(gossip_entry_text(g), ','),
        is_digit(gossip_entry_text(g)[0]),
        is_digit(gossip_entry_text(g).last()),
        no_ws(gossip_entry_text(g)),
{
    let d = dec(g.peer_id.0 as nat);
    let a = addr_text(g.addr);
    let e = gossip_entry_text(g);
    lemma_dec_chars(g.peer_id.0 as nat);
    lemma_addr_roundtrip(g.addr);
    lemma_dec(g.addr.port as nat, 65535);
    // the address text ends with the digits of the port
    assert(a.last() == dec(g.addr.port as nat).last());
    assert(is_digit(dec(g.addr.port as nat)[dec(g.addr.port as nat).len() - 1]));
    assert(e.last() == a.last());
    assert(e[0] == d[0]);
    assert forall|i: int| 0 <= i < e.len() implies #[trigger] e[i] != ',' && !is_ws(e[i]) by {
        if i < d.len() {
            assert(e[i] == d[i]);
        } else if i > d.len() {
            assert(e[i] == a[i - d.len() - 1]);
        }
    }
    lemma_trim_id(e);
    lemma_trim_space_front(e);
    assert(trim(seq![' '] + e) == e);
    lemma_index_of_concat(d, '=', a);
    assert(e.take(d.len() as int) =~= d);
    assert(e.skip(d.len() as int + 1) =~= a);
    assert(!is_ws(a[0]));
    lemma_trim_id(a);
}

/// The gossip list splits at its commas into its pieces.
proof fn lemma_list_split(gs: Seq<Gossip>)
    requires
        gs.len() > 0,
    ensures
        split_on(gossip_list_text(gs), ',') == gossip_pieces(gs),
    decreases gs.len(),
{
    if gs.len() == 1 {
        lemma_entry(gs[0]);
        crate::addr::lemma_split_on_single(gossip_entry_text(gs[0]), ',');
    } else {
        lemma_list_split(gs.drop_last());
        lemma_entry(gs.last());
        let x = gossip_list_text(gs.drop_last());
        let y = seq![' '] + gossip_entry_text(gs.last());
        assert(gossip_list_text(gs) =~= x + seq![','] + y);
        lemma_split_on_append(x, ',', y);
        assert(lacks(y, ',')) by {
            assert forall|i: int| 0 <= i < y.len() implies #[trigger] y[i] != ',' by {
                if i > 0 {
                    assert(y[i] == gossip_entry_text(gs.last())[i - 1]);
                }
            }
        }
        crate::addr::lemma_split_on_single(y, ',');
    }
}

/// The pieces of a gossip list are read back as its entries.
proof fn lemma_pieces(gs: Seq<Gossip>)
    ensures
        gossip_entries(gossip_pieces(gs)) == Ok::<Seq<Gossip>, DiscoveryError>(gs),
    decreases gs.len(),
{
    if gs.len() == 1 {
        lemma_entry(gs[0]);
        assert(gossip_pieces(gs).drop_last() =~= Seq::<Seq<char>>::empty());
        assert(seq![gs[0]] =~= gs);
    } else if gs.len() > 1 {
        lemma_pieces(gs.drop_last());
        lemma_entry(gs.last());
        assert(gossip_pieces(gs).drop_last() =~= gossip_pieces(gs.drop_last()));
        assert(gs.drop_last().push(gs.last()) =~= gs);
    } else {
        assert(gs =~= Seq::<Gossip>::empty());
    }
}

/// The gossip list text starts and ends with a digit.
proof fn lemma_list_ends(gs: Seq<Gossip>)
    requires
        gs.len() > 0,
    ensures
        is_digit(gossip_list_text(gs)[0]),
        is_digit(gossip_list_text(gs).last()),
    decreases gs.len(),
{
    lemma_entry(gs.last());
    if gs.len() > 1 {
        lemma_list_ends(gs.drop_last());
        let x = gossip_list_text(gs.drop_last());
        assert(gossip_list_text(gs)[0] == x[0]);
    } else {
        lemma_entry(gs[0]);
    }
}

/// The command words differ from each other.
proof fn lemma_commands()
    ensures
        !eq_ignore_case(kw_pong(), kw_ping()),
        !eq_ignore_case(kw_gossip(), kw_ping()),
        !eq_ignore_case(kw_gossip(), kw_pong()),
        eq_ignore_case(kw_ping(), kw_ping()),
        eq_ignore_case(kw_pong(), kw_pong()),
        eq_ignore_case(kw_gossip(), kw_gossip()),
{
    assert(ascii_fold(kw_pong()[1]) != ascii_fold(kw_ping()[1]));
}

/// The command word of a message text is its first word.
proof fn lemma_command(s: Seq<char>, kw: Seq<char>, tail: Seq<char>)
    requires
        s == kw + seq![' '] + tail,
        no_ws(kw),
    ensures
        split_command(s) == (kw, tail),
{
    assert forall|k: int| 0 <= k < kw.len() implies !is_ws(s[k]) by {
        assert(s[k] == kw[k]);
    }
    assert(s[kw.len() as int] == ' ');
    lemma_index_of_ws(s, kw.len() as int);
    assert(s.take(kw.len() as int) =~= kw);
    assert(s.skip(kw.len() as int + 1) =~= tail);
}

/// A `FROM {peer_id}` clause is read back as the sender.
proof fn lemma_from_clause(f: PeerId)
    ensures
        trim(kw_from() + seq![' '] + dec(f.0 as nat)) == kw_from() + seq![' '] + dec(f.0 as nat),
        from_clause(kw_from() + seq![' '] + dec(f.0 as nat)) == Ok::<PeerId, DiscoveryError>(f),
{
    let d = dec(f.0 as nat);
    lemma_dec_chars(f.0 as nat);
    let raw = kw_from() + seq![' '] + d;
    assert(raw[0] == 'F');
    assert(raw.last() == d.last());
    lemma_trim_id(raw);
    assert(raw.take(4) =~= kw_from());
    assert(raw.skip(4) =~= seq![' '] + d);
    lemma_trim_space_front(d);
    lemma_trim_id(d);
}

/// The body of a gossip text is read back as the gossip.
#[verifier::rlimit(40)]
proof fn lemma_gossip_body(f: PeerId, gs: Seq<Gossip>)
    ensures
        gossip_body(trim(kw_from() + seq![' '] + dec(f.0 as nat) + seq!['.', ' '] + gossip_list_text(gs)))
            == Ok::<MessageView, DiscoveryError>(MessageView::Gossip(f, gs)),
{
    let d = dec(f.0 as nat);
    lemma_dec_chars(f.0 as nat);
    let l = gossip_list_text(gs);
    let raw = kw_from() + seq![' '] + d + seq!['.', ' '] + l;
    let body = if gs.len() == 0 {
        d + seq!['.']
    } else {
        d + seq!['.', ' '] + l
    };
    let rest = kw_from() + seq![' '] + body;
    if gs.len() == 0 {
        assert(l =~= Seq::<char>::empty());
        assert(raw =~= rest + seq![' ']);
        lemma_trim_space_back(rest);
        assert(rest[0] == 'F');
        lemma_trim_id(rest);
    } else {
        lemma_list_ends(gs);
        assert(raw.last() == l.last());
        assert(raw[0] == 'F');
        lemma_trim_id(raw);
        assert(raw =~= rest);
    }
    assert(trim(raw) == rest);
    assert(rest.take(4) =~= kw_from());
    assert(rest.skip(4) =~= seq![' '] + body);
    assert(strip_prefix(rest, kw_from()) == Some(seq![' '] + body));
    lemma_trim_space_front(body);
    if gs.len() > 0 {
        lemma_list_ends(gs);
        assert(body.last() == l.last());
    }
    lemma_trim_id(body);
    assert(trim(seq![' '] + body) == body);
    let after = if gs.len() == 0 {
        Seq::<char>::empty()
    } else {
        seq![' '] + l
    };
    assert(body =~= d + seq!['.'] + after);
    lemma_index_of_concat(d, '.', after);
    assert(body.take(d.len() as int) =~= d);
    assert(body.skip(d.len() as int + 1) =~= after);
    assert(split_once(body, '.') == Some((d, after)));
    lemma_trim_id(d);
    if gs.len() > 0 {
        lemma_trim_space_front(l);
        lemma_list_ends(gs);
        lemma_trim_id(l);
        assert(trim(after) == l);
        lemma_list_split(gs);
        lemma_pieces(gs);
    } else {
        assert(gs =~= Seq::<Gossip>::empty());
    }
}

/// The text of any message is read back as that message.
pub proof fn lemma_message_roundtrip(m: MessageView)
    ensures
        message_from_text(message_text(m)) == Ok::<MessageView, DiscoveryError>(m),
{
    lemma_commands();
    let s = message_text(m);
    match m {
        MessageView::Ping(f) => {
            assert(s =~= kw_ping() + seq![' '] + (kw_from() + seq![' '] + dec(f.0 as nat)));
            lemma_command(s, kw_ping(), kw_from() + seq![' '] + dec(f.0 as nat));
            lemma_from_clause(f);
        },
        MessageView::Pong(f) => {
            assert(s =~= kw_pong() + seq![' '] + (kw_from() + seq![' '] + dec(f.0 as nat)));
            lemma_command(s, kw_pong(), kw_from() + seq![' '] + dec(f.0 as nat));
            lemma_from_clause(f);
        },
        MessageView::Gossip(f, gs) => {
            let tail = kw_from() + seq![' '] + dec(f.0 as nat) + seq!['.', ' '] + gossip_list_text(gs);
            assert(s =~= kw_gossip() + seq![' '] + tail);
            lemma_command(s, kw_gossip(), tail);
            lemma_gossip_body(f, gs);
        },
    }
}

} // verus!

verus! {

/// The command word of a message is read without regard to ASCII case: two
/// messages whose command words differ only in ASCII case, followed by the same
/// text, are read alike (`gossip FROM ..` as `GOSSIP FROM ..`, `Ping FROM ..` as
/// `PING FROM ..`).
pub proof fn law_command_case_insensitive(c1: Seq<char>, c2: Seq<char>, x: Seq<char>)
    requires
        no_ws(c1),
        no_ws(c2),
        crate::text::eq_ignore_case(c1, c2),
    ensures
        message_from_text(c1 + seq![' '] + x) == message_from_text(c2 + seq![' '] + x),
{
    let s1 = c1 + seq![' '] + x;
    let s2 = c2 + seq![' '] + x;
    assert forall|k: int| 0 <= k < c1.len() implies !is_ws(s1[k]) by {
        assert(s1[k] == c1[k]);
    }
    assert forall|k: int| 0 <= k < c2.len() implies !is_ws(s2[k]) by {
        assert(s2[k] == c2[k]);
    }
    assert(is_ws(s1[c1.len() as int]));
    assert(is_ws(s2[c2.len() as int]));
    crate::text::lemma_index_of_ws(s1, c1.len() as int);
    crate::text::lemma_index_of_ws(s2, c2.len() as int);
    assert(s1.take(c1.len() as int) =~= c1);
    assert(s2.take(c2.len() as int) =~= c2);
    assert(s1.skip(c1.len() as int + 1) =~= x);
    assert(s2.skip(c2.len() as int + 1) =~= x);
    crate::text::lemma_eq_ignore_case_swap(c1, c2, kw_ping());
    crate::text::lemma_eq_ignore_case_swap(c1, c2, kw_pong());
    crate::text::lemma_eq_ignore_case_swap(c1, c2, kw_gossip());
}

} // verus!
