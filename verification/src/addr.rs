//! Socket addresses of peers, read from and written as std does:
//! `a.b.c.d:port` for IPv4, `[ipv6]:port` or `[ipv6%scope]:port` for IPv6.
use vstd::prelude::*;
use crate::decimal::{
    all_digits, dec, digits_value, is_digit, lemma_dec, lemma_digits_value_bound,
    parse_unsigned_chars, push_decimal,
};
use crate::ipv6::{lemma_v6_roundtrip, lemma_v6_text_chars, push_v6, segs, v6_text, v6_value, v6_value_exec, Segments, is_hex_digit};
use crate::text::{
    chars_string, index_of, is_ws, lacks, lemma_index_of_concat, lemma_index_of_none, no_ws,
    split_on, split_on_chars, split_once, split_once_chars,
};

verus! {

/// The four octets of an IPv4 address, most significant first.
#[derive(Debug, Clone, Copy, PartialEq, Eq, Structural)]
pub struct Octets(pub u8, pub u8, pub u8, pub u8);

/// The host part of a socket address.
#[derive(Debug, Clone, Copy, PartialEq, Eq, Structural)]
pub enum Host {
    V4(Octets),
    /// The groups and the scope id.
    V6(Segments, u32),
}

/// A socket address.
#[derive(Debug, Clone, Copy, PartialEq, Eq, Structural)]
pub struct PeerAddr {
    pub ip: Host,
    pub port: u16,
}

impl PeerAddr {
    /// The address `a.b.c.d:port`.
    pub fn new(a: u8, b: u8, c: u8, d: u8, port: u16) -> (r: PeerAddr)
        ensures
            r == (PeerAddr { ip: Host::V4(Octets(a, b, c, d)), port }),
    {
        PeerAddr { ip: Host::V4(Octets(a, b, c, d)), port }
    }

    /// The address `[g0:..:g7%scope_id]:port`.
    pub fn new_v6(groups: Segments, scope_id: u32, port: u16) -> (r: PeerAddr)
        ensures
            r == (PeerAddr { ip: Host::V6(groups, scope_id), port }),
    {
        PeerAddr { ip: Host::V6(groups, scope_id), port }
    }

    /// The same address with another port (what `SocketAddr::set_port` does).
    pub fn set_port(&mut self, port: u16)
        ensures
            final(self).ip == old(self).ip,
            final(self).port == port,
    {
        self.port = port;
    }

    /// Whether two addresses are the same.
    pub fn same(&self, other: &PeerAddr) -> (r: bool)
        ensures
            r == (*self == *other),
    {
        *self == *other
    }

    /// The text of this address, as std writes it.
    pub fn to_string(&self) -> (r: String)
        ensures
            r@ == addr_text(*self),
    {
        let mut v: Vec<char> = Vec::new();
        push_addr(&mut v, self);
        chars_string(&v)
    }
}

/// The dotted-decimal text of one IPv4 octet: one to three digits, no leading zero
/// unless the octet is `0`, and a value up to 255.
pub open spec fn octet_value(s: Seq<char>) -> Option<u8> {
    if 1 <= s.len() <= 3 && all_digits(s) && !(s[0] == '0' && s.len() > 1) && digits_value(
        s,
        255,
    ) is Ok {
        Some(digits_value(s, 255)->Ok_0 as u8)
    } else {
        None
    }
}

/// The text of a port: at least one digit and a value up to 65535.
pub open spec fn port_value(s: Seq<char>) -> Option<u16> {
    if s.len() >= 1 && all_digits(s) && digits_value(s, 65535) is Ok {
        Some(digits_value(s, 65535)->Ok_0 as u16)
    } else {
        None
    }
}

/// The IPv4 socket address that the text `s` denotes in the form `a.b.c.d:port`, if any.
pub open spec fn parse_v4(s: Seq<char>) -> Option<PeerAddr> {
    match split_once(s, ':') {
        None => None,
        Some((ip, port)) => {
            let parts = split_on(ip, '.');
            if parts.len() == 4 && octet_value(parts[0]) is Some && octet_value(parts[1]) is Some
                && octet_value(parts[2]) is Some && octet_value(parts[3]) is Some && port_value(
                port,
            ) is Some {
                Some(
                    PeerAddr {
                        ip: Host::V4(
                            Octets(
                                octet_value(parts[0])->Some_0,
                                octet_value(parts[1])->Some_0,
                                octet_value(parts[2])->Some_0,
                                octet_value(parts[3])->Some_0,
                            ),
                        ),
                        port: port_value(port)->Some_0,
                    },
                )
            } else {
                None
            }
        },
    }
}

/// A scope id: one or more digits, with a value up to `u32::MAX`.
pub open spec fn scope_value(s: Seq<char>) -> Option<u32> {
    if s.len() >= 1 && all_digits(s) && digits_value(s, u32::MAX as nat) is Ok {
        Some(digits_value(s, u32::MAX as nat)->Ok_0 as u32)
    } else {
        None
    }
}

/// The IPv6 address and scope id between the brackets: the address, then
/// optionally `%` and the scope id (zero when there is none).
pub open spec fn v6_body(body: Seq<char>) -> Option<(Segments, u32)> {
    let (ip, scope) = match split_once(body, '%') {
        None => (body, Some(0u32)),
        Some((ip, sc)) => (ip, scope_value(sc)),
    };
    match (v6_value(ip), scope) {
        (Some(g), Some(sc)) => Some(
            (Segments(g[0], g[1], g[2], g[3], g[4], g[5], g[6], g[7]), sc),
        ),
        _ => None,
    }
}

/// The IPv6 socket address that the text `s` denotes in the form
/// `[ipv6]:port` or `[ipv6%scope]:port`, if any.
pub open spec fn parse_v6(s: Seq<char>) -> Option<PeerAddr> {
    if s.len() >= 1 && s[0] == '[' {
        match split_once(s.drop_first(), ']') {
            None => None,
            Some((body, rest)) => {
                if rest.len() >= 1 && rest[0] == ':' && port_value(rest.drop_first()) is Some {
                    match v6_body(body) {
                        Some((g, sc)) => Some(
                            PeerAddr {
                                ip: Host::V6(g, sc),
                                port: port_value(rest.drop_first())->Some_0,
                            },
                        ),
                        None => None,
                    }
                } else {
                    None
                }
            },
        }
    } else {
        None
    }
}

/// The socket address that the text `s` denotes, read as std reads a
/// `SocketAddr`: an IPv4 form, else a bracketed IPv6 form.
pub open spec fn parse_addr(s: Seq<char>) -> Option<PeerAddr> {
    if s.len() >= 1 && s[0] == '[' {
        parse_v6(s)
    } else {
        parse_v4(s)
    }
}

/// The dotted-decimal text of an IPv4 address.
pub open spec fn v4_text(o: Octets) -> Seq<char> {
    dec(o.0 as nat) + seq!['.'] + dec(o.1 as nat) + seq!['.'] + dec(o.2 as nat) + seq!['.'] + dec(
        o.3 as nat,
    )
}

/// The text between the brackets of an IPv6 socket address.
pub open spec fn v6_body_text(g: Segments, scope_id: u32) -> Seq<char> {
    if scope_id == 0 {
        v6_text(segs(g))
    } else {
        v6_text(segs(g)) + seq!['%'] + dec(scope_id as nat)
    }
}

/// The text of an address (what `Display` writes for it).
pub open spec fn addr_text(a: PeerAddr) -> Seq<char> {
    match a.ip {
        Host::V4(o) => v4_text(o) + seq![':'] + dec(a.port as nat),
        Host::V6(g, sc) => seq!['['] + v6_body_text(g, sc) + seq![']', ':'] + dec(a.port as nat),
    }
}

/// Every character of the text of an address is a digit, `.` or `:`.
pub open spec fn addr_chars(s: Seq<char>) -> bool {
    forall|i: int| 0 <= i < s.len() ==> is_digit(#[trigger] s[i]) || s[i] == '.' || s[i] == ':'
}

/// Splitting `x + c + y` at `c`, when `x` lacks `c`, gives `x` then the parts of `y`.
pub proof fn lemma_split_on_concat(x: Seq<char>, c: char, y: Seq<char>)
    requires
        lacks(x, c),
    ensures
        split_on(x + seq![c] + y, c) == seq![x] + split_on(y, c),
{
    let s = x + seq![c] + y;
    lemma_index_of_concat(x, c, y);
    assert(s.take(x.len() as int) =~= x);
    assert(s.skip(x.len() as int + 1) =~= y);
}

/// A sequence that lacks `c` is one part.
pub proof fn lemma_split_on_single(x: Seq<char>, c: char)
    requires
        lacks(x, c),
    ensures
        split_on(x, c) == seq![x],
{
    lemma_index_of_none(x, c);
}

pub proof fn lemma_octet(n: u8)
    ensures
        octet_value(dec(n as nat)) == Some(n),
        lacks(dec(n as nat), '.'),
        lacks(dec(n as nat), ':'),
        no_ws(dec(n as nat)),
        addr_chars(dec(n as nat)),
{
    lemma_dec(n as nat, 255);
    let s = dec(n as nat);
    assert forall|i: int| 0 <= i < s.len() implies s[i] != '.' && s[i] != ':' && !is_ws(
        s[i],
    ) by {
        assert(is_digit(s[i]));
    }
}

/// The IPv4 text is made of digits and dots, and starts with a digit.
pub proof fn lemma_v4_chars(o: Octets)
    ensures
        forall|i: int|
            0 <= i < v4_text(o).len() ==> #[trigger] v4_text(o)[i] != ':' && (is_digit(
                v4_text(o)[i],
            ) || v4_text(o)[i] == '.'),
        v4_text(o).len() > 0,
        is_digit(v4_text(o)[0]),
{
    lemma_octet(o.0);
    lemma_octet(o.1);
    lemma_octet(o.2);
    lemma_octet(o.3);
    lemma_dec(o.0 as nat, 255);
    let d0 = dec(o.0 as nat);
    let d1 = dec(o.1 as nat);
    let d2 = dec(o.2 as nat);
    let d3 = dec(o.3 as nat);
    let ip = v4_text(o);
    assert(ip[0] == d0[0]);
    assert forall|i: int| 0 <= i < ip.len() implies #[trigger] ip[i] != ':' && (is_digit(ip[i])
        || ip[i] == '.') by {
        if i < d0.len() {
            assert(ip[i] == d0[i]);
        } else if i == d0.len() {
        } else if i < d0.len() + 1 + d1.len() {
            assert(ip[i] == d1[i - d0.len() - 1]);
        } else if i == d0.len() + 1 + d1.len() {
        } else if i < d0.len() + 2 + d1.len() + d2.len() {
            assert(ip[i] == d2[i - d0.len() - 2 - d1.len()]);
        } else if i == d0.len() + 2 + d1.len() + d2.len() {
        } else {
            assert(ip[i] == d3[i - d0.len() - 3 - d1.len() - d2.len()]);
        }
    }
}

/// The IPv4 text splits at its dots into the four octets.
proof fn lemma_v4_split(o: Octets)
    ensures
        split_on(v4_text(o), '.') == seq![
            dec(o.0 as nat),
            dec(o.1 as nat),
            dec(o.2 as nat),
            dec(o.3 as nat),
        ],
{
    lemma_octet(o.0);
    lemma_octet(o.1);
    lemma_octet(o.2);
    lemma_octet(o.3);
    let d0 = dec(o.0 as nat);
    let d1 = dec(o.1 as nat);
    let d2 = dec(o.2 as nat);
    let d3 = dec(o.3 as nat);
    lemma_split_on_single(d3, '.');
    lemma_split_on_concat(d2, '.', d3);
    lemma_split_on_concat(d1, '.', d2 + seq!['.'] + d3);
    lemma_split_on_concat(d0, '.', d1 + seq!['.'] + d2 + seq!['.'] + d3);
    assert(v4_text(o) =~= d0 + seq!['.'] + (d1 + seq!['.'] + d2 + seq!['.'] + d3));
    assert(d1 + seq!['.'] + d2 + seq!['.'] + d3 =~= d1 + seq!['.'] + (d2 + seq!['.'] + d3));
    assert(seq![d0] + (seq![d1] + (seq![d2] + seq![d3])) =~= seq![d0, d1, d2, d3]);
}

proof fn lemma_v4_addr_roundtrip(a: PeerAddr, o: Octets)
    requires
        a.ip == Host::V4(o),
    ensures
        parse_addr(addr_text(a)) == Some(a),
        no_ws(addr_text(a)),
        lacks(addr_text(a), ','),
        lacks(addr_text(a), '='),
        addr_text(a).len() > 0,
{
    lemma_octet(o.0);
    lemma_octet(o.1);
    lemma_octet(o.2);
    lemma_octet(o.3);
    lemma_dec(a.port as nat, 65535);
    lemma_v4_chars(o);
    lemma_v4_split(o);
    let dp = dec(a.port as nat);
    let ip = v4_text(o);
    let s = addr_text(a);
    assert(s[0] == ip[0]);
    assert(lacks(ip, ':'));
    lemma_index_of_concat(ip, ':', dp);
    assert(s.take(ip.len() as int) =~= ip);
    assert(s.skip(ip.len() as int + 1) =~= dp);
    assert(split_once(s, ':') == Some((ip, dp)));
    assert(port_value(dp) == Some(a.port));
    assert forall|i: int| 0 <= i < s.len() implies !is_ws(#[trigger] s[i]) && s[i] != ','
        && s[i] != '=' by {
        if i < ip.len() {
            assert(s[i] == ip[i]);
        } else if i > ip.len() {
            assert(s[i] == dp[i - ip.len() - 1]);
            assert(is_digit(dp[i - ip.len() - 1]));
        }
    }
}

proof fn lemma_v6_addr_roundtrip(a: PeerAddr, g: Segments, sc: u32)
    requires
        a.ip == Host::V6(g, sc),
    ensures
        parse_addr(addr_text(a)) == Some(a),
        no_ws(addr_text(a)),
        lacks(addr_text(a), ','),
        lacks(addr_text(a), '='),
        addr_text(a).len() > 0,
{
    let vt = v6_text(segs(g));
    let body = v6_body_text(g, sc);
    let dp = dec(a.port as nat);
    let ds = dec(sc as nat);
    let s = addr_text(a);
    lemma_v6_text_chars(segs(g));
    lemma_v6_roundtrip(segs(g));
    lemma_dec(a.port as nat, 65535);
    lemma_dec(sc as nat, u32::MAX as nat);
    // the characters of the body: those of the IPv6 text, `%` and digits
    assert forall|i: int| 0 <= i < body.len() implies (is_hex_digit(#[trigger] body[i]) || body[i]
        == ':' || body[i] == '.' || body[i] == '%') by {
        if i < vt.len() {
            assert(body[i] == vt[i]);
        } else if i > vt.len() {
            assert(body[i] == ds[i - vt.len() - 1]);
            assert(is_digit(ds[i - vt.len() - 1]));
        }
    }
    assert(lacks(body, ']'));
    let rest = seq![':'] + dp;
    assert(s.drop_first() =~= body + seq![']'] + rest);
    lemma_index_of_concat(body, ']', rest);
    assert(s.drop_first().take(body.len() as int) =~= body);
    assert(s.drop_first().skip(body.len() as int + 1) =~= rest);
    assert(rest.drop_first() =~= dp);
    assert(port_value(dp) == Some(a.port));
    assert(lacks(vt, '%'));
    if sc == 0 {
        lemma_index_of_none(body, '%');
    } else {
        lemma_index_of_concat(vt, '%', ds);
        assert(body.take(vt.len() as int) =~= vt);
        assert(body.skip(vt.len() as int + 1) =~= ds);
        assert(scope_value(ds) == Some(sc));
    }
    let gs = segs(g);
    assert(Segments(gs[0], gs[1], gs[2], gs[3], gs[4], gs[5], gs[6], gs[7]) == g);
    assert(v6_body(body) == Some((g, sc)));
    assert forall|i: int| 0 <= i < s.len() implies !is_ws(#[trigger] s[i]) && s[i] != ','
        && s[i] != '=' by {
        if 1 <= i < 1 + body.len() {
            assert(s[i] == body[i - 1]);
        } else if i >= body.len() + 3 {
            assert(s[i] == dp[i - body.len() - 3]);
            assert(is_digit(dp[i - body.len() - 3]));
        }
    }
}

/// The text of an address is read back as that address; it holds no
/// whitespace, comma or equals sign.
pub proof fn lemma_addr_roundtrip(a: PeerAddr)
    ensures
        parse_addr(addr_text(a)) == Some(a),
        no_ws(addr_text(a)),
        lacks(addr_text(a), ','),
        lacks(addr_text(a), '='),
        addr_text(a).len() > 0,
{
    match a.ip {
        Host::V4(o) => lemma_v4_addr_roundtrip(a, o),
        Host::V6(g, sc) => lemma_v6_addr_roundtrip(a, g, sc),
    }
}

/// Whether every character of `s` is a decimal digit.
pub fn all_digits_chars(s: &Vec<char>) -> (r: bool)
    ensures
        r == all_digits(s@),
{
    let mut i: usize = 0;
    while i < s.len()
        invariant
            i <= s.len(),
            forall|k: int| 0 <= k < i ==> is_digit(#[trigger] s@[k]),
        decreases s.len() - i,
    {
        if !('0' <= s[i] && s[i] <= '9') {
            return false;
        }
        i = i + 1;
    }
    true
}

/// The value of an octet text.
pub(crate) fn octet_chars(s: &Vec<char>) -> (r: Option<u8>)
    ensures
        r == octet_value(s@),
{
    if s.len() < 1 || s.len() > 3 || !all_digits_chars(s) || (s[0] == '0' && s.len() > 1) {
        return None;
    }
    match parse_unsigned_chars(s, 255) {
        Ok(v) => {
            proof {
                lemma_digits_value_bound(s@, 255);
            }
            Some(v as u8)
        },
        Err(_) => None,
    }
}

/// The value of a port text.
fn port_chars(s: &Vec<char>) -> (r: Option<u16>)
    ensures
        r == port_value(s@),
{
    if s.len() < 1 || !all_digits_chars(s) {
        return None;
    }
    match parse_unsigned_chars(s, 65535) {
        Ok(v) => {
            proof {
                lemma_digits_value_bound(s@, 65535);
            }
            Some(v as u16)
        },
        Err(_) => None,
    }
}

/// The IPv4 socket address that `s` denotes in the form `a.b.c.d:port`, if any.
fn parse_v4_chars(s: &Vec<char>) -> (r: Option<PeerAddr>)
    ensures
        r == parse_v4(s@),
{
    match split_once_chars(s, ':') {
        None => None,
        Some((ip, port)) => {
            let parts = split_on_chars(&ip, '.');
            if parts.len() != 4 {
                return None;
            }
            let o0 = octet_chars(&parts[0]);
            let o1 = octet_chars(&parts[1]);
            let o2 = octet_chars(&parts[2]);
            let o3 = octet_chars(&parts[3]);
            let p = port_chars(&port);
            match (o0, o1, o2, o3, p) {
                (Some(a), Some(b), Some(c), Some(d), Some(pt)) => Some(
                    PeerAddr { ip: Host::V4(Octets(a, b, c, d)), port: pt },
                ),
                _ => None,
            }
        },
    }
}

/// The value of a scope-id text.
fn scope_chars(s: &Vec<char>) -> (r: Option<u32>)
    ensures
        r == scope_value(s@),
{
    if s.len() < 1 || !all_digits_chars(s) {
        return None;
    }
    match parse_unsigned_chars(s, u32::MAX) {
        Ok(v) => Some(v),
        Err(_) => None,
    }
}

/// The IPv6 socket address that `s` denotes in a bracketed form, if any.
fn parse_v6_chars(s: &Vec<char>) -> (r: Option<PeerAddr>)
    ensures
        r == parse_v6(s@),
{
    if s.len() < 1 || s[0] != '[' {
        return None;
    }
    let inner = crate::text::slice_chars(s, 1, s.len());
    assert(inner@ =~= s@.drop_first());
    let (body, rest) = match split_once_chars(&inner, ']') {
        None => return None,
        Some(x) => x,
    };
    if rest.len() < 1 || rest[0] != ':' {
        return None;
    }
    let port_text = crate::text::slice_chars(&rest, 1, rest.len());
    assert(port_text@ =~= rest@.drop_first());
    let port = match port_chars(&port_text) {
        None => return None,
        Some(p) => p,
    };
    let (ip, scope) = match split_once_chars(&body, '%') {
        None => (body, Some(0u32)),
        Some((ip, sc)) => (ip, scope_chars(&sc)),
    };
    match (v6_value_exec(&ip), scope) {
        (Some(g), Some(sc)) => {
            assert(v6_body(body@) == Some((g, sc)));
            Some(PeerAddr { ip: Host::V6(g, sc), port })
        },
        _ => None,
    }
}

/// The socket address that the text `s` denotes, if any.
pub fn parse_addr_chars(s: &Vec<char>) -> (r: Option<PeerAddr>)
    ensures
        r == parse_addr(s@),
{
    if s.len() >= 1 && s[0] == '[' {
        parse_v6_chars(s)
    } else {
        parse_v4_chars(s)
    }
}

/// Appends the dotted text of `o` to `out`.
pub fn push_v4(out: &mut Vec<char>, o: &Octets)
    ensures
        final(out)@ == old(out)@ + v4_text(*o),
{
    push_decimal(out, o.0 as u32);
    out.push('.');
    push_decimal(out, o.1 as u32);
    out.push('.');
    push_decimal(out, o.2 as u32);
    out.push('.');
    push_decimal(out, o.3 as u32);
    assert(final(out)@ =~= old(out)@ + v4_text(*o));
}

/// Appends the text of `a` to `out`.
pub fn push_addr(out: &mut Vec<char>, a: &PeerAddr)
    ensures
        final(out)@ == old(out)@ + addr_text(*a),
{
    match &a.ip {
        Host::V4(o) => {
            push_v4(out, o);
        },
        Host::V6(g, sc) => {
            out.push('[');
            push_v6(out, g);
            if *sc != 0 {
                out.push('%');
                push_decimal(out, *sc);
            }
            out.push(']');
        },
    }
    out.push(':');
    push_decimal(out, a.port as u32);
    assert(final(out)@ =~= old(out)@ + addr_text(*a));
}

} // verus!

verus! {

/// A port may be written with any number of digits, leading zeros included:
/// an IPv4 address, a colon and digits whose value fits a port are read as that
/// address and port.
pub proof fn law_v4_any_port_digits(o: Octets, d: Seq<char>)
    requires
        d.len() >= 1,
        all_digits(d),
        digits_value(d, 65535) is Ok,
    ensures
        parse_addr(v4_text(o) + seq![':'] + d) == Some(
            PeerAddr { ip: Host::V4(o), port: digits_value(d, 65535)->Ok_0 as u16 },
        ),
{
    lemma_v4_chars(o);
    lemma_v4_split(o);
    lemma_octet(o.0);
    lemma_octet(o.1);
    lemma_octet(o.2);
    lemma_octet(o.3);
    lemma_digits_value_bound(d, 65535);
    let ip = v4_text(o);
    let s = ip + seq![':'] + d;
    assert(s[0] == ip[0]);
    assert(lacks(ip, ':'));
    lemma_index_of_concat(ip, ':', d);
    assert(s.take(ip.len() as int) =~= ip);
    assert(s.skip(ip.len() as int + 1) =~= d);
}

/// The full bracketed form of an IPv6 socket address (eight groups of one to
/// four hex digits, leading zeros allowed, an optional `%` and scope-id digits,
/// and port digits, leading zeros allowed) is read as the values written.
pub proof fn law_v6_any_group_and_port_digits(
    ts: Seq<Seq<char>>,
    with_scope: bool,
    sc: Seq<char>,
    d: Seq<char>,
)
    requires
        ts.len() == 8,
        crate::ipv6::hex_groups(ts),
        with_scope ==> sc.len() >= 1 && all_digits(sc) && digits_value(sc, u32::MAX as nat) is Ok,
        d.len() >= 1,
        all_digits(d),
        digits_value(d, 65535) is Ok,
    ensures
        ({
            let g = crate::ipv6::group_values(ts);
            let body = if with_scope {
                crate::ipv6::group_texts(ts, true) + seq!['%'] + sc
            } else {
                crate::ipv6::group_texts(ts, true)
            };
            parse_addr(seq!['['] + body + seq![']', ':'] + d) == Some(
                PeerAddr {
                    ip: Host::V6(
                        Segments(g[0], g[1], g[2], g[3], g[4], g[5], g[6], g[7]),
                        if with_scope {
                            digits_value(sc, u32::MAX as nat)->Ok_0 as u32
                        } else {
                            0
                        },
                    ),
                    port: digits_value(d, 65535)->Ok_0 as u16,
                },
            )
        }),
{
    let vt = crate::ipv6::group_texts(ts, true);
    crate::ipv6::law_v6_full_form(ts);
    crate::ipv6::lemma_group_texts_chars(ts, true);
    lemma_digits_value_bound(d, 65535);
    lemma_digits_value_bound(sc, u32::MAX as nat);
    let body = if with_scope {
        vt + seq!['%'] + sc
    } else {
        vt
    };
    let s = seq!['['] + body + seq![']', ':'] + d;
    assert forall|i: int| 0 <= i < body.len() implies #[trigger] body[i] != ']' by {
        if i < vt.len() {
            assert(body[i] == vt[i]);
        } else if i > vt.len() {
            assert(body[i] == sc[i - vt.len() - 1]);
            assert(is_digit(sc[i - vt.len() - 1]));
        }
    }
    let rest = seq![':'] + d;
    assert(s.drop_first() =~= body + seq![']'] + rest);
    lemma_index_of_concat(body, ']', rest);
    assert(s.drop_first().take(body.len() as int) =~= body);
    assert(s.drop_first().skip(body.len() as int + 1) =~= rest);
    assert(rest.drop_first() =~= d);
    assert(lacks(vt, '%'));
    if with_scope {
        lemma_index_of_concat(vt, '%', sc);
        assert(body.take(vt.len() as int) =~= vt);
        assert(body.skip(vt.len() as int + 1) =~= sc);
    } else {
        lemma_index_of_none(body, '%');
    }
}

} // verus!
