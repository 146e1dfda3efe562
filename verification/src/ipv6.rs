//! IPv6 addresses: read the way std reads them (groups of up to four hex digits,
//! one `::` for a run of zero groups, an optional dotted IPv4 tail) and written
//! the way std writes them (lowercase, the first longest run of two or more zero
//! groups shortened to `::`, and `::ffff:a.b.c.d` for a mapped IPv4 address).
use vstd::prelude::*;
use crate::addr::{lemma_octet, octet_chars, octet_value, v4_text, Octets};
use crate::decimal::{dec, is_digit, lemma_dec};

verus! {

/// The eight 16-bit groups of an IPv6 address, most significant first.
#[derive(Debug, Clone, Copy, PartialEq, Eq, Structural)]
pub struct Segments(pub u16, pub u16, pub u16, pub u16, pub u16, pub u16, pub u16, pub u16);

/// The groups as a sequence.
pub open spec fn segs(g: Segments) -> Seq<u16> {
    seq![g.0, g.1, g.2, g.3, g.4, g.5, g.6, g.7]
}

pub open spec fn is_hex_digit(c: char) -> bool {
    ('0' <= c && c <= '9') || ('a' <= c && c <= 'f') || ('A' <= c && c <= 'F')
}

pub open spec fn hex_digit_value(c: char) -> nat {
    if '0' <= c && c <= '9' {
        (c as u32 - '0' as u32) as nat
    } else if 'a' <= c && c <= 'f' {
        (c as u32 - 'a' as u32 + 10) as nat
    } else {
        (c as u32 - 'A' as u32 + 10) as nat
    }
}

/// The value of hex digits, most significant first.
pub open spec fn hex_value(s: Seq<char>) -> nat
    decreases s.len(),
{
    if s.len() == 0 {
        0
    } else {
        hex_value(s.drop_last()) * 16 + hex_digit_value(s.last())
    }
}

/// The number of hex digits of `s` from position `p` on, up to the first other character.
pub open spec fn hex_run(s: Seq<char>, p: int) -> nat
    decreases s.len() - p,
{
    if p < 0 || p >= s.len() || !is_hex_digit(s[p]) {
        0
    } else {
        1 + hex_run(s, p + 1)
    }
}

/// The number of decimal digits of `s` from position `p` on.
pub open spec fn dec_run(s: Seq<char>, p: int) -> nat
    decreases s.len() - p,
{
    if p < 0 || p >= s.len() || !is_digit(s[p]) {
        0
    } else {
        1 + dec_run(s, p + 1)
    }
}

/// A group at `p`: all the hex digits there, one to four of them.
#[verifier::opaque]
pub open spec fn read_hex_group(s: Seq<char>, p: int) -> Option<(u16, int)> {
    let k = hex_run(s, p);
    if 1 <= k <= 4 {
        Some((hex_value(s.subrange(p, p + k)) as u16, p + k))
    } else {
        None
    }
}

/// An octet at `p`: all the decimal digits there, read as an IPv4 octet.
#[verifier::opaque]
pub open spec fn read_octet(s: Seq<char>, p: int) -> Option<(u8, int)> {
    let k = dec_run(s, p);
    match octet_value(s.subrange(p, p + k)) {
        Some(v) => Some((v, p + k)),
        None => None,
    }
}

/// A dot and an octet at `p`.
pub open spec fn read_dot_octet(s: Seq<char>, p: int) -> Option<(u8, int)> {
    if 0 <= p < s.len() && s[p] == '.' {
        read_octet(s, p + 1)
    } else {
        None
    }
}

/// A dotted IPv4 address at `p`.
#[verifier::opaque]
pub open spec fn read_v4_at(s: Seq<char>, p: int) -> Option<(Octets, int)> {
    match read_octet(s, p) {
        None => None,
        Some((a, p1)) => match read_dot_octet(s, p1) {
            None => None,
            Some((b, p2)) => match read_dot_octet(s, p2) {
                None => None,
                Some((c, p3)) => match read_dot_octet(s, p3) {
                    None => None,
                    Some((d, p4)) => Some((Octets(a, b, c, d), p4)),
                },
            },
        },
    }
}

/// The separator before the group of index `i`: none for the first, else a colon.
pub open spec fn read_sep(s: Seq<char>, p: int, i: int) -> Option<int> {
    if i == 0 {
        Some(p)
    } else if 0 <= p < s.len() && s[p] == ':' {
        Some(p + 1)
    } else {
        None
    }
}

/// The two groups that an IPv4 address fills.
pub open spec fn v4_groups(o: Octets) -> Seq<u16> {
    seq![(o.0 as nat * 256 + o.1 as nat) as u16, (o.2 as nat * 256 + o.3 as nat) as u16]
}

/// Reading up to `limit` groups from position `p`, the group of index `i` next:
/// the groups read, where reading stopped, and whether it ended with an IPv4 tail
/// (tried where two groups are left to fill).
#[verifier::opaque]
pub open spec fn read_groups(s: Seq<char>, p: int, i: int, limit: int) -> (Seq<u16>, int, bool)
    decreases limit - i,
{
    if i >= limit {
        (Seq::empty(), p, false)
    } else {
        let v4 = if i < limit - 1 {
            match read_sep(s, p, i) {
                Some(q) => read_v4_at(s, q),
                None => None,
            }
        } else {
            None
        };
        match v4 {
            Some((o, q)) => (v4_groups(o), q, true),
            None => match read_sep(s, p, i) {
                None => (Seq::empty(), p, false),
                Some(q0) => match read_hex_group(s, q0) {
                    None => (Seq::empty(), p, false),
                    Some((g, q)) => {
                        let r = read_groups(s, q, i + 1, limit);
                        (seq![g] + r.0, r.1, r.2)
                    },
                },
            },
        }
    }
}

/// `n` zero groups.
pub open spec fn zeros(n: nat) -> Seq<u16> {
    Seq::new(n, |i: int| 0u16)
}

/// The IPv6 address that all of `s` denotes: the groups before `::`, then the
/// groups after it, with zero groups between to make eight.
pub open spec fn v6_value(s: Seq<char>) -> Option<Seq<u16>> {
    let (head, hp, hv) = read_groups(s, 0, 0, 8);
    if head.len() == 8 {
        if hp == s.len() {
            Some(head)
        } else {
            None
        }
    } else if hv {
        None
    } else if hp + 1 < s.len() && s[hp] == ':' && s[hp + 1] == ':' {
        let (tail, tp, _) = read_groups(s, hp + 2, 0, 7 - head.len());
        if tp == s.len() {
            Some(head + zeros((8 - head.len() - tail.len()) as nat) + tail)
        } else {
            None
        }
    } else {
        None
    }
}

// ---------------------------------------------------------------------------
// Writing
// ---------------------------------------------------------------------------

pub open spec fn hex_char(n: nat) -> char {
    if n < 10 {
        (n + '0' as u32) as char
    } else {
        (n - 10 + 'a' as u32) as char
    }
}

/// The lowercase hex numeral of `n`, without leading zeros.
pub open spec fn hex_text(n: nat) -> Seq<char>
    decreases n,
{
    if n < 16 {
        seq![hex_char(n)]
    } else {
        hex_text(n / 16).push(hex_char(n % 16))
    }
}

/// Groups written with colons between them, with a colon first unless `first`.
pub open spec fn joined(hs: Seq<u16>, first: bool) -> Seq<char>
    decreases hs.len(),
{
    if hs.len() == 0 {
        Seq::empty()
    } else {
        (if first {
            Seq::empty()
        } else {
            seq![':']
        }) + hex_text(hs[0] as nat) + joined(hs.drop_first(), false)
    }
}

/// The first longest run of zero groups from index `i` on, given the longest run
/// `(ls, ll)` and the current run `(cs, cl)` so far: its start and length.
pub open spec fn zero_span(g: Seq<u16>, i: int, ls: int, ll: int, cs: int, cl: int) -> (int, int)
    decreases g.len() - i,
{
    if i < 0 || i >= g.len() {
        (ls, ll)
    } else if g[i] == 0 {
        let cs2 = if cl == 0 {
            i
        } else {
            cs
        };
        if cl + 1 > ll {
            zero_span(g, i + 1, cs2, cl + 1, cs2, cl + 1)
        } else {
            zero_span(g, i + 1, ls, ll, cs2, cl + 1)
        }
    } else {
        zero_span(g, i + 1, ls, ll, 0, 0)
    }
}

/// An IPv4 address mapped into IPv6: five zero groups, then `ffff`.
pub open spec fn is_mapped(g: Seq<u16>) -> bool {
    g[0] == 0 && g[1] == 0 && g[2] == 0 && g[3] == 0 && g[4] == 0 && g[5] == 0xffff
}

/// The IPv4 address in the last two groups.
pub open spec fn mapped_octets(g: Seq<u16>) -> Octets {
    Octets((g[6] / 256) as u8, (g[6] % 256) as u8, (g[7] / 256) as u8, (g[7] % 256) as u8)
}

/// The text std writes for the IPv6 address with groups `g`.
pub open spec fn v6_text(g: Seq<u16>) -> Seq<char> {
    if is_mapped(g) {
        seq![':', ':', 'f', 'f', 'f', 'f', ':'] + v4_text(mapped_octets(g))
    } else {
        let (st, ln) = zero_span(g, 0, 0, 0, 0, 0);
        if ln > 1 {
            joined(g.take(st), true) + seq![':', ':'] + joined(g.skip(st + ln), true)
        } else {
            joined(g, true)
        }
    }
}

// ---------------------------------------------------------------------------
// Lemmas
// ---------------------------------------------------------------------------

proof fn lemma_hex_run_facts(s: Seq<char>, p: int)
    requires
        0 <= p <= s.len(),
    ensures
        p + hex_run(s, p) <= s.len(),
        forall|k: int| p <= k < p + hex_run(s, p) ==> is_hex_digit(#[trigger] s[k]),
        p + hex_run(s, p) < s.len() ==> !is_hex_digit(s[p + hex_run(s, p)]),
    decreases s.len() - p,
{
    if p < s.len() && is_hex_digit(s[p]) {
        lemma_hex_run_facts(s, p + 1);
    }
}

proof fn lemma_dec_run_facts(s: Seq<char>, p: int)
    requires
        0 <= p <= s.len(),
    ensures
        p + dec_run(s, p) <= s.len(),
        forall|k: int| p <= k < p + dec_run(s, p) ==> is_digit(#[trigger] s[k]),
        p + dec_run(s, p) < s.len() ==> !is_digit(s[p + dec_run(s, p)]),
    decreases s.len() - p,
{
    if p < s.len() && is_digit(s[p]) {
        lemma_dec_run_facts(s, p + 1);
    }
}

/// A run of `n` hex digits ending at a non-hex character (or the end) has length `n`.
proof fn lemma_hex_run_exact(s: Seq<char>, p: int, n: int)
    requires
        0 <= p,
        0 <= n,
        p + n <= s.len(),
        forall|k: int| p <= k < p + n ==> is_hex_digit(#[trigger] s[k]),
        p + n == s.len() || !is_hex_digit(s[p + n]),
    ensures
        hex_run(s, p) == n,
    decreases n,
{
    if n > 0 {
        lemma_hex_run_exact(s, p + 1, n - 1);
    }
}

proof fn lemma_dec_run_exact(s: Seq<char>, p: int, n: int)
    requires
        0 <= p,
        0 <= n,
        p + n <= s.len(),
        forall|k: int| p <= k < p + n ==> is_digit(#[trigger] s[k]),
        p + n == s.len() || !is_digit(s[p + n]),
    ensures
        dec_run(s, p) == n,
    decreases n,
{
    if n > 0 {
        lemma_dec_run_exact(s, p + 1, n - 1);
    }
}

proof fn lemma_hex_text(n: nat)
    requires
        n < 0x10000,
    ensures
        1 <= hex_text(n).len() <= 4,
        forall|k: int| 0 <= k < hex_text(n).len() ==> is_hex_digit(#[trigger] hex_text(n)[k]),
        hex_value(hex_text(n)) == n,
    decreases n,
{
    lemma_hex_char(n % 16);
    if n < 16 {
        assert(n % 16 == n);
        assert(hex_text(n).drop_last() =~= Seq::<char>::empty());
        assert(hex_value(Seq::<char>::empty()) == 0);
        assert(hex_value(hex_text(n)) == hex_value(hex_text(n).drop_last()) * 16 + hex_digit_value(
            hex_text(n).last(),
        ));
    } else {
        assert(n / 16 < 0x1000 && (n / 16) * 16 + n % 16 == n && n % 16 < 16) by (nonlinear_arith)
            requires
                16 <= n < 0x10000,
        ;
        lemma_hex_text(n / 16);
        let t = hex_text(n);
        assert(t.drop_last() =~= hex_text(n / 16));
        assert(hex_value(t) == hex_value(t.drop_last()) * 16 + hex_digit_value(t.last()));
        lemma_hex_text_len(n / 16);
        assert forall|k: int| 0 <= k < t.len() implies is_hex_digit(#[trigger] t[k]) by {
            if k < t.len() - 1 {
                assert(t[k] == hex_text(n / 16)[k]);
            }
        }
    }
}

proof fn lemma_hex_char(d: nat)
    requires
        d < 16,
    ensures
        is_hex_digit(hex_char(d)),
        hex_digit_value(hex_char(d)) == d,
        'a' <= hex_char(d) <= 'f' || '0' <= hex_char(d) <= '9',
{
}

proof fn lemma_hex_text_len(n: nat)
    requires
        n < 0x1000,
    ensures
        hex_text(n).len() <= 3,
    decreases n,
{
    if n >= 16 {
        assert(n / 16 < 0x100) by (nonlinear_arith)
            requires
                16 <= n < 0x1000,
        ;
        lemma_hex_text_len2(n / 16);
    }
}

proof fn lemma_hex_text_len2(n: nat)
    requires
        n < 0x100,
    ensures
        hex_text(n).len() <= 2,
{
    if n >= 16 {
        assert(n / 16 < 16) by (nonlinear_arith)
            requires
                16 <= n < 0x100,
        ;
        assert(hex_text(n / 16).len() == 1);
    }
}

/// Every character of joined groups is a hex digit or a colon.
proof fn lemma_joined_chars(hs: Seq<u16>, first: bool)
    ensures
        forall|k: int|
            0 <= k < joined(hs, first).len() ==> is_hex_digit(#[trigger] joined(hs, first)[k])
                || joined(hs, first)[k] == ':',
        !first && hs.len() > 0 ==> joined(hs, first)[0] == ':',
    decreases hs.len(),
{
    if hs.len() > 0 {
        lemma_hex_text(hs[0] as nat);
        lemma_joined_chars(hs.drop_first(), false);
        let sep = if first {
            Seq::<char>::empty()
        } else {
            seq![':']
        };
        let h = hex_text(hs[0] as nat);
        let r = joined(hs.drop_first(), false);
        let j = joined(hs, first);
        assert forall|k: int| 0 <= k < j.len() implies is_hex_digit(#[trigger] j[k]) || j[k] == ':' by {
            if k < sep.len() {
            } else if k < sep.len() + h.len() {
                assert(j[k] == h[k - sep.len()]);
            } else {
                assert(j[k] == r[k - sep.len() - h.len()]);
            }
        }
    }
}

/// Characters that stop a group list: after group index `i`, neither another
/// group nor an IPv4 tail can start here.
pub open spec fn blocks(rest: Seq<char>, i: int) -> bool {
    &&& (rest.len() == 0 || (!is_hex_digit(rest[0]) && rest[0] != '.'))
    &&& (i > 0 && rest.len() > 0 && rest[0] == ':' ==> rest.len() < 2 || !is_hex_digit(rest[1]))
}

/// One group read at `p`, where no IPv4 tail starts.
proof fn lemma_groups_step(s: Seq<char>, p: int, i: int, limit: int, q: int, h: u16, e: int)
    requires
        0 <= i < limit,
        read_sep(s, p, i) == Some(q),
        read_hex_group(s, q) == Some((h, e)),
        i < limit - 1 ==> read_v4_at(s, q) is None,
    ensures
        read_groups(s, p, i, limit) == (
            seq![h] + read_groups(s, e, i + 1, limit).0,
            read_groups(s, e, i + 1, limit).1,
            read_groups(s, e, i + 1, limit).2,
        ),
{
    reveal(read_groups);
}

/// An IPv4 tail read at `p` ends the groups.
proof fn lemma_groups_v4(s: Seq<char>, p: int, i: int, limit: int, q: int, o: Octets, e: int)
    requires
        0 <= i < limit - 1,
        read_sep(s, p, i) == Some(q),
        read_v4_at(s, q) == Some((o, e)),
    ensures
        read_groups(s, p, i, limit) == (v4_groups(o), e, true),
{
    reveal(read_groups);
}

/// No group and no IPv4 tail at `p`: reading stops there.
proof fn lemma_groups_stop(s: Seq<char>, p: int, i: int, limit: int)
    requires
        0 <= i,
        read_sep(s, p, i) matches Some(q) ==> read_hex_group(s, q) is None && read_v4_at(s, q) is None,
    ensures
        read_groups(s, p, i, limit) == (Seq::<u16>::empty(), p, false),
{
    reveal(read_groups);
}

/// Neither a group nor an octet starts at a character that is not a hex digit.
proof fn lemma_nothing_at(s: Seq<char>, q: int)
    requires
        0 <= q <= s.len(),
        q == s.len() || !is_hex_digit(s[q]),
    ensures
        read_hex_group(s, q) is None,
        read_octet(s, q) is None,
        read_v4_at(s, q) is None,
{
    reveal(read_hex_group);
    reveal(read_octet);
    reveal(read_v4_at);
    lemma_hex_run_exact(s, q, 0);
    lemma_dec_run_exact(s, q, 0);
    assert(s.subrange(q, q) =~= Seq::<char>::empty());
}

/// A group written at `q` is read back; no IPv4 tail starts there.
proof fn lemma_group_at(s: Seq<char>, q: int, h: u16)
    requires
        0 <= q,
        q + hex_text(h as nat).len() <= s.len(),
        s.subrange(q, q + hex_text(h as nat).len()) == hex_text(h as nat),
        q + hex_text(h as nat).len() == s.len() || (!is_hex_digit(s[q + hex_text(h as nat).len()])
            && s[q + hex_text(h as nat).len()] != '.'),
    ensures
        read_hex_group(s, q) == Some((h, q + hex_text(h as nat).len())),
        read_v4_at(s, q) is None,
{
    reveal(read_hex_group);
    reveal(read_v4_at);
    reveal(read_octet);
    let ht = hex_text(h as nat);
    let e = q + ht.len();
    lemma_hex_text(h as nat);
    assert forall|k: int| q <= k < e implies is_hex_digit(#[trigger] s[k]) by {
        assert(s[k] == s.subrange(q, e)[k - q]);
    }
    lemma_hex_run_exact(s, q, ht.len() as int);
    lemma_dec_run_facts(s, q);
    let k = dec_run(s, q);
    assert(q + k <= e) by {
        if q + k > e {
            assert(is_digit(s[e]));
        }
    }
    assert(read_dot_octet(s, q + k) is None) by {
        if q + k < e {
            assert(is_hex_digit(s[q + k]));
        }
    }
}

/// Reading written groups gives them back and stops at their end.
#[verifier::rlimit(40)]
proof fn lemma_read_joined(pre: Seq<char>, hs: Seq<u16>, first: bool, rest: Seq<char>, i: int, limit: int)
    requires
        first <==> i == 0,
        0 <= i,
        i + hs.len() <= limit,
        i + hs.len() < limit ==> blocks(rest, i + hs.len()),
        rest.len() == 0 || (!is_hex_digit(rest[0]) && rest[0] != '.'),
    ensures
        read_groups(pre + joined(hs, first) + rest, pre.len() as int, i, limit) == (
            hs,
            (pre.len() + joined(hs, first).len()) as int,
            false,
        ),
    decreases hs.len(),
{
    let s = pre + joined(hs, first) + rest;
    let p = pre.len() as int;
    if hs.len() == 0 {
        assert(s =~= pre + rest);
        if i >= limit {
            reveal(read_groups);
        } else if i == 0 {
            if rest.len() > 0 {
                assert(s[p] == rest[0]);
            }
            lemma_nothing_at(s, p);
            lemma_groups_stop(s, p, i, limit);
        } else {
            if rest.len() > 0 && rest[0] == ':' {
                assert(s[p] == ':');
                if rest.len() >= 2 {
                    assert(s[p + 1] == rest[1]);
                }
                lemma_nothing_at(s, p + 1);
            } else if rest.len() > 0 {
                assert(s[p] == rest[0]);
            }
            lemma_groups_stop(s, p, i, limit);
        }
    } else {
        let h = hs[0];
        let ht = hex_text(h as nat);
        let sep = if first {
            Seq::<char>::empty()
        } else {
            seq![':']
        };
        let tl = hs.drop_first();
        let pre2 = pre + sep + ht;
        assert(joined(hs, first) == sep + ht + joined(tl, false));
        assert(s =~= pre2 + joined(tl, false) + rest);
        lemma_hex_text(h as nat);
        lemma_joined_chars(tl, false);
        let q = p + sep.len();
        assert(read_sep(s, p, i) == Some(q)) by {
            if !first {
                assert(s[p] == ':');
            }
        }
        let e = q + ht.len();
        assert(s.subrange(q, e) =~= ht);
        assert(e == s.len() || (!is_hex_digit(s[e]) && s[e] != '.')) by {
            if tl.len() > 0 {
                assert(s[e] == joined(tl, false)[0]);
            } else if rest.len() > 0 {
                assert(s[e] == rest[0]);
            }
        }
        lemma_group_at(s, q, h);
        lemma_groups_step(s, p, i, limit, q, h, e);
        lemma_read_joined(pre2, tl, false, rest, i + 1, limit);
        assert(pre2.len() == e);
        let r = read_groups(s, e, i + 1, limit);
        assert(seq![h] + r.0 =~= hs);
    }
}

/// An octet written in decimal is read back, stopping at its end.
proof fn lemma_read_octet_at(pre: Seq<char>, x: u8, rest: Seq<char>)
    requires
        rest.len() == 0 || !is_digit(rest[0]),
    ensures
        read_octet(pre + dec(x as nat) + rest, pre.len() as int) == Some(
            (x, (pre.len() + dec(x as nat).len()) as int),
        ),
{
    reveal(read_octet);
    let d = dec(x as nat);
    let s = pre + d + rest;
    let p = pre.len() as int;
    lemma_dec(x as nat, 255);
    lemma_octet(x);
    assert forall|k: int| p <= k < p + d.len() implies is_digit(#[trigger] s[k]) by {
        assert(s[k] == d[k - p]);
    }
    if rest.len() > 0 {
        assert(s[p + d.len()] == rest[0]);
    }
    lemma_dec_run_exact(s, p, d.len() as int);
    assert(s.subrange(p, p + d.len()) =~= d);
}

/// A dot and an octet written in decimal are read back.
proof fn lemma_read_dot_octet_at(pre: Seq<char>, x: u8, rest: Seq<char>)
    requires
        rest.len() == 0 || !is_digit(rest[0]),
    ensures
        read_dot_octet(pre + seq!['.'] + dec(x as nat) + rest, pre.len() as int) == Some(
            (x, (pre.len() + 1 + dec(x as nat).len()) as int),
        ),
{
    let s = pre + seq!['.'] + dec(x as nat) + rest;
    assert(s[pre.len() as int] == '.');
    assert(s =~= (pre + seq!['.']) + dec(x as nat) + rest);
    lemma_read_octet_at(pre + seq!['.'], x, rest);
}

/// A dotted IPv4 address is read back, stopping at its end.
#[verifier::rlimit(100)]
#[verifier::spinoff_prover]
proof fn lemma_read_v4_at(pre: Seq<char>, o: Octets, rest: Seq<char>)
    requires
        rest.len() == 0 || (!is_digit(rest[0]) && rest[0] != '.'),
    ensures
        read_v4_at(pre + v4_text(o) + rest, pre.len() as int) == Some(
            (o, (pre.len() + v4_text(o).len()) as int),
        ),
{
    reveal(read_v4_at);
    let d0 = dec(o.0 as nat);
    let d1 = dec(o.1 as nat);
    let d2 = dec(o.2 as nat);
    let d3 = dec(o.3 as nat);
    let dot = seq!['.'];
    let s = pre + v4_text(o) + rest;
    assert(s =~= pre + d0 + (dot + d1 + dot + d2 + dot + d3 + rest));
    lemma_read_octet_at(pre, o.0, dot + d1 + dot + d2 + dot + d3 + rest);
    let pre1 = pre + d0;
    assert(s =~= pre1 + dot + d1 + (dot + d2 + dot + d3 + rest));
    lemma_read_dot_octet_at(pre1, o.1, dot + d2 + dot + d3 + rest);
    let pre2 = pre1 + dot + d1;
    assert(s =~= pre2 + dot + d2 + (dot + d3 + rest));
    lemma_read_dot_octet_at(pre2, o.2, dot + d3 + rest);
    let pre3 = pre2 + dot + d2;
    assert(s =~= pre3 + dot + d3 + rest);
    lemma_read_dot_octet_at(pre3, o.3, rest);
}

/// The zero span found lies within the groups and holds only zeros.
proof fn lemma_zero_span(g: Seq<u16>, i: int, ls: int, ll: int, cs: int, cl: int)
    requires
        0 <= i <= g.len(),
        0 <= ls,
        0 <= ll,
        ls + ll <= i,
        forall|k: int| ls <= k < ls + ll ==> #[trigger] g[k] == 0,
        0 <= cl,
        cl > 0 ==> 0 <= cs && cs + cl == i && forall|k: int| cs <= k < cs + cl ==> #[trigger] g[k] == 0,
    ensures
        ({
            let (st, ln) = zero_span(g, i, ls, ll, cs, cl);
            &&& 0 <= st
            &&& 0 <= ln
            &&& st + ln <= g.len()
            &&& forall|k: int| st <= k < st + ln ==> #[trigger] g[k] == 0
        }),
    decreases g.len() - i,
{
    if i < g.len() {
        if g[i] == 0 {
            let cs2 = if cl == 0 {
                i
            } else {
                cs
            };
            if cl + 1 > ll {
                lemma_zero_span(g, i + 1, cs2, cl + 1, cs2, cl + 1);
            } else {
                lemma_zero_span(g, i + 1, ls, ll, cs2, cl + 1);
            }
        } else {
            lemma_zero_span(g, i + 1, ls, ll, 0, 0);
        }
    }
}

/// The characters of the written IPv6 address are hex digits, colons and dots.
pub proof fn lemma_v6_text_chars(g: Seq<u16>)
    requires
        g.len() == 8,
    ensures
        forall|k: int|
            0 <= k < v6_text(g).len() ==> is_hex_digit(#[trigger] v6_text(g)[k]) || v6_text(g)[k]
                == ':' || v6_text(g)[k] == '.',
        v6_text(g).len() > 0,
{
    let t = v6_text(g);
    if is_mapped(g) {
        let o = mapped_octets(g);
        let v = v4_text(o);
        lemma_octet(o.0);
        lemma_octet(o.1);
        lemma_octet(o.2);
        lemma_octet(o.3);
        crate::addr::lemma_v4_chars(o);
        assert forall|k: int| 0 <= k < t.len() implies is_hex_digit(#[trigger] t[k]) || t[k] == ':'
            || t[k] == '.' by {
            if k >= 7 {
                assert(t[k] == v[k - 7]);
            }
        }
    } else {
        let (st, ln) = zero_span(g, 0, 0, 0, 0, 0);
        lemma_zero_span(g, 0, 0, 0, 0, 0);
        if ln > 1 {
            let a = joined(g.take(st), true);
            let b = joined(g.skip(st + ln), true);
            lemma_joined_chars(g.take(st), true);
            lemma_joined_chars(g.skip(st + ln), true);
            assert forall|k: int| 0 <= k < t.len() implies is_hex_digit(#[trigger] t[k]) || t[k]
                == ':' || t[k] == '.' by {
                if k < a.len() {
                    assert(t[k] == a[k]);
                } else if k >= a.len() + 2 {
                    assert(t[k] == b[k - a.len() - 2]);
                }
            }
        } else {
            lemma_joined_chars(g, true);
            lemma_hex_text(g[0] as nat);
            assert(t.len() > 0);
        }
    }
}

/// The written IPv6 address is read back as its groups.
#[verifier::rlimit(80)]
pub proof fn lemma_v6_roundtrip(g: Seq<u16>)
    requires
        g.len() == 8,
    ensures
        v6_value(v6_text(g)) == Some(g),
{
    let t = v6_text(g);
    let e = Seq::<char>::empty();
    if is_mapped(g) {
        let o = mapped_octets(g);
        let v = v4_text(o);
        // nothing before the `::`
        lemma_read_joined(e, Seq::empty(), true, t, 0, 8);
        assert(e + joined(Seq::<u16>::empty(), true) + t =~= t);
        // the tail: `ffff`, then the IPv4 address
        let ff = seq!['f', 'f', 'f', 'f'];
        assert(t =~= seq![':', ':'] + ff + seq![':'] + v);
        assert(hex_text(0xffff) =~= ff) by {
            assert(hex_text(15) =~= seq!['f']);
            assert(hex_text(255) =~= seq!['f', 'f']);
            assert(hex_text(4095) =~= seq!['f', 'f', 'f']);
        }
        assert(t.subrange(2, 6) =~= ff);
        lemma_group_at(t, 2, 0xffff);
        lemma_read_v4_at(seq![':', ':'] + ff + seq![':'], o, e);
        assert(seq![':', ':'] + ff + seq![':'] + v + e =~= t);
        assert(read_sep(t, 6, 1) == Some(7int));
        lemma_groups_v4(t, 6, 1, 7, 7, o, t.len() as int);
        lemma_groups_step(t, 2, 0, 7, 2, 0xffff, 6);
        let tail = read_groups(t, 2, 0, 7);
        assert(tail == (seq![0xffffu16] + v4_groups(o), t.len() as int, true));
        assert(v4_groups(o) =~= seq![g[6], g[7]]) by {
            assert((g[6] / 256) * 256 + g[6] % 256 == g[6]) by (nonlinear_arith);
            assert((g[7] / 256) * 256 + g[7] % 256 == g[7]) by (nonlinear_arith);
            assert(g[6] / 256 < 256 && g[7] / 256 < 256) by (nonlinear_arith)
                requires
                    g[6] < 0x10000,
                    g[7] < 0x10000,
            ;
        }
        assert(zeros(5) + (seq![0xffffu16] + v4_groups(o)) =~= g);
        assert(Seq::<u16>::empty() + zeros(5) + (seq![0xffffu16] + v4_groups(o)) =~= g);
    } else {
        let (st, ln) = zero_span(g, 0, 0, 0, 0, 0);
        lemma_zero_span(g, 0, 0, 0, 0, 0);
        if ln > 1 {
            let a = joined(g.take(st), true);
            let b = joined(g.skip(st + ln), true);
            let cc = seq![':', ':'];
            // the head: the groups before the run, stopped by `::`
            lemma_read_joined(e, g.take(st), true, cc + b, 0, 8);
            assert(e + a + (cc + b) =~= t);
            assert(t[a.len() as int] == ':' && t[a.len() as int + 1] == ':');
            // the tail: the groups after the run
            let pre = a + cc;
            lemma_read_joined(pre, g.skip(st + ln), true, e, 0, 7 - st);
            assert(pre + b + e =~= t);
            assert(g.take(st) + zeros((8 - st - (8 - st - ln)) as nat) + g.skip(st + ln) =~= g);
        } else {
            lemma_read_joined(e, g, true, e, 0, 8);
            assert(e + joined(g, true) + e =~= t);
        }
    }
}

// ---------------------------------------------------------------------------
// Executable reading
// ---------------------------------------------------------------------------

fn is_hex_char(c: char) -> (r: bool)
    ensures
        r == is_hex_digit(c),
{
    ('0' <= c && c <= '9') || ('a' <= c && c <= 'f') || ('A' <= c && c <= 'F')
}

fn hex_run_exec(s: &Vec<char>, p: usize) -> (r: usize)
    requires
        p <= s@.len(),
    ensures
        r == hex_run(s@, p as int),
{
    let mut k: usize = p;
    while k < s.len() && is_hex_char(s[k])
        invariant
            p <= k <= s@.len(),
            forall|j: int| p <= j < k ==> is_hex_digit(#[trigger] s@[j]),
        decreases s@.len() - k,
    {
        k = k + 1;
    }
    proof {
        lemma_hex_run_exact(s@, p as int, (k - p) as int);
    }
    k - p
}

fn dec_run_exec(s: &Vec<char>, p: usize) -> (r: usize)
    requires
        p <= s@.len(),
    ensures
        r == dec_run(s@, p as int),
{
    let mut k: usize = p;
    while k < s.len() && '0' <= s[k] && s[k] <= '9'
        invariant
            p <= k <= s@.len(),
            forall|j: int| p <= j < k ==> is_digit(#[trigger] s@[j]),
        decreases s@.len() - k,
    {
        k = k + 1;
    }
    proof {
        lemma_dec_run_exact(s@, p as int, (k - p) as int);
    }
    k - p
}

fn read_hex_group_exec(s: &Vec<char>, p: usize) -> (r: Option<(u16, usize)>)
    requires
        p <= s@.len(),
    ensures
        match r {
            Some((g, q)) => read_hex_group(s@, p as int) == Some((g, q as int)),
            None => read_hex_group(s@, p as int) is None,
        },
{
    reveal(read_hex_group);
    let n = s.len();
    let k = hex_run_exec(s, p);
    if k < 1 || k > 4 {
        return None;
    }
    proof {
        lemma_hex_run_facts(s@, p as int);
    }
    let mut v: u32 = 0;
    let mut j: usize = 0;
    proof {
        lemma_pow16();
    }
    while j < k
        invariant
            forall|n: nat| n <= 4 ==> #[trigger] pow16(n) <= 0x10000,
            j <= k <= 4,
            p + k <= s@.len(),
            n == s@.len(),
            forall|x: int| p <= x < p + k ==> is_hex_digit(#[trigger] s@[x]),
            v as nat == hex_value(s@.subrange(p as int, p + j)),
            v < pow16(j as nat),
        decreases k - j,
    {
        let c = s[p + j];
        let d: u32 = if '0' <= c && c <= '9' {
            (c as u32) - ('0' as u32)
        } else if 'a' <= c && c <= 'f' {
            (c as u32) - ('a' as u32) + 10
        } else {
            (c as u32) - ('A' as u32) + 10
        };
        assert(s@.subrange(p as int, p + j + 1).drop_last() =~= s@.subrange(p as int, p + j));
        assert(d < 16);
        assert(v * 16 + d < pow16((j + 1) as nat)) by (nonlinear_arith)
            requires
                v < pow16(j as nat),
                d < 16,
                pow16((j + 1) as nat) == pow16(j as nat) * 16,
        ;
        assert(pow16((j + 1) as nat) <= 0x10000);
        v = v * 16 + d;
        j = j + 1;
    }
    assert(pow16(k as nat) <= 0x10000);
    Some((v as u16, p + k))
}

proof fn lemma_pow16()
    ensures
        forall|n: nat| n <= 4 ==> #[trigger] pow16(n) <= 0x10000,
        forall|n: nat| #[trigger] pow16(n + 1) == pow16(n) * 16,
{
    reveal_with_fuel(pow16, 5);
    assert(pow16(0) == 1);
    assert(pow16(1) == 16);
    assert(pow16(2) == 256);
    assert(pow16(3) == 4096);
    assert(pow16(4) == 0x10000);
    assert forall|n: nat| n <= 4 implies #[trigger] pow16(n) <= 0x10000 by {
        if n == 0 {} else if n == 1 {} else if n == 2 {} else if n == 3 {} else {}
    }
    assert forall|n: nat| #[trigger] pow16(n + 1) == pow16(n) * 16 by {}
}

/// `16` to the power `n`.
pub open spec fn pow16(n: nat) -> nat
    decreases n,
{
    if n == 0 {
        1
    } else {
        pow16((n - 1) as nat) * 16
    }
}

fn read_octet_exec(s: &Vec<char>, p: usize) -> (r: Option<(u8, usize)>)
    requires
        p <= s@.len(),
    ensures
        match r {
            Some((v, q)) => read_octet(s@, p as int) == Some((v, q as int)) && q <= s@.len(),
            None => read_octet(s@, p as int) is None,
        },
{
    reveal(read_octet);
    let n = s.len();
    let k = dec_run_exec(s, p);
    proof {
        lemma_dec_run_facts(s@, p as int);
    }
    let sub = crate::text::slice_chars(s, p, p + k);
    match octet_chars(&sub) {
        Some(v) => Some((v, p + k)),
        None => None,
    }
}

fn read_dot_octet_exec(s: &Vec<char>, p: usize) -> (r: Option<(u8, usize)>)
    requires
        p <= s@.len(),
    ensures
        match r {
            Some((v, q)) => read_dot_octet(s@, p as int) == Some((v, q as int)) && q <= s@.len(),
            None => read_dot_octet(s@, p as int) is None,
        },
{
    if p < s.len() && s[p] == '.' {
        read_octet_exec(s, p + 1)
    } else {
        None
    }
}

fn read_v4_at_exec(s: &Vec<char>, p: usize) -> (r: Option<(Octets, usize)>)
    requires
        p <= s@.len(),
    ensures
        match r {
            Some((o, q)) => read_v4_at(s@, p as int) == Some((o, q as int)),
            None => read_v4_at(s@, p as int) is None,
        },
{
    reveal(read_v4_at);
    let (a, p1) = match read_octet_exec(s, p) {
        Some(x) => x,
        None => return None,
    };
    proof {
        lemma_dec_run_facts(s@, p as int);
    }
    let (b, p2) = match read_dot_octet_exec(s, p1) {
        Some(x) => x,
        None => return None,
    };
    proof {
        lemma_dec_run_facts(s@, p1 + 1);
    }
    let (c, p3) = match read_dot_octet_exec(s, p2) {
        Some(x) => x,
        None => return None,
    };
    proof {
        lemma_dec_run_facts(s@, p2 + 1);
    }
    let (d, p4) = match read_dot_octet_exec(s, p3) {
        Some(x) => x,
        None => return None,
    };
    Some((Octets(a, b, c, d), p4))
}

fn read_sep_exec(s: &Vec<char>, p: usize, i: usize) -> (r: Option<usize>)
    requires
        p <= s@.len(),
    ensures
        match r {
            Some(q) => read_sep(s@, p as int, i as int) == Some(q as int) && q <= s@.len(),
            None => read_sep(s@, p as int, i as int) is None,
        },
{
    if i == 0 {
        Some(p)
    } else if p < s.len() && s[p] == ':' {
        Some(p + 1)
    } else {
        None
    }
}

proof fn lemma_read_group_end(s: Seq<char>, p: int)
    requires
        0 <= p <= s.len(),
    ensures
        read_hex_group(s, p) matches Some((_, q)) ==> p < q <= s.len(),
        read_v4_at(s, p) matches Some((_, q)) ==> p <= q <= s.len(),
{
    reveal(read_hex_group);
    reveal(read_v4_at);
    reveal(read_octet);
    lemma_hex_run_facts(s, p);
    lemma_dec_run_facts(s, p);
    if let Some((_, p1)) = read_octet(s, p) {
        if p1 < s.len() && s[p1] == '.' {
            lemma_dec_run_facts(s, p1 + 1);
            if let Some((_, p2)) = read_octet(s, p1 + 1) {
                if p2 < s.len() && s[p2] == '.' {
                    lemma_dec_run_facts(s, p2 + 1);
                    if let Some((_, p3)) = read_octet(s, p2 + 1) {
                        if p3 < s.len() && s[p3] == '.' {
                            lemma_dec_run_facts(s, p3 + 1);
                        }
                    }
                }
            }
        }
    }
}

fn read_groups_exec(s: &Vec<char>, p: usize, i: usize, limit: usize) -> (r: (Vec<u16>, usize, bool))
    requires
        p <= s@.len(),
        limit <= 8,
    ensures
        read_groups(s@, p as int, i as int, limit as int) == (r.0@, r.1 as int, r.2),
        r.1 <= s@.len(),
    decreases limit - i,
{
    reveal(read_groups);
    if i >= limit {
        return (Vec::new(), p, false);
    }
    let q0 = read_sep_exec(s, p, i);
    if i + 1 < limit {
        if let Some(q) = q0 {
            proof {
                lemma_read_group_end(s@, q as int);
            }
            if let Some((o, e)) = read_v4_at_exec(s, q) {
                let mut v: Vec<u16> = Vec::new();
                let hi = (o.0 as u16) * 256 + (o.1 as u16);
                let lo = (o.2 as u16) * 256 + (o.3 as u16);
                v.push(hi);
                v.push(lo);
                assert(v@ =~= v4_groups(o));
                return (v, e, true);
            }
        }
    }
    match q0 {
        None => (Vec::new(), p, false),
        Some(q) => {
            proof {
                lemma_read_group_end(s@, q as int);
            }
            match read_hex_group_exec(s, q) {
                None => (Vec::new(), p, false),
                Some((g, e)) => {
                    let (rest, end, v4) = read_groups_exec(s, e, i + 1, limit);
                    let mut out: Vec<u16> = Vec::new();
                    out.push(g);
                    let mut k: usize = 0;
                    while k < rest.len()
                        invariant
                            k <= rest@.len(),
                            out@ == seq![g] + rest@.take(k as int),
                        decreases rest@.len() - k,
                    {
                        out.push(rest[k]);
                        k = k + 1;
                        assert(out@ =~= seq![g] + rest@.take(k as int));
                    }
                    assert(rest@.take(k as int) =~= rest@);
                    (out, end, v4)
                },
            }
        },
    }
}

proof fn lemma_read_groups_len(s: Seq<char>, p: int, i: int, limit: int)
    requires
        0 <= i,
    ensures
        i <= limit ==> read_groups(s, p, i, limit).0.len() <= limit - i,
    decreases limit - i,
{
    reveal(read_groups);
    if i < limit {
        match read_sep(s, p, i) {
            Some(q0) => match read_hex_group(s, q0) {
                Some((g, q)) => lemma_read_groups_len(s, q, i + 1, limit),
                None => {},
            },
            None => {},
        }
    }
}

/// The groups of the IPv6 address that all of `s` denotes.
pub fn v6_value_exec(s: &Vec<char>) -> (r: Option<Segments>)
    ensures
        match r {
            Some(g) => v6_value(s@) == Some(segs(g)),
            None => v6_value(s@) is None,
        },
{
    let (head, hp, hv) = read_groups_exec(s, 0, 0, 8);
    proof {
        lemma_read_groups_len(s@, 0, 0, 8);
    }
    let mut all: Vec<u16> = Vec::new();
    if head.len() == 8 {
        if hp != s.len() {
            return None;
        }
        all = head;
    } else if hv {
        return None;
    } else if hp < s.len() && hp + 1 < s.len() && s[hp] == ':' && s[hp + 1] == ':' {
        let limit = 7 - head.len();
        let (tail, tp, _) = read_groups_exec(s, hp + 2, 0, limit);
        proof {
            lemma_read_groups_len(s@, hp + 2, 0, limit as int);
        }
        if tp != s.len() {
            return None;
        }
        let mut k: usize = 0;
        while k < head.len()
            invariant
                k <= head@.len(),
                all@ == head@.take(k as int),
            decreases head@.len() - k,
        {
            all.push(head[k]);
            k = k + 1;
            assert(all@ =~= head@.take(k as int));
        }
        let nz = 8 - head.len() - tail.len();
        let mut z: usize = 0;
        while z < nz
            invariant
                z <= nz,
                all@ == head@ + zeros(z as nat),
            decreases nz - z,
        {
            all.push(0);
            z = z + 1;
            assert(all@ =~= head@ + zeros(z as nat));
        }
        let mut t: usize = 0;
        while t < tail.len()
            invariant
                t <= tail@.len(),
                all@ == head@ + zeros(nz as nat) + tail@.take(t as int),
            decreases tail@.len() - t,
        {
            all.push(tail[t]);
            t = t + 1;
            assert(all@ =~= head@ + zeros(nz as nat) + tail@.take(t as int));
        }
        assert(tail@.take(t as int) =~= tail@);
        assert(head@.take(k as int) =~= head@);
    } else {
        return None;
    }
    assert(all@.len() == 8);
    let g = Segments(all[0], all[1], all[2], all[3], all[4], all[5], all[6], all[7]);
    assert(segs(g) =~= all@);
    Some(g)
}

// ---------------------------------------------------------------------------
// Executable writing
// ---------------------------------------------------------------------------

fn push_hex(out: &mut Vec<char>, n: u16)
    ensures
        final(out)@ == old(out)@ + hex_text(n as nat),
    decreases n,
{
    if n >= 16 {
        push_hex(out, n / 16);
    }
    let d = n % 16;
    let c = if d < 10 {
        ((d as u8) + 48) as char
    } else {
        ((d as u8) - 10 + 97) as char
    };
    assert(c == hex_char((n % 16) as nat));
    out.push(c);
    assert(final(out)@ =~= old(out)@ + hex_text(n as nat)) by {
        if n < 16 {
            assert(hex_text(n as nat) =~= seq![hex_char(n as nat)]);
        }
    }
}

proof fn lemma_joined_push(xs: Seq<u16>, x: u16, first: bool)
    ensures
        joined(xs.push(x), first) == joined(xs, first) + (if first && xs.len() == 0 {
            Seq::<char>::empty()
        } else {
            seq![':']
        }) + hex_text(x as nat),
    decreases xs.len(),
{
    let ys = xs.push(x);
    if xs.len() == 0 {
        assert(ys.drop_first() =~= Seq::<u16>::empty());
        assert(ys[0] == x);
        assert(joined(Seq::<u16>::empty(), false) == Seq::<char>::empty());
        assert(joined(xs, first) == Seq::<char>::empty());
        assert(joined(ys, first) =~= (if first {
            Seq::<char>::empty()
        } else {
            seq![':']
        }) + hex_text(x as nat));
    } else {
        assert(ys.drop_first() =~= xs.drop_first().push(x));
        lemma_joined_push(xs.drop_first(), x, false);
        let sep = if first {
            Seq::<char>::empty()
        } else {
            seq![':']
        };
        assert(joined(ys, first) =~= sep + hex_text(xs[0] as nat) + joined(xs.drop_first().push(x), false));
        assert(joined(ys, first) =~= joined(xs, first) + seq![':'] + hex_text(x as nat));
    }
}

/// Appends the groups `v[lo..hi]` with colons between them.
fn push_joined(out: &mut Vec<char>, v: &Vec<u16>, lo: usize, hi: usize)
    requires
        lo <= hi <= v@.len(),
    ensures
        final(out)@ == old(out)@ + joined(v@.subrange(lo as int, hi as int), true),
{
    let ghost start = out@;
    let mut j: usize = lo;
    assert(v@.subrange(lo as int, lo as int) =~= Seq::<u16>::empty());
    while j < hi
        invariant
            lo <= j <= hi <= v@.len(),
            out@ == start + joined(v@.subrange(lo as int, j as int), true),
        decreases hi - j,
    {
        proof {
            assert(v@.subrange(lo as int, j + 1) =~= v@.subrange(lo as int, j as int).push(v@[j as int]));
            lemma_joined_push(v@.subrange(lo as int, j as int), v@[j as int], true);
        }
        if j > lo {
            out.push(':');
        }
        push_hex(out, v[j]);
        j = j + 1;
        assert(out@ =~= start + joined(v@.subrange(lo as int, j as int), true));
    }
}

/// Appends the text std writes for the IPv6 address `g`.
pub fn push_v6(out: &mut Vec<char>, g: &Segments)
    ensures
        final(out)@ == old(out)@ + v6_text(segs(*g)),
{
    let mut v: Vec<u16> = Vec::new();
    v.push(g.0);
    v.push(g.1);
    v.push(g.2);
    v.push(g.3);
    v.push(g.4);
    v.push(g.5);
    v.push(g.6);
    v.push(g.7);
    let ghost s = segs(*g);
    assert(v@ =~= s);
    if g.0 == 0 && g.1 == 0 && g.2 == 0 && g.3 == 0 && g.4 == 0 && g.5 == 0xffff {
        out.push(':');
        out.push(':');
        out.push('f');
        out.push('f');
        out.push('f');
        out.push('f');
        out.push(':');
        let o = Octets((g.6 / 256) as u8, (g.6 % 256) as u8, (g.7 / 256) as u8, (g.7 % 256) as u8);
        assert(o == mapped_octets(s));
        crate::addr::push_v4(out, &o);
        assert(final(out)@ =~= old(out)@ + v6_text(s));
        return;
    }
    let mut ls: usize = 0;
    let mut ll: usize = 0;
    let mut cs: usize = 0;
    let mut cl: usize = 0;
    let mut i: usize = 0;
    while i < 8
        invariant
            v@ == s,
            s.len() == 8,
            i <= 8,
            ls <= 8,
            ll <= i,
            cs <= 8,
            cl <= i,
            zero_span(s, 0, 0, 0, 0, 0) == zero_span(s, i as int, ls as int, ll as int, cs as int, cl as int),
        decreases 8 - i,
    {
        if v[i] == 0 {
            if cl == 0 {
                cs = i;
            }
            cl = cl + 1;
            if cl > ll {
                ls = cs;
                ll = cl;
            }
        } else {
            cs = 0;
            cl = 0;
        }
        i = i + 1;
    }
    proof {
        lemma_zero_span(s, 0, 0, 0, 0, 0);
    }
    if ll > 1 {
        push_joined(out, &v, 0, ls);
        out.push(':');
        out.push(':');
        push_joined(out, &v, ls + ll, 8);
        assert(v@.subrange(0, ls as int) =~= s.take(ls as int));
        assert(v@.subrange(ls + ll, 8) =~= s.skip(ls + ll));
    } else {
        push_joined(out, &v, 0, 8);
        assert(v@.subrange(0, 8) =~= s);
    }
    assert(final(out)@ =~= old(out)@ + v6_text(s));
}

} // verus!

verus! {

/// Hex digits all of whose characters are hex digits have a value below `16`
/// to the power of their number.
proof fn lemma_hex_value_bound(t: Seq<char>)
    requires
        forall|j: int| 0 <= j < t.len() ==> is_hex_digit(#[trigger] t[j]),
    ensures
        hex_value(t) < pow16(t.len()),
    decreases t.len(),
{
    if t.len() > 0 {
        let d = t.drop_last();
        assert forall|j: int| 0 <= j < d.len() implies is_hex_digit(#[trigger] d[j]) by {
            assert(d[j] == t[j]);
        }
        lemma_hex_value_bound(d);
        assert(is_hex_digit(t[t.len() - 1]));
        assert(hex_digit_value(t.last()) < 16);
        assert(pow16(t.len()) == pow16(d.len()) * 16);
        assert(hex_value(d) * 16 + hex_digit_value(t.last()) < pow16(d.len()) * 16) by (nonlinear_arith)
            requires
                hex_value(d) < pow16(d.len()),
                hex_digit_value(t.last()) < 16,
        ;
    }
}

/// A group of one to four hex digits, whatever its leading digits (zeros
/// included), is read as its value, up to the first character that is not a
/// hex digit.
pub proof fn law_hex_group_reads_any_digits(s: Seq<char>, p: int, k: int)
    requires
        0 <= p,
        1 <= k <= 4,
        p + k <= s.len(),
        forall|j: int| p <= j < p + k ==> is_hex_digit(#[trigger] s[j]),
        p + k == s.len() || !is_hex_digit(s[p + k]),
    ensures
        hex_value(s.subrange(p, p + k)) < 0x10000,
        read_hex_group(s, p) == Some((hex_value(s.subrange(p, p + k)) as u16, p + k)),
{
    reveal(read_hex_group);
    lemma_hex_run_exact(s, p, k);
    let t = s.subrange(p, p + k);
    assert forall|j: int| 0 <= j < t.len() implies is_hex_digit(#[trigger] t[j]) by {
        assert(t[j] == s[p + j]);
    }
    lemma_hex_value_bound(t);
    lemma_pow16();
    assert(pow16(k as nat) <= 0x10000);
}

/// A leading zero digit does not change the value of hex digits.
pub proof fn law_hex_leading_zero(t: Seq<char>)
    ensures
        hex_value(seq!['0'] + t) == hex_value(t),
    decreases t.len(),
{
    let z = seq!['0'] + t;
    if t.len() == 0 {
        assert(z.drop_last() =~= Seq::<char>::empty());
        assert(hex_value(Seq::<char>::empty()) == 0);
        assert(hex_digit_value('0') == 0);
    } else {
        assert(z.drop_last() =~= seq!['0'] + t.drop_last());
        law_hex_leading_zero(t.drop_last());
        assert(z.last() == t.last());
    }
}

/// Group texts written with colons between them, with a colon first unless `first`.
pub open spec fn group_texts(ts: Seq<Seq<char>>, first: bool) -> Seq<char>
    decreases ts.len(),
{
    if ts.len() == 0 {
        Seq::empty()
    } else {
        (if first {
            Seq::empty()
        } else {
            seq![':']
        }) + ts[0] + group_texts(ts.drop_first(), false)
    }
}

/// Each text is one to four hex digits.
pub open spec fn hex_groups(ts: Seq<Seq<char>>) -> bool {
    forall|i: int|
        0 <= i < ts.len() ==> 1 <= #[trigger] ts[i].len() <= 4 && forall|j: int|
            0 <= j < ts[i].len() ==> is_hex_digit(ts[i][j])
}

/// The values of group texts.
pub open spec fn group_values(ts: Seq<Seq<char>>) -> Seq<u16> {
    ts.map_values(|t: Seq<char>| hex_value(t) as u16)
}

pub proof fn lemma_group_texts_chars(ts: Seq<Seq<char>>, first: bool)
    requires
        hex_groups(ts),
    ensures
        forall|k: int|
            0 <= k < group_texts(ts, first).len() ==> is_hex_digit(#[trigger] group_texts(ts, first)[k])
                || group_texts(ts, first)[k] == ':',
        !first && ts.len() > 0 ==> group_texts(ts, first)[0] == ':',
    decreases ts.len(),
{
    if ts.len() > 0 {
        let tl = ts.drop_first();
        assert forall|i: int| 0 <= i < tl.len() implies 1 <= #[trigger] tl[i].len() <= 4 && forall|j: int|
            0 <= j < tl[i].len() ==> is_hex_digit(tl[i][j]) by {
            assert(tl[i] == ts[i + 1]);
        }
        lemma_group_texts_chars(tl, false);
        let sep = if first {
            Seq::<char>::empty()
        } else {
            seq![':']
        };
        let h = ts[0];
        let r = group_texts(tl, false);
        let j = group_texts(ts, first);
        assert(1 <= ts[0].len() <= 4);
        assert forall|k: int| 0 <= k < j.len() implies is_hex_digit(#[trigger] j[k]) || j[k] == ':' by {
            if k < sep.len() {
            } else if k < sep.len() + h.len() {
                assert(j[k] == h[k - sep.len()]);
            } else {
                assert(j[k] == r[k - sep.len() - h.len()]);
            }
        }
    }
}

/// A group text at `q` is read as its value; no IPv4 tail starts there.
proof fn lemma_group_text_at(s: Seq<char>, q: int, t: Seq<char>)
    requires
        0 <= q,
        1 <= t.len() <= 4,
        forall|j: int| 0 <= j < t.len() ==> is_hex_digit(#[trigger] t[j]),
        q + t.len() <= s.len(),
        s.subrange(q, q + t.len()) == t,
        q + t.len() == s.len() || (!is_hex_digit(s[q + t.len()]) && s[q + t.len()] != '.'),
    ensures
        read_hex_group(s, q) == Some((hex_value(t) as u16, q + t.len())),
        read_v4_at(s, q) is None,
{
    reveal(read_v4_at);
    reveal(read_octet);
    let e = q + t.len();
    assert forall|k: int| q <= k < e implies is_hex_digit(#[trigger] s[k]) by {
        assert(s[k] == s.subrange(q, e)[k - q]);
    }
    law_hex_group_reads_any_digits(s, q, t.len() as int);
    lemma_dec_run_facts(s, q);
    let k = dec_run(s, q);
    assert(q + k <= e) by {
        if q + k > e {
            assert(is_digit(s[e]));
        }
    }
    assert(read_dot_octet(s, q + k) is None) by {
        if q + k < e {
            assert(is_hex_digit(s[q + k]));
        }
    }
}

/// Reading group texts gives their values and stops at their end.
#[verifier::rlimit(40)]
proof fn lemma_read_group_texts(pre: Seq<char>, ts: Seq<Seq<char>>, first: bool, rest: Seq<char>, i: int, limit: int)
    requires
        hex_groups(ts),
        first <==> i == 0,
        0 <= i,
        i + ts.len() <= limit,
        i + ts.len() < limit ==> blocks(rest, i + ts.len()),
        rest.len() == 0 || (!is_hex_digit(rest[0]) && rest[0] != '.'),
    ensures
        read_groups(pre + group_texts(ts, first) + rest, pre.len() as int, i, limit) == (
            group_values(ts),
            (pre.len() + group_texts(ts, first).len()) as int,
            false,
        ),
    decreases ts.len(),
{
    let s = pre + group_texts(ts, first) + rest;
    let p = pre.len() as int;
    if ts.len() == 0 {
        assert(s =~= pre + rest);
        assert(group_values(ts) =~= Seq::<u16>::empty());
        if i >= limit {
            reveal(read_groups);
        } else if i == 0 {
            if rest.len() > 0 {
                assert(s[p] == rest[0]);
            }
            lemma_nothing_at(s, p);
            lemma_groups_stop(s, p, i, limit);
        } else {
            if rest.len() > 0 && rest[0] == ':' {
                assert(s[p] == ':');
                if rest.len() >= 2 {
                    assert(s[p + 1] == rest[1]);
                }
                lemma_nothing_at(s, p + 1);
            } else if rest.len() > 0 {
                assert(s[p] == rest[0]);
            }
            lemma_groups_stop(s, p, i, limit);
        }
    } else {
        let h = ts[0];
        let sep = if first {
            Seq::<char>::empty()
        } else {
            seq![':']
        };
        let tl = ts.drop_first();
        assert forall|x: int| 0 <= x < tl.len() implies 1 <= #[trigger] tl[x].len() <= 4 && forall|j: int|
            0 <= j < tl[x].len() ==> is_hex_digit(tl[x][j]) by {
            assert(tl[x] == ts[x + 1]);
        }
        assert(1 <= h.len() <= 4);
        assert forall|j: int| 0 <= j < h.len() implies is_hex_digit(#[trigger] h[j]) by {}
        let pre2 = pre + sep + h;
        assert(group_texts(ts, first) == sep + h + group_texts(tl, false));
        assert(s =~= pre2 + group_texts(tl, false) + rest);
        lemma_group_texts_chars(tl, false);
        let q = p + sep.len();
        assert(read_sep(s, p, i) == Some(q)) by {
            if !first {
                assert(s[p] == ':');
            }
        }
        let e = q + h.len();
        assert(s.subrange(q, e) =~= h);
        assert(e == s.len() || (!is_hex_digit(s[e]) && s[e] != '.')) by {
            if tl.len() > 0 {
                assert(s[e] == group_texts(tl, false)[0]);
            } else if rest.len() > 0 {
                assert(s[e] == rest[0]);
            }
        }
        lemma_group_text_at(s, q, h);
        lemma_groups_step(s, p, i, limit, q, hex_value(h) as u16, e);
        lemma_read_group_texts(pre2, tl, false, rest, i + 1, limit);
        assert(pre2.len() == e);
        let r = read_groups(s, e, i + 1, limit);
        assert(seq![hex_value(h) as u16] + r.0 =~= group_values(ts));
    }
}

/// The full form of an IPv6 address (eight groups of one to four hex digits,
/// leading zeros allowed, in either case) is read as the values of its groups.
pub proof fn law_v6_full_form(ts: Seq<Seq<char>>)
    requires
        ts.len() == 8,
        hex_groups(ts),
    ensures
        v6_value(group_texts(ts, true)) == Some(group_values(ts)),
{
    let e = Seq::<char>::empty();
    lemma_read_group_texts(e, ts, true, e, 0, 8);
    assert(e + group_texts(ts, true) + e =~= group_texts(ts, true));
}

} // verus!
