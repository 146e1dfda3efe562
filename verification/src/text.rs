//! Character-level text handling shared by the message grammars: whitespace,
//! tokens, trimming, splitting and ASCII case folding, all over `Seq<char>`.
use vstd::prelude::*;

verus! {

/// The Unicode `White_Space` property, the set that `char::is_whitespace` tests.
pub open spec fn is_ws(c: char) -> bool {
    ||| ('\u{9}' <= c && c <= '\u{d}')
    ||| c == ' '
    ||| c == '\u{85}'
    ||| c == '\u{a0}'
    ||| c == '\u{1680}'
    ||| ('\u{2000}' <= c && c <= '\u{200a}')
    ||| c == '\u{2028}'
    ||| c == '\u{2029}'
    ||| c == '\u{202f}'
    ||| c == '\u{205f}'
    ||| c == '\u{3000}'
}

/// Whether `c` is a whitespace character.
pub fn is_whitespace(c: char) -> (r: bool)
    ensures
        r == is_ws(c),
{
    ('\u{9}' <= c && c <= '\u{d}') || c == ' ' || c == '\u{85}' || c == '\u{a0}' || c == '\u{1680}'
        || ('\u{2000}' <= c && c <= '\u{200a}') || c == '\u{2028}' || c == '\u{2029}' || c
        == '\u{202f}' || c == '\u{205f}' || c == '\u{3000}'
}

/// No character of `s` is whitespace.
pub open spec fn no_ws(s: Seq<char>) -> bool {
    forall|i: int| 0 <= i < s.len() ==> !is_ws(#[trigger] s[i])
}

/// `s` does not hold the character `c`.
pub open spec fn lacks(s: Seq<char>, c: char) -> bool {
    forall|i: int| 0 <= i < s.len() ==> #[trigger] s[i] != c
}

/// The character sequences held by a vector of character vectors.
pub open spec fn views(v: Seq<Vec<char>>) -> Seq<Seq<char>> {
    v.map_values(|t: Vec<char>| t@)
}

// ---------------------------------------------------------------------------
// Whitespace-separated tokens
// ---------------------------------------------------------------------------

/// Scanning `s` from the left: the tokens completed so far and the token being read.
pub open spec fn ws_scan(s: Seq<char>) -> (Seq<Seq<char>>, Seq<char>)
    decreases s.len(),
{
    if s.len() == 0 {
        (Seq::empty(), Seq::empty())
    } else {
        let (done, cur) = ws_scan(s.drop_last());
        if is_ws(s.last()) {
            if cur.len() > 0 {
                (done.push(cur), Seq::empty())
            } else {
                (done, Seq::empty())
            }
        } else {
            (done, cur.push(s.last()))
        }
    }
}

/// The maximal runs of non-whitespace characters of `s`, in order
/// (what `str::split_whitespace` yields).
pub open spec fn ws_tokens(s: Seq<char>) -> Seq<Seq<char>> {
    let (done, cur) = ws_scan(s);
    if cur.len() > 0 {
        done.push(cur)
    } else {
        done
    }
}

/// The tokens of `s`, split at runs of whitespace.
pub fn split_whitespace(s: &Vec<char>) -> (r: Vec<Vec<char>>)
    ensures
        views(r@) == ws_tokens(s@),
{
    let mut done: Vec<Vec<char>> = Vec::new();
    let mut cur: Vec<char> = Vec::new();
    let mut i: usize = 0;
    while i < s.len()
        invariant
            i <= s.len(),
            (views(done@), cur@) == ws_scan(s@.take(i as int)),
        decreases s.len() - i,
    {
        let c = s[i];
        assert(s@.take(i + 1).drop_last() == s@.take(i as int));
        assert(s@.take(i + 1).last() == c);
        if is_whitespace(c) {
            if cur.len() > 0 {
                let ghost d = views(done@);
                let ghost cv = cur@;
                done.push(cur);
                cur = Vec::new();
                assert(views(done@) =~= d.push(cv));
            }
        } else {
            cur.push(c);
        }
        i = i + 1;
    }
    assert(s@.take(s.len() as int) == s@);
    if cur.len() > 0 {
        let ghost d = views(done@);
        let ghost cv = cur@;
        done.push(cur);
        assert(views(done@) =~= d.push(cv));
    }
    done
}

// ---------------------------------------------------------------------------
// Trimming
// ---------------------------------------------------------------------------

/// `s` without its leading whitespace.
pub open spec fn trim_start(s: Seq<char>) -> Seq<char>
    decreases s.len(),
{
    if s.len() > 0 && is_ws(s[0]) {
        trim_start(s.drop_first())
    } else {
        s
    }
}

/// `s` without its trailing whitespace.
pub open spec fn trim_end(s: Seq<char>) -> Seq<char>
    decreases s.len(),
{
    if s.len() > 0 && is_ws(s.last()) {
        trim_end(s.drop_last())
    } else {
        s
    }
}

/// `s` without leading and trailing whitespace (what `str::trim` returns).
pub open spec fn trim(s: Seq<char>) -> Seq<char> {
    trim_end(trim_start(s))
}

/// The characters of `s` from `lo` up to `hi`.
pub fn slice_chars(s: &Vec<char>, lo: usize, hi: usize) -> (r: Vec<char>)
    requires
        lo <= hi <= s.len(),
    ensures
        r@ == s@.subrange(lo as int, hi as int),
{
    let mut r: Vec<char> = Vec::new();
    let mut i = lo;
    while i < hi
        invariant
            lo <= i <= hi <= s.len(),
            r@ == s@.subrange(lo as int, i as int),
        decreases hi - i,
    {
        r.push(s[i]);
        i = i + 1;
        assert(r@ =~= s@.subrange(lo as int, i as int));
    }
    r
}

/// `s` with leading and trailing whitespace removed.
pub fn trim_chars(s: &Vec<char>) -> (r: Vec<char>)
    ensures
        r@ == trim(s@),
{
    let n = s.len();
    let mut i: usize = 0;
    assert(s@.subrange(0, n as int) =~= s@);
    while i < n && is_whitespace(s[i])
        invariant
            i <= n == s.len(),
            trim_start(s@) == trim_start(s@.subrange(i as int, n as int)),
        decreases n - i,
    {
        assert(s@.subrange(i as int, n as int).drop_first() =~= s@.subrange(i + 1, n as int));
        i = i + 1;
    }
    assert(trim_start(s@) == s@.subrange(i as int, n as int));
    let mut j: usize = n;
    while j > i && is_whitespace(s[j - 1])
        invariant
            i <= j <= n == s.len(),
            trim(s@) == trim_end(s@.subrange(i as int, j as int)),
        decreases j,
    {
        assert(s@.subrange(i as int, j as int).drop_last() =~= s@.subrange(i as int, j - 1));
        j = j - 1;
    }
    slice_chars(s, i, j)
}

// ---------------------------------------------------------------------------
// Searching and splitting
// ---------------------------------------------------------------------------

/// The position of the first `c` in `s`.
pub open spec fn index_of(s: Seq<char>, c: char) -> Option<nat>
    decreases s.len(),
{
    if s.len() == 0 {
        None
    } else if s[0] == c {
        Some(0)
    } else {
        match index_of(s.drop_first(), c) {
            Some(i) => Some(i + 1),
            None => None,
        }
    }
}

/// The position of the first whitespace character in `s`.
pub open spec fn index_of_ws(s: Seq<char>) -> Option<nat>
    decreases s.len(),
{
    if s.len() == 0 {
        None
    } else if is_ws(s[0]) {
        Some(0)
    } else {
        match index_of_ws(s.drop_first()) {
            Some(i) => Some(i + 1),
            None => None,
        }
    }
}

/// `index_of` finds the first occurrence.
pub proof fn lemma_index_of(s: Seq<char>, c: char, i: int)
    requires
        0 <= i <= s.len(),
        forall|k: int| 0 <= k < i ==> s[k] != c,
    ensures
        i < s.len() && s[i] == c ==> index_of(s, c) == Some(i as nat),
        i == s.len() ==> index_of(s, c) is None,
    decreases i,
{
    if i > 0 {
        lemma_index_of(s.drop_first(), c, i - 1);
    }
}

/// `index_of_ws` finds the first whitespace character.
pub proof fn lemma_index_of_ws(s: Seq<char>, i: int)
    requires
        0 <= i <= s.len(),
        forall|k: int| 0 <= k < i ==> !is_ws(s[k]),
    ensures
        i < s.len() && is_ws(s[i]) ==> index_of_ws(s) == Some(i as nat),
        i == s.len() ==> index_of_ws(s) is None,
    decreases i,
{
    if i > 0 {
        lemma_index_of_ws(s.drop_first(), i - 1);
    }
}

/// The first `c` of `x + seq![c] + y` is the one after `x`, when `x` lacks `c`.
pub proof fn lemma_index_of_concat(x: Seq<char>, c: char, y: Seq<char>)
    requires
        lacks(x, c),
    ensures
        index_of(x + seq![c] + y, c) == Some(x.len()),
{
    let s = x + seq![c] + y;
    assert forall|k: int| 0 <= k < x.len() implies s[k] != c by {
        assert(s[k] == x[k]);
    }
    lemma_index_of(s, c, x.len() as int);
}

/// A sequence that lacks `c` has no index of `c`.
pub proof fn lemma_index_of_none(x: Seq<char>, c: char)
    requires
        lacks(x, c),
    ensures
        index_of(x, c) is None,
{
    lemma_index_of(x, c, x.len() as int);
}

/// The position of the first `c` in `s`.
pub fn find_char(s: &Vec<char>, c: char) -> (r: Option<usize>)
    ensures
        match r {
            Some(i) => index_of(s@, c) == Some(i as nat) && i < s.len(),
            None => index_of(s@, c) is None,
        },
{
    let mut i: usize = 0;
    while i < s.len()
        invariant
            i <= s.len(),
            forall|k: int| 0 <= k < i ==> s@[k] != c,
        decreases s.len() - i,
    {
        if s[i] == c {
            proof {
                lemma_index_of(s@, c, i as int);
            }
            return Some(i);
        }
        i = i + 1;
    }
    proof {
        lemma_index_of(s@, c, i as int);
    }
    None
}

/// The position of the first whitespace character in `s`.
pub fn find_whitespace(s: &Vec<char>) -> (r: Option<usize>)
    ensures
        match r {
            Some(i) => index_of_ws(s@) == Some(i as nat) && i < s.len(),
            None => index_of_ws(s@) is None,
        },
{
    let mut i: usize = 0;
    while i < s.len()
        invariant
            i <= s.len(),
            forall|k: int| 0 <= k < i ==> !is_ws(s@[k]),
        decreases s.len() - i,
    {
        if is_whitespace(s[i]) {
            proof {
                lemma_index_of_ws(s@, i as int);
            }
            return Some(i);
        }
        i = i + 1;
    }
    proof {
        lemma_index_of_ws(s@, i as int);
    }
    None
}

/// The parts of `s` before and after its first `c` (what `str::split_once` returns).
pub open spec fn split_once(s: Seq<char>, c: char) -> Option<(Seq<char>, Seq<char>)> {
    match index_of(s, c) {
        Some(i) => Some((s.take(i as int), s.skip(i as int + 1))),
        None => None,
    }
}

/// The parts of `s` between occurrences of `c`, empty parts included
/// (what `str::split` yields for a character).
pub open spec fn split_on(s: Seq<char>, c: char) -> Seq<Seq<char>>
    decreases s.len(),
{
    match index_of(s, c) {
        Some(i) => {
            if i < s.len() {
                seq![s.take(i as int)] + split_on(s.skip(i as int + 1), c)
            } else {
                seq![s]
            }
        },
        None => seq![s],
    }
}

/// `index_of` stays in bounds.
pub proof fn lemma_index_of_bound(s: Seq<char>, c: char)
    ensures
        index_of(s, c) matches Some(i) ==> i < s.len() && s[i as int] == c,
    decreases s.len(),
{
    if s.len() > 0 && s[0] != c {
        lemma_index_of_bound(s.drop_first(), c);
    }
}

/// The parts of `s` before and after its first `c`.
pub fn split_once_chars(s: &Vec<char>, c: char) -> (r: Option<(Vec<char>, Vec<char>)>)
    ensures
        match r {
            Some((a, b)) => split_once(s@, c) == Some((a@, b@)),
            None => split_once(s@, c) is None,
        },
{
    match find_char(s, c) {
        Some(i) => Some((slice_chars(s, 0, i), slice_chars(s, i + 1, s.len()))),
        None => None,
    }
}

/// The parts of `s` between occurrences of `c`.
pub fn split_on_chars(s: &Vec<char>, c: char) -> (r: Vec<Vec<char>>)
    ensures
        views(r@) == split_on(s@, c),
{
    let mut parts: Vec<Vec<char>> = Vec::new();
    let mut start: usize = 0;
    let mut i: usize = 0;
    assert(s@.skip(0) =~= s@);
    assert(views(parts@) + split_on(s@.skip(0), c) =~= split_on(s@, c));
    while i < s.len()
        invariant
            start <= i <= s.len(),
            forall|k: int| start <= k < i ==> s@[k] != c,
            split_on(s@, c) == views(parts@) + split_on(s@.skip(start as int), c),
        decreases s.len() - i,
    {
        if s[i] == c {
            let ghost rest = s@.skip(start as int);
            proof {
                assert forall|k: int| 0 <= k < i - start implies rest[k] != c by {
                    assert(rest[k] == s@[start + k]);
                }
                lemma_index_of(rest, c, i - start);
                assert(rest.take(i - start) =~= s@.subrange(start as int, i as int));
                assert(rest.skip(i - start + 1) =~= s@.skip(i + 1));
            }
            let piece = slice_chars(s, start, i);
            let ghost pv = views(parts@);
            parts.push(piece);
            assert(views(parts@) =~= pv.push(s@.subrange(start as int, i as int)));
            assert(pv.push(s@.subrange(start as int, i as int)) + split_on(s@.skip(i + 1), c)
                =~= pv + (seq![s@.subrange(start as int, i as int)] + split_on(s@.skip(i + 1), c)));
            start = i + 1;
        }
        i = i + 1;
    }
    let ghost rest = s@.skip(start as int);
    proof {
        assert forall|k: int| 0 <= k < rest.len() implies rest[k] != c by {
            assert(rest[k] == s@[start + k]);
        }
        lemma_index_of(rest, c, rest.len() as int);
        assert(rest =~= s@.subrange(start as int, s.len() as int));
    }
    let piece = slice_chars(s, start, s.len());
    let ghost pv = views(parts@);
    parts.push(piece);
    assert(views(parts@) =~= pv + seq![rest]);
    parts
}

/// `s` without the leading `p`, if `s` starts with `p` (what `str::strip_prefix` returns).
pub open spec fn strip_prefix(s: Seq<char>, p: Seq<char>) -> Option<Seq<char>> {
    if p.len() <= s.len() && s.take(p.len() as int) == p {
        Some(s.skip(p.len() as int))
    } else {
        None
    }
}

/// `s` without the leading `p`, if `s` starts with `p`.
pub fn strip_prefix_chars(s: &Vec<char>, p: &Vec<char>) -> (r: Option<Vec<char>>)
    ensures
        match r {
            Some(t) => strip_prefix(s@, p@) == Some(t@),
            None => strip_prefix(s@, p@) is None,
        },
{
    if p.len() > s.len() {
        return None;
    }
    let mut i: usize = 0;
    while i < p.len()
        invariant
            i <= p.len() <= s.len(),
            forall|k: int| 0 <= k < i ==> s@[k] == p@[k],
        decreases p.len() - i,
    {
        if s[i] != p[i] {
            assert(s@.take(p.len() as int)[i as int] != p@[i as int]);
            return None;
        }
        i = i + 1;
    }
    assert(s@.take(p.len() as int) =~= p@);
    Some(slice_chars(s, p.len(), s.len()))
}

// ---------------------------------------------------------------------------
// ASCII case folding
// ---------------------------------------------------------------------------

/// The code of `c` with ASCII upper-case letters mapped to lower case.
pub open spec fn ascii_fold(c: char) -> int {
    if 'A' <= c && c <= 'Z' {
        (c as u32) + 32
    } else {
        c as u32 as int
    }
}

/// `a` and `b` are equal up to ASCII case (what `str::eq_ignore_ascii_case` tests).
pub open spec fn eq_ignore_case(a: Seq<char>, b: Seq<char>) -> bool {
    &&& a.len() == b.len()
    &&& forall|i: int| 0 <= i < a.len() ==> ascii_fold(#[trigger] a[i]) == ascii_fold(b[i])
}

fn fold_char(c: char) -> (r: u32)
    ensures
        r as int == ascii_fold(c),
{
    if 'A' <= c && c <= 'Z' {
        (c as u32) + 32
    } else {
        c as u32
    }
}

/// Whether `a` and `b` are equal up to ASCII case.
pub fn eq_ignore_ascii_case(a: &Vec<char>, b: &Vec<char>) -> (r: bool)
    ensures
        r == eq_ignore_case(a@, b@),
{
    if a.len() != b.len() {
        return false;
    }
    let mut i: usize = 0;
    while i < a.len()
        invariant
            i <= a.len() == b.len(),
            forall|k: int| 0 <= k < i ==> ascii_fold(#[trigger] a@[k]) == ascii_fold(b@[k]),
        decreases a.len() - i,
    {
        if fold_char(a[i]) != fold_char(b[i]) {
            return false;
        }
        i = i + 1;
    }
    true
}

} // verus!

verus! {

// ---------------------------------------------------------------------------
// Conversions between strings and character vectors
// ---------------------------------------------------------------------------

/// `String::push` appends one character at the end.
pub assume_specification[ String::push ](string: &mut String, ch: char)
    ensures
        final(string)@ == old(string)@.push(ch),
;

/// The characters of `s`.
pub fn str_chars(s: &str) -> (r: Vec<char>)
    ensures
        r@ == s@,
{
    let mut r: Vec<char> = Vec::new();
    for c in it: s.chars()
        invariant
            r@ == it.seq().take(it.index() as int),
            it.seq() == s@,
    {
        r.push(c);
    }
    r
}

/// The string made of the characters `v`.
pub fn chars_string(v: &Vec<char>) -> (r: String)
    ensures
        r@ == v@,
{
    let mut r = String::new();
    let mut i: usize = 0;
    while i < v.len()
        invariant
            i <= v.len(),
            r@ == v@.take(i as int),
        decreases v.len() - i,
    {
        r.push(v[i]);
        i = i + 1;
        assert(r@ =~= v@.take(i as int));
    }
    assert(v@.take(v.len() as int) =~= v@);
    r
}

} // verus!

verus! {

// ---------------------------------------------------------------------------
// Joining tokens with single spaces
// ---------------------------------------------------------------------------

/// The tokens `ts` joined by single spaces (what `join(" ")` builds).
pub open spec fn join_sp(ts: Seq<Seq<char>>) -> Seq<char>
    decreases ts.len(),
{
    if ts.len() == 0 {
        Seq::empty()
    } else if ts.len() == 1 {
        ts[0]
    } else {
        join_sp(ts.drop_last()) + seq![' '] + ts.last()
    }
}

/// Each of `ts` is a nonempty run of non-whitespace characters.
pub open spec fn proper_tokens(ts: Seq<Seq<char>>) -> bool {
    forall|i: int| 0 <= i < ts.len() ==> #[trigger] ts[i].len() > 0 && no_ws(ts[i])
}

/// Scanning on through characters that are not whitespace extends the current token.
pub proof fn lemma_scan_word(s: Seq<char>, t: Seq<char>)
    requires
        no_ws(t),
    ensures
        ws_scan(s + t) == (ws_scan(s).0, ws_scan(s).1 + t),
    decreases t.len(),
{
    if t.len() == 0 {
        assert(s + t =~= s);
        assert(ws_scan(s).1 + t =~= ws_scan(s).1);
    } else {
        lemma_scan_word(s, t.drop_last());
        assert((s + t).drop_last() =~= s + t.drop_last());
        assert((s + t).last() == t.last());
        assert(!is_ws(t[t.len() - 1]));
        assert(ws_scan(s).1 + t.drop_last() + seq![t.last()] =~= ws_scan(s).1 + t);
        assert((ws_scan(s).1 + t.drop_last()).push(t.last()) =~= ws_scan(s).1 + t);
    }
}

/// A space ends the current token.
pub proof fn lemma_scan_space(s: Seq<char>)
    ensures
        ws_scan(s + seq![' ']) == (if ws_scan(s).1.len() > 0 {
            ws_scan(s).0.push(ws_scan(s).1)
        } else {
            ws_scan(s).0
        }, Seq::<char>::empty()),
{
    assert((s + seq![' ']).drop_last() =~= s);
}

/// Scanning tokens joined by spaces leaves all but the last complete.
pub proof fn lemma_scan_join(ts: Seq<Seq<char>>)
    requires
        ts.len() > 0,
        proper_tokens(ts),
    ensures
        ws_scan(join_sp(ts)) == (ts.drop_last(), ts.last()),
    decreases ts.len(),
{
    if ts.len() == 1 {
        lemma_scan_word(Seq::empty(), ts[0]);
        assert(Seq::<char>::empty() + ts[0] =~= ts[0]);
        assert(Seq::<char>::empty() + ts[0] =~= ts[0]);
        assert(ts.drop_last() =~= Seq::<Seq<char>>::empty());
    } else {
        let ts1 = ts.drop_last();
        assert(proper_tokens(ts1)) by {
            assert forall|i: int| 0 <= i < ts1.len() implies #[trigger] ts1[i].len() > 0 && no_ws(
                ts1[i],
            ) by {
                assert(ts1[i] == ts[i]);
            }
        }
        lemma_scan_join(ts1);
        let j = join_sp(ts1);
        lemma_scan_space(j);
        assert(ts1.last() == ts[ts.len() - 2]);
        lemma_scan_word(j + seq![' '], ts.last());
        assert(ts1.drop_last().push(ts1.last()) =~= ts1);
        assert(Seq::<char>::empty() + ts.last() =~= ts.last());
    }
}

/// Tokens joined by single spaces, with or without a trailing space, split back
/// into the same tokens.
pub proof fn lemma_tokens_of_join(ts: Seq<Seq<char>>)
    requires
        proper_tokens(ts),
    ensures
        ws_tokens(join_sp(ts)) == ts,
        ws_tokens(join_sp(ts) + seq![' ']) == ts,
{
    if ts.len() == 0 {
        assert(join_sp(ts) + seq![' '] =~= seq![' ']);
        assert(seq![' '].drop_last() =~= Seq::<char>::empty());
    } else {
        lemma_scan_join(ts);
        lemma_scan_space(join_sp(ts));
        assert(ts.drop_last().push(ts.last()) =~= ts);
    }
}

/// Joining `a` before further tokens puts one space between.
pub proof fn lemma_join_front(a: Seq<char>, ts: Seq<Seq<char>>)
    ensures
        ts.len() > 0 ==> join_sp(seq![a] + ts) == a + seq![' '] + join_sp(ts),
        ts.len() == 0 ==> join_sp(seq![a] + ts) == a,
    decreases ts.len(),
{
    if ts.len() == 0 {
        assert(seq![a] + ts =~= seq![a]);
    } else if ts.len() == 1 {
        assert((seq![a] + ts).drop_last() =~= seq![a]);
        assert((seq![a] + ts).last() == ts[0]);
        assert(join_sp(seq![a]) == a);
    } else {
        lemma_join_front(a, ts.drop_last());
        assert((seq![a] + ts).drop_last() =~= seq![a] + ts.drop_last());
        assert((seq![a] + ts).last() == ts.last());
        assert(a + seq![' '] + join_sp(ts.drop_last()) + seq![' '] + ts.last() =~= a + seq![' ']
            + (join_sp(ts.drop_last()) + seq![' '] + ts.last()));
    }
}

/// The tokens `ts` joined by single spaces.
pub fn join_tokens(ts: &Vec<Vec<char>>) -> (r: Vec<char>)
    ensures
        r@ == join_sp(views(ts@)),
{
    let ghost v = views(ts@);
    let mut r: Vec<char> = Vec::new();
    let mut i: usize = 0;
    while i < ts.len()
        invariant
            i <= ts@.len(),
            v == views(ts@),
            r@ == join_sp(v.take(i as int)),
        decreases ts@.len() - i,
    {
        assert(v.take(i + 1).drop_last() =~= v.take(i as int));
        if i > 0 {
            r.push(' ');
        }
        let t = &ts[i];
        let mut j: usize = 0;
        let ghost before = r@;
        while j < t.len()
            invariant
                j <= t@.len(),
                r@ == before + t@.take(j as int),
            decreases t@.len() - j,
        {
            r.push(t[j]);
            j = j + 1;
            assert(r@ =~= before + t@.take(j as int));
        }
        assert(t@.take(j as int) =~= t@);
        proof {
            if i == 0 {
                assert(v.take(1) =~= seq![v[0]]);
                assert(r@ =~= t@);
            }
        }
        i = i + 1;
    }
    assert(v.take(i as int) =~= v);
    r
}

} // verus!

verus! {

/// Texts equal up to ASCII case are equal up to ASCII case to the same texts.
pub proof fn lemma_eq_ignore_case_swap(a: Seq<char>, b: Seq<char>, k: Seq<char>)
    requires
        eq_ignore_case(a, b),
    ensures
        eq_ignore_case(a, k) <==> eq_ignore_case(b, k),
{
    if eq_ignore_case(a, k) {
        assert forall|i: int| 0 <= i < b.len() implies ascii_fold(#[trigger] b[i]) == ascii_fold(k[i]) by {
            assert(ascii_fold(a[i]) == ascii_fold(b[i]));
            assert(ascii_fold(a[i]) == ascii_fold(k[i]));
        }
    }
    if eq_ignore_case(b, k) {
        assert forall|i: int| 0 <= i < a.len() implies ascii_fold(#[trigger] a[i]) == ascii_fold(k[i]) by {
            assert(ascii_fold(a[i]) == ascii_fold(b[i]));
            assert(ascii_fold(b[i]) == ascii_fold(k[i]));
        }
    }
}

} // verus!
