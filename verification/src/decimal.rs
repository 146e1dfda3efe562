//! Decimal numerals: reading unsigned integers the way `str::parse` does, and
//! writing them the way `Display` does.
use vstd::prelude::*;

verus! {

/// Why a numeral was refused (the kinds that `str::parse` reports for an unsigned type).
#[derive(Debug, Clone, Copy, PartialEq, Eq, Structural)]
pub enum ParseIntErrorKind {
    /// The text was empty.
    Empty,
    /// A character other than a digit, or a sign alone.
    InvalidDigit,
    /// The value is larger than the type holds.
    PosOverflow,
}

pub open spec fn is_digit(c: char) -> bool {
    '0' <= c && c <= '9'
}

pub open spec fn digit_value(c: char) -> nat {
    (c as u32 - '0' as u32) as nat
}

pub open spec fn all_digits(s: Seq<char>) -> bool {
    forall|i: int| 0 <= i < s.len() ==> is_digit(#[trigger] s[i])
}

/// Reading the digits of `s` from the left into a value no larger than `max`;
/// the first character that is not a digit, or that takes the value past `max`,
/// decides the error.
pub open spec fn digits_value(s: Seq<char>, max: nat) -> Result<nat, ParseIntErrorKind>
    decreases s.len(),
{
    if s.len() == 0 {
        Ok(0)
    } else {
        match digits_value(s.drop_last(), max) {
            Err(e) => Err(e),
            Ok(v) => {
                if !is_digit(s.last()) {
                    Err(ParseIntErrorKind::InvalidDigit)
                } else if v * 10 + digit_value(s.last()) > max {
                    Err(ParseIntErrorKind::PosOverflow)
                } else {
                    Ok(v * 10 + digit_value(s.last()))
                }
            },
        }
    }
}

/// What `str::parse` gives for an unsigned integer type whose largest value is `max`:
/// an optional `+`, then at least one decimal digit.
pub open spec fn parse_unsigned(s: Seq<char>, max: nat) -> Result<nat, ParseIntErrorKind> {
    if s.len() == 0 {
        Err(ParseIntErrorKind::Empty)
    } else if s[0] == '+' {
        if s.len() == 1 {
            Err(ParseIntErrorKind::InvalidDigit)
        } else {
            digits_value(s.drop_first(), max)
        }
    } else {
        digits_value(s, max)
    }
}

/// A successful read stays within `max`.
pub proof fn lemma_digits_value_bound(s: Seq<char>, max: nat)
    ensures
        digits_value(s, max) matches Ok(v) ==> v <= max,
    decreases s.len(),
{
    if s.len() > 0 {
        lemma_digits_value_bound(s.drop_last(), max);
    }
}

/// The value of the digits `s[lo..hi]`, read with a bound `max < 2^32`.
fn read_digits(s: &Vec<char>, lo: usize, max: u32) -> (r: Result<u32, ParseIntErrorKind>)
    requires
        lo <= s.len(),
    ensures
        match r {
            Ok(v) => digits_value(s@.skip(lo as int), max as nat) == Ok::<nat, ParseIntErrorKind>(
                v as nat,
            ),
            Err(e) => digits_value(s@.skip(lo as int), max as nat) == Err::<nat, ParseIntErrorKind>(
                e,
            ),
        },
{
    let mut v: u64 = 0;
    let mut i = lo;
    assert(s@.skip(lo as int).take(0) =~= Seq::<char>::empty());
    while i < s.len()
        invariant
            lo <= i <= s.len(),
            v <= max,
            digits_value(s@.skip(lo as int).take(i - lo), max as nat) == Ok::<
                nat,
                ParseIntErrorKind,
            >(v as nat),
        decreases s.len() - i,
    {
        let c = s[i];
        let ghost t = s@.skip(lo as int).take(i - lo + 1);
        assert(t.drop_last() =~= s@.skip(lo as int).take(i - lo));
        assert(t.last() == c);
        if !('0' <= c && c <= '9') {
            proof {
                lemma_prefix_error(s@.skip(lo as int), i - lo + 1, max as nat);
            }
            return Err(ParseIntErrorKind::InvalidDigit);
        }
        let d = (c as u32 - '0' as u32) as u64;
        if v * 10 + d > max as u64 {
            proof {
                lemma_prefix_error(s@.skip(lo as int), i - lo + 1, max as nat);
            }
            return Err(ParseIntErrorKind::PosOverflow);
        }
        v = v * 10 + d;
        i = i + 1;
    }
    assert(s@.skip(lo as int).take(i - lo) =~= s@.skip(lo as int));
    Ok(v as u32)
}

/// Once a prefix fails, the whole read fails with the same error.
proof fn lemma_prefix_error(s: Seq<char>, n: int, max: nat)
    requires
        0 <= n <= s.len(),
        digits_value(s.take(n), max) is Err,
    ensures
        digits_value(s, max) == digits_value(s.take(n), max),
    decreases s.len() - n,
{
    if n < s.len() {
        assert(s.take(n + 1).drop_last() =~= s.take(n));
        lemma_prefix_error(s, n + 1, max);
    } else {
        assert(s.take(n) =~= s);
    }
}

/// Reads an unsigned integer no larger than `max`, as `str::parse` does.
pub fn parse_unsigned_chars(s: &Vec<char>, max: u32) -> (r: Result<u32, ParseIntErrorKind>)
    ensures
        match r {
            Ok(v) => parse_unsigned(s@, max as nat) == Ok::<nat, ParseIntErrorKind>(v as nat),
            Err(e) => parse_unsigned(s@, max as nat) == Err::<nat, ParseIntErrorKind>(e),
        },
{
    if s.len() == 0 {
        return Err(ParseIntErrorKind::Empty);
    }
    if s[0] == '+' {
        if s.len() == 1 {
            return Err(ParseIntErrorKind::InvalidDigit);
        }
        assert(s@.skip(1) =~= s@.drop_first());
        read_digits(s, 1, max)
    } else {
        assert(s@.skip(0) =~= s@);
        read_digits(s, 0, max)
    }
}

// ---------------------------------------------------------------------------
// Writing numerals
// ---------------------------------------------------------------------------

pub open spec fn digit_char(d: nat) -> char {
    (d + 48) as char
}

/// The decimal numeral of `n`, without leading zeros (what `Display` writes).
pub open spec fn dec(n: nat) -> Seq<char>
    decreases n,
{
    if n < 10 {
        seq![digit_char(n)]
    } else {
        dec(n / 10).push(digit_char(n % 10))
    }
}

/// A numeral is made of digits, starts with a nonzero digit unless it is `0`,
/// is read back as its value, and its length follows its size.
pub proof fn lemma_dec(n: nat, max: nat)
    requires
        n <= max,
    ensures
        dec(n).len() > 0,
        all_digits(dec(n)),
        dec(n)[0] == '0' ==> n == 0,
        digits_value(dec(n), max) == Ok::<nat, ParseIntErrorKind>(n),
        n < 1000 ==> dec(n).len() <= 3,
        n < 100 ==> dec(n).len() <= 2,
        n < 10 ==> dec(n).len() == 1,
    decreases n,
{
    if n >= 10 {
        assert((n / 10) * 10 + n % 10 == n && n / 10 <= n && n % 10 < 10) by (nonlinear_arith);
        assert(n < 1000 ==> n / 10 < 100) by (nonlinear_arith);
        assert(n < 100 ==> n / 10 < 10) by (nonlinear_arith);
        lemma_dec(n / 10, max);
        let s = dec(n);
        assert(s.drop_last() =~= dec(n / 10));
        assert(digit_value(digit_char(n % 10)) == n % 10);
        assert(is_digit(digit_char(n % 10)));
        assert(s.last() == digit_char(n % 10));
        assert(digits_value(s.drop_last(), max) == Ok::<nat, ParseIntErrorKind>(n / 10));
        assert(s[0] == dec(n / 10)[0]);
        assert(digits_value(s, max) == Ok::<nat, ParseIntErrorKind>(n));
    } else {
        assert(digit_value(digit_char(n)) == n);
        assert(is_digit(digit_char(n)));
        assert(dec(n).drop_last() =~= Seq::<char>::empty());
        assert(digits_value(dec(n).drop_last(), max) == Ok::<nat, ParseIntErrorKind>(0));
        assert(dec(n).last() == digit_char(n));
        assert(digits_value(dec(n), max) == Ok::<nat, ParseIntErrorKind>(n));
    }
}

/// Appends the decimal numeral of `n` to `out`.
pub fn push_decimal(out: &mut Vec<char>, n: u32)
    ensures
        final(out)@ == old(out)@ + dec(n as nat),
    decreases n,
{
    if n >= 10 {
        push_decimal(out, n / 10);
    }
    let d = (n % 10) as u8;
    let c = (d + 48) as char;
    assert(c == digit_char((n % 10) as nat));
    out.push(c);
    assert(final(out)@ =~= old(out)@ + dec(n as nat)) by {
        if n < 10 {
            assert(dec(n as nat) =~= seq![digit_char(n as nat)]);
        }
    }
}

/// The decimal numeral of `n`.
pub fn decimal_chars(n: u32) -> (r: Vec<char>)
    ensures
        r@ == dec(n as nat),
{
    let mut r: Vec<char> = Vec::new();
    push_decimal(&mut r, n);
    assert(r@ =~= dec(n as nat));
    r
}

} // verus!
