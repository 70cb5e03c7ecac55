//! Decimal parsing of `u64` values, with the rules of `u64::from_str`.
use vstd::prelude::*;

verus! {

/// Why a text is not a `u64`, with the kinds that `u64::from_str` reports.
#[derive(Debug, Clone, Copy, PartialEq, Eq, Structural)]
pub enum IntErrorKind {
    /// The text is empty.
    Empty,
    /// The text holds a character that is not a decimal digit where one is expected.
    InvalidDigit,
    /// The number is larger than `u64::MAX`.
    PosOverflow,
}

/// The value of a decimal digit character.
pub open spec fn digit_value(c: char) -> Option<int> {
    if '0' <= c && c <= '9' {
        Some(c as int - '0' as int)
    } else {
        None
    }
}

/// Reads the digits `ds` from left to right onto the value `acc`: the first
/// character that is not a digit is an `InvalidDigit`, and the first step at
/// which the value exceeds `u64::MAX` is a `PosOverflow`.
pub open spec fn fold_digits(ds: Seq<char>, acc: int) -> Result<int, IntErrorKind>
    decreases ds.len(),
{
    if ds.len() == 0 {
        Ok(acc)
    } else {
        match digit_value(ds[0]) {
            None => Err(IntErrorKind::InvalidDigit),
            Some(d) => {
                if acc * 10 + d > u64::MAX {
                    Err(IntErrorKind::PosOverflow)
                } else {
                    fold_digits(ds.drop_first(), acc * 10 + d)
                }
            },
        }
    }
}

/// The `u64` that the text `s` denotes in decimal: one optional leading `+`,
/// then at least one digit, the whole value at most `u64::MAX`.
pub open spec fn parse_u64(s: Seq<char>) -> Result<u64, IntErrorKind> {
    if s.len() == 0 {
        Err(IntErrorKind::Empty)
    } else {
        let ds = if s[0] == '+' && s.len() > 1 {
            s.drop_first()
        } else {
            s
        };
        match fold_digits(ds, 0) {
            Ok(n) => Ok(n as u64),
            Err(k) => Err(k),
        }
    }
}

/// Parses `cs[lo..hi]` as a decimal `u64`, as `u64::from_str` does.
pub fn parse_u64_span(cs: &[char], lo: usize, hi: usize) -> (r: Result<u64, IntErrorKind>)
    requires
        lo <= hi <= cs@.len(),
    ensures
        r == parse_u64(cs@.subrange(lo as int, hi as int)),
{
    let ghost s = cs@.subrange(lo as int, hi as int);
    if lo == hi {
        return Err(IntErrorKind::Empty);
    }
    let mut i = lo;
    if cs[lo] == '+' && hi - lo > 1 {
        i = lo + 1;
    }
    let ghost ds = cs@.subrange(i as int, hi as int);
    assert(ds =~= (if s[0] == '+' && s.len() > 1 { s.drop_first() } else { s }));
    let mut acc: u64 = 0;
    assert(parse_u64(s) == (match fold_digits(ds, 0) {
        Ok(n) => Ok(n as u64),
        Err(k) => Err(k),
    }));
    while i < hi
        invariant
            lo <= i <= hi <= cs@.len(),
            s == cs@.subrange(lo as int, hi as int),
            fold_digits(ds, 0) == fold_digits(cs@.subrange(i as int, hi as int), acc as int),
            parse_u64(s) == (match fold_digits(ds, 0) {
                Ok(n) => Ok(n as u64),
                Err(k) => Err(k),
            }),
        decreases hi - i,
    {
        let ghost rest = cs@.subrange(i as int, hi as int);
        assert(rest.drop_first() =~= cs@.subrange(i + 1, hi as int));
        let c = cs[i];
        assert(rest[0] == c);
        if !('0' <= c && c <= '9') {
            return Err(IntErrorKind::InvalidDigit);
        }
        let d = (c as u32 - '0' as u32) as u64;
        assert(d == c as int - '0' as int);
        if acc > (u64::MAX - d) / 10 {
            assert(acc * 10 + d > u64::MAX) by (nonlinear_arith)
                requires
                    acc > (u64::MAX - d) / 10,
                    d <= 9,
            ;
            return Err(IntErrorKind::PosOverflow);
        }
        assert(acc * 10 + d <= u64::MAX) by (nonlinear_arith)
            requires
                acc <= (u64::MAX - d) / 10,
                d <= 9,
        ;
        acc = acc * 10 + d;
        i = i + 1;
    }
    assert(cs@.subrange(i as int, hi as int).len() == 0);
    Ok(acc)
}

/// The decimal digit character of `d`.
pub open spec fn digit_char(d: nat) -> char {
    if d == 0 {
        '0'
    } else if d == 1 {
        '1'
    } else if d == 2 {
        '2'
    } else if d == 3 {
        '3'
    } else if d == 4 {
        '4'
    } else if d == 5 {
        '5'
    } else if d == 6 {
        '6'
    } else if d == 7 {
        '7'
    } else if d == 8 {
        '8'
    } else {
        '9'
    }
}

/// `n` written in decimal, without leading zeros, as `Display` writes integers.
pub open spec fn decimal(n: nat) -> Seq<char>
    decreases n,
{
    if n < 10 {
        seq![digit_char(n)]
    } else {
        decimal(n / 10).push(digit_char(n % 10))
    }
}

/// Appends `n` in decimal to `out`.
pub fn push_decimal(out: &mut Vec<char>, n: usize)
    ensures
        final(out)@ == old(out)@ + decimal(n as nat),
    decreases n,
{
    if n >= 10 {
        push_decimal(out, n / 10);
    }
    let d = n % 10;
    let c = if d == 0 {
        '0'
    } else if d == 1 {
        '1'
    } else if d == 2 {
        '2'
    } else if d == 3 {
        '3'
    } else if d == 4 {
        '4'
    } else if d == 5 {
        '5'
    } else if d == 6 {
        '6'
    } else if d == 7 {
        '7'
    } else if d == 8 {
        '8'
    } else {
        '9'
    };
    let ghost before = out@;
    out.push(c);
    proof {
        if n >= 10 {
            assert(out@ =~= old(out)@ + decimal(n as nat));
        } else {
            assert(out@ =~= old(out)@ + decimal(n as nat));
        }
    }
}

/// All of `ds` are decimal digits.
pub open spec fn all_digits(ds: Seq<char>) -> bool {
    forall|i: int| 0 <= i < ds.len() ==> #[trigger] digit_value(ds[i]) is Some
}

/// The number that the digits `ds` denote: each digit times the power of ten
/// of its position from the right, summed (written in Horner's form, from the
/// last digit).
pub open spec fn digits_value(ds: Seq<char>) -> nat
    decreases ds.len(),
{
    if ds.len() == 0 {
        0
    } else {
        digits_value(ds.drop_last()) * 10 + (digit_value(ds.last())->0) as nat
    }
}

/// Reading one more digit at the end goes one step further.
proof fn lemma_fold_digits_push(ds: Seq<char>, c: char, acc: int)
    requires
        digit_value(c) is Some,
    ensures
        fold_digits(ds.push(c), acc) == match fold_digits(ds, acc) {
            Ok(m) => if m * 10 + digit_value(c)->0 > u64::MAX {
                Err(IntErrorKind::PosOverflow)
            } else {
                Ok(m * 10 + digit_value(c)->0)
            },
            Err(e) => Err(e),
        },
    decreases ds.len(),
{
    if ds.len() > 0 {
        assert(ds.push(c)[0] == ds[0]);
        assert(ds.push(c).drop_first() =~= ds.drop_first().push(c));
        if let Some(d) = digit_value(ds[0]) {
            if acc * 10 + d <= u64::MAX {
                lemma_fold_digits_push(ds.drop_first(), c, acc * 10 + d);
            }
        }
    } else {
        assert(ds.push(c) =~= seq![c]);
        assert(seq![c].drop_first() =~= Seq::<char>::empty());
        reveal_with_fuel(fold_digits, 2);
    }
}

/// Reading a string of digits gives the number they denote, where it fits in a
/// `u64`, and `PosOverflow` where it does not.
proof fn lemma_fold_digits_value(ds: Seq<char>)
    requires
        all_digits(ds),
    ensures
        fold_digits(ds, 0) == if digits_value(ds) <= u64::MAX {
            Ok::<int, IntErrorKind>(digits_value(ds) as int)
        } else {
            Err(IntErrorKind::PosOverflow)
        },
    decreases ds.len(),
{
    if ds.len() > 0 {
        let init = ds.drop_last();
        let c = ds.last();
        assert(digit_value(ds[ds.len() - 1]) is Some);
        assert forall|i: int| 0 <= i < init.len() implies #[trigger] digit_value(init[i]) is Some by {
            assert(init[i] == ds[i]);
        }
        lemma_fold_digits_value(init);
        assert(init.push(c) =~= ds);
        lemma_fold_digits_push(init, c, 0);
    }
}

/// The value of a decimal digit string, as `u64::from_str` computes it: a
/// string of digits, with or without one leading `+`, denotes the number its
/// digits do, and is refused as `PosOverflow` exactly where that number
/// exceeds `u64::MAX`.
pub proof fn law_parse_u64_value(ds: Seq<char>)
    requires
        ds.len() > 0,
        all_digits(ds),
    ensures
        parse_u64(ds) == if digits_value(ds) <= u64::MAX {
            Ok::<u64, IntErrorKind>(digits_value(ds) as u64)
        } else {
            Err(IntErrorKind::PosOverflow)
        },
        parse_u64(seq!['+'] + ds) == parse_u64(ds),
{
    lemma_fold_digits_value(ds);
    assert(digit_value(ds[0]) is Some);
    assert((seq!['+'] + ds).drop_first() =~= ds);
}

/// The digit character of `d` has the value `d`.
proof fn lemma_digit_char(d: nat)
    requires
        d < 10,
    ensures
        digit_value(digit_char(d)) == Some(d as int),
{
}

/// The digits of `decimal(n)` denote `n`.
proof fn lemma_decimal_value(n: nat)
    ensures
        all_digits(decimal(n)),
        decimal(n).len() > 0,
        digits_value(decimal(n)) == n,
    decreases n,
{
    lemma_digit_char(n % 10);
    if n < 10 {
        assert(decimal(n).drop_last() =~= Seq::<char>::empty());
        assert(digits_value(Seq::<char>::empty()) == 0);
        assert(decimal(n).last() == digit_char(n));
    }
    if n >= 10 {
        lemma_decimal_value(n / 10);
        let init = decimal(n / 10);
        let ds = decimal(n);
        assert(ds.drop_last() =~= init);
        assert(ds.last() == digit_char(n % 10));
        assert(digits_value(ds) == digits_value(init) * 10 + n % 10);
        assert((n / 10) * 10 + n % 10 == n);
        assert forall|i: int| 0 <= i < ds.len() implies #[trigger] digit_value(ds[i]) is Some by {
            if i < init.len() {
                assert(ds[i] == init[i]);
            }
        }
    }
}

/// Reading back any `u64` written in decimal gives that number: the sequence
/// number read from a `SEQNUM` value is the number its digits denote.
pub proof fn law_parse_u64_decimal(n: u64)
    ensures
        parse_u64(decimal(n as nat)) == Ok::<u64, IntErrorKind>(n),
{
    lemma_decimal_value(n as nat);
    law_parse_u64_value(decimal(n as nat));
}

/// The first digit of `decimal(n)` is `0` only for `n == 0`.
proof fn lemma_decimal_first(n: nat)
    ensures
        decimal(n).len() > 0,
        n > 0 ==> decimal(n)[0] != '0',
    decreases n,
{
    lemma_digit_char(n % 10);
    if n >= 10 {
        lemma_decimal_first(n / 10);
        assert(decimal(n)[0] == decimal(n / 10)[0]);
    } else if n > 0 {
        assert(digit_value(decimal(n)[0]) == Some(n as int));
    }
}

/// `decimal(n)` is how `n` is written in decimal: digits only, at least one,
/// denoting `n`, and with no leading zero unless `n` is zero itself.
pub proof fn law_decimal_canonical(n: nat)
    ensures
        decimal(n).len() > 0,
        all_digits(decimal(n)),
        digits_value(decimal(n)) == n,
        decimal(n).len() > 1 ==> decimal(n)[0] != '0',
        n == 0 ==> decimal(n) == seq!['0'],
{
    lemma_decimal_value(n);
    lemma_decimal_first(n);
    if n == 0 {
        assert(decimal(n) =~= seq!['0']);
    }
}

} // verus!
