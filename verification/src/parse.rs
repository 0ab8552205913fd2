//! Parsing of configuration values given as text, as environment variables
//! hand them over: unsigned decimal numbers and booleans, with the exact
//! acceptance rules of the standard library's `parse` (an optional leading
//! `+`, at least one digit, and no overflow).

use vstd::prelude::*;

verus! {

/// `true` when `b` is an ASCII decimal digit.
pub open spec fn is_digit(b: u8) -> bool {
    48 <= b <= 57
}

/// Every byte of `s` is an ASCII decimal digit.
pub open spec fn all_digits(s: Seq<u8>) -> bool {
    forall|i: int| 0 <= i < s.len() ==> is_digit(#[trigger] s[i])
}

/// The number the digit string `s` denotes, read left to right.
pub open spec fn dec_value(s: Seq<u8>) -> nat
    decreases s.len(),
{
    if s.len() == 0 {
        0
    } else {
        dec_value(s.drop_last()) * 10 + (if s.last() >= 48 { (s.last() - 48) as nat } else { 0 })
    }
}

/// The digits of `s` after an optional leading `+` sign.
pub open spec fn digits_of(s: Seq<u8>) -> Seq<u8> {
    if s.len() > 0 && s[0] == 43 {
        s.skip(1)
    } else {
        s
    }
}

/// `s` is accepted as an unsigned decimal number no greater than `limit`:
/// an optional `+`, then one or more digits, denoting a value in range.
pub open spec fn accepts_decimal(s: Seq<u8>, limit: nat) -> bool {
    &&& digits_of(s).len() > 0
    &&& all_digits(digits_of(s))
    &&& dec_value(digits_of(s)) <= limit
}

/// The value of a prefix of a digit string never exceeds the value of the
/// whole string.
proof fn lemma_dec_value_prefix_le(s: Seq<u8>, k: int)
    requires
        0 <= k <= s.len(),
        all_digits(s),
    ensures
        dec_value(s.take(k)) <= dec_value(s),
    decreases s.len() - k,
{
    if k < s.len() {
        lemma_dec_value_prefix_le(s, k + 1);
        assert(s.take(k + 1).drop_last() =~= s.take(k));
        assert(dec_value(s.take(k)) <= dec_value(s.take(k + 1)));
    } else {
        assert(s.take(k) =~= s);
    }
}

/// Reads `s` as an unsigned decimal number, as `str::parse::<u64>` does on
/// the same bytes: `Some` exactly on an optional `+` followed by one or more
/// digits whose value fits in a `u64`.
pub fn parse_u64_ascii(s: &[u8]) -> (r: Option<u64>)
    ensures
        r is Some <==> accepts_decimal(s@, u64::MAX as nat),
        r is Some ==> r->0 == dec_value(digits_of(s@)),
{
    let n = s.len();
    let start: usize = if n > 0 && s[0] == 43 {
        1
    } else {
        0
    };
    if start == n {
        return None;
    }
    let mut acc: u64 = 0;
    let mut i: usize = start;
    while i < n
        invariant
            start <= i <= n,
            n == s@.len(),
            start == if n > 0 && s@[0] == 43 { 1int } else { 0int },
            digits_of(s@) =~= s@.subrange(start as int, n as int),
            all_digits(s@.subrange(start as int, i as int)),
            acc == dec_value(s@.subrange(start as int, i as int)),
        decreases n - i,
    {
        let ghost pre = s@.subrange(start as int, i as int);
        let ghost cur = s@.subrange(start as int, i + 1 as int);
        proof {
            assert(cur.drop_last() =~= pre);
            assert(cur =~= digits_of(s@).take(i + 1 - start));
        }
        let b = s[i];
        if b < 48 || b > 57 {
            assert(!is_digit(digits_of(s@)[i - start]));
            return None;
        }
        let d: u64 = (b - 48) as u64;
        if acc > (u64::MAX - d) / 10 {
            proof {
                assert(acc * 10 + d > u64::MAX) by {
                    let q = (u64::MAX - d) / 10;
                    assert(q * 10 + 10 > u64::MAX - d) by (nonlinear_arith)
                        requires
                            q == (u64::MAX - d) / 10,
                            d <= u64::MAX,
                    ;
                    assert(acc >= q + 1);
                    assert(acc * 10 >= (q + 1) * 10) by (nonlinear_arith)
                        requires
                            acc >= q + 1,
                    ;
                }
                assert(dec_value(cur) == acc * 10 + d);
                if all_digits(digits_of(s@)) {
                    lemma_dec_value_prefix_le(digits_of(s@), i + 1 - start);
                }
            }
            return None;
        }
        proof {
            assert(acc * 10 + d <= u64::MAX) by {
                let q = (u64::MAX - d) / 10;
                assert(q * 10 <= u64::MAX - d) by (nonlinear_arith)
                    requires
                        q == (u64::MAX - d) / 10,
                        d <= u64::MAX,
                ;
                assert(acc * 10 <= q * 10) by (nonlinear_arith)
                    requires
                        acc <= q,
                ;
            }
            assert(dec_value(cur) == acc * 10 + d);
        }
        acc = acc * 10 + d;
        i = i + 1;
    }
    Some(acc)
}

/// As [`parse_u64_ascii`], further rejecting values over `u32::MAX`.
pub fn parse_u32_ascii(s: &[u8]) -> (r: Option<u32>)
    ensures
        r is Some <==> accepts_decimal(s@, u32::MAX as nat),
        r is Some ==> r->0 == dec_value(digits_of(s@)),
{
    match parse_u64_ascii(s) {
        Some(v) => {
            if v <= 0xffff_ffff {
                Some(v as u32)
            } else {
                None
            }
        },
        None => None,
    }
}

/// As [`parse_u64_ascii`], further rejecting values over `u16::MAX`.
pub fn parse_u16_ascii(s: &[u8]) -> (r: Option<u16>)
    ensures
        r is Some <==> accepts_decimal(s@, u16::MAX as nat),
        r is Some ==> r->0 == dec_value(digits_of(s@)),
{
    match parse_u64_ascii(s) {
        Some(v) => {
            if v <= 0xffff {
                Some(v as u16)
            } else {
                None
            }
        },
        None => None,
    }
}

/// As [`parse_u64_ascii`], further rejecting values over `usize::MAX`.
pub fn parse_usize_ascii(s: &[u8]) -> (r: Option<usize>)
    ensures
        r is Some <==> accepts_decimal(s@, usize::MAX as nat),
        r is Some ==> r->0 == dec_value(digits_of(s@)),
{
    match parse_u64_ascii(s) {
        Some(v) => {
            if v <= usize::MAX as u64 {
                Some(v as usize)
            } else {
                None
            }
        },
        None => None,
    }
}

/// The bytes of the string `true`.
pub open spec fn true_bytes() -> Seq<u8> {
    seq![116u8, 114u8, 117u8, 101u8]
}

/// The bytes of the string `false`.
pub open spec fn false_bytes() -> Seq<u8> {
    seq![102u8, 97u8, 108u8, 115u8, 101u8]
}

/// Reads `s` as a boolean, as `str::parse::<bool>` does on the same bytes:
/// exactly the strings `true` and `false` are accepted.
pub fn parse_bool_ascii(s: &[u8]) -> (r: Option<bool>)
    ensures
        r == Some(true) <==> s@ =~= true_bytes(),
        r == Some(false) <==> s@ =~= false_bytes(),
{
    if s.len() == 4 && s[0] == 116 && s[1] == 114 && s[2] == 117 && s[3] == 101 {
        assert(s@ =~= true_bytes());
        Some(true)
    } else if s.len() == 5 && s[0] == 102 && s[1] == 97 && s[2] == 108 && s[3] == 115 && s[4]
        == 101 {
        assert(s@ =~= false_bytes());
        Some(false)
    } else {
        assert(!(s@ =~= true_bytes()));
        assert(!(s@ =~= false_bytes()));
        None
    }
}

} // verus!
