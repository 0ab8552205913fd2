//! Small executable helpers over strings and options that the engines and
//! the state store share.

use vstd::prelude::*;
use vstd::utf8::encode_utf8_decode_utf8;

verus! {

/// Byte-for-byte equality of two slices.
pub fn bytes_eq(a: &[u8], b: &[u8]) -> (r: bool)
    ensures
        r == (a@ == b@),
{
    if a.len() != b.len() {
        return false;
    }
    let n = a.len();
    let mut i: usize = 0;
    while i < n
        invariant
            0 <= i <= n,
            n == a@.len() == b@.len(),
            forall|j: int| 0 <= j < i ==> a@[j] == b@[j],
        decreases n - i,
    {
        if a[i] != b[i] {
            return false;
        }
        i = i + 1;
    }
    proof {
        assert(a@ =~= b@);
    }
    true
}

/// Equality of two string slices, by their character sequences.
pub fn str_eq(a: &str, b: &str) -> (r: bool)
    ensures
        r == (a@ == b@),
{
    let r = bytes_eq(a.as_bytes(), b.as_bytes());
    proof {
        if r {
            encode_utf8_decode_utf8(a@);
            encode_utf8_decode_utf8(b@);
        }
    }
    r
}

/// A copy of an optional string, with the same character sequence.
pub fn clone_opt_string(o: &Option<String>) -> (r: Option<String>)
    ensures
        r.deep_view() == o.deep_view(),
{
    match o {
        Some(s) => Some(s.clone()),
        None => None,
    }
}

/// Lexicographic order on character sequences by scalar value — the order
/// a byte-wise comparison of their UTF-8 encodings yields, which is how the
/// listings are sorted.
pub open spec fn seq_le(a: Seq<char>, b: Seq<char>) -> bool
    decreases a.len(),
{
    if a.len() == 0 {
        true
    } else if b.len() == 0 {
        false
    } else if (a[0] as u32) != (b[0] as u32) {
        (a[0] as u32) < (b[0] as u32)
    } else {
        seq_le(a.skip(1), b.skip(1))
    }
}

/// Runtime form of [`seq_le`].
pub fn str_le(a: &str, b: &str) -> (r: bool)
    ensures
        r == seq_le(a@, b@),
{
    let an = a.unicode_len();
    let bn = b.unicode_len();
    let mut i: usize = 0;
    proof {
        assert(a@.skip(0) =~= a@);
        assert(b@.skip(0) =~= b@);
    }
    while i < an && i < bn
        invariant
            0 <= i <= an,
            0 <= i <= bn,
            an == a@.len(),
            bn == b@.len(),
            seq_le(a@, b@) == seq_le(a@.skip(i as int), b@.skip(i as int)),
        decreases an - i,
    {
        let ca = a.get_char(i);
        let cb = b.get_char(i);
        proof {
            assert(a@.skip(i as int)[0] == a@[i as int]);
            assert(b@.skip(i as int)[0] == b@[i as int]);
            assert(a@.skip(i as int).skip(1) =~= a@.skip(i + 1));
            assert(b@.skip(i as int).skip(1) =~= b@.skip(i + 1));
        }
        if ca as u32 != cb as u32 {
            return (ca as u32) < (cb as u32);
        }
        i = i + 1;
    }
    proof {
        assert(a@.skip(i as int).len() == an - i);
        assert(b@.skip(i as int).len() == bn - i);
    }
    an <= bn
}

/// The order is total: of any two character sequences, one is less than or
/// equal to the other.
pub proof fn lemma_seq_le_total(a: Seq<char>, b: Seq<char>)
    ensures
        seq_le(a, b) || seq_le(b, a),
    decreases a.len(),
{
    if a.len() > 0 && b.len() > 0 && (a[0] as u32) == (b[0] as u32) {
        lemma_seq_le_total(a.skip(1), b.skip(1));
    }
}

/// The order is transitive.
pub proof fn lemma_seq_le_trans(a: Seq<char>, b: Seq<char>, c: Seq<char>)
    requires
        seq_le(a, b),
        seq_le(b, c),
    ensures
        seq_le(a, c),
    decreases a.len(),
{
    if a.len() > 0 && b.len() > 0 && c.len() > 0 && (a[0] as u32) == (b[0] as u32) && (b[0] as u32)
        == (c[0] as u32) {
        lemma_seq_le_trans(a.skip(1), b.skip(1), c.skip(1));
    }
}

/// Whether `p` is a prefix of `a`, by their character sequences.
pub fn str_starts_with(a: &str, p: &str) -> (r: bool)
    ensures
        r == (p@.len() <= a@.len() && a@.take(p@.len() as int) == p@),
{
    let an = a.unicode_len();
    let pn = p.unicode_len();
    if pn > an {
        return false;
    }
    let mut i: usize = 0;
    while i < pn
        invariant
            0 <= i <= pn,
            pn == p@.len(),
            pn <= an == a@.len(),
            forall|j: int| 0 <= j < i ==> a@[j] == p@[j],
        decreases pn - i,
    {
        if a.get_char(i) != p.get_char(i) {
            proof {
                assert(a@.take(pn as int)[i as int] != p@[i as int]);
            }
            return false;
        }
        i = i + 1;
    }
    proof {
        assert(a@.take(pn as int) =~= p@);
    }
    true
}

} // verus!
