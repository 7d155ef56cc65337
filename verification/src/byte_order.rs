//! Byte strings read as big-endian numbers.
//!
//! Hashes of one width are ordered byte by byte from the first byte on. On
//! strings of equal length that order is the order of the numbers the strings
//! spell in base 256, most significant byte first, and the contracts of this
//! crate state it that way: the order of natural numbers needs no lemma to be
//! total and transitive.

use vstd::prelude::*;

verus! {

/// The number that `s` spells in base 256, most significant byte first.
#[verifier::opaque]
pub open spec fn be_value(s: Seq<u8>) -> nat
    decreases s.len(),
{
    if s.len() == 0 {
        0
    } else {
        be_value(s.drop_last()) * 256 + s.last() as nat
    }
}

/// `len` zero bytes.
pub open spec fn zero_bytes(len: nat) -> Seq<u8> {
    Seq::new(len, |i: int| 0u8)
}

/// `len` bytes that all equal `byte`.
pub open spec fn repeated_byte(byte: u8, len: nat) -> Seq<u8> {
    Seq::new(len, |i: int| byte)
}

/// Byte `k` of `x`, counted from the least significant byte.
pub open spec fn byte_of(x: u64, k: nat) -> u8 {
    ((x >> ((8 * k) as u64)) & 0xff) as u8
}

/// `lo`, written as `len` bytes, most significant byte first; the bytes before
/// the last eight are zero.
pub open spec fn low_u64_be_bytes(lo: u64, len: nat) -> Seq<u8> {
    Seq::new(
        len,
        |i: int|
            if len - i <= 8 {
                byte_of(lo, (len - 1 - i) as nat)
            } else {
                0u8
            },
    )
}

/// Appending a byte shifts the number by one digit.
pub proof fn lemma_be_value_push(s: Seq<u8>, b: u8)
    ensures
        be_value(s.push(b)) == be_value(s) * 256 + b as nat,
{
    reveal(be_value);
    assert(s.push(b).drop_last() =~= s);
}

/// Where the prefixes of length `n` of two strings first differ at `i`, the
/// prefix with the smaller byte there spells the smaller number.
proof fn lemma_prefix_order_extends(a: Seq<u8>, b: Seq<u8>, i: int, n: int)
    requires
        a.len() == b.len(),
        0 <= i < n <= a.len(),
        forall|j: int| 0 <= j < i ==> a[j] == b[j],
        a[i] < b[i],
    ensures
        be_value(a.take(n)) < be_value(b.take(n)),
    decreases n,
{
    reveal(be_value);
    assert(a.take(n).drop_last() =~= a.take(n - 1));
    assert(b.take(n).drop_last() =~= b.take(n - 1));
    if n == i + 1 {
        assert(a.take(i) =~= b.take(i));
    } else {
        lemma_prefix_order_extends(a, b, i, n - 1);
    }
}

/// Where two strings of one length first differ, the smaller byte belongs to
/// the smaller number.
pub proof fn lemma_first_difference_decides(a: Seq<u8>, b: Seq<u8>, i: int)
    requires
        a.len() == b.len(),
        0 <= i < a.len(),
        forall|j: int| 0 <= j < i ==> a[j] == b[j],
        a[i] < b[i],
    ensures
        be_value(a) < be_value(b),
{
    lemma_prefix_order_extends(a, b, i, a.len() as int);
    assert(a.take(a.len() as int) =~= a);
    assert(b.take(b.len() as int) =~= b);
}

/// Strings of one length that spell the same number are the same string.
pub proof fn lemma_be_value_injective(a: Seq<u8>, b: Seq<u8>)
    requires
        a.len() == b.len(),
        be_value(a) == be_value(b),
    ensures
        a == b,
    decreases a.len(),
{
    reveal(be_value);
    if a.len() > 0 {
        lemma_be_value_injective(a.drop_last(), b.drop_last());
        assert(a =~= a.drop_last().push(a.last()));
        assert(b =~= b.drop_last().push(b.last()));
    } else {
        assert(a =~= b);
    }
}

/// A place at which two different strings of one length differ, with no
/// difference before it.
proof fn lemma_difference_from(a: Seq<u8>, b: Seq<u8>, k: int) -> (i: int)
    requires
        a.len() == b.len(),
        a != b,
        0 <= k <= a.len(),
        forall|j: int| 0 <= j < k ==> a[j] == b[j],
    ensures
        0 <= i < a.len(),
        forall|j: int| 0 <= j < i ==> a[j] == b[j],
        a[i] != b[i],
    decreases a.len() - k,
{
    if k == a.len() {
        assert(a =~= b);
        0
    } else if a[k] != b[k] {
        k
    } else {
        lemma_difference_from(a, b, k + 1)
    }
}

/// The order of the numbers is the lexicographic order of the strings: `a`
/// spells the smaller number exactly when, at the first place where the two
/// differ, `a` holds the smaller byte.
pub proof fn lemma_order_is_lexicographic(a: Seq<u8>, b: Seq<u8>)
    requires
        a.len() == b.len(),
    ensures
        be_value(a) < be_value(b) <==> exists|i: int|
            0 <= i < a.len() && a[i] < b[i] && forall|j: int| 0 <= j < i ==> a[j] == b[j],
{
    if be_value(a) < be_value(b) {
        let i = lemma_difference_from(a, b, 0);
        if b[i] < a[i] {
            lemma_first_difference_decides(b, a, i);
        }
        assert(0 <= i < a.len() && a[i] < b[i] && forall|j: int| 0 <= j < i ==> a[j] == b[j]);
    }
    if exists|i: int|
        0 <= i < a.len() && a[i] < b[i] && forall|j: int| 0 <= j < i ==> a[j] == b[j] {
        let i = choose|i: int|
            0 <= i < a.len() && a[i] < b[i] && forall|j: int| 0 <= j < i ==> a[j] == b[j];
        lemma_first_difference_decides(a, b, i);
    }
}

/// Zero bytes spell zero.
pub proof fn lemma_zero_bytes_value(len: nat)
    ensures
        be_value(zero_bytes(len)) == 0,
    decreases len,
{
    reveal(be_value);
    if len > 0 {
        lemma_zero_bytes_value((len - 1) as nat);
        assert(zero_bytes(len).drop_last() =~= zero_bytes((len - 1) as nat));
    }
}

/// The bytes up to the `k`-th of the last eight spell the number without its
/// lower `8 - k` bytes.
proof fn lemma_low_bytes_prefix(lo: u64, len: nat, k: nat)
    requires
        8 <= len,
        1 <= k <= 8,
    ensures
        be_value(low_u64_be_bytes(lo, len).take(len - 8 + k)) == (lo >> ((64 - 8 * k) as u64)),
    decreases k,
{
    let s = low_u64_be_bytes(lo, len);
    let m = len - 8 + k;
    let shift = (64 - 8 * k) as u64;
    let digit = s[m - 1];
    assert(s.take(m) =~= s.take(m - 1).push(digit));
    lemma_be_value_push(s.take(m - 1), digit);
    assert(digit == byte_of(lo, (8 - k) as nat));
    let low = (lo >> shift) & 0xff;
    assert(low <= 0xff) by (bit_vector)
        requires
            low == (lo >> shift) & 0xff,
    ;
    if k == 1 {
        assert(s.take(m - 1) =~= zero_bytes((len - 8) as nat));
        lemma_zero_bytes_value((len - 8) as nat);
        assert((lo >> shift) & 0xff == lo >> shift) by (bit_vector)
            requires
                shift == 56,
        ;
    } else {
        lemma_low_bytes_prefix(lo, len, (k - 1) as nat);
        let above = lo >> ((shift + 8) as u64);
        assert(above * 256 + low == lo >> shift) by (bit_vector)
            requires
                shift <= 48,
                above == lo >> ((shift + 8) as u64),
                low == (lo >> shift) & 0xff,
        ;
    }
}

/// The bytes that spell a 64-bit number spell that number, whatever the
/// width that they are written in.
pub proof fn lemma_low_u64_value(lo: u64, len: nat)
    requires
        8 <= len,
    ensures
        be_value(low_u64_be_bytes(lo, len)) == lo,
{
    lemma_low_bytes_prefix(lo, len, 8);
    assert(low_u64_be_bytes(lo, len).take(len as int) =~= low_u64_be_bytes(lo, len));
    assert(lo >> 0 == lo) by (bit_vector);
}

/// Whether two byte slices hold the same bytes.
pub(crate) fn slices_equal(a: &[u8], b: &[u8]) -> (r: bool)
    ensures
        r == (a@ == b@),
{
    if a.len() != b.len() {
        return false;
    }
    let n = a.len();
    let mut i: usize = 0;
    while i < n
        invariant
            n == a.len(),
            n == b.len(),
            i <= n,
            forall|j: int| 0 <= j < i ==> a@[j] == b@[j],
        decreases n - i,
    {
        if a[i] != b[i] {
            return false;
        }
        i += 1;
    }
    assert(a@ =~= b@);
    true
}

/// Whether `a` comes before `b`, for slices of one length: whether it spells
/// the smaller number.
pub(crate) fn slice_precedes(a: &[u8], b: &[u8]) -> (r: bool)
    requires
        a.len() == b.len(),
    ensures
        r == (be_value(a@) < be_value(b@)),
{
    let n = a.len();
    let mut i: usize = 0;
    while i < n
        invariant
            n == a.len(),
            n == b.len(),
            i <= n,
            forall|j: int| 0 <= j < i ==> a@[j] == b@[j],
        decreases n - i,
    {
        if a[i] != b[i] {
            proof {
                if a@[i as int] < b@[i as int] {
                    lemma_first_difference_decides(a@, b@, i as int);
                } else {
                    lemma_first_difference_decides(b@, a@, i as int);
                }
            }
            return a[i] < b[i];
        }
        i += 1;
    }
    assert(a@ =~= b@);
    false
}

} // verus!
