//! Fixed-width integers as byte strings, in both byte orders.

use vstd::prelude::*;

verus! {

/// The number that `s` spells with its most significant byte first.
pub open spec fn be_nat(s: Seq<u8>) -> nat
    decreases s.len(),
{
    if s.len() == 0 {
        0
    } else {
        be_nat(s.drop_last()) * 256 + s.last() as nat
    }
}

/// The number that `s` spells with its least significant byte first.
pub open spec fn le_nat(s: Seq<u8>) -> nat
    decreases s.len(),
{
    if s.len() == 0 {
        0
    } else {
        s[0] as nat + 256 * le_nat(s.drop_first())
    }
}

/// The `k` bytes of `n`, least significant first.
pub open spec fn le_bytes(n: nat, k: nat) -> Seq<u8>
    decreases k,
{
    if k == 0 {
        Seq::empty()
    } else {
        seq![(n % 256) as u8] + le_bytes(n / 256, (k - 1) as nat)
    }
}

/// The `k` bytes of `n`, most significant first.
pub open spec fn be_bytes(n: nat, k: nat) -> Seq<u8>
    decreases k,
{
    if k == 0 {
        Seq::empty()
    } else {
        be_bytes(n / 256, (k - 1) as nat).push((n % 256) as u8)
    }
}

/// `256` to the power `k`.
pub open spec fn pow256(k: nat) -> nat
    decreases k,
{
    if k == 0 {
        1
    } else {
        256 * pow256((k - 1) as nat)
    }
}

/// The two's-complement reading of a 32-bit pattern.
pub open spec fn as_i32(n: nat) -> int {
    if n < 0x8000_0000 {
        n as int
    } else {
        n - 0x1_0000_0000
    }
}

/// The two's-complement reading of a 64-bit pattern.
pub open spec fn as_i64(n: nat) -> int {
    if n < 0x8000_0000_0000_0000 {
        n as int
    } else {
        n - 0x1_0000_0000_0000_0000
    }
}

/// The two's-complement reading of a 16-bit pattern.
pub open spec fn as_i16(n: nat) -> int {
    if n < 0x8000 {
        n as int
    } else {
        n - 0x1_0000
    }
}

/// The 64-bit pattern of a signed number.
pub open spec fn pattern64(v: int) -> nat {
    if v < 0 {
        (v + 0x1_0000_0000_0000_0000) as nat
    } else {
        v as nat
    }
}

/// A byte string of length `k` spells a number below `256^k`.
pub proof fn lemma_be_nat_bound(s: Seq<u8>)
    ensures
        be_nat(s) < pow256(s.len()),
    decreases s.len(),
{
    if s.len() > 0 {
        lemma_be_nat_bound(s.drop_last());
    }
}

/// A byte string of length `k` spells a number below `256^k`.
pub proof fn lemma_le_nat_bound(s: Seq<u8>)
    ensures
        le_nat(s) < pow256(s.len()),
    decreases s.len(),
{
    if s.len() > 0 {
        lemma_le_nat_bound(s.drop_first());
    }
}

/// Reading back the little-endian bytes of a number gives the number.
pub proof fn le_round_trip(n: nat, k: nat)
    requires
        n < pow256(k),
    ensures
        le_bytes(n, k).len() == k,
        le_nat(le_bytes(n, k)) == n,
    decreases k,
{
    if k > 0 {
        le_round_trip(n / 256, (k - 1) as nat);
        assert(le_bytes(n, k).drop_first() =~= le_bytes(n / 256, (k - 1) as nat));
    }
}

/// Reading back the big-endian bytes of a number gives the number.
pub proof fn be_round_trip(n: nat, k: nat)
    requires
        n < pow256(k),
    ensures
        be_bytes(n, k).len() == k,
        be_nat(be_bytes(n, k)) == n,
    decreases k,
{
    if k > 0 {
        be_round_trip(n / 256, (k - 1) as nat);
        assert(be_bytes(n, k).drop_last() =~= be_bytes(n / 256, (k - 1) as nat));
    }
}

pub proof fn lemma_pow256()
    ensures
        pow256(1) == 0x100,
        pow256(2) == 0x1_0000,
        pow256(4) == 0x1_0000_0000,
        pow256(8) == 0x1_0000_0000_0000_0000,
{
    reveal_with_fuel(pow256, 9);
}

proof fn lemma_pow256_mono(a: nat, b: nat)
    requires
        a <= b,
    ensures
        pow256(a) <= pow256(b),
    decreases b,
{
    if a < b {
        lemma_pow256_mono(a, (b - 1) as nat);
    }
}

/// The big-endian number in the `k` bytes of `buf` from `at` on.
pub fn read_be(buf: &[u8], at: usize, k: usize) -> (v: u64)
    requires
        k <= 8,
        at + k <= buf@.len(),
    ensures
        v == be_nat(buf@.subrange(at as int, at + k)),
        v < pow256(k as nat),
{
    let len: usize = buf.len();
    let mut v: u64 = 0;
    let mut i: usize = 0;
    while i < k
        invariant
            i <= k <= 8,
            at + k <= len == buf@.len(),
            v == be_nat(buf@.subrange(at as int, at + i)),
        decreases k - i,
    {
        proof {
            let s = buf@.subrange(at as int, at + i);
            lemma_be_nat_bound(s);
            lemma_pow256_mono(i as nat, 7);
            reveal_with_fuel(pow256, 9);
            assert(buf@.subrange(at as int, at + i + 1).drop_last() =~= s);
        }
        v = v * 256 + buf[at + i] as u64;
        i += 1;
    }
    proof {
        lemma_be_nat_bound(buf@.subrange(at as int, at + k));
    }
    v
}

/// The little-endian number in the `k` bytes of `buf` from `at` on.
pub fn read_le(buf: &[u8], at: usize, k: usize) -> (v: u64)
    requires
        k <= 8,
        at + k <= buf@.len(),
    ensures
        v == le_nat(buf@.subrange(at as int, at + k)),
        v < pow256(k as nat),
{
    let len: usize = buf.len();
    let mut v: u64 = 0;
    let mut i: usize = k;
    while i > 0
        invariant
            i <= k <= 8,
            at + k <= len == buf@.len(),
            v == le_nat(buf@.subrange(at + i, at + k)),
        decreases i,
    {
        proof {
            let s = buf@.subrange(at + i, at + k);
            lemma_le_nat_bound(s);
            lemma_pow256_mono((k - i) as nat, 7);
            reveal_with_fuel(pow256, 9);
            assert(buf@.subrange(at + i - 1, at + k).drop_first() =~= s);
        }
        i -= 1;
        v = buf[at + i] as u64 + 256 * v;
    }
    proof {
        lemma_le_nat_bound(buf@.subrange(at as int, at + k));
    }
    v
}

/// Appends the `k` little-endian bytes of `v`.
pub fn push_le(out: &mut Vec<u8>, v: u64, k: usize)
    ensures
        final(out)@ == old(out)@ + le_bytes(v as nat, k as nat),
    decreases k,
{
    if k > 0 {
        out.push((v % 256) as u8);
        push_le(out, v / 256, k - 1);
        assert(out@ =~= old(out)@ + le_bytes(v as nat, k as nat));
    } else {
        assert(out@ =~= old(out)@ + le_bytes(v as nat, k as nat));
    }
}

/// Appends the `k` big-endian bytes of `v`.
pub fn push_be(out: &mut Vec<u8>, v: u64, k: usize)
    ensures
        final(out)@ == old(out)@ + be_bytes(v as nat, k as nat),
    decreases k,
{
    if k > 0 {
        push_be(out, v / 256, k - 1);
        out.push((v % 256) as u8);
        assert(out@ =~= old(out)@ + be_bytes(v as nat, k as nat));
    } else {
        assert(out@ =~= old(out)@ + be_bytes(v as nat, k as nat));
    }
}

/// The 32-bit pattern `v`, read as a signed number.
pub fn to_i32(v: u64) -> (r: i32)
    requires
        v < 0x1_0000_0000,
    ensures
        r == as_i32(v as nat),
{
    if v < 0x8000_0000 {
        v as i32
    } else {
        (v as i64 - 0x1_0000_0000) as i32
    }
}

/// The 16-bit pattern `v`, read as a signed number.
pub fn to_i16(v: u64) -> (r: i16)
    requires
        v < 0x1_0000,
    ensures
        r == as_i16(v as nat),
{
    if v < 0x8000 {
        v as i16
    } else {
        (v as i32 - 0x1_0000) as i16
    }
}

/// The 64-bit pattern `v`, read as a signed number.
pub fn to_i64(v: u64) -> (r: i64)
    ensures
        r == as_i64(v as nat),
{
    if v < 0x8000_0000_0000_0000 {
        v as i64
    } else {
        (v as i128 - 0x1_0000_0000_0000_0000) as i64
    }
}

/// The 64-bit pattern of a signed number.
pub fn to_pattern64(v: i64) -> (r: u64)
    ensures
        r == pattern64(v as int),
{
    if v < 0 {
        (v as i128 + 0x1_0000_0000_0000_0000) as u64
    } else {
        v as u64
    }
}

/// Appends all of `s`.
pub fn push_all(out: &mut Vec<u8>, s: &[u8])
    ensures
        final(out)@ == old(out)@ + s@,
{
    let mut i: usize = 0;
    while i < s.len()
        invariant
            i <= s@.len(),
            out@ == old(out)@ + s@.take(i as int),
        decreases s.len() - i,
    {
        out.push(s[i]);
        i += 1;
        assert(out@ =~= old(out)@ + s@.take(i as int));
    }
    assert(s@.take(i as int) =~= s@);
}

/// The position of the first zero byte at or after `from`, if any.
pub open spec fn nul_at(s: Seq<u8>, from: int) -> Option<int>
    decreases s.len() - from,
{
    if from >= s.len() {
        None
    } else if s[from] == 0 {
        Some(from)
    } else {
        nul_at(s, from + 1)
    }
}

/// A zero byte is found within bounds, and it is a zero byte.
pub proof fn lemma_nul_at(s: Seq<u8>, from: int)
    requires
        0 <= from,
    ensures
        nul_at(s, from) matches Some(e) ==> from <= e < s.len() && s[e] == 0,
    decreases s.len() - from,
{
    if from < s.len() && s[from] != 0 {
        lemma_nul_at(s, from + 1);
    }
}

/// The position of the first zero byte at or after `from`, if any.
pub fn find_nul(s: &[u8], from: usize) -> (r: Option<usize>)
    requires
        from <= s@.len(),
    ensures
        r is Some <==> nul_at(s@, from as int) is Some,
        r matches Some(p) ==> Some(p as int) == nul_at(s@, from as int) && from <= p < s@.len()
            && p < usize::MAX,
{
    let mut i: usize = from;
    while i < s.len()
        invariant
            from <= i <= s@.len(),
            nul_at(s@, i as int) == nul_at(s@, from as int),
        decreases s.len() - i,
    {
        if s[i] == 0 {
            return Some(i);
        }
        i += 1;
    }
    None
}

} // verus!
