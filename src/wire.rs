//! Little-endian integers of one to eight bytes.
use vstd::prelude::*;
use vstd::arithmetic::div_mod::{lemma_fundamental_div_mod, lemma_small_mod, lemma_mod_add_multiples_vanish};

verus! {

/// 256 to the power `k`.
pub open spec fn p256(k: nat) -> int
    decreases k,
{
    if k == 0 {
        1
    } else {
        256 * p256((k - 1) as nat)
    }
}

/// The `k` least significant bytes of `n`, least significant first.
pub open spec fn le(n: int, k: nat) -> Seq<u8>
    decreases k,
{
    if k == 0 {
        Seq::empty()
    } else {
        seq![(n % 256) as u8] + le(n / 256, (k - 1) as nat)
    }
}

/// The unsigned integer whose little-endian bytes are `s`.
pub open spec fn from_le(s: Seq<u8>) -> int
    decreases s.len(),
{
    if s.len() == 0 {
        0
    } else {
        s[0] as int + 256 * from_le(s.drop_first())
    }
}

/// The two's-complement value of the `k`-byte unsigned integer `u`.
pub open spec fn signed(u: int, k: nat) -> int {
    if u < p256(k) / 2 {
        u
    } else {
        u - p256(k)
    }
}

/// The `k` bytes that hold `x` in two's complement, least significant first.
pub open spec fn le_int(x: int, k: nat) -> Seq<u8> {
    le(x % p256(k), k)
}

pub proof fn lemma_p256_values()
    ensures
        p256(0) == 1,
        p256(1) == 256,
        p256(2) == 0x1_0000,
        p256(3) == 0x100_0000,
        p256(4) == 0x1_0000_0000,
        p256(5) == 0x100_0000_0000,
        p256(6) == 0x1_0000_0000_0000,
        p256(7) == 0x100_0000_0000_0000,
        p256(8) == 0x1_0000_0000_0000_0000,
{
    assert(p256(0) == 1);
    assert(p256(1) == 256);
    assert(p256(2) == 0x1_0000);
    assert(p256(3) == 0x100_0000);
    assert(p256(4) == 0x1_0000_0000);
    assert(p256(5) == 0x100_0000_0000);
    assert(p256(6) == 0x1_0000_0000_0000);
    assert(p256(7) == 0x100_0000_0000_0000);
    assert(p256(8) == 0x1_0000_0000_0000_0000);
}

pub proof fn lemma_le_len(n: int, k: nat)
    ensures
        #[trigger] le(n, k).len() == k,
    decreases k,
{
    if k > 0 {
        lemma_le_len(n / 256, (k - 1) as nat);
    }
}

pub proof fn lemma_from_le_bound(s: Seq<u8>)
    ensures
        0 <= from_le(s) < p256(s.len()),
    decreases s.len(),
{
    if s.len() > 0 {
        lemma_from_le_bound(s.drop_first());
    }
}

/// Reading back `k` bytes written from `n` gives `n`, when it fits.
pub proof fn lemma_from_le_le(n: int, k: nat)
    requires
        0 <= n < p256(k),
    ensures
        from_le(le(n, k)) == n,
    decreases k,
{
    if k > 0 {
        lemma_fundamental_div_mod(n, 256);
        assert(0 <= n / 256 < p256((k - 1) as nat));
        lemma_from_le_le(n / 256, (k - 1) as nat);
        let s = le(n, k);
        assert(s.drop_first() =~= le(n / 256, (k - 1) as nat));
    }
}

/// Reading back a two's-complement integer gives it back.
pub proof fn lemma_signed_le_int(x: int, k: nat)
    requires
        1 <= k,
        -(p256(k) / 2) <= x < p256(k) / 2,
    ensures
        signed(from_le(le_int(x, k)), k) == x,
{
    let m = p256(k);
    assert(m >= 256) by {
        assert(p256(k) == 256 * p256((k - 1) as nat));
        lemma_p256_pos((k - 1) as nat);
    }
    if x >= 0 {
        lemma_small_mod(x as nat, m as nat);
    } else {
        lemma_mod_add_multiples_vanish(x, m);
        lemma_small_mod((x + m) as nat, m as nat);
    }
    lemma_from_le_le(x % m, k);
}

pub proof fn lemma_p256_pos(k: nat)
    ensures
        p256(k) >= 1,
    decreases k,
{
    if k > 0 {
        lemma_p256_pos((k - 1) as nat);
    }
}

/// Append the `k` least significant bytes of `n`, least significant first.
pub fn push_le(buf: &mut Vec<u8>, n: u64, k: usize)
    ensures
        final(buf)@ == old(buf)@ + le(n as int, k as nat),
    decreases k,
{
    if k == 0 {
        assert(old(buf)@ + le(n as int, 0) =~= old(buf)@);
    } else {
        buf.push((n % 256) as u8);
        push_le(buf, n / 256, k - 1);
        assert(final(buf)@ =~= old(buf)@ + le(n as int, k as nat));
    }
}

/// Append `x` as a `k`-byte two's-complement integer, least significant byte first.
pub fn push_int(buf: &mut Vec<u8>, x: i128, k: usize)
    requires
        1 <= k <= 8,
        -p256(k as nat) < x < p256(k as nat),
    ensures
        final(buf)@ == old(buf)@ + le_int(x as int, k as nat),
{
    proof {
        lemma_p256_values();
        lemma_p256_mono(k as nat, 8);
    }
    let m = pow256(k);
    let u: u64 = if x >= 0 {
        proof {
            lemma_small_mod(x as nat, m as nat);
        }
        x as u64
    } else {
        proof {
            lemma_mod_add_multiples_vanish(x as int, m as int);
            lemma_small_mod((x + m) as nat, m as nat);
        }
        (x + m as i128) as u64
    };
    push_le(buf, u, k);
}

pub proof fn lemma_p256_mono(a: nat, b: nat)
    requires
        a <= b,
    ensures
        p256(a) <= p256(b),
    decreases b,
{
    if a < b {
        lemma_p256_mono(a, (b - 1) as nat);
        lemma_p256_pos((b - 1) as nat);
    }
}

/// 256 to the power `k`, for `k` up to 8.
pub fn pow256(k: usize) -> (r: u128)
    requires
        k <= 8,
    ensures
        r == p256(k as nat),
    decreases k,
{
    proof {
        lemma_p256_values();
        lemma_p256_mono(k as nat, 8);
    }
    if k == 0 {
        1
    } else {
        let r = pow256(k - 1);
        proof {
            lemma_p256_mono((k - 1) as nat, 7);
        }
        256 * r
    }
}

/// The unsigned integer held little-endian in `b[pos..pos + k]`.
pub fn read_le(b: &[u8], pos: usize, k: usize) -> (r: u64)
    requires
        k <= 8,
        pos + k <= b@.len(),
    ensures
        r == from_le(b@.subrange(pos as int, pos + k)),
    decreases k,
{
    if k == 0 {
        0
    } else {
        // the slice's length, and so pos + k, fits in usize
        let _len = b.len();
        let rest = read_le(b, pos + 1, k - 1);
        proof {
            let s = b@.subrange(pos as int, pos + k);
            assert(s.drop_first() =~= b@.subrange(pos + 1, pos + k));
            lemma_from_le_bound(b@.subrange(pos + 1, pos + k));
            lemma_p256_values();
            lemma_p256_mono((k - 1) as nat, 7);
        }
        b[pos] as u64 + 256 * rest
    }
}

/// The two's-complement integer held little-endian in `b[pos..pos + k]`.
pub fn read_int(b: &[u8], pos: usize, k: usize) -> (r: i128)
    requires
        1 <= k <= 8,
        pos + k <= b@.len(),
    ensures
        r == signed(from_le(b@.subrange(pos as int, pos + k)), k as nat),
        -(p256(k as nat) / 2) <= r < p256(k as nat) / 2,
{
    let u = read_le(b, pos, k);
    proof {
        lemma_p256_values();
        lemma_p256_mono(k as nat, 8);
        lemma_from_le_bound(b@.subrange(pos as int, pos + k));
    }
    let m = pow256(k);
    if (u as u128) < m / 2 {
        u as i128
    } else {
        u as i128 - m as i128
    }
}

} // verus!
