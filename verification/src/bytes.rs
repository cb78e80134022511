//! Little-endian byte strings for the wire format.
//!
//! Every integer on the wire is little-endian. `le_bytes` gives the byte
//! string that a value denotes and `le_value` reads one back; the round-trip
//! lemmas tie the two together.

use vstd::prelude::*;
use vstd::arithmetic::div_mod::{lemma_div_pos_is_pos, lemma_mod_breakdown};
use vstd::arithmetic::power::{pow, lemma_pow_positive, lemma_pow_adds};

verus! {

/// The `n`-byte little-endian form of `v` (low byte first).
pub open spec fn le_bytes(v: int, n: nat) -> Seq<u8>
    decreases n,
{
    if n == 0 {
        Seq::empty()
    } else {
        seq![(v % 256) as u8] + le_bytes(v / 256, (n - 1) as nat)
    }
}

/// The value that the little-endian byte string `s` denotes.
pub open spec fn le_value(s: Seq<u8>) -> int
    decreases s.len(),
{
    if s.len() == 0 {
        0
    } else {
        s[0] + 256 * le_value(s.drop_first())
    }
}

pub proof fn lemma_le_bytes_len(v: int, n: nat)
    ensures
        le_bytes(v, n).len() == n,
    decreases n,
{
    if n > 0 {
        lemma_le_bytes_len(v / 256, (n - 1) as nat);
    }
}

/// Reading back the little-endian form of `v` gives `v` modulo `256^n`.
pub proof fn lemma_le_round_trip(v: int, n: nat)
    requires
        0 <= v,
    ensures
        le_value(le_bytes(v, n)) == v % pow(256, n),
    decreases n,
{
    if n == 0 {
        assert(pow(256, 0) == 1) by {
            reveal(pow);
        }
    } else {
        lemma_le_bytes_len(v / 256, (n - 1) as nat);
        assert(le_bytes(v, n).drop_first() =~= le_bytes(v / 256, (n - 1) as nat));
        lemma_div_pos_is_pos(v, 256);
        lemma_le_round_trip(v / 256, (n - 1) as nat);
        lemma_pow_positive(256, (n - 1) as nat);
        lemma_mod_breakdown(v, 256, pow(256, (n - 1) as nat) as int);
        assert(pow(256, n) == 256 * pow(256, (n - 1) as nat)) by {
            lemma_pow_adds(256, 1, (n - 1) as nat);
            reveal(pow);
        }
    }
}

/// A value below `256^n` is read back exactly.
pub proof fn lemma_le_round_trip_small(v: int, n: nat)
    requires
        0 <= v < pow(256, n),
    ensures
        le_value(le_bytes(v, n)) == v,
{
    lemma_le_round_trip(v, n);
    vstd::arithmetic::div_mod::lemma_small_mod(v as nat, pow(256, n) as nat);
}

/// `le_value` is never negative, and is bounded by `256^len`.
pub proof fn lemma_le_value_bound(s: Seq<u8>)
    ensures
        0 <= le_value(s) < pow(256, s.len()),
    decreases s.len(),
{
    if s.len() == 0 {
        assert(pow(256, 0) == 1) by {
            reveal(pow);
        }
    } else {
        lemma_le_value_bound(s.drop_first());
        assert(pow(256, s.len()) == 256 * pow(256, s.drop_first().len())) by {
            lemma_pow_adds(256, 1, s.drop_first().len());
            reveal(pow);
        }
    }
}

/// Whether two byte strings hold the same bytes.
pub fn bytes_eq(a: &[u8], b: &[u8]) -> (r: bool)
    ensures
        r == (a@ == b@),
{
    if a.len() != b.len() {
        return false;
    }
    let len: usize = a.len();
    let mut i: usize = 0;
    while i < len
        invariant
            i <= len,
            len == a@.len() == b@.len(),
            forall|j: int| 0 <= j < i ==> a@[j] == b@[j],
        decreases len - i,
    {
        if a[i] != b[i] {
            return false;
        }
        i = i + 1;
    }
    proof {
        assert(a@ =~= b@);
    }
    true
}

/// `n` zero bytes.
pub open spec fn zero_bytes(n: nat) -> Seq<u8> {
    Seq::new(n, |i: int| 0u8)
}

/// Appends all of `src` to `out`.
pub fn push_bytes(out: &mut Vec<u8>, src: &[u8])
    ensures
        final(out)@ == old(out)@ + src@,
{
    let len: usize = src.len();
    let mut i: usize = 0;
    proof {
        assert(out@ =~= out@ + src@.subrange(0, 0));
    }
    while i < len
        invariant
            i <= len,
            len == src@.len(),
            out@ == old(out)@ + src@.subrange(0, i as int),
        decreases len - i,
    {
        out.push(src[i]);
        proof {
            assert(old(out)@ + src@.subrange(0, i + 1) =~= (old(out)@ + src@.subrange(0, i as int)).push(
            src@[i as int]));
        }
        i = i + 1;
    }
    proof {
        assert(src@.subrange(0, len as int) =~= src@);
    }
}

/// Appends `n` zero bytes to `out`.
pub fn push_zero(out: &mut Vec<u8>, n: usize)
    ensures
        final(out)@ == old(out)@ + zero_bytes(n as nat),
{
    let mut i: usize = 0;
    proof {
        assert(out@ =~= out@ + zero_bytes(0));
    }
    while i < n
        invariant
            i <= n,
            out@ == old(out)@ + zero_bytes(i as nat),
        decreases n - i,
    {
        out.push(0);
        proof {
            assert(old(out)@ + zero_bytes((i + 1) as nat) =~= (old(out)@ + zero_bytes(
                i as nat,
            )).push(0u8));
        }
        i = i + 1;
    }
}

/// Appends the `n`-byte little-endian form of `v` to `out`.
pub fn write_le(out: &mut Vec<u8>, v: u64, n: usize)
    requires
        n <= 8,
    ensures
        final(out)@ == old(out)@ + le_bytes(v as int, n as nat),
{
    let mut x: u64 = v;
    let mut i: usize = 0;
    proof {
        assert(le_bytes(v as int, 0) =~= Seq::<u8>::empty());
        assert(out@ =~= out@ + le_bytes(v as int, 0));
    }
    while i < n
        invariant
            i <= n,
            x == le_shifted(v as int, i as nat),
            out@ == old(out)@ + le_bytes(v as int, i as nat),
        decreases n - i,
    {
        proof {
            lemma_le_bytes_step(v as int, i as nat);
        }
        out.push((x % 256) as u8);
        x = x / 256;
        i = i + 1;
    }
}

/// `v` with its first `i` little-endian bytes dropped.
pub open spec fn le_shifted(v: int, i: nat) -> int
    decreases i,
{
    if i == 0 {
        v
    } else {
        le_shifted(v, (i - 1) as nat) / 256
    }
}

/// The first `i + 1` little-endian bytes are the first `i` plus the low byte
/// of what remains.
proof fn lemma_le_bytes_step(v: int, i: nat)
    requires
        0 <= v,
    ensures
        le_bytes(v, i + 1) =~= le_bytes(v, i) + seq![(le_shifted(v, i) % 256) as u8],
    decreases i,
{
    if i == 0 {
        assert(le_bytes(v / 256, 0) =~= Seq::<u8>::empty());
    } else {
        lemma_div_pos_is_pos(v, 256);
        lemma_le_bytes_step(v / 256, (i - 1) as nat);
        lemma_le_shifted_div(v, (i - 1) as nat);
    }
}

/// Dropping bytes commutes with dividing the value first.
proof fn lemma_le_shifted_div(v: int, i: nat)
    ensures
        le_shifted(v / 256, i) == le_shifted(v, i + 1),
    decreases i,
{
    if i == 0 {
        assert(le_shifted(v / 256, 0) == v / 256);
        assert(le_shifted(v, 1) == le_shifted(v, 0) / 256);
    } else {
        lemma_le_shifted_div(v, (i - 1) as nat);
        assert(le_shifted(v / 256, i) == le_shifted(v / 256, (i - 1) as nat) / 256);
        assert(le_shifted(v, i + 1) == le_shifted(v, ((i + 1) - 1) as nat) / 256);
    }
}

/// Reads the `n`-byte little-endian value that starts at `off` in `buf`.
pub fn read_le(buf: &[u8], off: usize, n: usize) -> (r: u64)
    requires
        n <= 8,
        off + n <= buf@.len(),
    ensures
        r == le_value(buf@.subrange(off as int, off + n)),
{
    let len: usize = buf.len();
    let mut r: u64 = 0;
    let mut i: usize = n;
    proof {
        lemma_pow256_values();
    }
    while i > 0
        invariant
            i <= n,
            n <= 8,
            off + n <= len,
            len == buf@.len(),
            r == le_value(buf@.subrange(off + i, off + n)),
            r < pow(256, (n - i) as nat),
        decreases i,
    {
        proof {
            lemma_pow256_values();
            lemma_pow_le(256, (n - i) as nat, 7);
            assert(buf@.subrange(off + i - 1, off + n).drop_first() =~= buf@.subrange(
                off + i,
                off + n,
            ));
            assert(pow(256, ((n - i) + 1) as nat) == 256 * pow(256, (n - i) as nat)) by {
                lemma_pow_adds(256, 1, (n - i) as nat);
                reveal(pow);
            }
        }
        i = i - 1;
        r = r * 256 + (buf[off + i] as u64);
    }
    proof {
        assert(buf@.subrange(off as int, off + n) =~= buf@.subrange(off + 0, off + n));
    }
    r
}

/// The powers of 256 that fit a `u64`, as literals.
pub proof fn lemma_pow256_values()
    ensures
        pow(256, 0) == 1,
        pow(256, 1) == 0x100,
        pow(256, 2) == 0x1_0000,
        pow(256, 3) == 0x100_0000,
        pow(256, 4) == 0x1_0000_0000,
        pow(256, 5) == 0x100_0000_0000,
        pow(256, 6) == 0x1_0000_0000_0000,
        pow(256, 7) == 0x100_0000_0000_0000,
        pow(256, 8) == 0x1_0000_0000_0000_0000,
{
    reveal_with_fuel(pow, 9);
}

/// `pow` with a base above one grows with the exponent.
proof fn lemma_pow_le(b: int, e1: nat, e2: nat)
    requires
        1 < b,
        e1 <= e2,
    ensures
        pow(b, e1) <= pow(b, e2),
{
    vstd::arithmetic::power::lemma_pow_increases(b as nat, e1, e2);
}

} // verus!
