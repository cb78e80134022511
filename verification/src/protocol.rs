//! Wire format constants and the packet codec.
//!
//! The payload sequence framing packs the sequence number and its own length
//! into one little-endian byte group: the group holds `2*seq + 1` shifted
//! left by one bit per extra byte, so the position of the lowest set bit of
//! the first byte announces the group's length. Sequences of more than 56
//! bits use a nine-byte escape: a zero byte, then the full eight-byte value.

use vstd::prelude::*;
use vstd::arithmetic::power::{pow, lemma_pow_adds, lemma_pow_positive, lemma_pow_multiplies};
use crate::bytes::{le_bytes, le_value, lemma_le_bytes_len, lemma_le_round_trip_small,
    lemma_le_value_bound, lemma_pow256_values, push_bytes, push_zero, read_le, write_le,
    zero_bytes};
use crate::crypto::{aead_open, aead_seal, sealed_of};

verus! {

/// The four version magic bytes, `"ONI\0"`.
pub open spec fn spec_version() -> Seq<u8> {
    seq![0x4Fu8, 0x4Eu8, 0x49u8, 0u8]
}

/// The version magic as a buffer.
pub fn version_bytes() -> (r: Vec<u8>)
    ensures
        r@ == spec_version(),
{
    let mut v: Vec<u8> = Vec::new();
    v.push(0x4F);
    v.push(0x4E);
    v.push(0x49);
    v.push(0);
    proof {
        assert(v@ =~= spec_version());
    }
    v
}

/// Protocol version magic.
pub const VERSION_LEN: usize = 4;

/// Maximum transmission unit: every datagram fits this.
pub const MTU: usize = 1200;

/// Nominal header size in bytes (prefix plus a short sequence).
pub const HEADER: usize = 4;

/// Nominal per-packet overhead in bytes.
pub const OVERHEAD: usize = 20;

/// Longest payload that a packet can carry.
pub const MAX_PAYLOAD: usize = 1180;

/// Shortest packet that can possibly decode: prefix, one sequence byte, tag.
pub const MIN_PACKET_BYTES: usize = 18;

/// Length of a sealed challenge packet body with its overhead.
pub const CHALLENGE_PACKET_BYTES: usize = 308;

/// Close packets sent on a graceful close, best effort.
pub const NUM_DISCONNECT_PACKETS: usize = 10;

/// Packets per second that an idle connection keeps sending.
pub const PACKET_SEND_RATE: u64 = 10;

/// Milliseconds between keep-alives: `1000 / PACKET_SEND_RATE`.
pub const PACKET_SEND_DELTA: u64 = 100;

/// How many bits it takes to write `v` (one for zero).
pub open spec fn spec_bit_len(v: u64) -> u32
    decreases v,
{
    if v < 2 {
        1
    } else {
        (1 + spec_bit_len(v / 2)) as u32
    }
}

/// How many whole bytes it takes to write `v` (one for zero).
pub open spec fn spec_sequence_bytes(v: u64) -> u32
    decreases v,
{
    if v < 0x100 {
        1
    } else {
        (1 + spec_sequence_bytes(v / 256)) as u32
    }
}

proof fn lemma_bit_len_le(v: u64, k: nat)
    requires
        1 <= k,
        v < pow(2, k),
    ensures
        spec_bit_len(v) <= k,
    decreases v,
{
    if v >= 2 {
        assert(pow(2, k) == 2 * pow(2, (k - 1) as nat)) by {
            lemma_pow_adds(2, 1, (k - 1) as nat);
            reveal_with_fuel(pow, 2);
        }
        assert(1 <= (k - 1) as nat) by {
            reveal_with_fuel(pow, 2);
        }
        lemma_bit_len_le(v / 2, (k - 1) as nat);
    }
}

proof fn lemma_bit_len_bounds(v: u64)
    ensures
        1 <= spec_bit_len(v) <= 64,
        v < pow(2, spec_bit_len(v) as nat),
    decreases v,
{
    lemma_pow2_values();
    lemma_bit_len_le(v, 64);
    if v < 2 {
        assert(pow(2, 1) == 2) by {
            reveal_with_fuel(pow, 2);
        }
    } else {
        lemma_bit_len_bounds(v / 2);
        let b = spec_bit_len(v / 2);
        assert(pow(2, (b + 1) as nat) == 2 * pow(2, b as nat)) by {
            lemma_pow_adds(2, 1, b as nat);
            reveal_with_fuel(pow, 2);
        }
    }
}

proof fn lemma_sequence_bytes_le(v: u64, k: nat)
    requires
        1 <= k,
        v < pow(256, k),
    ensures
        spec_sequence_bytes(v) <= k,
    decreases v,
{
    if v >= 0x100 {
        assert(pow(256, k) == 256 * pow(256, (k - 1) as nat)) by {
            lemma_pow_adds(256, 1, (k - 1) as nat);
            reveal_with_fuel(pow, 2);
        }
        assert(1 <= (k - 1) as nat) by {
            reveal_with_fuel(pow, 2);
        }
        lemma_sequence_bytes_le(v / 256, (k - 1) as nat);
    }
}

pub proof fn lemma_sequence_bytes_bounds(v: u64)
    ensures
        1 <= spec_sequence_bytes(v) <= 8,
        v < pow(256, spec_sequence_bytes(v) as nat),
    decreases v,
{
    lemma_pow256_values();
    lemma_sequence_bytes_le(v, 8);
    if v < 0x100 {
    } else {
        lemma_sequence_bytes_bounds(v / 256);
        let b = spec_sequence_bytes(v / 256);
        assert(pow(256, (b + 1) as nat) == 256 * pow(256, b as nat)) by {
            lemma_pow_adds(256, 1, b as nat);
            reveal_with_fuel(pow, 2);
        }
    }
}

/// Bits needed for `v`, counted at run time.
pub fn bit_len(v: u64) -> (r: u32)
    ensures
        r == spec_bit_len(v),
        1 <= r <= 64,
{
    proof {
        lemma_bit_len_bounds(v);
    }
    let mut x: u64 = v;
    let mut r: u32 = 1;
    while x >= 2
        invariant
            1 <= r <= 64,
            spec_bit_len(v) == r + spec_bit_len(x) - 1,
            spec_bit_len(x) <= 65 - r,
        decreases x,
    {
        proof {
            lemma_bit_len_bounds(x / 2);
        }
        x = x / 2;
        r = r + 1;
    }
    r
}

/// Bytes needed for the compact sequence form of `sequence` (1..=8), as the
/// handshake and close prefixes count them.
pub fn sequence_bytes_required(sequence: u64) -> (r: u32)
    ensures
        r == spec_sequence_bytes(sequence),
        1 <= r <= 8,
{
    proof {
        lemma_sequence_bytes_bounds(sequence);
    }
    let mut x: u64 = sequence;
    let mut r: u32 = 1;
    while x >= 0x100
        invariant
            1 <= r <= 8,
            spec_sequence_bytes(sequence) == r + spec_sequence_bytes(x) - 1,
            spec_sequence_bytes(x) <= 9 - r,
        decreases x,
    {
        proof {
            lemma_sequence_bytes_bounds(x / 256);
        }
        x = x / 256;
        r = r + 1;
    }
    r
}

/// `2^e` as a machine word.
pub fn pow2_u64(e: u32) -> (r: u64)
    requires
        e < 64,
    ensures
        r == pow(2, e as nat),
{
    proof {
        lemma_pow2_values();
    }
    let mut r: u64 = 1;
    let mut i: u32 = 0;
    while i < e
        invariant
            i <= e,
            e < 64,
            r == pow(2, i as nat),
        decreases e - i,
    {
        proof {
            vstd::arithmetic::power::lemma_pow_increases(2, i as nat, 62);
            lemma_pow_adds(2, i as nat, 1);
            reveal_with_fuel(pow, 2);
            lemma_pow2_values();
            assert(pow(2, 62) < 0x8000_0000_0000_0000) by {
                reveal_with_fuel(pow, 65);
            }
        }
        r = r * 2;
        i = i + 1;
    }
    r
}

/// Length in bytes of the payload sequence framing for `seq`: one byte per
/// seven bits, at least two, or the nine-byte escape.
pub open spec fn payload_header_len(seq: u64) -> int {
    if spec_bit_len(seq) > 56 {
        9
    } else if spec_bit_len(seq) < 14 {
        2
    } else {
        (spec_bit_len(seq) + 6) as int / 7
    }
}

/// The payload sequence framing bytes for `seq`.
pub open spec fn payload_header(seq: u64) -> Seq<u8> {
    if spec_bit_len(seq) > 56 {
        seq![0u8] + le_bytes(seq as int, 8)
    } else {
        le_bytes(
            (2 * seq + 1) * pow(2, (payload_header_len(seq) - 1) as nat),
            payload_header_len(seq) as nat,
        )
    }
}

/// The framing is as long as it says it is.
pub proof fn lemma_payload_header_len_is(seq: u64)
    ensures
        payload_header(seq).len() == payload_header_len(seq),
        2 <= payload_header_len(seq) <= 9,
{
    lemma_bit_len_bounds(seq);
    if spec_bit_len(seq) > 56 {
        lemma_le_bytes_len(seq as int, 8);
    } else {
        lemma_payload_header_fits(seq);
        lemma_le_bytes_len(
            (2 * seq + 1) * pow(2, (payload_header_len(seq) - 1) as nat),
            payload_header_len(seq) as nat,
        );
    }
}

/// The framing never exceeds its own byte budget: the group value fits its
/// group, because a sequence of `b` bits framed in `n` bytes has `b <= 7n`.
proof fn lemma_payload_header_fits(seq: u64)
    requires
        spec_bit_len(seq) <= 56,
    ensures
        2 <= payload_header_len(seq) <= 8,
        0 <= (2 * seq + 1) * pow(2, (payload_header_len(seq) - 1) as nat) < pow(
            256,
            payload_header_len(seq) as nat,
        ),
{
    let bl = spec_bit_len(seq) as int;
    let n = payload_header_len(seq);
    lemma_bit_len_bounds(seq);
    assert(2 <= n <= 8);
    assert(bl <= 7 * n);
    let x = (2 * seq + 1) as int;
    assert(x < pow(2, (bl + 1) as nat)) by {
        lemma_pow_adds(2, bl as nat, 1);
        reveal_with_fuel(pow, 2);
    }
    assert(pow(2, (bl + 1) as nat) * pow(2, (n - 1) as nat) == pow(2, (bl + n) as nat)) by {
        lemma_pow_adds(2, (bl + 1) as nat, (n - 1) as nat);
    }
    lemma_pow_positive(2, (n - 1) as nat);
    assert(x * pow(2, (n - 1) as nat) < pow(2, (bl + 1) as nat) * pow(2, (n - 1) as nat)) by {
        vstd::arithmetic::mul::lemma_mul_strict_inequality(
            x,
            pow(2, (bl + 1) as nat),
            pow(2, (n - 1) as nat),
        );
        vstd::arithmetic::mul::lemma_mul_is_commutative(x, pow(2, (n - 1) as nat));
        vstd::arithmetic::mul::lemma_mul_is_commutative(
            pow(2, (bl + 1) as nat),
            pow(2, (n - 1) as nat),
        );
    }
    assert(pow(2, (bl + n) as nat) <= pow(2, (8 * n) as nat)) by {
        vstd::arithmetic::power::lemma_pow_increases(2, (bl + n) as nat, (8 * n) as nat);
    }
    assert(pow(2, (8 * n) as nat) == pow(256, n as nat)) by {
        lemma_pow_multiplies(2, 8, n as nat);
        assert(pow(2, 8) == 256) by {
            reveal_with_fuel(pow, 9);
        }
    }
    vstd::arithmetic::mul::lemma_mul_nonnegative(x, pow(2, (n - 1) as nat));
}

/// Appends the payload sequence framing for `seq` to `out`.
pub fn encode_sequence(out: &mut Vec<u8>, seq: u64)
    ensures
        final(out)@ == old(out)@ + payload_header(seq),
        final(out)@.len() == old(out)@.len() + payload_header_len(seq),
{
    let bl = bit_len(seq);
    proof {
        lemma_bit_len_bounds(seq);
        lemma_pow2_values();
    }
    if bl > 56 {
        out.push(0u8);
        write_le(out, seq, 8);
        proof {
            lemma_le_bytes_len(seq as int, 8);
            assert(out@ =~= old(out)@ + payload_header(seq));
        }
    } else {
        let bits: u32 = if bl < 14 {
            14
        } else {
            bl
        };
        let n: u32 = 1 + (bits - 1) / 7;
        proof {
            lemma_payload_header_fits(seq);
            assert(n == payload_header_len(seq));
            assert(seq < 0x100_0000_0000_0000) by {
                vstd::arithmetic::power::lemma_pow_increases(2, spec_bit_len(seq) as nat, 56);
            }
        }
        let p = pow2_u64(n - 1);
        proof {
            lemma_pow256_values();
            assert(p <= 0x80) by {
                vstd::arithmetic::power::lemma_pow_increases(2, (n - 1) as nat, 7);
            }
            vstd::arithmetic::mul::lemma_mul_upper_bound(
                (2 * seq + 1) as int,
                0x1FF_FFFF_FFFF_FFFF,
                p as int,
                0x80,
            );
        }
        let x = (2 * seq + 1) * p;
        write_le(out, x, n as usize);
        proof {
            lemma_le_bytes_len(x as int, n as nat);
        }
    }
}

/// Trailing zero bits of one byte (eight for zero).
pub open spec fn spec_tz(b: u8) -> int
    decreases b,
{
    if b == 0 {
        8
    } else if b % 2 == 1 {
        0
    } else {
        1 + spec_tz(b / 2)
    }
}

proof fn lemma_tz_bounds(b: u8)
    ensures
        0 <= spec_tz(b) <= 8,
        b != 0 ==> spec_tz(b) <= 7 && pow(2, spec_tz(b) as nat) <= b,
    decreases b,
{
    if b == 0 {
    } else if b % 2 == 1 {
        assert(pow(2, 0) == 1) by {
            reveal_with_fuel(pow, 1);
        }
    } else {
        lemma_tz_bounds(b / 2);
        let t = spec_tz(b / 2);
        assert(pow(2, (t + 1) as nat) == 2 * pow(2, t as nat)) by {
            lemma_pow_adds(2, 1, t as nat);
            reveal_with_fuel(pow, 2);
        }
        assert(spec_tz(b) <= 7) by {
            if t == 7 {
                assert(pow(2, 7) == 128) by {
                    reveal_with_fuel(pow, 8);
                }
            }
        }
    }
}

/// Trailing zero bits of one byte, counted at run time.
fn byte_tz(b: u8) -> (r: u8)
    ensures
        r == spec_tz(b),
        r <= 8,
{
    proof {
        lemma_tz_bounds(b);
    }
    if b == 0 {
        return 8;
    }
    let mut x: u8 = b;
    let mut r: u8 = 0;
    while x != 0 && x % 2 == 0
        invariant
            spec_tz(b) == r + spec_tz(x),
            spec_tz(b) <= 8,
            0 <= spec_tz(x),
            r <= 8,
        decreases x,
    {
        proof {
            lemma_tz_bounds(x / 2);
        }
        x = x / 2;
        r = r + 1;
    }
    r
}

/// What the payload sequence framing at the head of `b` denotes, with its
/// length, or nothing where the head is no such framing.
pub open spec fn spec_decode_sequence(b: Seq<u8>) -> Option<(u64, int)> {
    if b.len() < 1 || b[0] % 2 == 1 {
        None
    } else {
        let z = spec_tz(b[0]) + 1;
        if z == 9 {
            if b.len() >= 9 {
                Some((le_value(b.subrange(1, 9)) as u64, 9))
            } else {
                None
            }
        } else {
            if b.len() >= z {
                Some(((le_value(b.subrange(0, z)) / pow(2, z as nat)) as u64, z))
            } else {
                None
            }
        }
    }
}

/// An odd value times `2^j` has exactly `j` trailing zero bits.
proof fn lemma_tz_of_shifted_odd(m: int, j: nat)
    requires
        0 <= j <= 7,
        1 <= m,
        m % 2 == 1,
        m * pow(2, j) < 256,
    ensures
        spec_tz((m * pow(2, j)) as u8) == j,
    decreases j,
{
    if j == 0 {
        assert(pow(2, 0) == 1) by {
            reveal_with_fuel(pow, 1);
        }
    } else {
        assert(pow(2, j) == 2 * pow(2, (j - 1) as nat)) by {
            lemma_pow_adds(2, 1, (j - 1) as nat);
            reveal_with_fuel(pow, 2);
        }
        lemma_pow_positive(2, (j - 1) as nat);
        let half = m * pow(2, (j - 1) as nat);
        assert(m * pow(2, j) == 2 * half) by {
            vstd::arithmetic::mul::lemma_mul_is_associative(m, 2, pow(2, (j - 1) as nat));
            vstd::arithmetic::mul::lemma_mul_is_commutative(m, 2);
            vstd::arithmetic::mul::lemma_mul_is_associative(2, m, pow(2, (j - 1) as nat));
        }
        assert(1 <= half) by {
            vstd::arithmetic::mul::lemma_mul_increases(m, pow(2, (j - 1) as nat));
        }
        lemma_tz_of_shifted_odd(m, (j - 1) as nat);
        let v = (2 * half) as u8;
        assert(v != 0 && v % 2 == 0);
        assert(spec_tz(v) == 1 + spec_tz((half) as u8));
    }
}

/// The first byte of the compact group announces the group's length: its
/// trailing zero count is one less than the byte count.
proof fn lemma_group_first_byte_tz(seq: u64)
    requires
        spec_bit_len(seq) <= 56,
    ensures
        ({
            let n = payload_header_len(seq);
            let x = (2 * seq + 1) * pow(2, (n - 1) as nat);
            spec_tz((x % 256) as u8) == n - 1 && (x % 256) % 2 == 0
        }),
{
    let n = payload_header_len(seq);
    let m = (2 * seq + 1) as int;
    let pj = pow(2, (n - 1) as nat);
    let x = m * pj;
    lemma_payload_header_fits(seq);
    lemma_pow_positive(2, (n - 1) as nat);
    let c = pow(2, (9 - n) as nat);
    assert(pj * c == 256) by {
        lemma_pow_adds(2, (n - 1) as nat, (9 - n) as nat);
        assert(pow(2, 8) == 256) by {
            reveal_with_fuel(pow, 9);
        }
    }
    lemma_pow_positive(2, (9 - n) as nat);
    assert((pj * m) % (pj * c) == pj * (m % c)) by {
        vstd::arithmetic::div_mod::lemma_truncate_middle(m, pj, c);
    }
    assert(x % 256 == pj * (m % c)) by {
        vstd::arithmetic::mul::lemma_mul_is_commutative(m, pj);
    }
    let m2 = m % c;
    assert(c == 2 * pow(2, (8 - n) as nat)) by {
        lemma_pow_adds(2, 1, (8 - n) as nat);
        reveal_with_fuel(pow, 2);
    }
    assert(m2 % 2 == m % 2) by {
        vstd::arithmetic::div_mod::lemma_mod_mod(m, 2, pow(2, (8 - n) as nat));
    }
    assert(m % 2 == 1);
    assert(1 <= m2) by {
        vstd::arithmetic::div_mod::lemma_mod_bound(m, c);
    }
    assert(m2 * pj < 256) by {
        vstd::arithmetic::div_mod::lemma_mod_bound(m, c);
        vstd::arithmetic::mul::lemma_mul_strict_inequality(m2, c, pj);
        vstd::arithmetic::mul::lemma_mul_is_commutative(m2, pj);
        vstd::arithmetic::mul::lemma_mul_is_commutative(c, pj);
    }
    lemma_tz_of_shifted_odd(m2, (n - 1) as nat);
    assert(x % 256 == m2 * pj) by {
        vstd::arithmetic::mul::lemma_mul_is_commutative(m2, pj);
    }
    assert((m2 * pj) % 2 == 0) by {
        if n >= 2 {
            assert(spec_tz((m2 * pj) as u8) == n - 1 >= 1);
            if (m2 * pj) % 2 == 1 {
                assert(spec_tz((m2 * pj) as u8) == 0 || (m2 * pj) as u8 == 0);
                assert(m2 * pj < 256 && 1 <= m2 * pj) by {
                    vstd::arithmetic::mul::lemma_mul_increases(m2, pj);
                }
            }
        }
    }
}

/// Decoding what `encode_sequence` wrote gives back the sequence and the
/// framing length, whatever follows it in the buffer.
pub proof fn lemma_sequence_round_trip(s: u64, rest: Seq<u8>)
    ensures
        spec_decode_sequence(payload_header(s) + rest) == Some((s, payload_header_len(s))),
{
    let h = payload_header(s);
    let b = h + rest;
    lemma_pow2_values();
    if spec_bit_len(s) > 56 {
        lemma_le_bytes_len(s as int, 8);
        assert(h.len() == 9);
        assert(b[0] == 0);
        assert(spec_tz(0u8) == 8);
        assert(b.subrange(1, 9) =~= le_bytes(s as int, 8));
        lemma_pow256_values();
        lemma_le_round_trip_small(s as int, 8);
    } else {
        let n = payload_header_len(s);
        let m = (2 * s + 1) as int;
        let pj = pow(2, (n - 1) as nat);
        let x = m * pj;
        lemma_payload_header_fits(s);
        lemma_le_bytes_len(x, n as nat);
        assert(h.len() == n);
        assert(b[0] == h[0]);
        assert(h[0] == (x % 256) as u8) by {
            assert(le_bytes(x, n as nat)[0] == (x % 256) as u8);
        }
        lemma_group_first_byte_tz(s);
        assert(b[0] % 2 == 0);
        assert(spec_tz(b[0]) + 1 == n);
        assert(b.len() >= n);
        assert(b.subrange(0, n) =~= h);
        lemma_le_round_trip_small(x, n as nat);
        assert(le_value(b.subrange(0, n)) == x);
        assert(x / pow(2, n as nat) == s) by {
            assert(pow(2, n as nat) == pj * 2) by {
                lemma_pow_adds(2, (n - 1) as nat, 1);
                reveal_with_fuel(pow, 2);
            }
            lemma_pow_positive(2, (n - 1) as nat);
            assert(x / pj == m) by {
                vstd::arithmetic::mul::lemma_mul_is_commutative(m, pj);
                vstd::arithmetic::div_mod::lemma_div_multiples_vanish(m, pj);
            }
            assert((x / pj) / 2 == x / (pj * 2)) by {
                vstd::arithmetic::mul::lemma_mul_nonnegative(m, pj);
                vstd::arithmetic::div_mod::lemma_div_denominator(x, pj, 2);
            }
            assert(m / 2 == s as int);
        }
    }
}

/// Reads the payload sequence framing at the head of `buf`: the sequence
/// number and how many bytes it took.
pub fn decode_sequence(buf: &[u8]) -> (r: Option<(u64, usize)>)
    ensures
        r is Some <==> spec_decode_sequence(buf@) is Some,
        r is Some ==> r.unwrap().0 == spec_decode_sequence(buf@).unwrap().0 && r.unwrap().1
            == spec_decode_sequence(buf@).unwrap().1 && 2 <= r.unwrap().1 <= 9,
{
    if buf.len() < 1 {
        return None;
    }
    let prefix = buf[0];
    if prefix % 2 == 1 {
        return None;
    }
    proof {
        lemma_tz_bounds(prefix);
        lemma_tz_bounds(prefix / 2);
    }
    let z = byte_tz(prefix) as usize + 1;
    if z == 9 {
        if buf.len() >= 9 {
            let s = read_le(buf, 1, 8);
            proof {
                lemma_le_value_bound(buf@.subrange(1, 9));
            }
            Some((s, 9))
        } else {
            None
        }
    } else {
        if buf.len() >= z {
            let g = read_le(buf, 0, z);
            let p = pow2_u64(z as u32);
            proof {
                lemma_pow_positive(2, z as nat);
            }
            Some((g / p, z))
        } else {
            None
        }
    }
}

/// Associated data of a sealed packet: version magic, protocol id, prefix.
pub open spec fn ad_bytes(protocol: u64, prefix: u8) -> Seq<u8> {
    spec_version() + le_bytes(protocol as int, 8) + seq![prefix]
}

/// Builds the associated data of a sealed packet.
pub fn build_ad(protocol: u64, prefix: u8) -> (r: Vec<u8>)
    ensures
        r@ == ad_bytes(protocol, prefix),
        r@.len() == 13,
{
    let mut v = version_bytes();
    write_le(&mut v, protocol, 8);
    v.push(prefix);
    proof {
        lemma_le_bytes_len(protocol as int, 8);
        assert(v@ =~= ad_bytes(protocol, prefix));
    }
    v
}

/// Nonce of a sealed packet: the sequence, little-endian, zero-padded.
pub open spec fn nonce_bytes(seq: u64) -> Seq<u8> {
    le_bytes(seq as int, 8) + zero_bytes(4)
}

/// Builds the nonce of a sealed packet.
pub fn build_nonce(seq: u64) -> (r: Vec<u8>)
    ensures
        r@ == nonce_bytes(seq),
        r@.len() == 12,
{
    let mut v: Vec<u8> = Vec::new();
    write_le(&mut v, seq, 8);
    push_zero(&mut v, 4);
    proof {
        lemma_le_bytes_len(seq as int, 8);
        assert(v@ =~= nonce_bytes(seq));
    }
    v
}

/// The ciphertext-with-tag that seals `m` under this protocol, sequence and
/// prefix byte.
pub open spec fn spec_seal(protocol: u64, seq: u64, prefix: u8, k: Seq<u8>, m: Seq<u8>) -> Seq<
    u8,
> {
    sealed_of(k, nonce_bytes(seq), ad_bytes(protocol, prefix), m)
}

/// A whole encoded payload packet: framing, ciphertext, tag.
pub open spec fn spec_encode_payload(protocol: u64, seq: u64, k: Seq<u8>, m: Seq<u8>) -> Seq<u8> {
    payload_header(seq) + spec_seal(protocol, seq, 0, k, m)
}

/// Prefix byte of a handshake packet carrying `seq`.
pub open spec fn handshake_prefix(seq: u64) -> u8 {
    (0x21 + 2 * (spec_sequence_bytes(seq) - 1)) as u8
}

/// Prefix byte of a close packet carrying `seq`.
pub open spec fn close_prefix(seq: u64) -> u8 {
    (0x31 + 2 * (spec_sequence_bytes(seq) - 1)) as u8
}

/// A whole encoded handshake packet.
pub open spec fn spec_encode_handshake(protocol: u64, seq: u64, k: Seq<u8>, m: Seq<u8>) -> Seq<
    u8,
> {
    seq![handshake_prefix(seq)] + le_bytes(seq as int, spec_sequence_bytes(seq) as nat)
        + spec_seal(protocol, seq, handshake_prefix(seq), k, m)
}

/// A whole encoded close packet.
pub open spec fn spec_encode_close(protocol: u64, seq: u64, k: Seq<u8>, m: Seq<u8>) -> Seq<u8> {
    seq![close_prefix(seq)] + le_bytes(seq as int, spec_sequence_bytes(seq) as nat) + spec_seal(
        protocol,
        seq,
        close_prefix(seq),
        k,
        m,
    )
}

/// The mathematical content of a connection request.
pub struct RequestView {
    pub prefix: u8,
    pub version: Seq<u8>,
    pub protocol: u64,
    pub expire: u64,
    pub nonce: Seq<u8>,
    pub token: Seq<u8>,
}

/// A request whose parts have their wire sizes.
pub open spec fn request_wf(v: RequestView) -> bool {
    &&& v.version.len() == 4
    &&& v.nonce.len() == 24
    &&& v.token.len() == crate::token::PRIVATE_LEN
}

/// The 1200-byte wire form of a request.
pub open spec fn request_bytes(v: RequestView) -> Seq<u8> {
    seq![v.prefix] + v.version + le_bytes(v.protocol as int, 8) + le_bytes(v.expire as int, 8)
        + v.nonce + zero_bytes(131) + v.token
}

/// What a 1200-byte buffer parses to as a request.
pub open spec fn spec_parse_request(b: Seq<u8>) -> RequestView {
    RequestView {
        prefix: b[0],
        version: b.subrange(1, 5),
        protocol: le_value(b.subrange(5, 13)) as u64,
        expire: le_value(b.subrange(13, 21)) as u64,
        nonce: b.subrange(21, 45),
        token: b.subrange(176, 1200),
    }
}

/// The fields of the request wire form, at their offsets.
pub proof fn lemma_request_bytes_layout(v: RequestView)
    requires
        request_wf(v),
    ensures
        request_bytes(v).len() == MTU,
        spec_parse_request(request_bytes(v)) == v,
{
    let b = request_bytes(v);
    lemma_le_bytes_len(v.protocol as int, 8);
    lemma_le_bytes_len(v.expire as int, 8);
    assert(b.len() == MTU);
    assert(b.subrange(1, 5) =~= v.version);
    assert(b.subrange(5, 13) =~= le_bytes(v.protocol as int, 8));
    assert(b.subrange(13, 21) =~= le_bytes(v.expire as int, 8));
    assert(b.subrange(21, 45) =~= v.nonce);
    assert(b.subrange(176, 1200) =~= v.token);
    lemma_pow256_values();
    lemma_le_round_trip_small(v.protocol as int, 8);
    lemma_le_round_trip_small(v.expire as int, 8);
    assert(spec_parse_request(b).version =~= v.version);
    assert(spec_parse_request(b).nonce =~= v.nonce);
    assert(spec_parse_request(b).token =~= v.token);
}

/// Whether a request is acceptable at `timestamp` for this deployment.
pub open spec fn spec_request_valid(v: RequestView, protocol: u64, timestamp: u64) -> bool {
    &&& v.prefix == 1
    &&& v.version == spec_version()
    &&& v.protocol == protocol
    &&& v.expire > timestamp
}

/// Expiry is final: once the clock reaches a token's expiry timestamp, the
/// request carrying it fails validation, on this and every later instant.
pub proof fn lemma_expired_token_rejected(v: RequestView, protocol: u64, now: u64)
    requires
        now >= v.expire,
    ensures
        !spec_request_valid(v, protocol, now),
        forall|later: u64| later >= now ==> !spec_request_valid(v, protocol, later),
{
}

/// A connection request: plaintext header fields and the sealed token blob.
pub struct Request {
    prefix: u8,
    version: Vec<u8>,
    protocol: u64,
    expire: u64,
    nonce: Vec<u8>,
    token: Vec<u8>,
}

impl View for Request {
    type V = RequestView;

    closed spec fn view(&self) -> RequestView {
        RequestView {
            prefix: self.prefix,
            version: self.version@,
            protocol: self.protocol,
            expire: self.expire,
            nonce: self.nonce@,
            token: self.token@,
        }
    }
}

impl Request {
    /// A fresh request for this protocol carrying a sealed token.
    pub fn new(protocol: u64, expire: u64, nonce: Vec<u8>, token: Vec<u8>) -> (r: Request)
        requires
            nonce@.len() == 24,
            token@.len() == crate::token::PRIVATE_LEN,
        ensures
            request_wf(r@),
            r@.prefix == 1,
            r@.version == spec_version(),
            r@.protocol == protocol,
            r@.expire == expire,
            r@.nonce == nonce@,
            r@.token == token@,
    {
        Request { prefix: 1, version: version_bytes(), protocol, expire, nonce, token }
    }

    /// The token's expiry timestamp, seconds since the epoch.
    pub fn expire(&self) -> (r: u64)
        ensures
            r == self@.expire,
    {
        self.expire
    }

    /// The sealed 1024-byte token blob carried by this request.
    pub fn token(&self) -> (r: &Vec<u8>)
        ensures
            r@ == self@.token,
    {
        &self.token
    }

    /// Whether this request may be considered at all: right prefix, right
    /// version magic, right protocol, not yet expired.
    pub fn is_valid(&self, protocol: u64, timestamp: u64) -> (r: bool)
        ensures
            r == spec_request_valid(self@, protocol, timestamp),
    {
        if self.prefix != 1 {
            return false;
        }
        let ver = version_bytes();
        if !crate::bytes::bytes_eq(self.version.as_slice(), ver.as_slice()) {
            return false;
        }
        if self.protocol != protocol {
            return false;
        }
        self.expire > timestamp
    }

    /// Opens the sealed token blob with the server's long-term key.
    pub fn open_token(&self, private_key: &[u8]) -> (r: Result<crate::token::PrivateToken, ()>)
        requires
            request_wf(self@),
            private_key@.len() == 32,
        ensures
            r is Ok ==> crate::token::private_wf(r.unwrap()@),
            r is Ok ==> crate::token::is_sealed_private(
                private_key@,
                self@.nonce,
                self@.protocol,
                self@.expire,
                self@.token,
            ),
            forall|v: crate::token::PrivateTokenView|
                crate::token::private_wf(v) && self@.token == #[trigger] crate::crypto::xsealed_of(
                    private_key@,
                    self@.nonce,
                    crate::token::xad_bytes(self@.protocol, self@.expire),
                    crate::token::private_bytes(v),
                ) ==> r is Ok && r.unwrap()@ == v,
    {
        crate::token::PrivateToken::decrypt(
            self.token.as_slice(),
            self.protocol,
            self.expire,
            self.nonce.as_slice(),
            private_key,
        )
    }

    /// Serializes the request into its 1200-byte wire form.
    pub fn write(&self) -> (r: Vec<u8>)
        requires
            request_wf(self@),
        ensures
            r@ == request_bytes(self@),
            r@.len() == MTU,
    {
        let mut out: Vec<u8> = Vec::new();
        out.push(self.prefix);
        push_bytes(&mut out, self.version.as_slice());
        write_le(&mut out, self.protocol, 8);
        write_le(&mut out, self.expire, 8);
        push_bytes(&mut out, self.nonce.as_slice());
        push_zero(&mut out, 131);
        push_bytes(&mut out, self.token.as_slice());
        proof {
            lemma_le_bytes_len(self@.protocol as int, 8);
            lemma_le_bytes_len(self@.expire as int, 8);
            assert(out@ =~= request_bytes(self@));
        }
        out
    }

    /// Parses a 1200-byte buffer into its request fields.
    pub fn read(buf: &[u8]) -> (r: Option<Request>)
        ensures
            r is Some <==> buf@.len() == MTU,
            r is Some ==> request_wf(r.unwrap()@) && r.unwrap()@ == spec_parse_request(buf@),
    {
        if buf.len() != MTU {
            return None;
        }
        proof {
            lemma_pow256_values();
            lemma_le_value_bound(buf@.subrange(5, 13));
            lemma_le_value_bound(buf@.subrange(13, 21));
        }
        let prefix = buf[0];
        let version = vstd::slice::slice_to_vec(vstd::slice::slice_subrange(buf, 1, 5));
        let protocol = read_le(buf, 5, 8);
        let expire = read_le(buf, 13, 8);
        let nonce = vstd::slice::slice_to_vec(vstd::slice::slice_subrange(buf, 21, 45));
        let token = vstd::slice::slice_to_vec(vstd::slice::slice_subrange(buf, 176, 1200));
        Some(Request { prefix, version, protocol, expire, nonce, token })
    }

    /// Reads, validates and opens a request in one step: the expiry and the
    /// private token, or nothing.
    pub fn open(buf: &[u8], protocol: u64, timestamp: u64, key: &[u8]) -> (r: Result<
        (u64, crate::token::PrivateToken),
        (),
    >)
        requires
            key@.len() == 32,
        ensures
            r is Ok ==> buf@.len() == MTU && spec_request_valid(
                spec_parse_request(buf@),
                protocol,
                timestamp,
            ) && crate::token::private_wf(r.unwrap().1@) && r.unwrap().0 == spec_parse_request(
                buf@,
            ).expire,
            forall|v: crate::token::PrivateTokenView|
                buf@.len() == MTU && spec_request_valid(spec_parse_request(buf@), protocol, timestamp)
                    && crate::token::private_wf(v) && spec_parse_request(buf@).token
                    == #[trigger] crate::crypto::xsealed_of(
                    key@,
                    spec_parse_request(buf@).nonce,
                    crate::token::xad_bytes(protocol, spec_parse_request(buf@).expire),
                    crate::token::private_bytes(v),
                ) ==> r is Ok && r.unwrap().1@ == v,
    {
        let req = match Request::read(buf) {
            Some(req) => req,
            None => {
                return Err(());
            },
        };
        if !req.is_valid(protocol, timestamp) {
            return Err(());
        }
        match req.open_token(key) {
            Ok(tok) => Ok((req.expire(), tok)),
            Err(()) => Err(()),
        }
    }
}

/// The challenge packet body: minted by the server, echoed verbatim by the
/// client as its response, so the response body is the same type.
pub struct ChallengePacket;

pub type ResponsePacket = ChallengePacket;

impl ChallengePacket {
    /// The wire body: the challenge sequence in clear, then the cookie
    /// sealed under the server-only key with that sequence as nonce.
    pub fn write(sequence: u64, key: &[u8], token: crate::token::ChallengeToken) -> (r: Vec<u8>)
        requires
            key@.len() == 32,
            crate::token::challenge_wf(token@),
        ensures
            r@ == crate::token::spec_challenge_packet(key@, sequence, token@),
            r@.len() == 8 + crate::token::CHALLENGE_LEN,
    {
        token.encode_packet(sequence, key)
    }
}

/// The sequence encoding length: the compact framing spends one byte per
/// seven bits, never fewer than two (the fourteen-bit floor) nor more than
/// eight, and sequences of more than fifty-six bits take the nine-byte
/// escape.
pub proof fn lemma_sequence_encoding_length(seq: u64)
    ensures
        payload_header(seq).len() == payload_header_len(seq),
        spec_bit_len(seq) > 56 ==> payload_header_len(seq) == 9,
        14 <= spec_bit_len(seq) <= 56 ==> payload_header_len(seq) == (spec_bit_len(seq)
            + 6) as int / 7,
        spec_bit_len(seq) < 14 ==> payload_header_len(seq) == 2,
        2 <= payload_header_len(seq) <= 9,
{
    lemma_payload_header_len_is(seq);
}

/// Packets as the codec hands them out and takes them in.
pub enum Packet {
    /// An application payload or keep-alive (`buf` is the ciphertext).
    Payload { seq: u64, buf: Vec<u8>, tag: Vec<u8> },
    /// A challenge (server to client) or its echo (client to server).
    Handshake { prefix: u8, seq: u64, buf: Vec<u8>, tag: Vec<u8> },
    /// A disconnect or denied notice.
    Close { prefix: u8, seq: u64, buf: Vec<u8>, tag: Vec<u8> },
    /// A connection request with its token.
    Request(Request),
    /// Anything the codec refuses.
    Invalid,
}

impl Packet {
    /// Seals `m` for the wire: ciphertext followed by the 16-byte tag.
    pub fn seal(protocol: u64, m: &[u8], seq: u64, prefix: u8, k: &[u8]) -> (r: Vec<u8>)
        requires
            k@.len() == 32,
            m@.len() <= 0x10_0000,
        ensures
            r@ == spec_seal(protocol, seq, prefix, k@, m@),
            r@.len() == m@.len() + 16,
    {
        let n = build_nonce(seq);
        let ad = build_ad(protocol, prefix);
        aead_seal(k, n.as_slice(), ad.as_slice(), m)
    }

    /// Opens a sealed body `c` with its `tag`: the plaintext, or nothing
    /// where key, nonce, associated data and tag do not line up.
    pub fn open(protocol: u64, c: &[u8], seq: u64, prefix: u8, tag: &[u8], k: &[u8]) -> (r:
        Option<Vec<u8>>)
        requires
            k@.len() == 32,
        ensures
            r is Some ==> c@.len() + tag@.len() >= 16 && r.unwrap()@.len() == c@.len()
                + tag@.len() - 16,
            r is Some ==> c@ + tag@ == spec_seal(protocol, seq, prefix, k@, r.unwrap()@),
            forall|m: Seq<u8>|
                c@ + tag@ == #[trigger] spec_seal(protocol, seq, prefix, k@, m) ==> r is Some
                    && r.unwrap()@ == m,
    {
        let n = build_nonce(seq);
        let ad = build_ad(protocol, prefix);
        let mut whole = vstd::slice::slice_to_vec(c);
        push_bytes(&mut whole, tag);
        aead_open(k, n.as_slice(), ad.as_slice(), whole.as_slice())
    }

    /// Encodes a payload packet: sequence framing, then the sealed payload.
    pub fn encode_payload(protocol: u64, seq: u64, k: &[u8], m: &[u8]) -> (r: Vec<u8>)
        requires
            k@.len() == 32,
            m@.len() <= MAX_PAYLOAD,
        ensures
            r@ == spec_encode_payload(protocol, seq, k@, m@),
            r@.len() == payload_header_len(seq) + m@.len() + 16,
    {
        let mut out: Vec<u8> = Vec::new();
        encode_sequence(&mut out, seq);
        let sealed = Packet::seal(protocol, m, seq, 0, k);
        push_bytes(&mut out, sealed.as_slice());
        proof {
            assert(out@ =~= spec_encode_payload(protocol, seq, k@, m@));
        }
        out
    }

    /// Encodes a keep-alive: a payload packet with nothing in it.
    pub fn encode_keep_alive(protocol: u64, seq: u64, k: &[u8]) -> (r: Vec<u8>)
        requires
            k@.len() == 32,
        ensures
            r@ == spec_encode_payload(protocol, seq, k@, Seq::<u8>::empty()),
    {
        let m: Vec<u8> = Vec::new();
        Packet::encode_payload(protocol, seq, k, m.as_slice())
    }

    /// Encodes a handshake packet around the sealed challenge `m`.
    pub fn encode_handshake(protocol: u64, seq: u64, k: &[u8], m: &[u8]) -> (r: Vec<u8>)
        requires
            k@.len() == 32,
            m@.len() <= 0x10_0000,
        ensures
            r@ == spec_encode_handshake(protocol, seq, k@, m@),
            r@.len() == 1 + spec_sequence_bytes(seq) + m@.len() + 16,
    {
        let sss = sequence_bytes_required(seq);
        let prefix: u8 = 0x21 + 2 * ((sss - 1) as u8);
        let mut out: Vec<u8> = Vec::new();
        out.push(prefix);
        write_le(&mut out, seq, sss as usize);
        let sealed = Packet::seal(protocol, m, seq, prefix, k);
        push_bytes(&mut out, sealed.as_slice());
        proof {
            lemma_le_bytes_len(seq as int, sss as nat);
            assert(out@ =~= spec_encode_handshake(protocol, seq, k@, m@));
        }
        out
    }

    /// Encodes a close packet around `m` (empty on the wire today).
    pub fn encode_close_custom(protocol: u64, seq: u64, k: &[u8], m: &[u8]) -> (r: Vec<u8>)
        requires
            k@.len() == 32,
            m@.len() <= 0x10_0000,
        ensures
            r@ == spec_encode_close(protocol, seq, k@, m@),
            r@.len() == 1 + spec_sequence_bytes(seq) + m@.len() + 16,
    {
        let sss = sequence_bytes_required(seq);
        let prefix: u8 = 0x31 + 2 * ((sss - 1) as u8);
        let mut out: Vec<u8> = Vec::new();
        out.push(prefix);
        write_le(&mut out, seq, sss as usize);
        let sealed = Packet::seal(protocol, m, seq, prefix, k);
        push_bytes(&mut out, sealed.as_slice());
        proof {
            lemma_le_bytes_len(seq as int, sss as nat);
            assert(out@ =~= spec_encode_close(protocol, seq, k@, m@));
        }
        out
    }

    /// Encodes a close packet with an empty body.
    pub fn encode_close(protocol: u64, seq: u64, k: &[u8]) -> (r: Vec<u8>)
        requires
            k@.len() == 32,
        ensures
            r@ == spec_encode_close(protocol, seq, k@, Seq::<u8>::empty()),
    {
        let m: Vec<u8> = Vec::new();
        Packet::encode_close_custom(protocol, seq, k, m.as_slice())
    }

    /// Splits a datagram into its packet form. Never panics and never reads
    /// past the buffer; anything malformed comes back as `Invalid`.
    pub fn decode(buf: &[u8]) -> (r: Packet)
        ensures
            spec_decode_ok(buf@, r),
    {
        let total = buf.len();
        if total < MIN_PACKET_BYTES {
            return Packet::Invalid;
        }
        let prefix = buf[0];
        if prefix % 2 == 0 {
            match decode_sequence(buf) {
                Some((seq, z)) => {
                    if total >= z + 16 {
                        let ct = vstd::slice::slice_to_vec(
                            vstd::slice::slice_subrange(buf, z, total - 16),
                        );
                        let tag = vstd::slice::slice_to_vec(
                            vstd::slice::slice_subrange(buf, total - 16, total),
                        );
                        Packet::Payload { seq, buf: ct, tag }
                    } else {
                        Packet::Invalid
                    }
                },
                None => Packet::Invalid,
            }
        } else if prefix >= 0x40 {
            Packet::Invalid
        } else if (prefix / 0x20) % 2 == 1 {
            let n = ((prefix / 2) % 8) as usize + 1;
            if total >= 1 + n + 16 {
                let seq = read_le(buf, 1, n);
                let ct = vstd::slice::slice_to_vec(
                    vstd::slice::slice_subrange(buf, 1 + n, total - 16),
                );
                let tag = vstd::slice::slice_to_vec(
                    vstd::slice::slice_subrange(buf, total - 16, total),
                );
                if (prefix / 0x10) % 2 == 1 {
                    Packet::Close { prefix, seq, buf: ct, tag }
                } else {
                    Packet::Handshake { prefix, seq, buf: ct, tag }
                }
            } else {
                Packet::Invalid
            }
        } else if prefix == 1 {
            match Request::read(buf) {
                Some(rq) => Packet::Request(rq),
                None => Packet::Invalid,
            }
        } else {
            Packet::Invalid
        }
    }
}

/// What `decode` owes for buffer `b` and result `r`: each wire class parses
/// to its own variant carrying exactly the bytes at its offsets, and
/// everything else is `Invalid`.
pub open spec fn spec_decode_ok(b: Seq<u8>, r: Packet) -> bool {
    let total = b.len() as int;
    if total < MIN_PACKET_BYTES {
        r is Invalid
    } else if b[0] % 2 == 0 {
        if spec_decode_sequence(b) is Some {
            let (s, z) = spec_decode_sequence(b).unwrap();
            if total >= z + 16 {
                r matches Packet::Payload { seq, buf: ct, tag } && seq == s && ct@ == b.subrange(
                    z,
                    total - 16,
                ) && tag@ == b.subrange(total - 16, total)
            } else {
                r is Invalid
            }
        } else {
            r is Invalid
        }
    } else if b[0] >= 0x40 {
        r is Invalid
    } else if (b[0] / 0x20) % 2 == 1 {
        let n = (b[0] / 2) % 8 + 1;
        if total >= 1 + n + 16 {
            if (b[0] / 0x10) % 2 == 1 {
                r matches Packet::Close { prefix, seq, buf: ct, tag } && prefix == b[0] && seq
                    == le_value(b.subrange(1, 1 + n)) && ct@ == b.subrange(1 + n, total - 16)
                    && tag@ == b.subrange(total - 16, total)
            } else {
                r matches Packet::Handshake { prefix, seq, buf: ct, tag } && prefix == b[0]
                    && seq == le_value(b.subrange(1, 1 + n)) && ct@ == b.subrange(
                    1 + n,
                    total - 16,
                ) && tag@ == b.subrange(total - 16, total)
            }
        } else {
            r is Invalid
        }
    } else if b[0] == 1 {
        if total == MTU {
            r matches Packet::Request(rq) && request_wf(rq@) && rq@ == spec_parse_request(b)
        } else {
            r is Invalid
        }
    } else {
        r is Invalid
    }
}

/// Whether `b` is malformed at the decode layer: too short for any class,
/// a reserved prefix, or announcing more bytes than it holds. Exactly these
/// buffers decode to nothing.
pub open spec fn spec_decode_is_invalid(b: Seq<u8>) -> bool {
    let total = b.len() as int;
    if total < MIN_PACKET_BYTES {
        true
    } else if b[0] % 2 == 0 {
        if spec_decode_sequence(b) is Some {
            total < spec_decode_sequence(b).unwrap().1 + 16
        } else {
            true
        }
    } else if b[0] >= 0x40 {
        true
    } else if (b[0] / 0x20) % 2 == 1 {
        total < 1 + ((b[0] / 2) % 8 + 1) + 16
    } else if b[0] == 1 {
        total != MTU
    } else {
        true
    }
}

/// A payload datagram decodes back to its sequence, ciphertext and tag: the
/// framing is lost-free, and what `open` is then handed is exactly what
/// `seal` produced, so the payload itself is recovered.
pub proof fn lemma_payload_packet_round_trip(
    protocol: u64,
    s: u64,
    k: Seq<u8>,
    m: Seq<u8>,
    sl: Seq<u8>,
)
    requires
        sl == spec_seal(protocol, s, 0, k, m),
        sl.len() == m.len() + 16,
    ensures
        ({
            let b = payload_header(s) + sl;
            let hl = payload_header_len(s);
            &&& spec_decode_sequence(b) == Some((s, hl))
            &&& b.len() >= MIN_PACKET_BYTES
            &&& b.len() >= hl + 16
            &&& b.subrange(hl, b.len() - 16) + b.subrange(b.len() - 16, b.len() as int)
                == spec_seal(protocol, s, 0, k, m)
        }),
{
    let b = payload_header(s) + sl;
    let hl = payload_header_len(s);
    lemma_sequence_round_trip(s, sl);
    assert(payload_header(s).len() == hl) by {
        if spec_bit_len(s) > 56 {
            lemma_le_bytes_len(s as int, 8);
        } else {
            lemma_payload_header_fits(s);
            lemma_le_bytes_len(
                (2 * s + 1) * pow(2, (payload_header_len(s) - 1) as nat),
                hl as nat,
            );
        }
    }
    assert(b.subrange(hl, b.len() - 16) + b.subrange(b.len() - 16, b.len() as int) =~= sl);
}

/// A handshake datagram decodes back to its prefix, sequence, ciphertext
/// and tag.
pub proof fn lemma_handshake_packet_round_trip(
    protocol: u64,
    s: u64,
    k: Seq<u8>,
    m: Seq<u8>,
    sl: Seq<u8>,
)
    requires
        sl == spec_seal(protocol, s, handshake_prefix(s), k, m),
        sl.len() >= 16,
    ensures
        ({
            let b = seq![handshake_prefix(s)] + le_bytes(s as int, spec_sequence_bytes(s) as nat)
                + sl;
            let n = spec_sequence_bytes(s) as int;
            &&& b.len() == 1 + n + sl.len()
            &&& b[0] == handshake_prefix(s)
            &&& b[0] % 2 == 1 && b[0] < 0x40 && (b[0] / 0x20) % 2 == 1 && (b[0] / 0x10) % 2 == 0
            &&& (b[0] / 2) % 8 + 1 == n
            &&& le_value(b.subrange(1, 1 + n)) == s
            &&& b.subrange(1 + n, b.len() - 16) + b.subrange(b.len() - 16, b.len() as int) == sl
        }),
{
    let n = spec_sequence_bytes(s) as int;
    let b = seq![handshake_prefix(s)] + le_bytes(s as int, n as nat) + sl;
    lemma_sequence_bytes_bounds(s);
    lemma_le_bytes_len(s as int, n as nat);
    assert(b[0] == handshake_prefix(s));
    assert(handshake_prefix(s) == (0x21 + 2 * (n - 1)) as u8);
    assert(b.subrange(1, 1 + n) =~= le_bytes(s as int, n as nat));
    lemma_le_round_trip_small(s as int, n as nat);
    assert(b.subrange(1 + n, b.len() - 16) + b.subrange(b.len() - 16, b.len() as int) =~= sl);
}

/// A close datagram decodes back to its prefix, sequence, ciphertext and
/// tag.
pub proof fn lemma_close_packet_round_trip(
    protocol: u64,
    s: u64,
    k: Seq<u8>,
    m: Seq<u8>,
    sl: Seq<u8>,
)
    requires
        sl == spec_seal(protocol, s, close_prefix(s), k, m),
        sl.len() == m.len() + 16,
    ensures
        ({
            let b = seq![close_prefix(s)] + le_bytes(s as int, spec_sequence_bytes(s) as nat)
                + sl;
            let n = spec_sequence_bytes(s) as int;
            &&& b.len() == 1 + n + m.len() + 16
            &&& b[0] == close_prefix(s)
            &&& b[0] % 2 == 1 && b[0] < 0x40 && (b[0] / 0x20) % 2 == 1 && (b[0] / 0x10) % 2 == 1
            &&& (b[0] / 2) % 8 + 1 == n
            &&& le_value(b.subrange(1, 1 + n)) == s
            &&& b.subrange(1 + n, b.len() - 16) + b.subrange(b.len() - 16, b.len() as int) == sl
        }),
{
    let n = spec_sequence_bytes(s) as int;
    let b = seq![close_prefix(s)] + le_bytes(s as int, n as nat) + sl;
    lemma_sequence_bytes_bounds(s);
    lemma_le_bytes_len(s as int, n as nat);
    assert(b[0] == close_prefix(s));
    assert(close_prefix(s) == (0x31 + 2 * (n - 1)) as u8);
    assert(b.subrange(1, 1 + n) =~= le_bytes(s as int, n as nat));
    lemma_le_round_trip_small(s as int, n as nat);
    assert(b.subrange(1 + n, b.len() - 16) + b.subrange(b.len() - 16, b.len() as int) =~= sl);
}

/// The powers of two at the byte boundaries that the framing uses.
pub proof fn lemma_pow2_values()
    ensures
        pow(2, 0) == 1,
        pow(2, 1) == 2,
        pow(2, 7) == 0x80,
        pow(2, 8) == 0x100,
        pow(2, 9) == 0x200,
        pow(2, 13) == 0x2000,
        pow(2, 14) == 0x4000,
        pow(2, 56) == 0x100_0000_0000_0000,
        pow(2, 57) == 0x200_0000_0000_0000,
        pow(2, 63) == 0x8000_0000_0000_0000,
        pow(2, 64) == 0x1_0000_0000_0000_0000,
{
    reveal_with_fuel(pow, 15);
    assert(pow(2, 14) == 0x4000);
    assert(pow(2, 28) == pow(2, 14) * pow(2, 14)) by {
        lemma_pow_adds(2, 14, 14);
    }
    assert(pow(2, 28) == 0x1000_0000) by (nonlinear_arith)
        requires
            pow(2, 28) == pow(2, 14) * pow(2, 14),
            pow(2, 14) == 0x4000,
    ;
    assert(pow(2, 56) == pow(2, 28) * pow(2, 28)) by {
        lemma_pow_adds(2, 28, 28);
    }
    assert(pow(2, 56) == 0x100_0000_0000_0000) by (nonlinear_arith)
        requires
            pow(2, 56) == pow(2, 28) * pow(2, 28),
            pow(2, 28) == 0x1000_0000,
    ;
    assert(pow(2, 57) == pow(2, 56) * pow(2, 1)) by {
        lemma_pow_adds(2, 56, 1);
    }
    assert(pow(2, 63) == pow(2, 56) * pow(2, 7)) by {
        lemma_pow_adds(2, 56, 7);
    }
    assert(pow(2, 64) == pow(2, 63) * pow(2, 1)) by {
        lemma_pow_adds(2, 63, 1);
    }
}

} // verus!

