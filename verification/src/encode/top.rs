//! The lossy rounding of a scalar to a nibble, and the packing of nibble and
//! bit vectors into bytes.

use vstd::prelude::*;
use crate::math::modular::is_centered;
use crate::math::nums::lemma_shr15;
use crate::params::params761::I;
use crate::params::params761::INPUTS_BYTES;
use crate::params::params761::P;
use crate::params::params761::Q;
use crate::params::params761::TAU0;
use crate::params::params761::TAU1;
use crate::params::params761::TOP_BYTES;

verus! {

/// The rounding map: `(TAU1 * (c + TAU0) + 2^14) / 2^15`, rounded down.
pub open spec fn top_spec(c: int) -> int {
    (TAU1 * (c + TAU0) + 16384) / 32768
}

/// The byte that holds the nibble pair `(lo, hi)`: `lo | (hi << 4)`, each
/// taken by its bits. The lowest four bits of `hi` make the high half; a
/// `lo` outside `0..16` sets bits of the high half too.
pub open spec fn packed_byte(lo: i8, hi: i8) -> u8 {
    (lo as u8) | ((hi as u8) << 4usize)
}

/// The bytes that hold the nibbles of `t`, two per byte, the even index in
/// the low half.
pub open spec fn packed_nibbles(t: Seq<i8>) -> Seq<u8> {
    Seq::new((t.len() / 2) as nat, |i: int| packed_byte(t[2 * i], t[2 * i + 1]))
}

/// Nibble `k` of the bytes `s`: an unsigned value in `0..16`, the low half
/// of byte `k / 2` for an even `k`, the high half for an odd one.
pub open spec fn nibble_at(s: Seq<u8>, k: int) -> i8 {
    if k % 2 == 0 {
        (s[k / 2] % 16) as i8
    } else {
        (s[k / 2] / 16) as i8
    }
}

/// The nibbles held by `s`.
pub open spec fn unpacked_nibbles(s: Seq<u8>) -> Seq<i8> {
    Seq::new(2 * s.len(), |k: int| nibble_at(s, k))
}

/// The contribution of coefficient `c` to its byte at bit position `k`.
pub open spec fn shifted_bit(c: i8, k: usize) -> u8 {
    (c << k) as u8
}

/// The bitwise OR of the contributions of the first `n` coefficients of byte
/// `j`.
pub open spec fn input_bits(r: Seq<i8>, j: int, n: nat) -> u8
    decreases n,
{
    if n == 0 {
        0u8
    } else {
        input_bits(r, j, (n - 1) as nat) | shifted_bit(r[8 * j + n - 1], (n - 1) as usize)
    }
}

/// The bytes that hold the first `I` coefficients of `r`, one bit each.
pub open spec fn input_bytes(r: Seq<i8>) -> Seq<u8> {
    Seq::new(INPUTS_BYTES as nat, |j: int| input_bits(r, j, 8))
}

/// The bit at position `i` of the packed bytes `s`, as a coefficient.
pub open spec fn unpacked_bit(s: Seq<u8>, i: int) -> i8 {
    ((s[i / 8] >> ((i % 8) as usize)) & 1) as i8
}

/// The OR of signed values, taken as a byte, is the OR of their bytes.
proof fn lemma_pack(lo: i8, hi: i8)
    by (bit_vector)
    ensures
        ((lo | (hi << 4usize)) as u8) == (lo as u8) | ((hi as u8) << 4usize),
{
}

/// The halves of a packed byte: the low one holds the lowest four bits of
/// `lo`, the high one the lowest four bits of `hi` and the highest four of
/// `lo`; nibbles in `0..16` are the halves themselves.
proof fn lemma_packed_halves(lo: i8, hi: i8)
    by (bit_vector)
    ensures
        ((lo as u8) | ((hi as u8) << 4usize)) % 16 == lo % 16,
        ((lo as u8) | ((hi as u8) << 4usize)) / 16 == ((lo as u8) / 16) | ((hi as u8) % 16),
        0 <= lo < 16 && 0 <= hi < 16 ==> ((lo as u8) | ((hi as u8) << 4usize)) % 16 == lo && ((
        lo as u8) | ((hi as u8) << 4usize)) / 16 == hi,
{
}

/// The halves of a byte are its remainder and its quotient by 16.
proof fn lemma_unpack(b: u8)
    by (bit_vector)
    ensures
        (b & 15) == b % 16,
        (b >> 4) == b / 16,
{
}

/// The byte and the bit of coefficient `i` are its quotient and its
/// remainder by 8.
proof fn lemma_index_split(i: usize)
    by (bit_vector)
    ensures
        i >> 3 == i / 8,
        i & 7 == i % 8,
{
}

/// Rounds the centered scalar `c` to a nibble. On centered representatives
/// modulo `Q` the result lies in `0..16`.
pub fn top(c: i16) -> (r: i8)
    ensures
        r as int == top_spec(c as int),
        is_centered(c as int, Q as int) ==> 0 <= r <= 15,
{
    let tau0: i32 = TAU0 as i32;
    let tau1: i32 = TAU1 as i32;
    let c32: i32 = c as i32;
    let scaled: i32 = tau1 * (c32 + tau0) + 16384;
    proof {
        lemma_shr15(scaled);
    }
    let value: i32 = scaled >> 15;
    value as i8
}

/// Packs the `I` nibbles of `t` into the `TOP_BYTES` bytes of `s` that start
/// at `START`, each pair as `t[2i] | (t[2i + 1] << 4)`; every other byte of
/// `s` keeps its value.
pub fn top_encode<const SIZE: usize, const START: usize>(s: &mut [u8; SIZE], t: &[i8; I])
    requires
        START + TOP_BYTES <= SIZE,
    ensures
        final(s)@.subrange(START as int, START + TOP_BYTES) == packed_nibbles(t@),
        forall|j: int|
            0 <= j < SIZE && !(START <= j < START + TOP_BYTES) ==> final(s)@[j] == old(s)@[j],
{
    let mut i: usize = 0;
    while i < TOP_BYTES
        invariant
            0 <= i <= TOP_BYTES,
            START + TOP_BYTES <= SIZE,
            forall|j: int|
                START <= j < START + i ==> #[trigger] s@[j] == packed_byte(
                    t@[2 * (j - START)],
                    t@[2 * (j - START) + 1],
                ),
            forall|j: int|
                0 <= j < SIZE && !(START <= j < START + i) ==> s@[j] == old(s)@[j],
        decreases TOP_BYTES - i,
    {
        let v: i8 = t[2 * i] | (t[2 * i + 1] << 4usize);
        proof {
            lemma_pack(t[2 * i as int], t[2 * i + 1]);
        }
        s[i + START] = #[verifier::truncate] (v as u8);
        i += 1;
    }
    assert(s@.subrange(START as int, START + TOP_BYTES) =~= packed_nibbles(t@));
}

/// Unpacks the first `TOP_BYTES` bytes of `s` into the `I` nibbles of `t`,
/// each as a value in `0..16`.
pub fn top_decode<const SIZE: usize>(t: &mut [i8; I], s: &[u8; SIZE])
    requires
        TOP_BYTES <= SIZE,
    ensures
        final(t)@ == unpacked_nibbles(s@.subrange(0, TOP_BYTES as int)),
{
    let mut i: usize = 0;
    while i < TOP_BYTES
        invariant
            0 <= i <= TOP_BYTES,
            TOP_BYTES <= SIZE,
            forall|k: int| 0 <= k < 2 * i ==> #[trigger] t@[k] == nibble_at(s@, k),
        decreases TOP_BYTES - i,
    {
        proof {
            lemma_unpack(s[i as int]);
        }
        t[2 * i] = (s[i] & 15) as i8;
        t[2 * i + 1] = (s[i] >> 4) as i8;
        i += 1;
    }
    assert(t@ =~= unpacked_nibbles(s@.subrange(0, TOP_BYTES as int)));
}

/// Packs the first `I` coefficients of `r` into bytes, coefficient `i` at bit
/// `i % 8` of byte `i / 8`. A coefficient that is 0 or 1 sets exactly its own
/// bit.
pub fn inputs_encode(r: &[i8; P]) -> (s: [u8; INPUTS_BYTES])
    ensures
        s@ == input_bytes(r@),
{
    let mut s: [u8; INPUTS_BYTES] = [0u8; INPUTS_BYTES];
    let mut i: usize = 0;
    while i < I
        invariant
            0 <= i <= I,
            forall|j: int| 0 <= j < i / 8 ==> s@[j] == input_bits(r@, j, 8),
            i < I ==> s@[i as int / 8] == input_bits(r@, i as int / 8, (i % 8) as nat),
            forall|j: int| i / 8 < j < INPUTS_BYTES ==> s@[j] == 0,
        decreases I - i,
    {
        proof {
            lemma_index_split(i);
        }
        let byte: usize = i >> 3;
        let bit: usize = i & 7;
        let shifted: i8 = r[i] << bit;
        let prior: u8 = s[byte];
        s[byte] = prior | (#[verifier::truncate] (shifted as u8));
        proof {
            reveal_with_fuel(input_bits, 1);
            assert(s@[byte as int] == input_bits(r@, byte as int, (bit + 1) as nat));
            if bit == 7 {
                assert(input_bits(r@, byte as int + 1, 0) == 0u8);
            }
        }
        i += 1;
    }
    assert(s@ =~= input_bytes(r@));
    s
}

/// Unpacking what was packed gives the nibbles back, when each is a value in
/// `0..16`.
pub proof fn lemma_nibbles_round_trip(t: Seq<i8>)
    requires
        t.len() % 2 == 0,
        forall|k: int| 0 <= k < t.len() ==> 0 <= #[trigger] t[k] < 16,
    ensures
        unpacked_nibbles(packed_nibbles(t)) == t,
{
    let back: Seq<i8> = unpacked_nibbles(packed_nibbles(t));
    assert forall|k: int| 0 <= k < t.len() implies back[k] == t[k] by {
        let j: int = k / 2;
        assert(0 <= t[2 * j] < 16);
        assert(0 <= t[2 * j + 1] < 16);
        assert(packed_nibbles(t)[j] == packed_byte(t[2 * j], t[2 * j + 1]));
        lemma_packed_halves(t[2 * j], t[2 * j + 1]);
    }
    assert(back =~= t);
}

/// Whatever the values of `t` are, unpacking what was packed gives each value
/// at an even place back modulo 16, and at an odd place the lowest four bits
/// of the value, with the highest four bits of the value before it set too.
pub proof fn lemma_nibbles_after_packing(t: Seq<i8>, j: int)
    requires
        0 <= j < t.len() / 2,
    ensures
        unpacked_nibbles(packed_nibbles(t))[2 * j] as int == (t[2 * j] as int) % 16,
        unpacked_nibbles(packed_nibbles(t))[2 * j + 1] == ((((t[2 * j] as u8) / 16) | ((t[2 * j
            + 1] as u8) % 16)) as i8),
{
    let byte: u8 = packed_nibbles(t)[j];
    assert(byte == packed_byte(t[2 * j], t[2 * j + 1]));
    lemma_packed_halves(t[2 * j], t[2 * j + 1]);
    assert(nibble_at(packed_nibbles(t), 2 * j) == (byte % 16) as i8);
    assert(nibble_at(packed_nibbles(t), 2 * j + 1) == (byte / 16) as i8);
}

/// A byte that was put together from eight coefficients that are 0 or 1
/// holds coefficient `k` in bit `k`.
proof fn lemma_bits_of_byte(
    c0: i8,
    c1: i8,
    c2: i8,
    c3: i8,
    c4: i8,
    c5: i8,
    c6: i8,
    c7: i8,
    k: usize,
)
    by (bit_vector)
    requires
        c0 == 0 || c0 == 1,
        c1 == 0 || c1 == 1,
        c2 == 0 || c2 == 1,
        c3 == 0 || c3 == 1,
        c4 == 0 || c4 == 1,
        c5 == 0 || c5 == 1,
        c6 == 0 || c6 == 1,
        c7 == 0 || c7 == 1,
        k < 8,
    ensures
        ({
            let b: u8 = 0u8 | ((c0 << 0usize) as u8) | ((c1 << 1usize) as u8) | ((c2
                << 2usize) as u8) | ((c3 << 3usize) as u8) | ((c4 << 4usize) as u8) | ((c5
                << 5usize) as u8) | ((c6 << 6usize) as u8) | ((c7 << 7usize) as u8);
            ((b >> k) & 1) as i8 == (if k == 0 {
                c0
            } else if k == 1 {
                c1
            } else if k == 2 {
                c2
            } else if k == 3 {
                c3
            } else if k == 4 {
                c4
            } else if k == 5 {
                c5
            } else if k == 6 {
                c6
            } else {
                c7
            })
        }),
{
}

/// Reading bit `i` of what `inputs_encode` packed gives coefficient `i` back,
/// when each of the first `I` coefficients is 0 or 1.
pub proof fn lemma_inputs_round_trip(r: Seq<i8>, i: int)
    requires
        r.len() >= I,
        0 <= i < I,
        forall|k: int| 0 <= k < I ==> #[trigger] r[k] == 0 || r[k] == 1,
    ensures
        unpacked_bit(input_bytes(r), i) == r[i],
{
    let j: int = i / 8;
    let k: usize = (i % 8) as usize;
    reveal_with_fuel(input_bits, 9);
    assert(r[8 * j] == 0 || r[8 * j] == 1);
    assert(r[8 * j + 1] == 0 || r[8 * j + 1] == 1);
    assert(r[8 * j + 2] == 0 || r[8 * j + 2] == 1);
    assert(r[8 * j + 3] == 0 || r[8 * j + 3] == 1);
    assert(r[8 * j + 4] == 0 || r[8 * j + 4] == 1);
    assert(r[8 * j + 5] == 0 || r[8 * j + 5] == 1);
    assert(r[8 * j + 6] == 0 || r[8 * j + 6] == 1);
    assert(r[8 * j + 7] == 0 || r[8 * j + 7] == 1);
    lemma_bits_of_byte(
        r[8 * j],
        r[8 * j + 1],
        r[8 * j + 2],
        r[8 * j + 3],
        r[8 * j + 4],
        r[8 * j + 5],
        r[8 * j + 6],
        r[8 * j + 7],
        k,
    );
    assert(input_bytes(r)[j] == input_bits(r, j, 8));
}

} // verus!
