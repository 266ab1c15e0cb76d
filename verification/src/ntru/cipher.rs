//! Encryption against a public key and decryption with a private key.
//!
//! The derivation of the generator polynomial from a seed, the derivation of
//! a short polynomial from the input, and the byte encoding of rounded ring
//! elements are not part of this library: the functions that need them take
//! them as arguments.

use vstd::prelude::*;
use crate::encode::top::packed_nibbles;
use crate::encode::top::top;
use crate::encode::top::top_encode;
use crate::encode::top::top_spec;
use crate::math::modular::is_centered;
use crate::math::modular::lemma_centered_residue;
use crate::math::nums::as_ints;
use crate::math::nums::odd_count;
use crate::math::nums::weight;
use crate::math::nums::weightw_mask;
use crate::ntru::errors::NTRUErrors;
use crate::params::params761::CIPHERTEXTS_BYTES;
use crate::params::params761::HASH_BYTES;
use crate::params::params761::I;
use crate::params::params761::P;
use crate::params::params761::PUBLICKEYS_BYTES;
use crate::params::params761::Q;
use crate::params::params761::Q12;
use crate::params::params761::ROUNDED_BYTES;
use crate::params::params761::SEEDS_BYTES;
use crate::params::params761::TOP_BYTES;
use crate::params::params761::W;
use crate::poly::f3::lemma_round;
use crate::poly::f3::round;
use crate::poly::f3::rounded;
use crate::poly::fq;
use crate::poly::r3::ring_product_3;
use crate::poly::r3::R3;
use crate::poly::ring::ring_coeff;
use crate::poly::rq::is_centered_q;
use crate::poly::rq::reduced_3;
use crate::poly::rq::ring_product_q;
use crate::poly::rq::scaled_q;
use crate::poly::rq::Rq;

verus! {

/// Length of a ciphertext with room for the confirmation hash behind it.
pub const CIPHERTEXTS_BYTES_HASH_BYTES: usize = CIPHERTEXTS_BYTES + HASH_BYTES;

/// The polynomial part of a ciphertext: the product of the generator `g` and
/// the short polynomial `b`, rounded to multiples of 3.
pub open spec fn lpr_outer(g: Seq<int>, b: Seq<int>) -> Seq<int> {
    rounded(ring_product_q(g, b))
}

/// The nibble part of a ciphertext: coefficient `i` of the product of the
/// public polynomial `a` and `b`, plus `Q12` times the input coefficient
/// `r[i]`, reduced and rounded to a nibble, for the first `I` coefficients.
pub open spec fn lpr_top(r: Seq<int>, a: Seq<int>, b: Seq<int>) -> Seq<int> {
    Seq::new(
        I as nat,
        |i: int| top_spec(fq::freeze_spec(ring_product_q(a, b)[i] + r[i] * Q12)),
    )
}

/// The fallback of the weight check: `W` ones followed by zeros.
pub open spec fn fallback(n: nat) -> Seq<int> {
    Seq::new(
        n,
        |i: int|
            if i < W {
                1int
            } else {
                0int
            },
    )
}

/// The candidate `ev` when it has weight `W`, the fallback otherwise.
pub open spec fn weight_checked(ev: Seq<int>) -> Seq<int> {
    if weight(ev) == W {
        ev
    } else {
        fallback(ev.len())
    }
}

/// The candidate that decryption reconstructs from the ciphertext `c` with
/// the private key `f`, `ginv`: `3 * f * c` is reduced modulo `Q`, then
/// modulo 3, and multiplied by `ginv`.
pub open spec fn candidate(c: Seq<int>, f: Seq<int>, ginv: Seq<int>) -> Seq<int> {
    ring_product_3(reduced_3(scaled_q(ring_product_q(c, reduced_3(f)), 3)), ginv)
}

/// The rounded product of two ring elements has centered coefficients.
pub proof fn lemma_rounded_product_is_reduced(g: Seq<int>, b: Seq<int>)
    ensures
        is_centered_q(rounded(ring_product_q(g, b))),
{
    assert forall|i: int| 0 <= i < g.len() implies is_centered(
        #[trigger] rounded(ring_product_q(g, b))[i],
        Q as int,
    ) by {
        lemma_centered_residue(ring_coeff(g, b, i), Q as int);
        lemma_round(ring_product_q(g, b)[i]);
    }
}

/// The fallback of `n >= W` coefficients has `W` odd ones among its first
/// `k`, as far as `k` reaches.
proof fn lemma_fallback_count(n: nat, k: nat)
    requires
        k <= n,
    ensures
        odd_count(fallback(n), k) == (if k <= W {
            k as int
        } else {
            W as int
        }),
    decreases k,
{
    if k > 0 {
        lemma_fallback_count(n, (k - 1) as nat);
    }
}

/// A candidate of weight `W` passes the weight check unchanged.
pub proof fn lemma_weight_checked_keeps(ev: Seq<int>)
    requires
        weight(ev) == W,
    ensures
        weight_checked(ev) == ev,
{
}

/// What passed the weight check passes it again unchanged.
pub proof fn lemma_weight_checked_idempotent(ev: Seq<int>)
    requires
        ev.len() >= W,
    ensures
        weight(weight_checked(ev)) == W,
        weight_checked(weight_checked(ev)) == weight_checked(ev),
{
    lemma_fallback_count(ev.len(), ev.len());
}

/// With a mask of zero the pattern for the first `W` places keeps the value,
/// with a mask of all ones it gives 1.
proof fn lemma_select_first(v: i8, mask: i16)
    by (bit_vector)
    requires
        mask == 0 || mask == -1,
    ensures
        ((((v ^ 1) as i16) & !mask) ^ 1) as i8 == (if mask == 0 {
            v
        } else {
            1i8
        }),
{
}

/// With a mask of zero the pattern for the other places keeps the value,
/// with a mask of all ones it gives 0.
proof fn lemma_select_rest(v: i8, mask: i16)
    by (bit_vector)
    requires
        mask == 0 || mask == -1,
    ensures
        ((v as i16) & !mask) as i8 == (if mask == 0 {
            v
        } else {
            0i8
        }),
{
}

/// The candidate `ev` if it has weight `W`, else `W` ones followed by zeros.
/// The choice is made with a mask: every coefficient is read and written,
/// and no step depends on which of the two it is.
pub fn masked_weight_check(ev: &R3) -> (r: R3)
    ensures
        r@ == weight_checked(ev@),
        ev.is_reduced() ==> r.is_reduced(),
{
    let mut r: [i8; P] = [0i8; P];
    let mask: i16 = weightw_mask(&ev.coeffs);
    let mut i: usize = 0;
    while i < W
        invariant
            0 <= i <= W,
            mask == 0 || mask == -1,
            forall|k: int|
                0 <= k < i ==> r@[k] == (if mask == 0 {
                    ev.coeffs@[k]
                } else {
                    1i8
                }),
        decreases W - i,
    {
        let v: i8 = ev.coeffs[i];
        proof {
            lemma_select_first(v, mask);
        }
        r[i] = #[verifier::truncate] (((((v ^ 1) as i16) & !mask) ^ 1) as i8);
        i += 1;
    }
    while i < P
        invariant
            W <= i <= P,
            mask == 0 || mask == -1,
            forall|k: int|
                0 <= k < W ==> r@[k] == (if mask == 0 {
                    ev.coeffs@[k]
                } else {
                    1i8
                }),
            forall|k: int|
                W <= k < i ==> r@[k] == (if mask == 0 {
                    ev.coeffs@[k]
                } else {
                    0i8
                }),
        decreases P - i,
    {
        let v: i8 = ev.coeffs[i];
        proof {
            lemma_select_rest(v, mask);
        }
        r[i] = #[verifier::truncate] (((v as i16) & !mask) as i8);
        i += 1;
    }
    let out: R3 = R3::from(r);
    assert(out@ =~= weight_checked(ev@));
    out
}

/// Encrypts the input `r` under the generator `g` and the public polynomial
/// `a` with the short polynomial `b`: returns the rounded product of `g` and
/// `b`, and writes to `t` the nibbles that carry `r`.
pub fn lpr_encrypt(t: &mut [i8; I], r: &R3, g: &Rq, a: &Rq, b: &R3) -> (out: Rq)
    ensures
        out@ == lpr_outer(g@, b@),
        out.is_reduced(),
        as_ints(final(t)@) == lpr_top(r@, a@, b@),
{
    let mut out: Rq = g.mult_r3(b);
    let ba: Rq = a.mult_r3(b);
    proof {
        assert forall|i: int| 0 <= i < P implies out.coeffs@[i] > i16::MIN by {
            assert(is_centered(out@[i], Q as int));
        }
    }
    round(&mut out.coeffs);
    let mut i: usize = 0;
    while i < I
        invariant
            0 <= i <= I,
            ba@ == ring_product_q(a@, b@),
            ba.is_reduced(),
            forall|k: int|
                0 <= k < i ==> t@[k] as int == top_spec(
                    fq::freeze_spec(ba@[k] + r@[k] * Q12),
                ),
        decreases I - i,
    {
        assert(is_centered(ba@[i as int], Q as int));
        let v: i32 = ba.coeffs[i] as i32 + (r.coeffs[i] as i32) * (Q12 as i32);
        t[i] = top(fq::freeze(v));
        i += 1;
    }
    proof {
        assert(out@ =~= lpr_outer(g@, b@));
        assert(as_ints(t@) =~= lpr_top(r@, a@, b@));
        lemma_rounded_product_is_reduced(g@, b@);
    }
    out
}

/// Decrypts the ciphertext `c` with the private key `f`, `ginv`: the
/// candidate if it has weight `W`, else the fallback.
pub fn rq_decrypt(c: &Rq, f: &Rq, ginv: &R3) -> (r: R3)
    ensures
        r@ == weight_checked(candidate(c@, f@, ginv@)),
        r.is_reduced(),
{
    let cf: Rq = c.mult_r3(&f.r3_from_rq());
    let cf3: Rq = cf.mult3();
    let e: R3 = cf3.r3_from_rq();
    let ev: R3 = e.mult(ginv);
    masked_weight_check(&ev)
}

/// Encrypts the input `r` itself under the public key `h`: their product,
/// rounded to multiples of 3.
pub fn r3_encrypt(r: &R3, h: &Rq) -> (out: Rq)
    ensures
        out@ == rounded(ring_product_q(h@, r@)),
        out.is_reduced(),
{
    let mut hr: Rq = h.mult_r3(r);
    let ghost product: Seq<int> = hr@;
    proof {
        assert forall|i: int| 0 <= i < P implies hr.coeffs@[i] > i16::MIN by {
            assert(is_centered(hr@[i], Q as int));
        }
    }
    round(&mut hr.coeffs);
    proof {
        assert(hr@ =~= rounded(product));
        lemma_rounded_product_is_reduced(h@, r@);
    }
    Rq::from(hr.coeffs)
}

/// What `x_encrypt` may return with `generator` and `hash_short`, and what
/// it leaves in `t` (`t0` before the call). The generator is derived first;
/// an error of either derivation is returned as it is, and `t` is then
/// untouched.
pub open spec fn x_encrypt_outcome<G, H>(
    generator: G,
    hash_short: H,
    r: R3,
    pk_seed: [u8; SEEDS_BYTES],
    a: Rq,
    t0: Seq<i8>,
    res: Result<Rq, NTRUErrors<'static>>,
    t: Seq<i8>,
) -> bool where
    G: Fn([u8; SEEDS_BYTES]) -> Result<[i16; P], NTRUErrors<'static>>,
    H: Fn([i8; P]) -> Result<[i8; P], NTRUErrors<'static>>,
 {
    exists|g: Result<[i16; P], NTRUErrors<'static>>|
        {
            &&& #[trigger] generator.ensures((pk_seed,), g)
            &&& match g {
                Err(e) => res == Err::<Rq, NTRUErrors<'static>>(e) && t == t0,
                Ok(gc) => exists|b: Result<[i8; P], NTRUErrors<'static>>|
                    {
                        &&& #[trigger] hash_short.ensures((r.coeffs,), b)
                        &&& match b {
                            Err(e) => res == Err::<Rq, NTRUErrors<'static>>(e) && t == t0,
                            Ok(bc) => {
                                &&& res is Ok
                                &&& res->Ok_0@ == lpr_outer(
                                    (Rq { coeffs: gc })@,
                                    (R3 { coeffs: bc })@,
                                )
                                &&& as_ints(t) == lpr_top(r@, a@, (R3 { coeffs: bc })@)
                            },
                        }
                    },
            }
        }
}

/// Encrypts the input `r` under the public polynomial `a` and the seed
/// `pk_seed`: derives the generator from the seed with `generator` and the
/// short polynomial from `r` with `hash_short`, then encrypts as
/// `lpr_encrypt` does.
pub fn x_encrypt<G, H>(
    t: &mut [i8; I],
    r: &R3,
    pk_seed: &[u8; SEEDS_BYTES],
    a: &Rq,
    generator: G,
    hash_short: H,
) -> (res: Result<Rq, NTRUErrors<'static>>) where
    G: Fn([u8; SEEDS_BYTES]) -> Result<[i16; P], NTRUErrors<'static>>,
    H: Fn([i8; P]) -> Result<[i8; P], NTRUErrors<'static>>,

    requires
        generator.requires((*pk_seed,)),
        hash_short.requires((r.coeffs,)),
    ensures
        x_encrypt_outcome(generator, hash_short, *r, *pk_seed, *a, old(t)@, res, final(t)@),
{
    let derived: Result<[i16; P], NTRUErrors<'static>> = generator(*pk_seed);
    let g: Rq = match derived {
        Ok(coeffs) => Rq::from(coeffs),
        Err(e) => {
            return Err(e);
        },
    };
    let hashed: Result<[i8; P], NTRUErrors<'static>> = hash_short(r.coeffs);
    let b: R3 = match hashed {
        Ok(coeffs) => R3::from(coeffs),
        Err(e) => {
            return Err(e);
        },
    };
    let out: Rq = lpr_encrypt(t, r, &g, a, &b);
    Ok(out)
}

/// `I` nibbles that are zero.
pub open spec fn zero_nibbles() -> Seq<i8> {
    Seq::new(I as nat, |i: int| 0i8)
}

/// The bytes of a ciphertext: the encoded polynomial part, the packed
/// nibbles, and `HASH_BYTES` zero bytes where the confirmation hash goes.
pub open spec fn ciphertext_bytes(encoded: Seq<u8>, t: Seq<i8>) -> Seq<u8> {
    encoded + packed_nibbles(t) + Seq::new(HASH_BYTES as nat, |i: int| 0u8)
}

/// What `z_encrypt` may return for a public key of the right length: the
/// seed is its first `SEEDS_BYTES` bytes, the rest is decoded to the public
/// polynomial; an error of `x_encrypt` is returned as it is.
pub open spec fn z_encrypt_outcome<G, H, D, E>(
    generator: G,
    hash_short: H,
    rounded_decode: D,
    rounded_encode: E,
    r: R3,
    pk: Seq<u8>,
    res: Result<[u8; CIPHERTEXTS_BYTES_HASH_BYTES], NTRUErrors<'static>>,
) -> bool where
    G: Fn([u8; SEEDS_BYTES]) -> Result<[i16; P], NTRUErrors<'static>>,
    H: Fn([i8; P]) -> Result<[i8; P], NTRUErrors<'static>>,
    D: Fn([u8; ROUNDED_BYTES]) -> [i16; P],
    E: Fn([i16; P]) -> [u8; ROUNDED_BYTES],
 {
    exists|
        pk_seed: [u8; SEEDS_BYTES],
        pk_rounded: [u8; ROUNDED_BYTES],
        a: [i16; P],
        outer: Result<Rq, NTRUErrors<'static>>,
        t: Seq<i8>,
    |
        {
            &&& pk_seed@ == pk.subrange(0, SEEDS_BYTES as int)
            &&& pk_rounded@ == pk.subrange(SEEDS_BYTES as int, PUBLICKEYS_BYTES as int)
            &&& #[trigger] rounded_decode.ensures((pk_rounded,), a)
            &&& #[trigger] x_encrypt_outcome(
                generator,
                hash_short,
                r,
                pk_seed,
                Rq { coeffs: a },
                zero_nibbles(),
                outer,
                t,
            )
            &&& match outer {
                Err(e) => res == Err::<[u8; CIPHERTEXTS_BYTES_HASH_BYTES], NTRUErrors<'static>>(e),
                Ok(c) => exists|encoded: [u8; ROUNDED_BYTES]|
                    {
                        &&& #[trigger] rounded_encode.ensures((c.coeffs,), encoded)
                        &&& res is Ok
                        &&& res->Ok_0@ == ciphertext_bytes(encoded@, t)
                    },
            }
        }
}

/// `res` is the error `PubKey` with the text `reason`.
pub open spec fn is_pub_key_error(
    res: Result<[u8; CIPHERTEXTS_BYTES_HASH_BYTES], NTRUErrors<'static>>,
    reason: Seq<char>,
) -> bool {
    match res {
        Err(NTRUErrors::PubKey(text)) => text@ == reason,
        _ => false,
    }
}

/// The `N` bytes of `bytes` that start at `from`.
fn copy_bytes<const N: usize>(bytes: &[u8], from: usize) -> (out: [u8; N])
    requires
        from + N <= bytes@.len(),
    ensures
        out@ == bytes@.subrange(from as int, from + N),
{
    let mut out: [u8; N] = [0u8; N];
    let len: usize = bytes.len();
    let mut i: usize = 0;
    while i < N
        invariant
            0 <= i <= N,
            from + N <= len,
            len == bytes@.len(),
            forall|k: int| 0 <= k < i ==> out@[k] == bytes@[from + k],
        decreases N - i,
    {
        out[i] = bytes[from + i];
        i += 1;
    }
    assert(out@ =~= bytes@.subrange(from as int, from + N));
    out
}

/// Encrypts the input `r` under the public key `pk`, a seed followed by an
/// encoded rounded ring element, and returns the ciphertext bytes: the
/// encoded polynomial part, then the packed nibbles, then room for the
/// confirmation hash.
///
/// A key with fewer than `SEEDS_BYTES` bytes is refused with
/// `PubKey("Incorrect PubKey Seed")`, one whose remaining part does not have
/// `ROUNDED_BYTES` bytes with `PubKey("Incorrect PubKey")`.
pub fn z_encrypt<G, H, D, E>(
    r: &R3,
    pk: &[u8],
    generator: G,
    hash_short: H,
    rounded_decode: D,
    rounded_encode: E,
) -> (res: Result<[u8; CIPHERTEXTS_BYTES_HASH_BYTES], NTRUErrors<'static>>) where
    G: Fn([u8; SEEDS_BYTES]) -> Result<[i16; P], NTRUErrors<'static>>,
    H: Fn([i8; P]) -> Result<[i8; P], NTRUErrors<'static>>,
    D: Fn([u8; ROUNDED_BYTES]) -> [i16; P],
    E: Fn([i16; P]) -> [u8; ROUNDED_BYTES],

    requires
        forall|s: [u8; SEEDS_BYTES]| generator.requires((s,)),
        hash_short.requires((r.coeffs,)),
        forall|s: [u8; ROUNDED_BYTES]| rounded_decode.requires((s,)),
        forall|c: [i16; P]| rounded_encode.requires((c,)),
    ensures
        pk@.len() < SEEDS_BYTES ==> is_pub_key_error(res, "Incorrect PubKey Seed"@),
        SEEDS_BYTES <= pk@.len() && pk@.len() != PUBLICKEYS_BYTES ==> is_pub_key_error(
            res,
            "Incorrect PubKey"@,
        ),
        pk@.len() == PUBLICKEYS_BYTES ==> z_encrypt_outcome(
            generator,
            hash_short,
            rounded_decode,
            rounded_encode,
            *r,
            pk@,
            res,
        ),
{
    if pk.len() < SEEDS_BYTES {
        return Err(NTRUErrors::PubKey("Incorrect PubKey Seed"));
    }
    let pk_seed: [u8; SEEDS_BYTES] = copy_bytes::<SEEDS_BYTES>(pk, 0);
    if pk.len() - SEEDS_BYTES != ROUNDED_BYTES {
        return Err(NTRUErrors::PubKey("Incorrect PubKey"));
    }
    let pk_rounded: [u8; ROUNDED_BYTES] = copy_bytes::<ROUNDED_BYTES>(pk, SEEDS_BYTES);
    let decoded: [i16; P] = rounded_decode(pk_rounded);
    let a: Rq = Rq::from(decoded);
    let mut t: [i8; I] = [0i8; I];
    let mut out: [u8; CIPHERTEXTS_BYTES_HASH_BYTES] = [0u8; CIPHERTEXTS_BYTES_HASH_BYTES];
    let ghost t0: Seq<i8> = t@;
    assert(t0 =~= zero_nibbles());
    let outer: Result<Rq, NTRUErrors<'static>> = x_encrypt(
        &mut t,
        r,
        &pk_seed,
        &a,
        generator,
        hash_short,
    );
    let b: Rq = match outer {
        Ok(b) => b,
        Err(e) => {
            return Err(e);
        },
    };
    let encoded: [u8; ROUNDED_BYTES] = rounded_encode(b.coeffs);
    let mut i: usize = 0;
    while i < ROUNDED_BYTES
        invariant
            0 <= i <= ROUNDED_BYTES,
            forall|k: int| 0 <= k < i ==> out@[k] == encoded@[k],
            forall|k: int| i <= k < CIPHERTEXTS_BYTES_HASH_BYTES ==> out@[k] == 0,
        decreases ROUNDED_BYTES - i,
    {
        out[i] = encoded[i];
        i += 1;
    }
    top_encode::<CIPHERTEXTS_BYTES_HASH_BYTES, ROUNDED_BYTES>(&mut out, &t);
    proof {
        let nibbles: Seq<u8> = out@.subrange(ROUNDED_BYTES as int, ROUNDED_BYTES + TOP_BYTES);
        assert(nibbles == packed_nibbles(t@));
        assert forall|k: int| 0 <= k < CIPHERTEXTS_BYTES_HASH_BYTES implies out@[k]
            == ciphertext_bytes(encoded@, t@)[k] by {
            if ROUNDED_BYTES <= k < CIPHERTEXTS_BYTES {
                assert(out@[k] == nibbles[k - ROUNDED_BYTES]);
            }
        }
        assert(out@ =~= ciphertext_bytes(encoded@, t@));
    }
    Ok(out)
}

} // verus!
