//! Polynomials with 16-bit coefficients that carry their own length, and
//! their product in the ring `Z_m[x]/(x^n - x - 1)` for coefficients that
//! are not negative.

use vstd::prelude::*;
use vstd::arithmetic::div_mod::lemma_add_mod_noop;
use vstd::arithmetic::div_mod::lemma_mod_twice;
use rand::rngs::ThreadRng;
use rand::Rng;
use crate::math::modular::congruent;
use crate::math::modular::lemma_congruent_multiple;
use crate::poly::ring::conv;
use crate::poly::ring::conv_sum;
use crate::poly::ring::conv_term;
use crate::poly::ring::lemma_conv_low;
use crate::poly::ring::lemma_conv_sum_zero;
use crate::poly::ring::ring_coeff;

verus! {

/// A polynomial of `n` coefficients: coefficient `i` belongs to `x^i`.
#[derive(Debug)]
pub struct NtruIntPoly {
    pub n: usize,
    pub coeffs: Vec<i16>,
}

impl View for NtruIntPoly {
    type V = Seq<int>;

    open spec fn view(&self) -> Seq<int> {
        Seq::new(self.coeffs@.len(), |i: int| self.coeffs@[i] as int)
    }
}

/// The generator of random numbers of `rand` that belongs to the calling
/// thread. Nothing is known of its state.
#[verifier::external_type_specification]
#[verifier::external_body]
pub struct ExThreadRng(rand::rngs::ThreadRng);

/// `rand::thread_rng` hands out the generator of the calling thread. On its
/// first call in a thread it seeds the generator from the system, and
/// panics where the system gives no seed; nothing is claimed of the result.
pub assume_specification[ rand::thread_rng ]() -> (rng: ThreadRng);

/// Calls `rand::Rng::gen` for a `u32`: the next random number of `rng`.
/// Every `u32` may come. The generator takes a fresh seed from the system
/// from time to time, and the call panics only where that fails.
#[verifier::external_body]
fn next_u32(rng: &mut ThreadRng) -> (entropy: u32) {
    rng.gen::<u32>()
}

impl NtruIntPoly {
    /// `n` is the number of coefficients.
    pub open spec fn wf(&self) -> bool {
        self.n == self.coeffs@.len()
    }

    /// A polynomial of `n` random coefficients, each 0, 1 or 2, drawn from
    /// the generator of the calling thread.
    pub fn new(n: usize) -> (r: Self)
        ensures
            r.wf(),
            r.n == n,
            forall|i: int| 0 <= i < n ==> 0 <= #[trigger] r@[i] < 3,
    {
        let mut rng: ThreadRng = rand::thread_rng();
        let mut coeffs: Vec<i16> = Vec::new();
        let mut i: usize = 0;
        while i < n
            invariant
                0 <= i <= n,
                coeffs@.len() == i,
                forall|k: int| 0 <= k < i ==> 0 <= #[trigger] coeffs@[k] < 3,
            decreases n - i,
        {
            let entropy: u32 = next_u32(&mut rng);
            coeffs.push((entropy % 3) as i16);
            i += 1;
        }
        NtruIntPoly { n, coeffs }
    }

    /// The polynomial of `n` coefficients that are zero.
    pub fn from_zero(n: usize) -> (r: Self)
        ensures
            r.wf(),
            r.n == n,
            forall|i: int| 0 <= i < n ==> r@[i] == 0,
    {
        let mut coeffs: Vec<i16> = Vec::new();
        let mut i: usize = 0;
        while i < n
            invariant
                0 <= i <= n,
                coeffs@.len() == i,
                forall|k: int| 0 <= k < i ==> coeffs@[k] == 0,
            decreases n - i,
        {
            coeffs.push(0i16);
            i += 1;
        }
        NtruIntPoly { n, coeffs }
    }

    /// Whether every coefficient is zero.
    pub fn equals_zero(&self) -> (r: bool)
        ensures
            r <==> forall|i: int| 0 <= i < self@.len() ==> self@[i] == 0,
    {
        let mut i: usize = 0;
        while i < self.coeffs.len()
            invariant
                0 <= i <= self@.len(),
                forall|k: int| 0 <= k < i ==> self@[k] == 0,
            decreases self@.len() - i,
        {
            if self.coeffs[i] != 0 {
                assert(self@[i as int] != 0);
                return false;
            }
            i += 1;
        }
        true
    }

    /// The greatest index of a coefficient that is not zero, and 0 where
    /// every coefficient is zero. The polynomial has a coefficient.
    pub fn get_poly_degree(&self) -> (r: usize)
        requires
            self.wf(),
            self.n >= 1,
        ensures
            r < self.n,
            forall|i: int| r < i < self.n ==> self@[i] == 0,
            r > 0 ==> self@[r as int] != 0,
    {
        let mut i: usize = self.n - 1;
        while i > 0
            invariant
                0 <= i < self.n,
                self.wf(),
                forall|k: int| i < k < self.n ==> self@[k] == 0,
            decreases i,
        {
            if self.coeffs[i] != 0 {
                return i;
            }
            i -= 1;
        }
        0
    }
}

/// Every value of `a` is at least zero.
pub open spec fn is_nonnegative(a: Seq<int>) -> bool {
    forall|i: int| 0 <= i < a.len() ==> 0 <= #[trigger] a[i]
}

/// The product of `a` and `b` in `Z[x]/(x^n - x - 1)` with every coefficient
/// replaced by its remainder by `m`.
pub open spec fn ring_product_mod(a: Seq<int>, b: Seq<int>, m: int) -> Seq<int> {
    Seq::new(a.len(), |k: int| ring_coeff(a, b, k) % m)
}

/// Greatest number of coefficients for which a coefficient of a product is
/// summed in `u64` without a check.
pub const MAX_COEFFS: usize = 0x4000_0000;

/// A sum of `n` products of 16-bit values that are not negative is at most
/// `n * 2^30`.
proof fn lemma_conv_sum_bound(a: Seq<int>, b: Seq<int>, i: int, n: nat)
    requires
        forall|j: int| 0 <= j < a.len() ==> 0 <= #[trigger] a[j] <= i16::MAX,
        forall|j: int| 0 <= j < b.len() ==> 0 <= #[trigger] b[j] <= i16::MAX,
    ensures
        0 <= conv_sum(a, b, i, n) <= n * 0x4000_0000,
    decreases n,
{
    if n > 0 {
        lemma_conv_sum_bound(a, b, i, (n - 1) as nat);
        let j: int = n - 1;
        if 0 <= j < a.len() && 0 <= i - j < b.len() {
            assert(0 <= a[j] * b[i - j] <= 0x4000_0000) by (nonlinear_arith)
                requires
                    0 <= a[j] <= 0x7fff,
                    0 <= b[i - j] <= 0x7fff,
            ;
        }
    }
}

/// Sets `c` to the product of `a` and `b` in the ring of polynomials modulo
/// `x^n - x - 1` with coefficients modulo `modulus`, and returns `true`; or
/// returns `false`, with `c` untouched, where `a` and `b` differ in length,
/// whatever they hold. Where a product is taken, the coefficients of `a` and
/// `b` are not negative, as a sum is taken without signs, and `modulus` is
/// at most `2^15`, as a remainder becomes a coefficient.
pub fn ntruprime_mult_poly(
    a: &NtruIntPoly,
    b: &NtruIntPoly,
    c: &mut NtruIntPoly,
    modulus: u16,
) -> (done: bool)
    requires
        a.n == b.n ==> {
            &&& a.wf()
            &&& b.wf()
            &&& a.n <= MAX_COEFFS
            &&& 0 < modulus <= 0x8000
            &&& is_nonnegative(a@)
            &&& is_nonnegative(b@)
        },
    ensures
        done <==> a.n == b.n,
        !done ==> *final(c) == *old(c),
        done ==> final(c).wf() && final(c).n == a.n && final(c)@ == ring_product_mod(
            a@,
            b@,
            modulus as int,
        ),
{
    let n: usize = a.n;
    if n != b.n {
        return false;
    }
    let ghost sa: Seq<int> = a@;
    let ghost sb: Seq<int> = b@;
    let ghost m: int = modulus as int;
    let zero: NtruIntPoly = NtruIntPoly::from_zero(n);
    c.n = n;
    c.coeffs = zero.coeffs;
    assert forall|j: int| 0 <= j < n implies c.coeffs@[j] == 0 by {
        assert(zero@[j] == 0);
    }
    let mut k: usize = 0;
    while k < n
        invariant
            0 <= k <= n,
            n == a.n,
            n == b.n,
            n <= MAX_COEFFS,
            a.wf(),
            b.wf(),
            c.n == n,
            c.coeffs@.len() == n,
            sa == a@,
            sb == b@,
            m == modulus,
            0 < modulus <= 0x8000,
            is_nonnegative(sa),
            is_nonnegative(sb),
            forall|j: int| 0 <= j < k ==> #[trigger] c.coeffs@[j] as int == ring_coeff(sa, sb, j) % m,
            k < n ==> c.coeffs@[k as int] as int == (if k >= 1 {
                conv(sa, sb, k + n - 1) % m
            } else {
                0
            }),
            forall|j: int| k < j < n ==> #[trigger] c.coeffs@[j] == 0,
        decreases n - k,
    {
        proof {
            assert forall|j: int| 0 <= j < sa.len() implies 0 <= #[trigger] sa[j] <= i16::MAX by {
                assert(sa[j] == a.coeffs@[j]);
            }
            assert forall|j: int| 0 <= j < sb.len() implies 0 <= #[trigger] sb[j] <= i16::MAX by {
                assert(sb[j] == b.coeffs@[j]);
            }
        }
        let mut ck1: u64 = 0;
        let mut i: usize = 0;
        while i <= k
            invariant
                0 <= i <= k + 1,
                k < n,
                n == a.n,
                n == b.n,
                n <= MAX_COEFFS,
                a.wf(),
                b.wf(),
                sa == a@,
                sb == b@,
                forall|j: int| 0 <= j < sa.len() ==> 0 <= #[trigger] sa[j] <= i16::MAX,
                forall|j: int| 0 <= j < sb.len() ==> 0 <= #[trigger] sb[j] <= i16::MAX,
                ck1 as int == conv_sum(sa, sb, k as int, i as nat),
            decreases k + 1 - i,
        {
            proof {
                lemma_conv_sum_bound(sa, sb, k as int, i as nat);
                lemma_conv_sum_bound(sa, sb, k as int, (i + 1) as nat);
                assert(conv_term(sa, sb, k as int, i as int) == sa[i as int] * sb[k - i]);
                assert(0 <= sa[i as int] * sb[k - i] <= 0x4000_0000) by (nonlinear_arith)
                    requires
                        0 <= sa[i as int] <= 0x7fff,
                        0 <= sb[k - i] <= 0x7fff,
                ;
            }
            ck1 += (a.coeffs[i] as u64) * (b.coeffs[k - i] as u64);
            i += 1;
        }
        let mut ck2: u64 = 0;
        let mut i: usize = k + 1;
        proof {
            lemma_conv_low(sa, sb, k as int);
            lemma_conv_sum_zero(sa, sb, k + n, (k + 1) as nat);
        }
        while i < n
            invariant
                k + 1 <= i <= n,
                k < n,
                n == a.n,
                n == b.n,
                n <= MAX_COEFFS,
                a.wf(),
                b.wf(),
                sa == a@,
                sb == b@,
                forall|j: int| 0 <= j < sa.len() ==> 0 <= #[trigger] sa[j] <= i16::MAX,
                forall|j: int| 0 <= j < sb.len() ==> 0 <= #[trigger] sb[j] <= i16::MAX,
                ck2 as int == conv_sum(sa, sb, k + n, i as nat),
            decreases n - i,
        {
            proof {
                lemma_conv_sum_bound(sa, sb, k + n, i as nat);
                lemma_conv_sum_bound(sa, sb, k + n, (i + 1) as nat);
                assert(conv_term(sa, sb, k + n, i as int) == sa[i as int] * sb[k + n - i]);
                assert(0 <= sa[i as int] * sb[k + n - i] <= 0x4000_0000) by (nonlinear_arith)
                    requires
                        0 <= sa[i as int] <= 0x7fff,
                        0 <= sb[k + n - i] <= 0x7fff,
                ;
            }
            ck2 += (a.coeffs[i] as u64) * (b.coeffs[k + n - i] as u64);
            i += 1;
        }
        proof {
            lemma_conv_sum_bound(sa, sb, k as int, (k + 1) as nat);
            lemma_conv_sum_bound(sa, sb, k + n, n as nat);
        }
        let carry: i16 = c.coeffs[k];
        let ck: u64 = carry as u64 + ck1 + ck2;
        let low: u64 = ck % (modulus as u64);
        proof {
            let carried: int = if k >= 1 {
                conv(sa, sb, k + n - 1)
            } else {
                0
            };
            assert(carry as int == carried % m);
            assert(ck2 as int == conv(sa, sb, k + n));
            if k + n > 2 * n - 2 {
                lemma_conv_sum_zero(sa, sb, k + n, n as nat);
            }
            lemma_add_mod_noop(carried, ck1 + ck2, m);
            lemma_mod_twice(carried, m);
            lemma_add_mod_noop(carried % m, ck1 + ck2, m);
            assert(low as int == ring_coeff(sa, sb, k as int) % m);
        }
        c.coeffs[k] = low as i16;
        if k < n - 1 {
            let next: i16 = c.coeffs[k + 1];
            let ck: u64 = next as u64 + ck2;
            c.coeffs[k + 1] = (ck % (modulus as u64)) as i16;
        }
        k += 1;
    }
    assert(c@ =~= ring_product_mod(sa, sb, m));
    true
}

/// The greatest common divisor of `a` and `b`, by Euclid's algorithm.
pub open spec fn gcd(a: nat, b: nat) -> nat
    decreases b,
{
    if b == 0 {
        a
    } else {
        gcd(b, a % b)
    }
}

/// The coefficient of the first argument in the combination that gives the
/// greatest common divisor, as Euclid's algorithm carries it along: `last`
/// belongs to `a`, `next` to `b`.
pub open spec fn euclid_coefficient(a: nat, b: nat, last: int, next: int) -> int
    decreases b,
{
    if b == 0 {
        last
    } else {
        euclid_coefficient(b, a % b, next, last - (a / b) * next)
    }
}

/// What `ntruprime_inv_int` returns: the coefficient of `a`, made not
/// negative by adding `m` once.
pub open spec fn inv_int_spec(a: nat, m: nat) -> int {
    let s: int = euclid_coefficient(a, m, 1, 0);
    if s < 0 {
        s + m
    } else {
        s
    }
}

/// Euclid's algorithm ends with a combination of `a0` and `m0` that gives
/// the greatest common divisor of the remainders it started from; the
/// result is the other coefficient of that combination.
proof fn lemma_euclid_coefficient(
    a0: int,
    m0: int,
    ra: nat,
    rb: nat,
    lx: int,
    x: int,
    ly: int,
    y: int,
) -> (t: int)
    requires
        lx * a0 + ly * m0 == ra,
        x * a0 + y * m0 == rb,
    ensures
        euclid_coefficient(ra, rb, lx, x) * a0 + t * m0 == gcd(ra, rb),
    decreases rb,
{
    if rb == 0 {
        ly
    } else {
        let q: int = (ra / rb) as int;
        vstd::arithmetic::div_mod::lemma_fundamental_div_mod(ra as int, rb as int);
        assert((lx - q * x) * a0 + (ly - q * y) * m0 == ra % rb) by (nonlinear_arith)
            requires
                lx * a0 + ly * m0 == ra,
                x * a0 + y * m0 == rb,
                ra == rb * q + ra % rb,
        ;
        lemma_euclid_coefficient(a0, m0, rb, ra % rb, x, lx - q * x, y, ly - q * y)
    }
}

/// The result of `ntruprime_inv_int` times `a` is the greatest common
/// divisor of `a` and `m`, modulo `m`: where that is 1, the result is the
/// inverse of `a`.
pub proof fn lemma_inv_int(a: nat, m: nat)
    requires
        m > 0,
    ensures
        congruent(inv_int_spec(a, m) * a, gcd(a, m) as int, m as int),
{
    assert(1 * a + 0 * m == a && 0 * a + 1 * m == m) by (nonlinear_arith);
    let t: int = lemma_euclid_coefficient(a as int, m as int, a, m, 1, 0, 0, 1);
    let s: int = euclid_coefficient(a, m, 1, 0);
    let g: int = gcd(a, m) as int;
    if s < 0 {
        assert((s + m) * a - g == (a - t) * m) by (nonlinear_arith)
            requires
                s * a + t * m == g,
        ;
        lemma_congruent_multiple((s + m) * a, g, a - t, m as int);
    } else {
        assert(s * a - g == (-t) * m) by (nonlinear_arith)
            requires
                s * a + t * m == g,
        ;
        lemma_congruent_multiple(s * a, g, -t, m as int);
    }
}

/// The two remainders `ra`, `rb` that Euclid's algorithm has reached from
/// `a0` and `m0`, with their coefficients: `lx * a0 + ly * m0 == ra` and
/// `x * a0 + y * m0 == rb`. The coefficients of one kind have opposite
/// signs, which change with every step (`even` tells which holds), and
/// their sizes are tied to the remainders.
pub open spec fn euclid_state(
    a0: int,
    m0: int,
    ra: int,
    rb: int,
    lx: int,
    x: int,
    ly: int,
    y: int,
    even: bool,
) -> bool {
    &&& 0 <= ra
    &&& 0 <= rb
    &&& lx * a0 + ly * m0 == ra
    &&& x * a0 + y * m0 == rb
    &&& -m0 <= x <= m0
    &&& -a0 <= y <= a0 || (y == 1 && ly == 0)
    &&& even ==> lx >= 0 && x <= 0 && ly <= 0 && y >= 0 && lx * rb - x * ra == m0 && y * ra - ly
        * rb == a0
    &&& !even ==> lx <= 0 && x >= 0 && ly >= 0 && y <= 0 && x * ra - lx * rb == m0 && ly * rb - y
        * ra == a0
}

/// One step of Euclid's algorithm keeps the state, and what it computes on
/// the way is no larger than `m0` and `a0`.
proof fn lemma_euclid_step(
    a0: int,
    m0: int,
    ra: int,
    rb: int,
    lx: int,
    x: int,
    ly: int,
    y: int,
    even: bool,
    q: int,
)
    requires
        euclid_state(a0, m0, ra, rb, lx, x, ly, y, even),
        0 <= a0,
        0 <= m0,
        rb > 0,
        q == ra / rb,
    ensures
        euclid_state(a0, m0, rb, ra % rb, x, lx - q * x, y, ly - q * y, !even),
        0 <= q,
        -m0 <= q * x <= m0,
        -a0 <= q * y <= a0,
        -a0 <= ly - q * y <= a0,
{
    vstd::arithmetic::div_mod::lemma_fundamental_div_mod(ra, rb);
    let r: int = ra % rb;
    assert(0 <= q) by (nonlinear_arith)
        requires
            ra == rb * q + r,
            0 <= r < rb,
            0 <= ra,
    ;
    let nx: int = lx - q * x;
    let ny: int = ly - q * y;
    assert(nx * a0 + ny * m0 == r) by (nonlinear_arith)
        requires
            nx == lx - q * x,
            ny == ly - q * y,
            lx * a0 + ly * m0 == ra,
            x * a0 + y * m0 == rb,
            ra == rb * q + r,
    ;
    assert(nx * rb - x * r == lx * rb - x * ra) by (nonlinear_arith)
        requires
            nx == lx - q * x,
            ra == rb * q + r,
    ;
    assert(y * r - ny * rb == y * ra - ly * rb) by (nonlinear_arith)
        requires
            ny == ly - q * y,
            ra == rb * q + r,
    ;
    if even {
        assert(q * x <= 0 && q * y >= 0) by (nonlinear_arith)
            requires
                x <= 0,
                y >= 0,
                q >= 0,
        ;
        assert(nx <= m0) by (nonlinear_arith)
            requires
                nx * rb - x * r == m0,
                nx >= 0,
                x <= 0,
                rb >= 1,
                r >= 0,
        ;
        assert(-ny <= a0) by (nonlinear_arith)
            requires
                y * r - ny * rb == a0,
                ny <= 0,
                y >= 0,
                rb >= 1,
                r >= 0,
        ;
    } else {
        assert(q * x >= 0 && q * y <= 0) by (nonlinear_arith)
            requires
                x >= 0,
                y <= 0,
                q >= 0,
        ;
        assert(-nx <= m0) by (nonlinear_arith)
            requires
                x * r - nx * rb == m0,
                nx <= 0,
                x >= 0,
                rb >= 1,
                r >= 0,
        ;
        assert(ny <= a0) by (nonlinear_arith)
            requires
                ny * rb - y * r == a0,
                ny >= 0,
                y <= 0,
                rb >= 1,
                r >= 0,
        ;
    }
}

/// The inverse of `a` modulo `modulus` by Euclid's algorithm, where the two
/// have no common divisor; in general the coefficient `s` of `a` in
/// `s * a + t * modulus == gcd(a, modulus)`, with `modulus` added where `s`
/// is negative. Both arguments are below `2^15`, as the algorithm works in
/// `i16`.
pub fn ntruprime_inv_int(a: u16, modulus: u16) -> (r: u16)
    requires
        a <= i16::MAX,
        modulus <= i16::MAX,
    ensures
        r as int == inv_int_spec(a as nat, modulus as nat),
{
    let mut a: u16 = a;
    let mut x: i16 = 0;
    let mut lastx: i16 = 1;
    let mut y: i16 = 1;
    let mut lasty: i16 = 0;
    let mut b: i16 = modulus as i16;
    let ghost a0: int = a as int;
    let ghost m0: int = modulus as int;
    let ghost even: bool = true;
    proof {
        assert(1 * a0 + 0 * m0 == a0 && 0 * a0 + 1 * m0 == m0 && 1 * m0 - 0 * a0 == m0 && 1 * a0
            - 0 * m0 == a0) by (nonlinear_arith);
    }
    while b != 0
        invariant
            0 <= a0 <= i16::MAX,
            0 <= m0 <= i16::MAX,
            m0 == modulus,
            a <= i16::MAX,
            euclid_state(
                a0,
                m0,
                a as int,
                b as int,
                lastx as int,
                x as int,
                lasty as int,
                y as int,
                even,
            ),
            -m0 <= lastx <= m0 || (lastx == 1 && x == 0),
            euclid_coefficient(a as nat, b as nat, lastx as int, x as int) == euclid_coefficient(
                a0 as nat,
                m0 as nat,
                1,
                0,
            ),
        decreases b,
    {
        proof {
            lemma_euclid_step(
                a0,
                m0,
                a as int,
                b as int,
                lastx as int,
                x as int,
                lasty as int,
                y as int,
                even,
                (a as int) / (b as int),
            );
            even = !even;
        }
        let quotient: i16 = (a as i16) / b;
        let temp: i16 = a as i16;
        a = b as u16;
        b = temp % b;
        let temp: i16 = x;
        x = lastx - quotient * x;
        lastx = temp;
        let temp: i16 = y;
        y = lasty - quotient * y;
        lasty = temp;
    }
    if lastx < 0 {
        lastx += modulus as i16;
    }
    lastx as u16
}

} // verus!
