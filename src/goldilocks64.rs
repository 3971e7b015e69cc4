//! The prime field of order `2^64 - 2^32 + 1`.
use vstd::prelude::*;
use vstd::arithmetic::div_mod::*;
use crate::field::Field;
use crate::rng::random_below;

verus! {

/// The field's order.
pub const MOD: u64 = 18446744069414584321;

/// `(MOD + 1) / 2`, the inverse of two.
pub const INV_2: u64 = 9223372034707292161;

/// An element of order `2^32`.
pub const ROOT_OF_UNITY: u64 = 2741030659394132017;

pub open spec fn p() -> int {
    MOD as int
}

/// Whether `x` has a multiplicative inverse modulo the field's order.
pub open spec fn is_unit_mod(x: int) -> bool {
    exists|c: int| #[trigger] ((x * c) % p()) == 1
}

pub open spec fn divides(d: int, x: int) -> bool {
    exists|k: int| x == #[trigger] (k * d)
}

/// Little-endian bytes of the `n` lowest base-256 digits of `v`.
pub open spec fn le_bytes(v: nat, n: nat) -> Seq<u8>
    decreases n,
{
    if n == 0 {
        Seq::empty()
    } else {
        seq![(v % 256) as u8] + le_bytes(v / 256, (n - 1) as nat)
    }
}

/// The same field under the name of its plain 64-bit implementation.
pub type Fp64 = Goldilocks64;

/// An element of the field, held in canonical form below `MOD`.
#[derive(Clone, Copy, Debug, PartialEq, Eq, Structural)]
pub struct Goldilocks64 {
    v: u64,
}

impl Goldilocks64 {
    pub closed spec fn value(self) -> int {
        self.v as int
    }

    pub closed spec fn of(x: int) -> Goldilocks64 {
        Goldilocks64 { v: (x % p()) as u64 }
    }

    /// The canonical value of the element.
    pub fn as_u64(self) -> (r: u64)
        ensures
            r == self.value(),
    {
        self.v
    }

    /// Inverse of `a` modulo the field's order by the extended Euclidean
    /// algorithm, where the coefficient of `a` is kept reduced modulo the order.
    pub fn ex_gcd(a: u64) -> (r: u64)
        requires
            a < MOD,
        ensures
            r < MOD,
            is_unit_mod(a as int) ==> (a as int * r as int) % p() == 1,
    {
        let mut x: u64 = 1;
        let mut m: u64 = 0;
        let mut ac: u64 = a;
        let mut bc: u64 = MOD;
        proof {
            assert(divides(a as int, a as int)) by {
                assert(a as int == 1 * a as int);
            }
            assert(divides(MOD as int, MOD as int)) by {
                assert(MOD as int == 1 * MOD as int);
            }
        }
        while bc != 0
            invariant
                x < MOD,
                m < MOD,
                (x as int * a as int) % p() == (ac as int) % p(),
                (m as int * a as int) % p() == (bc as int) % p(),
                ac > 0 || bc > 0,
                forall|d: int|
                    d > 0 && #[trigger] divides(d, ac as int) && divides(d, bc as int) ==> divides(
                        d,
                        a as int,
                    ) && divides(d, p()),
            decreases bc,
        {
            let q: u64 = ac / bc;
            let rem: u64 = ac % bc;
            assert(q as u128 * m as u128 <= u64::MAX as u128 * u64::MAX as u128) by (nonlinear_arith)
                requires q <= u64::MAX, m <= u64::MAX;
            let qm: u64 = ((q as u128 * m as u128) % (MOD as u128)) as u64;
            let nm: u64 = ((x as u128 + MOD as u128 - qm as u128) % (MOD as u128)) as u64;
            proof {
                let (xi, mi, ai, bi, qi, ri, pi) = (
                    x as int,
                    m as int,
                    a as int,
                    bc as int,
                    q as int,
                    rem as int,
                    p(),
                );
                lemma_fundamental_div_mod(ac as int, bc as int);
                assert(ac as int == bi * qi + ri);
                // nm * a == x * a - q * (m * a) == ac - q * bc == rem (mod p)
                assert((nm as int * ai) % pi == ri % pi) by {
                    let e = xi + pi - (qi * mi) % pi;
                    assert(nm as int == e % pi);
                    lemma_mul_mod_noop_general(e, ai, pi);
                    assert((e * ai) % pi == (xi * ai + pi * ai - ((qi * mi) % pi) * ai) % pi) by (nonlinear_arith)
                        requires e == xi + pi - (qi * mi) % pi;
                    lemma_sub_mod_noop(xi * ai + pi * ai, ((qi * mi) % pi) * ai, pi);
                    lemma_mul_mod_noop_general(qi * mi, ai, pi);
                    lemma_sub_mod_noop(xi * ai + pi * ai, (qi * mi) * ai, pi);
                    assert(xi * ai + pi * ai - (qi * mi) * ai == pi * ai + (xi * ai - qi * (mi * ai))) by (nonlinear_arith);
                    lemma_mod_multiples_vanish(ai, xi * ai - qi * (mi * ai), pi);
                    lemma_sub_mod_noop(xi * ai, qi * (mi * ai), pi);
                    lemma_mul_mod_noop_right(qi, mi * ai, pi);
                    lemma_mul_mod_noop_right(qi, bi, pi);
                    lemma_sub_mod_noop(ac as int, qi * bi, pi);
                    assert(ac as int - qi * bi == ri) by (nonlinear_arith)
                        requires ac as int == bi * qi + ri;
                }
                assert forall|d: int|
                    d > 0 && #[trigger] divides(d, bc as int) && divides(d, rem as int) implies divides(
                    d,
                    a as int,
                ) && divides(d, p()) by {
                    lemma_divides_step(ac as int, bc as int, d);
                }
            }
            ac = bc;
            bc = rem;
            x = m;
            m = nm;
        }
        proof {
            if is_unit_mod(a as int) {
                assert(divides(ac as int, ac as int)) by {
                    assert(ac as int == 1 * ac as int);
                }
                assert(divides(ac as int, 0)) by {
                    assert(0 == 0 * ac as int);
                }
                lemma_unit_gcd(a as int, ac as int);
                assert(x as int * a as int == a as int * x as int) by (nonlinear_arith);
            }
        }
        x
    }
}

/// Little-endian bytes of a `u64`.
pub fn u64_le_bytes(v: u64) -> (r: Vec<u8>)
    ensures
        r@ == le_bytes(v as nat, 8),
{
    let mut out: Vec<u8> = Vec::new();
    let mut x: u64 = v;
    let mut k: usize = 0;
    while k < 8
        invariant
            k <= 8,
            out@ + le_bytes(x as nat, (8 - k) as nat) == le_bytes(v as nat, 8),
        decreases 8 - k,
    {
        let ghost old_out = out@;
        out.push((x % 256) as u8);
        proof {
            assert(le_bytes(x as nat, (8 - k) as nat) == seq![(x % 256) as u8] + le_bytes(
                (x / 256) as nat,
                (8 - k - 1) as nat,
            ));
            assert(out@ == old_out + seq![(x % 256) as u8]);
            assert(out@ + le_bytes((x / 256) as nat, (8 - k - 1) as nat) =~= old_out + (seq![(x % 256) as u8] + le_bytes(
                (x / 256) as nat,
                (8 - k - 1) as nat,
            )));
        }
        x = x / 256;
        k = k + 1;
    }
    assert(out@ + le_bytes(x as nat, 0) =~= out@);
    out
}

proof fn lemma_divides_step(a: int, b: int, d: int)
    requires
        b > 0,
        divides(d, b),
        divides(d, a % b),
    ensures
        divides(d, a),
{
    let k1 = choose|k: int| b == #[trigger] (k * d);
    let k2 = choose|k: int| a % b == #[trigger] (k * d);
    lemma_fundamental_div_mod(a, b);
    let q = a / b;
    assert(a == (q * k1 + k2) * d) by (nonlinear_arith)
        requires
            a == b * q + a % b,
            b == k1 * d,
            a % b == k2 * d,
    ;
}

proof fn lemma_unit_gcd(a: int, g: int)
    requires
        g > 0,
        divides(g, a),
        divides(g, p()),
        is_unit_mod(a),
    ensures
        g == 1,
{
    let c = choose|c: int| #[trigger] ((a * c) % p()) == 1;
    let s = choose|k: int| a == #[trigger] (k * g);
    let t = choose|k: int| p() == #[trigger] (k * g);
    lemma_fundamental_div_mod(a * c, p());
    let k = (a * c) / p();
    assert(1 == (s * c - t * k) * g) by (nonlinear_arith)
        requires
            a * c == p() * k + 1,
            a == s * g,
            p() == t * g,
    ;
    assert(g == 1) by (nonlinear_arith)
        requires
            1 == (s * c - t * k) * g,
            g > 0,
    ;
}

impl Field for Goldilocks64 {
    closed spec fn wf(self) -> bool {
        self.v < MOD
    }

    closed spec fn zero_spec() -> Self {
        Goldilocks64 { v: 0 }
    }

    closed spec fn one_spec() -> Self {
        Goldilocks64 { v: 1 }
    }

    closed spec fn add_spec(a: Self, b: Self) -> Self {
        Self::of(a.v + b.v)
    }

    closed spec fn sub_spec(a: Self, b: Self) -> Self {
        Self::of(a.v - b.v)
    }

    closed spec fn mul_spec(a: Self, b: Self) -> Self {
        Self::of(a.v * b.v)
    }

    closed spec fn neg_spec(a: Self) -> Self {
        Self::of(-(a.v as int))
    }

    closed spec fn from_int_spec(x: u64) -> Self {
        Self::of(x as int)
    }

    closed spec fn inv2_spec() -> Self {
        Goldilocks64 { v: INV_2 }
    }

    closed spec fn has_inverse_spec(a: Self) -> bool {
        a.v < MOD && is_unit_mod(a.v as int)
    }

    closed spec fn bytes_spec(a: Self) -> Seq<u8> {
        le_bytes(a.v as nat, 8)
    }

    closed spec fn byte_size_spec() -> nat {
        8
    }

    closed spec fn root_of_unity_spec() -> Self {
        Goldilocks64 { v: ROOT_OF_UNITY }
    }

    closed spec fn log_order_spec() -> nat {
        32
    }

    proof fn lemma_closed(a: Self, b: Self) {
        lemma_small_mod(0, MOD as nat);
        lemma_small_mod(1, MOD as nat);
    }

    proof fn lemma_nonzero_unit(a: Self) {
        lemma_of_value(a);
        crate::goldilocks_prime::lemma_nonzero_is_unit(a.value());
        let c = choose|c: int| #[trigger] ((a.value() * c) % p()) == 1;
        lemma_mul_of(a.value(), c);
        lemma_consts_of();
        lemma_small_mod(1, MOD as nat);
        assert(Goldilocks64::mul_spec(a, Goldilocks64::of(c)) == Goldilocks64::one_spec());
        assert(Goldilocks64::of(c).wf());
    }

    proof fn lemma_unit_has_inverse(a: Self, w: Self) {
        lemma_of_value(a);
        lemma_of_value(w);
        lemma_consts_of();
        lemma_mul_of(a.value(), w.value());
        lemma_small_mod(1, MOD as nat);
        assert((a.value() * w.value()) % p() == 1);
    }

    proof fn lemma_add_comm(a: Self, b: Self) {
    }

    proof fn lemma_mul_comm(a: Self, b: Self) {
        assert(a.v * b.v == b.v * a.v) by (nonlinear_arith);
    }

    proof fn lemma_add_assoc(a: Self, b: Self, c: Self) {
        lemma_of_value(a);
        lemma_of_value(b);
        lemma_of_value(c);
        lemma_add_of(a.value(), b.value());
        lemma_add_of(a.value() + b.value(), c.value());
        lemma_add_of(b.value(), c.value());
        lemma_add_of(a.value(), b.value() + c.value());
        assert(a.value() + b.value() + c.value() == a.value() + (b.value() + c.value()));
    }

    proof fn lemma_mul_assoc(a: Self, b: Self, c: Self) {
        let (x, y, z) = (a.value(), b.value(), c.value());
        lemma_of_value(a);
        lemma_of_value(b);
        lemma_of_value(c);
        lemma_mul_of(x, y);
        lemma_mul_of(x * y, z);
        lemma_mul_of(y, z);
        lemma_mul_of(x, y * z);
        assert(x * y * z == x * (y * z)) by (nonlinear_arith);
    }

    proof fn lemma_distrib(a: Self, b: Self, c: Self) {
        let (x, y, z) = (a.value(), b.value(), c.value());
        lemma_of_value(a);
        lemma_of_value(b);
        lemma_of_value(c);
        lemma_add_of(y, z);
        lemma_mul_of(x, y + z);
        lemma_mul_of(x, y);
        lemma_mul_of(x, z);
        lemma_add_of(x * y, x * z);
        assert(x * (y + z) == x * y + x * z) by (nonlinear_arith);
    }

    proof fn lemma_identities(a: Self) {
        let x = a.value();
        lemma_of_value(a);
        lemma_consts_of();
        lemma_add_of(x, 0);
        lemma_mul_of(x, 1);
        lemma_mul_of(x, 0);
        lemma_neg_of(x);
        lemma_add_of(x, -x);
    }

    proof fn lemma_sub_is_add_neg(a: Self, b: Self) {
        let (x, y) = (a.value(), b.value());
        lemma_of_value(a);
        lemma_of_value(b);
        lemma_sub_of(x, y);
        lemma_neg_of(y);
        lemma_add_of(x, -y);
    }

    fn zero() -> (r: Self) {
        Goldilocks64 { v: 0 }
    }

    fn one() -> (r: Self) {
        Goldilocks64 { v: 1 }
    }

    fn from_int(x: u64) -> (r: Self) {
        Goldilocks64 { v: x % MOD }
    }

    fn add(self, o: Self) -> (r: Self) {
        Goldilocks64 { v: ((self.v as u128 + o.v as u128) % (MOD as u128)) as u64 }
    }

    fn sub(self, o: Self) -> (r: Self) {
        let a = self.v % MOD;
        let b = o.v % MOD;
        let r = if a >= b {
            a - b
        } else {
            MOD - (b - a)
        };
        proof {
            lemma_sub_mod_noop(self.v as int, o.v as int, p());
            if a < b {
                lemma_mod_multiples_vanish(1, a - b, p());
                lemma_small_mod((MOD - (b - a)) as nat, MOD as nat);
            } else {
                lemma_small_mod((a - b) as nat, MOD as nat);
            }
        }
        Goldilocks64 { v: r }
    }

    fn mul(self, o: Self) -> (r: Self) {
        assert(self.v as u128 * o.v as u128 <= u64::MAX as u128 * u64::MAX as u128)
            by (nonlinear_arith)
            requires self.v <= u64::MAX, o.v <= u64::MAX;
        Goldilocks64 { v: ((self.v as u128 * o.v as u128) % (MOD as u128)) as u64 }
    }

    fn neg(self) -> (r: Self) {
        let a = self.v % MOD;
        let r = if a == 0 {
            0
        } else {
            MOD - a
        };
        proof {
            lemma_sub_mod_noop(0, self.v as int, p());
            if a == 0 {
                lemma_small_mod(0, MOD as nat);
            } else {
                lemma_mod_multiples_vanish(1, 0 - a, p());
                lemma_small_mod((MOD - a) as nat, MOD as nat);
            }
        }
        Goldilocks64 { v: r }
    }

    fn equals(self, o: Self) -> (r: bool) {
        self.v == o.v
    }

    fn is_zero(self) -> (r: bool) {
        self.v == 0
    }

    fn inverse(self) -> (r: Self) {
        proof {
            if self.wf() && self != Self::zero_spec() {
                Self::lemma_nonzero_unit(self);
                let w = choose|w: Self| w.wf() && #[trigger] Self::mul_spec(self, w) == Self::one_spec();
                Self::lemma_unit_has_inverse(self, w);
            }
        }
        let a = self.v % MOD;
        let r = Self::ex_gcd(a);
        proof {
            if self.v < MOD && is_unit_mod(self.v as int) {
                lemma_small_mod(self.v as nat, MOD as nat);
                lemma_small_mod(1, MOD as nat);
            }
        }
        Goldilocks64 { v: r }
    }

    fn inverse_2() -> (r: Self) {
        proof {
            assert(INV_2 as int * 2 == p() * 1 + 1);
            lemma_mod_multiples_vanish(1, 1, p());
            lemma_small_mod(1, MOD as nat);
            lemma_small_mod(2, MOD as nat);
        }
        Goldilocks64 { v: INV_2 }
    }

    fn random_element() -> (r: Self) {
        Goldilocks64 { v: random_below(MOD) }
    }

    fn to_bytes(self) -> (r: Vec<u8>) {
        proof {
            lemma_le_bytes_len(self.v as nat, 8);
        }
        u64_le_bytes(self.v)
    }

    fn byte_size() -> (r: usize) {
        8
    }

    fn root_of_unity() -> (r: Self) {
        Goldilocks64 { v: ROOT_OF_UNITY }
    }

    fn log_order() -> (r: u64) {
        32
    }
}

pub proof fn lemma_of_value(a: Goldilocks64)
    requires
        a.wf(),
    ensures
        Goldilocks64::of(a.value()) == a,
        a.value() == a.value() % p(),
{
    lemma_small_mod(a.v as nat, MOD as nat);
}

pub proof fn lemma_of_wf(x: int)
    ensures
        Goldilocks64::of(x).wf(),
        Goldilocks64::of(x).value() == x % p(),
{
}

pub proof fn lemma_add_of(x: int, y: int)
    ensures
        Goldilocks64::add_spec(Goldilocks64::of(x), Goldilocks64::of(y)) == Goldilocks64::of(x + y),
{
    lemma_add_mod_noop(x, y, p());
}

pub proof fn lemma_sub_of(x: int, y: int)
    ensures
        Goldilocks64::sub_spec(Goldilocks64::of(x), Goldilocks64::of(y)) == Goldilocks64::of(x - y),
{
    lemma_sub_mod_noop(x, y, p());
}

pub proof fn lemma_mul_of(x: int, y: int)
    ensures
        Goldilocks64::mul_spec(Goldilocks64::of(x), Goldilocks64::of(y)) == Goldilocks64::of(x * y),
{
    lemma_mul_mod_noop(x, y, p());
}

pub proof fn lemma_neg_of(x: int)
    ensures
        Goldilocks64::neg_spec(Goldilocks64::of(x)) == Goldilocks64::of(-x),
{
    lemma_sub_mod_noop(0, x, p());
}

pub proof fn lemma_consts_of()
    ensures
        Goldilocks64::zero_spec() == Goldilocks64::of(0),
        Goldilocks64::one_spec() == Goldilocks64::of(1),
        forall|x: u64| #[trigger] Goldilocks64::from_int_spec(x) == Goldilocks64::of(x as int),
{
    lemma_small_mod(0, MOD as nat);
    lemma_small_mod(1, MOD as nat);
}

pub proof fn lemma_root_of(r: Goldilocks64)
    requires
        r == Goldilocks64::root_of_unity_spec(),
    ensures
        r == Goldilocks64::of(ROOT_OF_UNITY as int),
{
    lemma_small_mod(ROOT_OF_UNITY as nat, MOD as nat);
}

pub proof fn lemma_of_congruent_values(x: int, y: int)
    requires
        x % p() == y % p(),
    ensures
        Goldilocks64::of(x) == Goldilocks64::of(y),
{
}

pub proof fn lemma_small_mod_pub(x: nat)
    requires
        x < MOD,
    ensures
        x as int % p() == x,
{
    lemma_small_mod(x, MOD as nat);
}

pub proof fn lemma_byte_size()
    ensures
        Goldilocks64::byte_size_spec() == 8,
{
}

pub proof fn lemma_le_bytes_len(v: nat, n: nat)
    ensures
        le_bytes(v, n).len() == n,
    decreases n,
{
    if n > 0 {
        lemma_le_bytes_len(v / 256, (n - 1) as nat);
    }
}

impl crate::field::RootOfUnity for Goldilocks64 {
    proof fn lemma_root_order() {
        crate::goldilocks_prime::lemma_root_squares();
        lemma_consts_of();
        lemma_small_mod((MOD - 1) as nat, MOD as nat);
        lemma_small_mod(1, MOD as nat);
    }
}

} // verus!
