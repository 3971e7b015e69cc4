//! Fermat's little theorem for the Goldilocks field, by the binomial
//! theorem, and the consequence that seven is not a square there.
use vstd::prelude::*;
use vstd::arithmetic::div_mod::*;
use crate::goldilocks64::{MOD, p};
use crate::goldilocks_prime::{lemma_nonzero_is_unit, lemma_pow_mod_add, lemma_pow_mod_mul, pow_mod};

verus! {

/// `b^e` over the integers.
pub open spec fn ipow(b: int, e: nat) -> int
    decreases e,
{
    if e == 0 {
        1
    } else {
        ipow(b, (e - 1) as nat) * b
    }
}

/// The binomial coefficient `n` choose `k`.
pub open spec fn binom(n: nat, k: nat) -> int
    decreases n,
{
    if k == 0 {
        1
    } else if n == 0 {
        0
    } else {
        binom((n - 1) as nat, (k - 1) as nat) + binom((n - 1) as nat, k)
    }
}

/// `sum_{i < k} binom(n, i) * a^i`.
pub open spec fn bsum(n: nat, a: int, k: nat) -> int
    decreases k,
{
    if k == 0 {
        0
    } else {
        bsum(n, a, (k - 1) as nat) + binom(n, (k - 1) as nat) * ipow(a, (k - 1) as nat)
    }
}

proof fn lemma_bsum_one(n: nat, a: int)
    ensures
        bsum(n, a, 1) == 1,
{
    assert(bsum(n, a, 0) == 0);
    assert(binom(n, 0) == 1);
    assert(ipow(a, 0) == 1);
    assert(bsum(n, a, 1) == bsum(n, a, 0) + binom(n, 0) * ipow(a, 0));
}

proof fn lemma_binom_zero(n: nat, k: nat)
    requires
        k > n,
    ensures
        binom(n, k) == 0,
    decreases n,
{
    if n > 0 {
        lemma_binom_zero((n - 1) as nat, (k - 1) as nat);
        lemma_binom_zero((n - 1) as nat, k);
    }
}

proof fn lemma_binom_self(n: nat)
    ensures
        binom(n, n) == 1,
    decreases n,
{
    if n > 0 {
        lemma_binom_self((n - 1) as nat);
        lemma_binom_zero((n - 1) as nat, n);
    }
}

/// Pascal's rule summed: the sums for `n + 1` split into those for `n`.
proof fn lemma_bsum_split(n: nat, a: int, k: nat)
    ensures
        bsum(n + 1, a, k + 1) == bsum(n, a, k + 1) + a * bsum(n, a, k),
    decreases k,
{
    if k == 0 {
        lemma_bsum_one(n + 1, a);
        lemma_bsum_one(n, a);
        assert(bsum(n, a, 0) == 0);
    } else {
        let k1 = (k - 1) as nat;
        lemma_bsum_split(n, a, k1);
        assert(binom(n + 1, k) == binom(n, k1) + binom(n, k));
        assert(ipow(a, k) == ipow(a, k1) * a);
        assert(bsum(n + 1, a, k + 1) == bsum(n + 1, a, k) + binom(n + 1, k) * ipow(a, k));
        assert(bsum(n, a, k + 1) == bsum(n, a, k) + binom(n, k) * ipow(a, k));
        assert(bsum(n, a, k) == bsum(n, a, k1) + binom(n, k1) * ipow(a, k1));
        assert((binom(n, k1) + binom(n, k)) * (ipow(a, k1) * a) == binom(n, k) * ipow(a, k)
            + a * (binom(n, k1) * ipow(a, k1))) by (nonlinear_arith)
            requires ipow(a, k) == ipow(a, k1) * a;
        assert(a * bsum(n, a, k) == a * bsum(n, a, k1) + a * (binom(n, k1) * ipow(a, k1)))
            by (nonlinear_arith)
            requires bsum(n, a, k) == bsum(n, a, k1) + binom(n, k1) * ipow(a, k1);
    }
}

/// The binomial theorem: `(a + 1)^n == sum_{i <= n} binom(n, i) * a^i`.
proof fn lemma_binomial(n: nat, a: int)
    ensures
        ipow(a + 1, n) == bsum(n, a, n + 1),
    decreases n,
{
    if n == 0 {
        lemma_bsum_one(0, a);
        assert(ipow(a + 1, 0) == 1);
    } else {
        let n1 = (n - 1) as nat;
        lemma_binomial(n1, a);
        lemma_bsum_split(n1, a, n);
        lemma_binom_zero(n1, n);
        assert(bsum(n1, a, n + 1) == bsum(n1, a, n) + binom(n1, n) * ipow(a, n));
        assert(ipow(a + 1, n) == ipow(a + 1, n1) * (a + 1));
        assert(bsum(n1, a, n) * (a + 1) == bsum(n1, a, n) + a * bsum(n1, a, n))
            by (nonlinear_arith);
    }
}

/// Absorption: `k * binom(n, k) == n * binom(n - 1, k - 1)`.
proof fn lemma_absorption(n: nat, k: nat)
    requires
        n >= 1,
        k >= 1,
    ensures
        k * binom(n, k) == n * binom((n - 1) as nat, (k - 1) as nat),
    decreases n,
{
    let n1 = (n - 1) as nat;
    let k1 = (k - 1) as nat;
    if n == 1 {
        if k == 1 {
            assert(binom(1, 1) == binom(0, 0) + binom(0, 1));
        } else {
            lemma_binom_zero(1, k);
            lemma_binom_zero(0, k1);
        }
    } else {
        // binom(n, k) == binom(n1, k1) + binom(n1, k)
        assert(binom(n, k) == binom(n1, k1) + binom(n1, k));
        lemma_absorption(n1, k);
        // k * binom(n1, k) == n1 * binom(n1 - 1, k1)
        if k == 1 {
            // k1 == 0: binom(n1, 0) == 1 and binom(n1, 1) == n1
            assert(binom(n1, 0) == 1);
            assert(binom((n1 - 1) as nat, 0) == 1);
            assert(k * binom(n1, k) == n1 * binom((n1 - 1) as nat, k1));
            assert(binom(n1, 1) == n1) by (nonlinear_arith)
                requires
                    1 * binom(n1, 1) == n1 * binom((n1 - 1) as nat, 0),
                    binom((n1 - 1) as nat, 0) == 1,
            ;
            assert(binom(n, 1) == n);
            assert(k * binom(n, k) == n * binom(n1, k1));
        } else {
            lemma_absorption(n1, k1);
            let k2 = (k1 - 1) as nat;
            assert(binom(n1, k1) == binom((n1 - 1) as nat, k2) + binom((n1 - 1) as nat, k1));
            assert(k * binom(n, k) == n * binom(n1, k1)) by (nonlinear_arith)
                requires
                    binom(n, k) == binom(n1, k1) + binom(n1, k),
                    k * binom(n1, k) == n1 * binom((n1 - 1) as nat, k1),
                    k1 * binom(n1, k1) == n1 * binom((n1 - 1) as nat, k2),
                    binom(n1, k1) == binom((n1 - 1) as nat, k2) + binom((n1 - 1) as nat, k1),
                    k == k1 + 1,
                    n == n1 + 1,
            ;
        }
    }
}

/// The field's order divides `binom(p, k)` for `0 < k < p`.
proof fn lemma_prime_divides_binom(k: nat)
    requires
        0 < k < p(),
    ensures
        binom(p() as nat, k) % p() == 0,
{
    let pn = p() as nat;
    lemma_absorption(pn, k);
    lemma_nonzero_is_unit(k as int);
    let u = choose|c: int| #[trigger] ((k * c) % p()) == 1;
    let b = binom(pn, k);
    let t = binom((pn - 1) as nat, (k - 1) as nat);
    // b == b * (k * u) == (k * b) * u == p * (t * u)  (mod p)
    lemma_mul_mod_noop_right(b, k * u, p());
    lemma_small_mod(1, MOD as nat);
    assert(b * (k * u) == p() * (t * u)) by (nonlinear_arith)
        requires k * b == pn * t, pn == p();
    lemma_mod_multiples_basic(t * u, p());
    assert(p() * (t * u) == (t * u) * p()) by (nonlinear_arith);
    assert(b * 1 == b);
}

/// In the sum for `p`, every term but the first and the last vanishes.
proof fn lemma_bsum_mod(a: int, k: nat)
    requires
        1 <= k <= p(),
    ensures
        bsum(p() as nat, a, k) % p() == 1,
    decreases k,
{
    let pn = p() as nat;
    lemma_small_mod(1, MOD as nat);
    if k == 1 {
        lemma_bsum_one(pn, a);
    } else {
        let k1 = (k - 1) as nat;
        lemma_bsum_mod(a, k1);
        lemma_prime_divides_binom(k1);
        let b = binom(pn, k1);
        lemma_fundamental_div_mod(b, p());
        let t = b / p();
        assert(b * ipow(a, k1) == p() * (t * ipow(a, k1))) by (nonlinear_arith)
            requires b == p() * t + b % p(), b % p() == 0;
        lemma_mod_multiples_vanish(t * ipow(a, k1), bsum(pn, a, k1), p());
    }
}

/// `(a + 1)^p == a^p + 1` modulo `p`.
proof fn lemma_freshman(a: int)
    ensures
        ipow(a + 1, p() as nat) % p() == (ipow(a, p() as nat) + 1) % p(),
{
    let pn = p() as nat;
    lemma_binomial(pn, a);
    lemma_bsum_mod(a, pn);
    lemma_binom_self(pn);
    assert(bsum(pn, a, pn + 1) == bsum(pn, a, pn) + ipow(a, pn));
    lemma_add_mod_noop(bsum(pn, a, pn), ipow(a, pn), p());
    lemma_add_mod_noop(1, ipow(a, pn), p());
    lemma_small_mod(1, MOD as nat);
}

/// `x^p == x` modulo `p`.
proof fn lemma_fermat_p(x: nat)
    ensures
        ipow(x as int, p() as nat) % p() == (x as int) % p(),
    decreases x,
{
    let pn = p() as nat;
    if x == 0 {
        lemma_ipow_zero(pn);
    } else {
        let x1 = (x - 1) as nat;
        lemma_fermat_p(x1);
        lemma_freshman(x1 as int);
        lemma_add_mod_noop(ipow(x1 as int, pn), 1, p());
        lemma_add_mod_noop(x1 as int, 1, p());
    }
}

proof fn lemma_ipow_zero(e: nat)
    requires
        e >= 1,
    ensures
        ipow(0, e) == 0,
{
}

/// Fermat's little theorem: `y^(p - 1) == 1` modulo `p` for `0 < y < p`.
pub proof fn lemma_fermat(y: int)
    requires
        0 < y < p(),
    ensures
        ipow(y, (p() - 1) as nat) % p() == 1,
{
    let pn = p() as nat;
    lemma_fermat_p(y as nat);
    lemma_nonzero_is_unit(y);
    let u = choose|c: int| #[trigger] ((y * c) % p()) == 1;
    let f = ipow(y, (pn - 1) as nat);
    assert(ipow(y, pn) == f * y);
    lemma_small_mod(y as nat, MOD as nat);
    lemma_small_mod(1, MOD as nat);
    // f == f * (y * u) == (f * y) * u == y * u == 1 (mod p)
    lemma_mul_mod_noop_right(f, y * u, p());
    assert(f * (y * u) == (f * y) * u) by (nonlinear_arith);
    lemma_mul_mod_noop_left(f * y, u, p());
    assert(f * 1 == f);
    lemma_mod_twice(f, p());
}

/// Powers modulo `m` are powers over the integers, reduced.
proof fn lemma_pow_mod_ipow(b: int, n: nat, m: int)
    requires
        m > 1,
    ensures
        pow_mod(b, n, m) == ipow(b, n) % m,
    decreases n,
{
    if n > 0 {
        lemma_pow_mod_ipow(b, (n - 1) as nat, m);
        lemma_mul_mod_noop_left(ipow(b, (n - 1) as nat), b, m);
    }
}

/// One squaring step of a power chain modulo the field's order.
proof fn lemma_chain_sq(b: int, x: nat, v: int, w: int)
    requires
        pow_mod(b, x, p()) == v,
        (v * v) % 18446744069414584321int == w,
    ensures
        pow_mod(b, x + x, p()) == w,
{
    lemma_pow_mod_add(b, x, x, p());
}

/// One multiplication step of a power chain modulo the field's order.
proof fn lemma_chain_mul(b: int, x: nat, v: int, w: int)
    requires
        pow_mod(b, x, p()) == v,
        (v * b) % 18446744069414584321int == w,
    ensures
        pow_mod(b, x + 1, p()) == w,
{
}

proof fn lemma_seven_chain_0()
    ensures
        pow_mod(7, 127, p()) == 7007601668316978083int,
{
    assert(pow_mod(7, 0, p()) == 1) by {
        lemma_small_mod(1, MOD as nat);
    }
    assert(pow_mod(7, 1, p()) == 7) by {
        lemma_small_mod(1, MOD as nat);
        lemma_small_mod(7, MOD as nat);
    }
    assert(7int * 7int % 18446744069414584321int == 49int) by (nonlinear_arith);
    lemma_chain_sq(7, 1, 7int, 49int);
    assert(49int * 7int % 18446744069414584321int == 343int) by (nonlinear_arith);
    lemma_chain_mul(7, 2, 49int, 343int);
    assert(343int * 343int % 18446744069414584321int == 117649int) by (nonlinear_arith);
    lemma_chain_sq(7, 3, 343int, 117649int);
    assert(117649int * 7int % 18446744069414584321int == 823543int) by (nonlinear_arith);
    lemma_chain_mul(7, 6, 117649int, 823543int);
    assert(823543int * 823543int % 18446744069414584321int == 678223072849int) by (nonlinear_arith);
    lemma_chain_sq(7, 7, 823543int, 678223072849int);
    assert(678223072849int * 7int % 18446744069414584321int == 4747561509943int) by (nonlinear_arith);
    lemma_chain_mul(7, 14, 678223072849int, 4747561509943int);
    assert(4747561509943int * 4747561509943int % 18446744069414584321int == 1582037354089406189int) by (nonlinear_arith);
    lemma_chain_sq(7, 15, 4747561509943int, 1582037354089406189int);
    assert(1582037354089406189int * 7int % 18446744069414584321int == 11074261478625843323int) by (nonlinear_arith);
    lemma_chain_mul(7, 30, 1582037354089406189int, 11074261478625843323int);
    assert(11074261478625843323int * 11074261478625843323int % 18446744069414584321int == 14911712358349047125int) by (nonlinear_arith);
    lemma_chain_sq(7, 31, 11074261478625843323int, 14911712358349047125int);
    assert(14911712358349047125int * 7int % 18446744069414584321int == 12148266161370408270int) by (nonlinear_arith);
    lemma_chain_mul(7, 62, 14911712358349047125int, 12148266161370408270int);
    assert(12148266161370408270int * 12148266161370408270int % 18446744069414584321int == 14177331716484271384int) by (nonlinear_arith);
    lemma_chain_sq(7, 63, 12148266161370408270int, 14177331716484271384int);
    assert(14177331716484271384int * 7int % 18446744069414584321int == 7007601668316978083int) by (nonlinear_arith);
    lemma_chain_mul(7, 126, 14177331716484271384int, 7007601668316978083int);
}

proof fn lemma_seven_chain_1()
    ensures
        pow_mod(7, 8191, p()) == 10062120588441922115int,
{
    lemma_seven_chain_0();
    assert(7007601668316978083int * 7007601668316978083int % 18446744069414584321int == 1160753142525841411int) by (nonlinear_arith);
    lemma_chain_sq(7, 127, 7007601668316978083int, 1160753142525841411int);
    assert(1160753142525841411int * 7int % 18446744069414584321int == 8125271997680889877int) by (nonlinear_arith);
    lemma_chain_mul(7, 254, 1160753142525841411int, 8125271997680889877int);
    assert(8125271997680889877int * 8125271997680889877int % 18446744069414584321int == 10915923311382173605int) by (nonlinear_arith);
    lemma_chain_sq(7, 255, 8125271997680889877int, 10915923311382173605int);
    assert(10915923311382173605int * 7int % 18446744069414584321int == 2624486902016877951int) by (nonlinear_arith);
    lemma_chain_mul(7, 510, 10915923311382173605int, 2624486902016877951int);
    assert(2624486902016877951int * 2624486902016877951int % 18446744069414584321int == 1179017105118043277int) by (nonlinear_arith);
    lemma_chain_sq(7, 511, 2624486902016877951int, 1179017105118043277int);
    assert(1179017105118043277int * 7int % 18446744069414584321int == 8253119735826302939int) by (nonlinear_arith);
    lemma_chain_mul(7, 1022, 1179017105118043277int, 8253119735826302939int);
    assert(8253119735826302939int * 8253119735826302939int % 18446744069414584321int == 13682469552810377440int) by (nonlinear_arith);
    lemma_chain_sq(7, 1023, 8253119735826302939int, 13682469552810377440int);
    assert(13682469552810377440int * 7int % 18446744069414584321int == 3543566522599720475int) by (nonlinear_arith);
    lemma_chain_mul(7, 2046, 13682469552810377440int, 3543566522599720475int);
    assert(3543566522599720475int * 3543566522599720475int % 18446744069414584321int == 12252646851770615269int) by (nonlinear_arith);
    lemma_chain_sq(7, 2047, 3543566522599720475int, 12252646851770615269int);
    assert(12252646851770615269int * 7int % 18446744069414584321int == 11981551684735969599int) by (nonlinear_arith);
    lemma_chain_mul(7, 4094, 12252646851770615269int, 11981551684735969599int);
    assert(11981551684735969599int * 11981551684735969599int % 18446744069414584321int == 9343193256669382154int) by (nonlinear_arith);
    lemma_chain_sq(7, 4095, 11981551684735969599int, 9343193256669382154int);
    assert(9343193256669382154int * 7int % 18446744069414584321int == 10062120588441922115int) by (nonlinear_arith);
    lemma_chain_mul(7, 8190, 9343193256669382154int, 10062120588441922115int);
}

proof fn lemma_seven_chain_2()
    ensures
        pow_mod(7, 524287, p()) == 10086585273483141421int,
{
    lemma_seven_chain_1();
    assert(10062120588441922115int * 10062120588441922115int % 18446744069414584321int == 4133221502128927102int) by (nonlinear_arith);
    lemma_chain_sq(7, 8191, 10062120588441922115int, 4133221502128927102int);
    assert(4133221502128927102int * 7int % 18446744069414584321int == 10485806445487905393int) by (nonlinear_arith);
    lemma_chain_mul(7, 16382, 4133221502128927102int, 10485806445487905393int);
    assert(10485806445487905393int * 10485806445487905393int % 18446744069414584321int == 5861853314594190514int) by (nonlinear_arith);
    lemma_chain_sq(7, 16383, 10485806445487905393int, 5861853314594190514int);
    assert(5861853314594190514int * 7int % 18446744069414584321int == 4139485063330164956int) by (nonlinear_arith);
    lemma_chain_mul(7, 32766, 5861853314594190514int, 4139485063330164956int);
    assert(4139485063330164956int * 4139485063330164956int % 18446744069414584321int == 7004045467739516513int) by (nonlinear_arith);
    lemma_chain_sq(7, 32767, 4139485063330164956int, 7004045467739516513int);
    assert(7004045467739516513int * 7int % 18446744069414584321int == 12134830135347446949int) by (nonlinear_arith);
    lemma_chain_mul(7, 65534, 7004045467739516513int, 12134830135347446949int);
    assert(12134830135347446949int * 12134830135347446949int % 18446744069414584321int == 618113109518621269int) by (nonlinear_arith);
    lemma_chain_sq(7, 65535, 12134830135347446949int, 618113109518621269int);
    assert(618113109518621269int * 7int % 18446744069414584321int == 4326791766630348883int) by (nonlinear_arith);
    lemma_chain_mul(7, 131070, 618113109518621269int, 4326791766630348883int);
    assert(4326791766630348883int * 4326791766630348883int % 18446744069414584321int == 13205783127219969319int) by (nonlinear_arith);
    lemma_chain_sq(7, 131071, 4326791766630348883int, 13205783127219969319int);
    assert(13205783127219969319int * 7int % 18446744069414584321int == 206761543466863628int) by (nonlinear_arith);
    lemma_chain_mul(7, 262142, 13205783127219969319int, 206761543466863628int);
    assert(206761543466863628int * 206761543466863628int % 18446744069414584321int == 14617186517222294718int) by (nonlinear_arith);
    lemma_chain_sq(7, 262143, 206761543466863628int, 14617186517222294718int);
    assert(14617186517222294718int * 7int % 18446744069414584321int == 10086585273483141421int) by (nonlinear_arith);
    lemma_chain_mul(7, 524286, 14617186517222294718int, 10086585273483141421int);
}

proof fn lemma_seven_chain_3()
    ensures
        pow_mod(7, 33554431, p()) == 13093775858033092690int,
{
    lemma_seven_chain_2();
    assert(10086585273483141421int * 10086585273483141421int % 18446744069414584321int == 5535602650859329748int) by (nonlinear_arith);
    lemma_chain_sq(7, 524287, 10086585273483141421int, 5535602650859329748int);
    assert(5535602650859329748int * 7int % 18446744069414584321int == 1855730417186139594int) by (nonlinear_arith);
    lemma_chain_mul(7, 1048574, 5535602650859329748int, 1855730417186139594int);
    assert(1855730417186139594int * 1855730417186139594int % 18446744069414584321int == 3724741596018185032int) by (nonlinear_arith);
    lemma_chain_sq(7, 1048575, 1855730417186139594int, 3724741596018185032int);
    assert(3724741596018185032int * 7int % 18446744069414584321int == 7626447102712710903int) by (nonlinear_arith);
    lemma_chain_mul(7, 2097150, 3724741596018185032int, 7626447102712710903int);
    assert(7626447102712710903int * 7626447102712710903int % 18446744069414584321int == 11653985196031332500int) by (nonlinear_arith);
    lemma_chain_sq(7, 2097151, 7626447102712710903int, 11653985196031332500int);
    assert(11653985196031332500int * 7int % 18446744069414584321int == 7790920094560990216int) by (nonlinear_arith);
    lemma_chain_mul(7, 4194302, 11653985196031332500int, 7790920094560990216int);
    assert(7790920094560990216int * 7790920094560990216int % 18446744069414584321int == 16654626667483233145int) by (nonlinear_arith);
    lemma_chain_sq(7, 4194303, 7790920094560990216int, 16654626667483233145int);
    assert(16654626667483233145int * 7int % 18446744069414584321int == 5901922255895126089int) by (nonlinear_arith);
    lemma_chain_mul(7, 8388606, 16654626667483233145int, 5901922255895126089int);
    assert(5901922255895126089int * 5901922255895126089int % 18446744069414584321int == 9182212999444825067int) by (nonlinear_arith);
    lemma_chain_sq(7, 8388607, 5901922255895126089int, 9182212999444825067int);
    assert(9182212999444825067int * 7int % 18446744069414584321int == 8935258787870022506int) by (nonlinear_arith);
    lemma_chain_mul(7, 16777214, 9182212999444825067int, 8935258787870022506int);
    assert(8935258787870022506int * 8935258787870022506int % 18446744069414584321int == 17682034324931514088int) by (nonlinear_arith);
    lemma_chain_sq(7, 16777215, 8935258787870022506int, 17682034324931514088int);
    assert(17682034324931514088int * 7int % 18446744069414584321int == 13093775858033092690int) by (nonlinear_arith);
    lemma_chain_mul(7, 33554430, 17682034324931514088int, 13093775858033092690int);
}

proof fn lemma_seven_chain_4()
    ensures
        pow_mod(7, 2147483647, p()) == 15659105665374529263int,
{
    lemma_seven_chain_3();
    assert(13093775858033092690int * 13093775858033092690int % 18446744069414584321int == 9511995656157268947int) by (nonlinear_arith);
    lemma_chain_sq(7, 33554431, 13093775858033092690int, 9511995656157268947int);
    assert(9511995656157268947int * 7int % 18446744069414584321int == 11243737384857129666int) by (nonlinear_arith);
    lemma_chain_mul(7, 67108862, 9511995656157268947int, 11243737384857129666int);
    assert(11243737384857129666int * 11243737384857129666int % 18446744069414584321int == 16106297366990222687int) by (nonlinear_arith);
    lemma_chain_sq(7, 67108863, 11243737384857129666int, 16106297366990222687int);
    assert(16106297366990222687int * 7int % 18446744069414584321int == 2063617152444052883int) by (nonlinear_arith);
    lemma_chain_mul(7, 134217726, 16106297366990222687int, 2063617152444052883int);
    assert(2063617152444052883int * 2063617152444052883int % 18446744069414584321int == 4501656151559876649int) by (nonlinear_arith);
    lemma_chain_sq(7, 134217727, 2063617152444052883int, 4501656151559876649int);
    assert(4501656151559876649int * 7int % 18446744069414584321int == 13064848991504552222int) by (nonlinear_arith);
    lemma_chain_mul(7, 268435454, 4501656151559876649int, 13064848991504552222int);
    assert(13064848991504552222int * 13064848991504552222int % 18446744069414584321int == 2370486178716065012int) by (nonlinear_arith);
    lemma_chain_sq(7, 268435455, 13064848991504552222int, 2370486178716065012int);
    assert(2370486178716065012int * 7int % 18446744069414584321int == 16593403251012455084int) by (nonlinear_arith);
    lemma_chain_mul(7, 536870910, 2370486178716065012int, 16593403251012455084int);
    assert(16593403251012455084int * 16593403251012455084int % 18446744069414584321int == 14013264900002007546int) by (nonlinear_arith);
    lemma_chain_sq(7, 536870911, 16593403251012455084int, 14013264900002007546int);
    assert(14013264900002007546int * 7int % 18446744069414584321int == 5859133952941131217int) by (nonlinear_arith);
    lemma_chain_mul(7, 1073741822, 14013264900002007546int, 5859133952941131217int);
    assert(5859133952941131217int * 5859133952941131217int % 18446744069414584321int == 10142762553374040318int) by (nonlinear_arith);
    lemma_chain_sq(7, 1073741823, 5859133952941131217int, 10142762553374040318int);
    assert(10142762553374040318int * 7int % 18446744069414584321int == 15659105665374529263int) by (nonlinear_arith);
    lemma_chain_mul(7, 2147483646, 10142762553374040318int, 15659105665374529263int);
}

proof fn lemma_seven_chain_5()
    ensures
        pow_mod(7, 4398046510080, p()) == 5416168637041100469int,
{
    lemma_seven_chain_4();
    assert(15659105665374529263int * 15659105665374529263int % 18446744069414584321int == 16062014221418238814int) by (nonlinear_arith);
    lemma_chain_sq(7, 2147483647, 15659105665374529263int, 16062014221418238814int);
    assert(16062014221418238814int * 7int % 18446744069414584321int == 1753635133440165772int) by (nonlinear_arith);
    lemma_chain_mul(7, 4294967294, 16062014221418238814int, 1753635133440165772int);
    assert(1753635133440165772int * 1753635133440165772int % 18446744069414584321int == 4614640910117430873int) by (nonlinear_arith);
    lemma_chain_sq(7, 4294967295, 1753635133440165772int, 4614640910117430873int);
    assert(4614640910117430873int * 4614640910117430873int % 18446744069414584321int == 9123114210336311365int) by (nonlinear_arith);
    lemma_chain_sq(7, 8589934590, 4614640910117430873int, 9123114210336311365int);
    assert(9123114210336311365int * 9123114210336311365int % 18446744069414584321int == 16116352524544190054int) by (nonlinear_arith);
    lemma_chain_sq(7, 17179869180, 9123114210336311365int, 16116352524544190054int);
    assert(16116352524544190054int * 16116352524544190054int % 18446744069414584321int == 6414415596519834757int) by (nonlinear_arith);
    lemma_chain_sq(7, 34359738360, 16116352524544190054int, 6414415596519834757int);
    assert(6414415596519834757int * 6414415596519834757int % 18446744069414584321int == 1213594585890690845int) by (nonlinear_arith);
    lemma_chain_sq(7, 68719476720, 6414415596519834757int, 1213594585890690845int);
    assert(1213594585890690845int * 1213594585890690845int % 18446744069414584321int == 17096174751763063430int) by (nonlinear_arith);
    lemma_chain_sq(7, 137438953440, 1213594585890690845int, 17096174751763063430int);
    assert(17096174751763063430int * 17096174751763063430int % 18446744069414584321int == 5456943929260765144int) by (nonlinear_arith);
    lemma_chain_sq(7, 274877906880, 17096174751763063430int, 5456943929260765144int);
    assert(5456943929260765144int * 5456943929260765144int % 18446744069414584321int == 9713644485405565297int) by (nonlinear_arith);
    lemma_chain_sq(7, 549755813760, 5456943929260765144int, 9713644485405565297int);
    assert(9713644485405565297int * 9713644485405565297int % 18446744069414584321int == 16905767614792059275int) by (nonlinear_arith);
    lemma_chain_sq(7, 1099511627520, 9713644485405565297int, 16905767614792059275int);
    assert(16905767614792059275int * 16905767614792059275int % 18446744069414584321int == 5416168637041100469int) by (nonlinear_arith);
    lemma_chain_sq(7, 2199023255040, 16905767614792059275int, 5416168637041100469int);
}

proof fn lemma_seven_chain_6()
    ensures
        pow_mod(7, 18014398505287680, p()) == 11353340290879379826int,
{
    lemma_seven_chain_5();
    assert(5416168637041100469int * 5416168637041100469int % 18446744069414584321int == 17654865857378133588int) by (nonlinear_arith);
    lemma_chain_sq(7, 4398046510080, 5416168637041100469int, 17654865857378133588int);
    assert(17654865857378133588int * 17654865857378133588int % 18446744069414584321int == 3511170319078647661int) by (nonlinear_arith);
    lemma_chain_sq(7, 8796093020160, 17654865857378133588int, 3511170319078647661int);
    assert(3511170319078647661int * 3511170319078647661int % 18446744069414584321int == 18146160046829613826int) by (nonlinear_arith);
    lemma_chain_sq(7, 17592186040320, 3511170319078647661int, 18146160046829613826int);
    assert(18146160046829613826int * 18146160046829613826int % 18446744069414584321int == 9306717745644682924int) by (nonlinear_arith);
    lemma_chain_sq(7, 35184372080640, 18146160046829613826int, 9306717745644682924int);
    assert(9306717745644682924int * 9306717745644682924int % 18446744069414584321int == 12380578893860276750int) by (nonlinear_arith);
    lemma_chain_sq(7, 70368744161280, 9306717745644682924int, 12380578893860276750int);
    assert(12380578893860276750int * 12380578893860276750int % 18446744069414584321int == 6115771955107415310int) by (nonlinear_arith);
    lemma_chain_sq(7, 140737488322560, 12380578893860276750int, 6115771955107415310int);
    assert(6115771955107415310int * 6115771955107415310int % 18446744069414584321int == 17776499369601055404int) by (nonlinear_arith);
    lemma_chain_sq(7, 281474976645120, 6115771955107415310int, 17776499369601055404int);
    assert(17776499369601055404int * 17776499369601055404int % 18446744069414584321int == 16207902636198568418int) by (nonlinear_arith);
    lemma_chain_sq(7, 562949953290240, 17776499369601055404int, 16207902636198568418int);
    assert(16207902636198568418int * 16207902636198568418int % 18446744069414584321int == 1532612707718625687int) by (nonlinear_arith);
    lemma_chain_sq(7, 1125899906580480, 16207902636198568418int, 1532612707718625687int);
    assert(1532612707718625687int * 1532612707718625687int % 18446744069414584321int == 17492915097719143606int) by (nonlinear_arith);
    lemma_chain_sq(7, 2251799813160960, 1532612707718625687int, 17492915097719143606int);
    assert(17492915097719143606int * 17492915097719143606int % 18446744069414584321int == 455906449640507599int) by (nonlinear_arith);
    lemma_chain_sq(7, 4503599626321920, 17492915097719143606int, 455906449640507599int);
    assert(455906449640507599int * 455906449640507599int % 18446744069414584321int == 11353340290879379826int) by (nonlinear_arith);
    lemma_chain_sq(7, 9007199252643840, 455906449640507599int, 11353340290879379826int);
}

proof fn lemma_seven_chain_7()
    ensures
        pow_mod(7, 9223372034707292160, p()) == 18446744069414584320int,
{
    lemma_seven_chain_6();
    assert(11353340290879379826int * 11353340290879379826int % 18446744069414584321int == 1803076106186727246int) by (nonlinear_arith);
    lemma_chain_sq(7, 18014398505287680, 11353340290879379826int, 1803076106186727246int);
    assert(1803076106186727246int * 1803076106186727246int % 18446744069414584321int == 13797081185216407910int) by (nonlinear_arith);
    lemma_chain_sq(7, 36028797010575360, 1803076106186727246int, 13797081185216407910int);
    assert(13797081185216407910int * 13797081185216407910int % 18446744069414584321int == 17870292113338400769int) by (nonlinear_arith);
    lemma_chain_sq(7, 72057594021150720, 13797081185216407910int, 17870292113338400769int);
    assert(17870292113338400769int * 17870292113338400769int % 18446744069414584321int == 549755813888int) by (nonlinear_arith);
    lemma_chain_sq(7, 144115188042301440, 17870292113338400769int, 549755813888int);
    assert(549755813888int * 549755813888int % 18446744069414584321int == 70368744161280int) by (nonlinear_arith);
    lemma_chain_sq(7, 288230376084602880, 549755813888int, 70368744161280int);
    assert(70368744161280int * 70368744161280int % 18446744069414584321int == 17293822564807737345int) by (nonlinear_arith);
    lemma_chain_sq(7, 576460752169205760, 70368744161280int, 17293822564807737345int);
    assert(17293822564807737345int * 17293822564807737345int % 18446744069414584321int == 18446744069397807105int) by (nonlinear_arith);
    lemma_chain_sq(7, 1152921504338411520, 17293822564807737345int, 18446744069397807105int);
    assert(18446744069397807105int * 18446744069397807105int % 18446744069414584321int == 281474976710656int) by (nonlinear_arith);
    lemma_chain_sq(7, 2305843008676823040, 18446744069397807105int, 281474976710656int);
    assert(281474976710656int * 281474976710656int % 18446744069414584321int == 18446744069414584320int) by (nonlinear_arith);
    lemma_chain_sq(7, 4611686017353646080, 281474976710656int, 18446744069414584320int);
}

/// Euler's criterion for seven: `7^((p - 1) / 2) == -1` modulo `p`.
proof fn lemma_seven_euler()
    ensures
        pow_mod(7, ((p() - 1) / 2) as nat, p()) == p() - 1,
{
    lemma_seven_chain_7();
    assert((p() - 1) / 2 == 9223372034707292160);
}

/// Seven is not a square modulo the field's order.
pub proof fn lemma_seven_nonsquare(y: int)
    requires
        0 <= y < p(),
    ensures
        (y * y) % p() != 7,
{
    if y != 0 && (y * y) % p() == 7 {
        let hh = ((p() - 1) / 2) as nat;
        lemma_seven_euler();
        lemma_small_mod(1, MOD as nat);
        lemma_small_mod(y as nat, MOD as nat);
        assert(pow_mod(y, 0, p()) == 1);
        assert(pow_mod(y, 1, p()) == y);
        assert(pow_mod(y, 2, p()) == 7);
        lemma_pow_mod_mul(y, 2, hh, p());
        assert(2 * hh == (p() - 1) as nat);
        lemma_pow_mod_ipow(y, (p() - 1) as nat, p());
        lemma_fermat(y);
    }
}

} // verus!
