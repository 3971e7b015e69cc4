//! The order of the Goldilocks field is prime.
//!
//! The field's root of unity `g` has multiplicative order exactly `2^32`
//! modulo the order `p`, hence modulo every divisor `r > 1` of `p`. Its
//! `2^32` powers are then distinct residues modulo `r`, so `r >= 2^32`. Two
//! such divisors multiply to at least `2^64 > p`, so `p` has no divisor
//! strictly between 1 and `p`. Bezout's identity then inverts every
//! non-zero residue.
use vstd::prelude::*;
use vstd::arithmetic::div_mod::*;
use vstd::set_lib::*;
use vstd::relations::injective_on;
use crate::domain::exp2;
use crate::field::{Field, square_n};
use crate::goldilocks64::{
    Goldilocks64, MOD, ROOT_OF_UNITY, divides, is_unit_mod, lemma_mul_of, lemma_of_value, p,
};

verus! {

/// `b^n` modulo `m`.
pub open spec fn pow_mod(b: int, n: nat, m: int) -> int
    decreases n,
{
    if n == 0 {
        1int % m
    } else {
        (pow_mod(b, (n - 1) as nat, m) * b) % m
    }
}

pub proof fn lemma_pow_mod_range(b: int, n: nat, m: int)
    requires
        m > 1,
    ensures
        0 <= pow_mod(b, n, m) < m,
{
    if n == 0 {
        lemma_small_mod(1, m as nat);
    } else {
        lemma_mod_bound(pow_mod(b, (n - 1) as nat, m) * b, m);
    }
}

/// `b^(x + y) == b^x * b^y` modulo `m`.
pub proof fn lemma_pow_mod_add(b: int, x: nat, y: nat, m: int)
    requires
        m > 1,
    ensures
        pow_mod(b, x + y, m) == (pow_mod(b, x, m) * pow_mod(b, y, m)) % m,
    decreases y,
{
    lemma_pow_mod_range(b, x, m);
    let px = pow_mod(b, x, m);
    lemma_small_mod(1, m as nat);
    if y == 0 {
        assert(pow_mod(b, 0, m) == 1);
        lemma_small_mod(px as nat, m as nat);
        assert(x + y == x);
        assert(px * 1 == px);
    } else {
        let y1 = (y - 1) as nat;
        lemma_pow_mod_add(b, x, y1, m);
        let py1 = pow_mod(b, y1, m);
        assert((x + y - 1) as nat == x + y1);
        assert(pow_mod(b, x + y, m) == (pow_mod(b, x + y1, m) * b) % m);
        assert(pow_mod(b, y, m) == (py1 * b) % m);
        lemma_mul_mod_noop_left(px * py1, b, m);
        lemma_mul_mod_noop_right(px, py1 * b, m);
        assert(px * py1 * b == px * (py1 * b)) by (nonlinear_arith);
    }
}

/// `b^(x * k) == (b^x)^k` modulo `m`.
pub proof fn lemma_pow_mod_mul(b: int, x: nat, k: nat, m: int)
    requires
        m > 1,
    ensures
        pow_mod(b, x * k, m) == pow_mod(pow_mod(b, x, m), k, m),
    decreases k,
{
    if k == 0 {
        assert(x * k == 0);
    } else {
        let k1 = (k - 1) as nat;
        lemma_pow_mod_mul(b, x, k1, m);
        assert(x * k == x * k1 + x) by (nonlinear_arith)
            requires k1 == k - 1;
        lemma_pow_mod_add(b, x * k1, x, m);
        lemma_pow_mod_range(b, x, m);
        lemma_mul_mod_noop_right(pow_mod(b, x * k1, m), pow_mod(b, x, m), m);
        lemma_small_mod(pow_mod(b, x, m) as nat, m as nat);
    }
}

/// Powers of one are one.
proof fn lemma_pow_mod_one(k: nat, m: int)
    requires
        m > 1,
    ensures
        pow_mod(1, k, m) == 1,
    decreases k,
{
    lemma_small_mod(1, m as nat);
    if k > 0 {
        lemma_pow_mod_one((k - 1) as nat, m);
    }
}

/// Odd powers of `-1` are `-1`.
proof fn lemma_pow_mod_minus_one(o: nat, m: int)
    requires
        m > 2,
        o % 2 == 1,
    ensures
        pow_mod(m - 1, o, m) == m - 1,
    decreases o,
{
    lemma_small_mod(1, m as nat);
    lemma_small_mod((m - 1) as nat, m as nat);
    assert(pow_mod(m - 1, 0, m) == 1);
    assert(pow_mod(m - 1, 1, m) == (1 * (m - 1)) % m);
    if o == 1 {
    } else {
        let o2 = (o - 2) as nat;
        lemma_pow_mod_minus_one(o2, m);
        lemma_pow_mod_add(m - 1, o2, 2, m);
        assert(pow_mod(m - 1, 1, m) == m - 1);
        assert((m - 1) * (m - 1) == m * (m - 2) + 1) by (nonlinear_arith);
        lemma_mod_multiples_vanish(m - 2, 1, m);
        assert(pow_mod(m - 1, 2, m) == 1);
        assert(o2 + 2 == o);
    }
}

/// Reducing modulo a divisor `r` of `m` commutes with taking powers.
proof fn lemma_pow_mod_reduce(b: int, n: nat, m: int, r: int)
    requires
        m > 1,
        r > 1,
        m % r == 0,
    ensures
        pow_mod(b, n, m) % r == pow_mod(b, n, r),
    decreases n,
{
    lemma_fundamental_div_mod(m, r);
    let t = m / r;
    if n == 0 {
        lemma_small_mod(1, m as nat);
    } else {
        let n1 = (n - 1) as nat;
        lemma_pow_mod_reduce(b, n1, m, r);
        let x = pow_mod(b, n1, m) * b;
        lemma_fundamental_div_mod(x, m);
        assert(x == r * (t * (x / m)) + x % m) by (nonlinear_arith)
            requires x == m * (x / m) + x % m, m == r * t;
        lemma_mod_multiples_vanish(t * (x / m), x % m, r);
        lemma_mul_mod_noop_left(pow_mod(b, n1, m), b, r);
    }
}

/// The exponent of two in `d` and the odd rest.
spec fn two_adic(d: nat) -> (nat, nat)
    decreases d,
{
    if d == 0 || d % 2 == 1 {
        (0, d)
    } else {
        let (e, o) = two_adic(d / 2);
        (e + 1, o)
    }
}

proof fn lemma_two_adic(d: nat)
    requires
        d > 0,
    ensures
        d == exp2(two_adic(d).0) * two_adic(d).1,
        two_adic(d).1 % 2 == 1,
    decreases d,
{
    assert(exp2(0) == 1);
    if d % 2 == 0 {
        let h = d / 2;
        lemma_two_adic(h);
        let e = two_adic(h).0;
        let o = two_adic(h).1;
        assert(two_adic(d) == (e + 1, o));
        assert(exp2(e + 1) == 2 * exp2(e));
        assert(h == exp2(e) * o);
        assert(d == 2 * h);
        assert(2 * (exp2(e) * o) == (2 * exp2(e)) * o) by (nonlinear_arith);
        assert(exp2(e + 1) * o == (2 * exp2(e)) * o);
    } else {
        assert(two_adic(d) == (0nat, d));
        assert(1 * d == d);
    }
}

proof fn lemma_exp2_add(a: nat, b: nat)
    ensures
        exp2(a + b) == exp2(a) * exp2(b),
    decreases b,
{
    assert(exp2(0) == 1);
    if b == 0 {
        assert(a + b == a);
        assert(exp2(a) * 1 == exp2(a));
    } else {
        lemma_exp2_add(a, (b - 1) as nat);
        assert(exp2(b) == 2 * exp2((b - 1) as nat));
        assert(exp2(a + b) == 2 * exp2((a + b - 1) as nat));
        assert((a + b - 1) as nat == a + (b - 1) as nat);
        assert(2 * (exp2(a) * exp2((b - 1) as nat)) == exp2(a) * (2 * exp2((b - 1) as nat)))
            by (nonlinear_arith);
        assert(exp2(a) * exp2(b) == exp2(a) * (2 * exp2((b - 1) as nat)));
    }
}

proof fn lemma_exp2_values()
    ensures
        exp2(31) == 0x8000_0000,
        exp2(32) == 0x1_0000_0000,
        exp2(64) == 0x1_0000_0000_0000_0000,
{
    assert(exp2(0) == 1nat);
    assert(exp2(1) == 2nat);
    assert(exp2(2) == 4nat);
    assert(exp2(3) == 8nat);
    assert(exp2(4) == 16nat);
    assert(exp2(5) == 32nat);
    assert(exp2(6) == 64nat);
    assert(exp2(7) == 128nat);
    assert(exp2(8) == 256nat);
    assert(exp2(9) == 512nat);
    assert(exp2(10) == 1024nat);
    assert(exp2(11) == 2048nat);
    assert(exp2(12) == 4096nat);
    assert(exp2(13) == 8192nat);
    assert(exp2(14) == 16384nat);
    assert(exp2(15) == 32768nat);
    assert(exp2(16) == 65536nat);
    assert(exp2(17) == 131072nat);
    assert(exp2(18) == 262144nat);
    assert(exp2(19) == 524288nat);
    assert(exp2(20) == 1048576nat);
    assert(exp2(21) == 2097152nat);
    assert(exp2(22) == 4194304nat);
    assert(exp2(23) == 8388608nat);
    assert(exp2(24) == 16777216nat);
    assert(exp2(25) == 33554432nat);
    assert(exp2(26) == 67108864nat);
    assert(exp2(27) == 134217728nat);
    assert(exp2(28) == 268435456nat);
    assert(exp2(29) == 536870912nat);
    assert(exp2(30) == 1073741824nat);
    assert(exp2(31) == 2147483648nat);
    assert(exp2(32) == 4294967296nat);
    assert(exp2(33) == 8589934592nat);
    assert(exp2(34) == 17179869184nat);
    assert(exp2(35) == 34359738368nat);
    assert(exp2(36) == 68719476736nat);
    assert(exp2(37) == 137438953472nat);
    assert(exp2(38) == 274877906944nat);
    assert(exp2(39) == 549755813888nat);
    assert(exp2(40) == 1099511627776nat);
    assert(exp2(41) == 2199023255552nat);
    assert(exp2(42) == 4398046511104nat);
    assert(exp2(43) == 8796093022208nat);
    assert(exp2(44) == 17592186044416nat);
    assert(exp2(45) == 35184372088832nat);
    assert(exp2(46) == 70368744177664nat);
    assert(exp2(47) == 140737488355328nat);
    assert(exp2(48) == 281474976710656nat);
    assert(exp2(49) == 562949953421312nat);
    assert(exp2(50) == 1125899906842624nat);
    assert(exp2(51) == 2251799813685248nat);
    assert(exp2(52) == 4503599627370496nat);
    assert(exp2(53) == 9007199254740992nat);
    assert(exp2(54) == 18014398509481984nat);
    assert(exp2(55) == 36028797018963968nat);
    assert(exp2(56) == 72057594037927936nat);
    assert(exp2(57) == 144115188075855872nat);
    assert(exp2(58) == 288230376151711744nat);
    assert(exp2(59) == 576460752303423488nat);
    assert(exp2(60) == 1152921504606846976nat);
    assert(exp2(61) == 2305843009213693952nat);
    assert(exp2(62) == 4611686018427387904nat);
    assert(exp2(63) == 9223372036854775808nat);
    assert(exp2(64) == 18446744073709551616nat);
}

/// One squaring step of the chain of powers of the root of unity.
proof fn lemma_chain_step(j: nat, x: int, y: int)
    requires
        pow_mod(ROOT_OF_UNITY as int, exp2(j), p()) == x,
        (x * x) % 18446744069414584321int == y,
    ensures
        pow_mod(ROOT_OF_UNITY as int, exp2(j + 1), p()) == y,
{
    lemma_pow_mod_add(ROOT_OF_UNITY as int, exp2(j), exp2(j), p());
    assert(exp2(j + 1) == exp2(j) + exp2(j));
}

proof fn lemma_root_chain_0()
    ensures
        pow_mod(ROOT_OF_UNITY as int, exp2(4), p()) == 2409659110844403285int,
{
    assert(pow_mod(ROOT_OF_UNITY as int, 0, p()) == 1) by {
        lemma_small_mod(1, MOD as nat);
    }
    assert(pow_mod(ROOT_OF_UNITY as int, 1, p()) == ROOT_OF_UNITY as int) by {
        lemma_small_mod(ROOT_OF_UNITY as nat, MOD as nat);
        lemma_small_mod(1, MOD as nat);
    }
    assert(exp2(0) == 1);
    assert(2741030659394132017int * 2741030659394132017int % 18446744069414584321int == 18005659617446971041int) by (nonlinear_arith);
    lemma_chain_step(0, 2741030659394132017int, 18005659617446971041int);
    assert(18005659617446971041int * 18005659617446971041int % 18446744069414584321int == 8090146725783155868int) by (nonlinear_arith);
    lemma_chain_step(1, 18005659617446971041int, 8090146725783155868int);
    assert(8090146725783155868int * 8090146725783155868int % 18446744069414584321int == 359969643911022317int) by (nonlinear_arith);
    lemma_chain_step(2, 8090146725783155868int, 359969643911022317int);
    assert(359969643911022317int * 359969643911022317int % 18446744069414584321int == 2409659110844403285int) by (nonlinear_arith);
    lemma_chain_step(3, 359969643911022317int, 2409659110844403285int);
}

proof fn lemma_root_chain_1()
    ensures
        pow_mod(ROOT_OF_UNITY as int, exp2(8), p()) == 16465232115590673622int,
{
    lemma_root_chain_0();
    assert(2409659110844403285int * 2409659110844403285int % 18446744069414584321int == 14457198646626852238int) by (nonlinear_arith);
    lemma_chain_step(4, 2409659110844403285int, 14457198646626852238int);
    assert(14457198646626852238int * 14457198646626852238int % 18446744069414584321int == 6296571128086426930int) by (nonlinear_arith);
    lemma_chain_step(5, 14457198646626852238int, 6296571128086426930int);
    assert(6296571128086426930int * 6296571128086426930int % 18446744069414584321int == 12001393755412780704int) by (nonlinear_arith);
    lemma_chain_step(6, 6296571128086426930int, 12001393755412780704int);
    assert(12001393755412780704int * 12001393755412780704int % 18446744069414584321int == 16465232115590673622int) by (nonlinear_arith);
    lemma_chain_step(7, 12001393755412780704int, 16465232115590673622int);
}

proof fn lemma_root_chain_2()
    ensures
        pow_mod(ROOT_OF_UNITY as int, exp2(12), p()) == 13257928094073943943int,
{
    lemma_root_chain_1();
    assert(16465232115590673622int * 16465232115590673622int % 18446744069414584321int == 17876759634908243456int) by (nonlinear_arith);
    lemma_chain_step(8, 16465232115590673622int, 17876759634908243456int);
    assert(17876759634908243456int * 17876759634908243456int % 18446744069414584321int == 13106174567173112601int) by (nonlinear_arith);
    lemma_chain_step(9, 17876759634908243456int, 13106174567173112601int);
    assert(13106174567173112601int * 13106174567173112601int % 18446744069414584321int == 12296063776514326972int) by (nonlinear_arith);
    lemma_chain_step(10, 13106174567173112601int, 12296063776514326972int);
    assert(12296063776514326972int * 12296063776514326972int % 18446744069414584321int == 13257928094073943943int) by (nonlinear_arith);
    lemma_chain_step(11, 12296063776514326972int, 13257928094073943943int);
}

proof fn lemma_root_chain_3()
    ensures
        pow_mod(ROOT_OF_UNITY as int, exp2(16), p()) == 13000449423483084890int,
{
    lemma_root_chain_2();
    assert(13257928094073943943int * 13257928094073943943int % 18446744069414584321int == 609606918342371656int) by (nonlinear_arith);
    lemma_chain_step(12, 13257928094073943943int, 609606918342371656int);
    assert(609606918342371656int * 609606918342371656int % 18446744069414584321int == 7251729737659541681int) by (nonlinear_arith);
    lemma_chain_step(13, 609606918342371656int, 7251729737659541681int);
    assert(7251729737659541681int * 7251729737659541681int % 18446744069414584321int == 12181103973748076902int) by (nonlinear_arith);
    lemma_chain_step(14, 7251729737659541681int, 12181103973748076902int);
    assert(12181103973748076902int * 12181103973748076902int % 18446744069414584321int == 13000449423483084890int) by (nonlinear_arith);
    lemma_chain_step(15, 12181103973748076902int, 13000449423483084890int);
}

proof fn lemma_root_chain_4()
    ensures
        pow_mod(ROOT_OF_UNITY as int, exp2(20), p()) == 14582002928314338433int,
{
    lemma_root_chain_3();
    assert(13000449423483084890int * 13000449423483084890int % 18446744069414584321int == 9404676918667014671int) by (nonlinear_arith);
    lemma_chain_step(16, 13000449423483084890int, 9404676918667014671int);
    assert(9404676918667014671int * 9404676918667014671int % 18446744069414584321int == 564919232188802511int) by (nonlinear_arith);
    lemma_chain_step(17, 9404676918667014671int, 564919232188802511int);
    assert(564919232188802511int * 564919232188802511int % 18446744069414584321int == 8058760000402131863int) by (nonlinear_arith);
    lemma_chain_step(18, 564919232188802511int, 8058760000402131863int);
    assert(8058760000402131863int * 8058760000402131863int % 18446744069414584321int == 14582002928314338433int) by (nonlinear_arith);
    lemma_chain_step(19, 8058760000402131863int, 14582002928314338433int);
}

proof fn lemma_root_chain_5()
    ensures
        pow_mod(ROOT_OF_UNITY as int, exp2(24), p()) == 15118306729094611415int,
{
    lemma_root_chain_4();
    assert(14582002928314338433int * 14582002928314338433int % 18446744069414584321int == 15089811602373348664int) by (nonlinear_arith);
    lemma_chain_step(20, 14582002928314338433int, 15089811602373348664int);
    assert(15089811602373348664int * 15089811602373348664int % 18446744069414584321int == 14099721646927849786int) by (nonlinear_arith);
    lemma_chain_step(21, 15089811602373348664int, 14099721646927849786int);
    assert(14099721646927849786int * 14099721646927849786int % 18446744069414584321int == 5263632251618544322int) by (nonlinear_arith);
    lemma_chain_step(22, 14099721646927849786int, 5263632251618544322int);
    assert(5263632251618544322int * 5263632251618544322int % 18446744069414584321int == 15118306729094611415int) by (nonlinear_arith);
    lemma_chain_step(23, 5263632251618544322int, 15118306729094611415int);
}

proof fn lemma_root_chain_6()
    ensures
        pow_mod(ROOT_OF_UNITY as int, exp2(28), p()) == 68719476736int,
{
    lemma_root_chain_5();
    assert(15118306729094611415int * 15118306729094611415int % 18446744069414584321int == 18446726477496979457int) by (nonlinear_arith);
    lemma_chain_step(24, 15118306729094611415int, 18446726477496979457int);
    assert(18446726477496979457int * 18446726477496979457int % 18446744069414584321int == 512int) by (nonlinear_arith);
    lemma_chain_step(25, 18446726477496979457int, 512int);
    assert(512int * 512int % 18446744069414584321int == 262144int) by (nonlinear_arith);
    lemma_chain_step(26, 512int, 262144int);
    assert(262144int * 262144int % 18446744069414584321int == 68719476736int) by (nonlinear_arith);
    lemma_chain_step(27, 262144int, 68719476736int);
}

proof fn lemma_root_chain_7()
    ensures
        pow_mod(ROOT_OF_UNITY as int, exp2(31), p()) == 18446744069414584320int,
{
    lemma_root_chain_6();
    assert(68719476736int * 68719476736int % 18446744069414584321int == 1099511627520int) by (nonlinear_arith);
    lemma_chain_step(28, 68719476736int, 1099511627520int);
    assert(1099511627520int * 1099511627520int % 18446744069414584321int == 18446462594437873665int) by (nonlinear_arith);
    lemma_chain_step(29, 1099511627520int, 18446462594437873665int);
    assert(18446462594437873665int * 18446462594437873665int % 18446744069414584321int == 18446744069414584320int) by (nonlinear_arith);
    lemma_chain_step(30, 18446462594437873665int, 18446744069414584320int);
}

/// The squares of the root of unity modulo the field's order.
proof fn lemma_root_chain()
    ensures
        pow_mod(ROOT_OF_UNITY as int, exp2(31), p()) == p() - 1,
        pow_mod(ROOT_OF_UNITY as int, exp2(32), p()) == 1,
{
    lemma_root_chain_7();
    assert(18446744069414584320int * 18446744069414584320int % 18446744069414584321int == 1int) by (nonlinear_arith);
    lemma_chain_step(31, 18446744069414584320int, 1int);
}

/// Modulo a divisor `r > 1` of the field's order, the root of unity
/// raised to `2^32` is one and raised to `2^31` is `-1`, and `r > 2`.
proof fn lemma_root_mod(r: int)
    requires
        r > 1,
        p() % r == 0,
    ensures
        r > 2,
        pow_mod(ROOT_OF_UNITY as int, exp2(32), r) == 1,
        pow_mod(ROOT_OF_UNITY as int, exp2(31), r) == r - 1,
{
    let g = ROOT_OF_UNITY as int;
    lemma_root_chain();
    lemma_pow_mod_reduce(g, exp2(32), p(), r);
    lemma_pow_mod_reduce(g, exp2(31), p(), r);
    lemma_small_mod(1, r as nat);
    if r == 2 {
        assert(p() % 2 == 1);
    }
    lemma_fundamental_div_mod(p(), r);
    let t = p() / r;
    assert(p() - 1 == r * (t - 1) + (r - 1)) by (nonlinear_arith)
        requires p() == r * t + p() % r, p() % r == 0;
    lemma_mod_multiples_vanish(t - 1, r - 1, r);
    lemma_small_mod((r - 1) as nat, r as nat);
}

/// If `a * u == 1` and `a * d == a` modulo `r`, with `d` reduced, then `d == 1`.
proof fn lemma_cancel(a: int, u: int, d: int, r: int)
    requires
        r > 1,
        0 <= d < r,
        (a * u) % r == 1,
        (a * d) % r == a % r,
    ensures
        d == 1,
{
    lemma_small_mod(d as nat, r as nat);
    lemma_mul_mod_noop_left(a * u, d, r);
    assert((a * u) * d == u * (a * d)) by (nonlinear_arith);
    lemma_mul_mod_noop_right(u, a * d, r);
    lemma_mul_mod_noop_right(u, a, r);
    assert(u * a == a * u) by (nonlinear_arith);
    assert(1 * d == d);
}

/// Modulo a divisor `r > 1` of the field's order, no positive exponent
/// below `2^32` takes the root of unity to one.
proof fn lemma_no_period(r: int, d: nat)
    requires
        r > 1,
        p() % r == 0,
        0 < d < exp2(32),
    ensures
        pow_mod(ROOT_OF_UNITY as int, d, r) != 1,
{
    let g = ROOT_OF_UNITY as int;
    if pow_mod(g, d, r) == 1 {
        lemma_root_mod(r);
        lemma_two_adic(d);
        let (e, o) = two_adic(d);
        if e >= 32 {
            crate::domain::lemma_exp2_mono(32, e);
            assert(d >= exp2(e)) by (nonlinear_arith)
                requires d == exp2(e) * o, o >= 1;
        }
        let k = (31 - e) as nat;
        lemma_exp2_add(e, k);
        assert(e + k == 31);
        lemma_pow_mod_mul(g, d, exp2(k), r);
        lemma_pow_mod_one(exp2(k), r);
        assert(d * exp2(k) == exp2(31) * o) by (nonlinear_arith)
            requires d == exp2(e) * o, exp2(31) == exp2(e) * exp2(k);
        lemma_pow_mod_mul(g, exp2(31), o, r);
        lemma_pow_mod_minus_one(o, r);
    }
}

/// Modulo a divisor `r > 1` of the field's order, the powers `g^i` with
/// `i < 2^32` are pairwise distinct.
proof fn lemma_powers_distinct(r: int, i: nat, j: nat)
    requires
        r > 1,
        p() % r == 0,
        i < j < exp2(32),
    ensures
        pow_mod(ROOT_OF_UNITY as int, i, r) != pow_mod(ROOT_OF_UNITY as int, j, r),
{
    let g = ROOT_OF_UNITY as int;
    let n = exp2(32);
    if pow_mod(g, i, r) == pow_mod(g, j, r) {
        lemma_root_mod(r);
        let d = (j - i) as nat;
        let a = pow_mod(g, i, r);
        lemma_pow_mod_add(g, i, d, r);
        lemma_pow_mod_add(g, i, (n - i) as nat, r);
        assert(i + d == j);
        assert(i + (n - i) as nat == n);
        lemma_pow_mod_range(g, d, r);
        lemma_pow_mod_range(g, i, r);
        lemma_small_mod(a as nat, r as nat);
        lemma_cancel(a, pow_mod(g, (n - i) as nat, r), pow_mod(g, d, r), r);
        lemma_no_period(r, d);
    }
}

/// Every divisor `r > 1` of the field's order is at least `2^32`.
proof fn lemma_divisor_large(r: int)
    requires
        r > 1,
        p() % r == 0,
    ensures
        r >= exp2(32),
{
    let g = ROOT_OF_UNITY as int;
    let n = exp2(32) as int;
    let dom = set_int_range(0, n);
    let f = |i: int| pow_mod(g, i as nat, r);
    lemma_int_range(0, n);
    lemma_int_range(0, r);
    assert(injective_on(f, dom)) by {
        assert forall|x: int, y: int| dom.contains(x) && dom.contains(y) && #[trigger] f(x) == #[trigger] f(y)
            implies x == y by {
            if x < y {
                lemma_powers_distinct(r, x as nat, y as nat);
            } else if y < x {
                lemma_powers_distinct(r, y as nat, x as nat);
            }
        }
    }
    let img = dom.map(f);
    lemma_map_size(dom, img, f);
    assert(img.subset_of(set_int_range(0, r))) by {
        assert forall|v: int| img.contains(v) implies set_int_range(0, r).contains(v) by {
            let i = choose|i: int| dom.contains(i) && f(i) == v;
            lemma_pow_mod_range(g, i as nat, r);
        }
    }
    lemma_len_subset(img, set_int_range(0, r));
}

/// The field's order has no divisor strictly between 1 and itself.
pub proof fn lemma_order_prime(r: int)
    requires
        1 < r < p(),
    ensures
        p() % r != 0,
{
    if p() % r == 0 {
        lemma_fundamental_div_mod(p(), r);
        let s = p() / r;
        assert(p() == r * s);
        assert(s > 1) by (nonlinear_arith)
            requires p() == r * s, r < p(), r > 1;
        assert(p() % s == 0) by {
            lemma_mod_multiples_basic(r, s);
            assert(r * s == s * r) by (nonlinear_arith);
        }
        lemma_divisor_large(r);
        lemma_divisor_large(s);
        lemma_exp2_values();
        assert(r * s >= exp2(32) * exp2(32)) by (nonlinear_arith)
            requires r >= exp2(32), s >= exp2(32);
    }
}

/// Bezout's identity: `g` divides `a` and `b`, and `a * u + b * v == g`.
proof fn bezout(a: int, b: int) -> (r: (int, int, int))
    requires
        a >= 0,
        b >= 0,
        a + b > 0,
    ensures
        r.0 > 0,
        divides(r.0, a),
        divides(r.0, b),
        a * r.1 + b * r.2 == r.0,
    decreases b,
{
    if b == 0 {
        assert(a == 1 * a && 0 == 0 * a);
        (a, 1, 0)
    } else {
        lemma_fundamental_div_mod(a, b);
        let (g, u, v) = bezout(b, a % b);
        let q = a / b;
        let kb = choose|k: int| b == #[trigger] (k * g);
        let kr = choose|k: int| a % b == #[trigger] (k * g);
        assert(a == (q * kb + kr) * g) by (nonlinear_arith)
            requires a == b * q + a % b, b == kb * g, a % b == kr * g;
        assert(a * v + b * (u - q * v) == g) by (nonlinear_arith)
            requires b * u + (a % b) * v == g, a == b * q + a % b;
        (g, v, u - q * v)
    }
}

/// Every non-zero residue modulo the field's order has an inverse.
pub proof fn lemma_nonzero_is_unit(x: int)
    requires
        0 < x < p(),
    ensures
        is_unit_mod(x),
{
    let (g, u, v) = bezout(x, p());
    let kx = choose|k: int| x == #[trigger] (k * g);
    let kp = choose|k: int| p() == #[trigger] (k * g);
    assert(kp >= 1 && kx >= 1) by (nonlinear_arith)
        requires x == kx * g, p() == kp * g, g > 0, x > 0;
    assert(g <= x) by (nonlinear_arith)
        requires x == kx * g, kx >= 1, g > 0;
    if g > 1 {
        assert(p() % g == 0) by {
            lemma_mod_multiples_basic(kp, g);
        }
        lemma_order_prime(g);
    }
    assert(g == 1);
    lemma_mod_multiples_vanish(v, x * u, p());
    assert(p() * v + x * u == 1);
    lemma_small_mod(1, MOD as nat);
    assert((x * u) % p() == 1);
}

proof fn lemma_square_step(r: Goldilocks64, j: nat, x: int, y: int)
    requires
        j >= 1,
        square_n(r, (j - 1) as nat) == Goldilocks64::of(x),
        (x * x) % 18446744069414584321int == y,
        0 <= y < p(),
    ensures
        square_n(r, j) == Goldilocks64::of(y),
{
    lemma_mul_of(x, x);
    lemma_small_mod(y as nat, MOD as nat);
    crate::goldilocks64::lemma_of_congruent_values(x * x, y);
}

/// The root of unity squared 31 times is `-1`, and 32 times is one.
pub proof fn lemma_root_squares()
    ensures
        square_n(Goldilocks64::root_of_unity_spec(), 31) == Goldilocks64::of(p() - 1),
        square_n(Goldilocks64::root_of_unity_spec(), 32) == Goldilocks64::one_spec(),
{
    let r = Goldilocks64::root_of_unity_spec();
    crate::goldilocks64::lemma_root_of(r);
    assert(square_n(r, 0) == Goldilocks64::of(ROOT_OF_UNITY as int));
    assert(2741030659394132017int * 2741030659394132017int % 18446744069414584321int == 18005659617446971041int) by (nonlinear_arith);
    lemma_square_step(r, 1, 2741030659394132017int, 18005659617446971041int);
    assert(18005659617446971041int * 18005659617446971041int % 18446744069414584321int == 8090146725783155868int) by (nonlinear_arith);
    lemma_square_step(r, 2, 18005659617446971041int, 8090146725783155868int);
    assert(8090146725783155868int * 8090146725783155868int % 18446744069414584321int == 359969643911022317int) by (nonlinear_arith);
    lemma_square_step(r, 3, 8090146725783155868int, 359969643911022317int);
    assert(359969643911022317int * 359969643911022317int % 18446744069414584321int == 2409659110844403285int) by (nonlinear_arith);
    lemma_square_step(r, 4, 359969643911022317int, 2409659110844403285int);
    assert(2409659110844403285int * 2409659110844403285int % 18446744069414584321int == 14457198646626852238int) by (nonlinear_arith);
    lemma_square_step(r, 5, 2409659110844403285int, 14457198646626852238int);
    assert(14457198646626852238int * 14457198646626852238int % 18446744069414584321int == 6296571128086426930int) by (nonlinear_arith);
    lemma_square_step(r, 6, 14457198646626852238int, 6296571128086426930int);
    assert(6296571128086426930int * 6296571128086426930int % 18446744069414584321int == 12001393755412780704int) by (nonlinear_arith);
    lemma_square_step(r, 7, 6296571128086426930int, 12001393755412780704int);
    assert(12001393755412780704int * 12001393755412780704int % 18446744069414584321int == 16465232115590673622int) by (nonlinear_arith);
    lemma_square_step(r, 8, 12001393755412780704int, 16465232115590673622int);
    assert(16465232115590673622int * 16465232115590673622int % 18446744069414584321int == 17876759634908243456int) by (nonlinear_arith);
    lemma_square_step(r, 9, 16465232115590673622int, 17876759634908243456int);
    assert(17876759634908243456int * 17876759634908243456int % 18446744069414584321int == 13106174567173112601int) by (nonlinear_arith);
    lemma_square_step(r, 10, 17876759634908243456int, 13106174567173112601int);
    assert(13106174567173112601int * 13106174567173112601int % 18446744069414584321int == 12296063776514326972int) by (nonlinear_arith);
    lemma_square_step(r, 11, 13106174567173112601int, 12296063776514326972int);
    assert(12296063776514326972int * 12296063776514326972int % 18446744069414584321int == 13257928094073943943int) by (nonlinear_arith);
    lemma_square_step(r, 12, 12296063776514326972int, 13257928094073943943int);
    assert(13257928094073943943int * 13257928094073943943int % 18446744069414584321int == 609606918342371656int) by (nonlinear_arith);
    lemma_square_step(r, 13, 13257928094073943943int, 609606918342371656int);
    assert(609606918342371656int * 609606918342371656int % 18446744069414584321int == 7251729737659541681int) by (nonlinear_arith);
    lemma_square_step(r, 14, 609606918342371656int, 7251729737659541681int);
    assert(7251729737659541681int * 7251729737659541681int % 18446744069414584321int == 12181103973748076902int) by (nonlinear_arith);
    lemma_square_step(r, 15, 7251729737659541681int, 12181103973748076902int);
    assert(12181103973748076902int * 12181103973748076902int % 18446744069414584321int == 13000449423483084890int) by (nonlinear_arith);
    lemma_square_step(r, 16, 12181103973748076902int, 13000449423483084890int);
    assert(13000449423483084890int * 13000449423483084890int % 18446744069414584321int == 9404676918667014671int) by (nonlinear_arith);
    lemma_square_step(r, 17, 13000449423483084890int, 9404676918667014671int);
    assert(9404676918667014671int * 9404676918667014671int % 18446744069414584321int == 564919232188802511int) by (nonlinear_arith);
    lemma_square_step(r, 18, 9404676918667014671int, 564919232188802511int);
    assert(564919232188802511int * 564919232188802511int % 18446744069414584321int == 8058760000402131863int) by (nonlinear_arith);
    lemma_square_step(r, 19, 564919232188802511int, 8058760000402131863int);
    assert(8058760000402131863int * 8058760000402131863int % 18446744069414584321int == 14582002928314338433int) by (nonlinear_arith);
    lemma_square_step(r, 20, 8058760000402131863int, 14582002928314338433int);
    assert(14582002928314338433int * 14582002928314338433int % 18446744069414584321int == 15089811602373348664int) by (nonlinear_arith);
    lemma_square_step(r, 21, 14582002928314338433int, 15089811602373348664int);
    assert(15089811602373348664int * 15089811602373348664int % 18446744069414584321int == 14099721646927849786int) by (nonlinear_arith);
    lemma_square_step(r, 22, 15089811602373348664int, 14099721646927849786int);
    assert(14099721646927849786int * 14099721646927849786int % 18446744069414584321int == 5263632251618544322int) by (nonlinear_arith);
    lemma_square_step(r, 23, 14099721646927849786int, 5263632251618544322int);
    assert(5263632251618544322int * 5263632251618544322int % 18446744069414584321int == 15118306729094611415int) by (nonlinear_arith);
    lemma_square_step(r, 24, 5263632251618544322int, 15118306729094611415int);
    assert(15118306729094611415int * 15118306729094611415int % 18446744069414584321int == 18446726477496979457int) by (nonlinear_arith);
    lemma_square_step(r, 25, 15118306729094611415int, 18446726477496979457int);
    assert(18446726477496979457int * 18446726477496979457int % 18446744069414584321int == 512int) by (nonlinear_arith);
    lemma_square_step(r, 26, 18446726477496979457int, 512int);
    assert(512int * 512int % 18446744069414584321int == 262144int) by (nonlinear_arith);
    lemma_square_step(r, 27, 512int, 262144int);
    assert(262144int * 262144int % 18446744069414584321int == 68719476736int) by (nonlinear_arith);
    lemma_square_step(r, 28, 262144int, 68719476736int);
    assert(68719476736int * 68719476736int % 18446744069414584321int == 1099511627520int) by (nonlinear_arith);
    lemma_square_step(r, 29, 68719476736int, 1099511627520int);
    assert(1099511627520int * 1099511627520int % 18446744069414584321int == 18446462594437873665int) by (nonlinear_arith);
    lemma_square_step(r, 30, 1099511627520int, 18446462594437873665int);
    assert(18446462594437873665int * 18446462594437873665int % 18446744069414584321int == 18446744069414584320int) by (nonlinear_arith);
    lemma_square_step(r, 31, 18446462594437873665int, 18446744069414584320int);
    assert(18446744069414584320int * 18446744069414584320int % 18446744069414584321int == 1int) by (nonlinear_arith);
    lemma_square_step(r, 32, 18446744069414584320int, 1int);
    crate::goldilocks64::lemma_consts_of();
}

} // verus!
