//! The quadratic extension of the Goldilocks field by a square root of seven.
use vstd::prelude::*;
use crate::field::{Field, square_n};
use crate::goldilocks64::{
    Goldilocks64, lemma_add_of, lemma_consts_of, lemma_mul_of, lemma_neg_of, lemma_of_value,
    lemma_sub_of, lemma_byte_size, lemma_of_wf,
};

verus! {

/// `c0 + c1 * X` with `X * X == 7`.
#[derive(Clone, Copy, Debug, PartialEq, Eq, Structural)]
pub struct Goldilocks64Ext {
    c0: Goldilocks64,
    c1: Goldilocks64,
}

pub open spec fn seven() -> Goldilocks64 {
    Goldilocks64::from_int_spec(7)
}

/// The norm `c0^2 - 7 * c1^2` of `c0 + c1 * X` in the base field.
pub open spec fn norm(c0: Goldilocks64, c1: Goldilocks64) -> Goldilocks64 {
    Goldilocks64::sub_spec(
        Goldilocks64::mul_spec(c0, c0),
        Goldilocks64::mul_spec(seven(), Goldilocks64::mul_spec(c1, c1)),
    )
}

impl Goldilocks64Ext {
    pub closed spec fn coeffs(self) -> (Goldilocks64, Goldilocks64) {
        (self.c0, self.c1)
    }

    /// Element with the given coordinates.
    pub fn new(c0: Goldilocks64, c1: Goldilocks64) -> (r: Self)
        ensures
            r.coeffs() == (c0, c1),
    {
        Goldilocks64Ext { c0, c1 }
    }

    /// The base-field element `x`, embedded.
    pub fn from_base(x: Goldilocks64) -> (r: Self)
        ensures
            r.coeffs() == (x, Goldilocks64::zero_spec()),
    {
        Goldilocks64Ext { c0: x, c1: Goldilocks64::zero() }
    }
}

proof fn lemma_conjugate_inverse(a0: Goldilocks64, a1: Goldilocks64, w: Goldilocks64)
    requires
        a0.wf(),
        a1.wf(),
        w.wf(),
        Goldilocks64::mul_spec(norm(a0, a1), w) == Goldilocks64::one_spec(),
    ensures
        Goldilocks64::add_spec(
            Goldilocks64::mul_spec(a0, Goldilocks64::mul_spec(a0, w)),
            Goldilocks64::mul_spec(
                seven(),
                Goldilocks64::mul_spec(a1, Goldilocks64::neg_spec(Goldilocks64::mul_spec(a1, w))),
            ),
        ) == Goldilocks64::one_spec(),
        Goldilocks64::add_spec(
            Goldilocks64::mul_spec(a0, Goldilocks64::neg_spec(Goldilocks64::mul_spec(a1, w))),
            Goldilocks64::mul_spec(a1, Goldilocks64::mul_spec(a0, w)),
        ) == Goldilocks64::zero_spec(),
{
    let (x0, x1, y) = (a0.value(), a1.value(), w.value());
    lemma_of_value(a0);
    lemma_of_value(a1);
    lemma_of_value(w);
    lemma_consts_of();
    lemma_mul_of(x0, x0);
    lemma_mul_of(x1, x1);
    lemma_mul_of(7, x1 * x1);
    lemma_sub_of(x0 * x0, 7 * (x1 * x1));
    lemma_mul_of(x0 * x0 - 7 * (x1 * x1), y);
    lemma_mul_of(x0, y);
    lemma_mul_of(x1, y);
    lemma_mul_of(x0, x0 * y);
    lemma_neg_of(x1 * y);
    lemma_mul_of(x1, -(x1 * y));
    lemma_mul_of(7, x1 * -(x1 * y));
    lemma_add_of(x0 * (x0 * y), 7 * (x1 * -(x1 * y)));
    assert(x0 * (x0 * y) + 7 * (x1 * -(x1 * y)) == (x0 * x0 - 7 * (x1 * x1)) * y)
        by (nonlinear_arith);
    lemma_mul_of(x0, -(x1 * y));
    lemma_mul_of(x1, x0 * y);
    lemma_add_of(x0 * -(x1 * y), x1 * (x0 * y));
    assert(x0 * -(x1 * y) + x1 * (x0 * y) == 0) by (nonlinear_arith);
}

spec fn mk(x0: int, x1: int) -> Goldilocks64Ext {
    Goldilocks64Ext { c0: Goldilocks64::of(x0), c1: Goldilocks64::of(x1) }
}

proof fn lemma_mk(a: Goldilocks64Ext)
    requires
        a.wf(),
    ensures
        a == mk(a.c0.value(), a.c1.value()),
{
    lemma_of_value(a.c0);
    lemma_of_value(a.c1);
}

proof fn lemma_mk_ops(x0: int, x1: int, y0: int, y1: int)
    ensures
        Goldilocks64Ext::add_spec(mk(x0, x1), mk(y0, y1)) == mk(x0 + y0, x1 + y1),
        Goldilocks64Ext::sub_spec(mk(x0, x1), mk(y0, y1)) == mk(x0 - y0, x1 - y1),
        Goldilocks64Ext::mul_spec(mk(x0, x1), mk(y0, y1)) == mk(
            x0 * y0 + 7 * (x1 * y1),
            x0 * y1 + x1 * y0,
        ),
        Goldilocks64Ext::neg_spec(mk(x0, x1)) == mk(-x0, -x1),
        Goldilocks64Ext::zero_spec() == mk(0, 0),
        Goldilocks64Ext::one_spec() == mk(1, 0),
{
    lemma_consts_of();
    lemma_add_of(x0, y0);
    lemma_add_of(x1, y1);
    lemma_sub_of(x0, y0);
    lemma_sub_of(x1, y1);
    lemma_neg_of(x0);
    lemma_neg_of(x1);
    lemma_mul_of(x0, y0);
    lemma_mul_of(x1, y1);
    lemma_mul_of(7, x1 * y1);
    lemma_add_of(x0 * y0, 7 * (x1 * y1));
    lemma_mul_of(x0, y1);
    lemma_mul_of(x1, y0);
    lemma_add_of(x0 * y1, x1 * y0);
}

proof fn lemma_norm_of(x0: int, x1: int)
    ensures
        norm(Goldilocks64::of(x0), Goldilocks64::of(x1)) == Goldilocks64::of(x0 * x0 - 7 * (x1 * x1)),
{
    lemma_consts_of();
    lemma_mul_of(x0, x0);
    lemma_mul_of(x1, x1);
    lemma_mul_of(7, x1 * x1);
    lemma_sub_of(x0 * x0, 7 * (x1 * x1));
}

proof fn lemma_mk_eq(x0: int, x1: int, y0: int, y1: int)
    requires
        x0 == y0,
        x1 == y1,
    ensures
        mk(x0, x1) == mk(y0, y1),
{
}

/// Seven has no square root in the base field, so `X * X == 7` defines a
/// field extension of degree two.
pub open spec fn seven_is_nonsquare() -> bool {
    forall|y: Goldilocks64| y.wf() ==> #[trigger] Goldilocks64::mul_spec(y, y) != seven()
}

/// Seven has no square root in the base field.
proof fn lemma_seven_is_nonsquare()
    ensures
        seven_is_nonsquare(),
{
    assert forall|y: Goldilocks64| y.wf() implies #[trigger] Goldilocks64::mul_spec(y, y) != seven() by {
        let v = y.value();
        lemma_of_value(y);
        lemma_mul_of(v, v);
        lemma_consts_of();
        lemma_of_wf(v * v);
        lemma_of_wf(7);
        crate::fermat::lemma_seven_nonsquare(v);
        crate::goldilocks64::lemma_small_mod_pub(7);
    }
}

/// The norm of a non-zero element is non-zero.
proof fn lemma_norm_nonzero(a0: Goldilocks64, a1: Goldilocks64)
    requires
        a0.wf(),
        a1.wf(),
        !(a0 == Goldilocks64::zero_spec() && a1 == Goldilocks64::zero_spec()),
    ensures
        norm(a0, a1) != Goldilocks64::zero_spec(),
{
    lemma_seven_is_nonsquare();
    let (x0, x1) = (a0.value(), a1.value());
    lemma_of_value(a0);
    lemma_of_value(a1);
    lemma_consts_of();
    lemma_norm_of(x0, x1);
    let aa = x0 * x0;
    let bb = 7 * (x1 * x1);
    if norm(a0, a1) == Goldilocks64::zero_spec() {
        // x0 * x0 == 7 * x1 * x1 in the field
        lemma_add_of(aa - bb, bb);
        lemma_add_of(0, bb);
        assert(aa - bb + bb == aa);
        assert(Goldilocks64::of(aa) == Goldilocks64::of(bb));
        if a1 == Goldilocks64::zero_spec() {
            lemma_of_wf(0);
            assert(a1.value() == Goldilocks64::zero_spec().value());
            assert(x1 == 0);
            assert(bb == 0) by (nonlinear_arith)
                requires bb == 7 * (x1 * x1), x1 == 0;
            Goldilocks64::lemma_nonzero_unit(a0);
            let w = choose|w: Goldilocks64| w.wf() && Goldilocks64::mul_spec(a0, w) == Goldilocks64::one_spec();
            lemma_mul_of(x0, x0);
            Goldilocks64::lemma_mul_assoc(a0, a0, w);
            Goldilocks64::lemma_identities(a0);
            Goldilocks64::lemma_mul_comm(Goldilocks64::zero_spec(), w);
            Goldilocks64::lemma_identities(w);
            assert(a0 == Goldilocks64::zero_spec());
        } else {
            Goldilocks64::lemma_nonzero_unit(a1);
            let w = choose|w: Goldilocks64| w.wf() && Goldilocks64::mul_spec(a1, w) == Goldilocks64::one_spec();
            let c = w.value();
            lemma_of_value(w);
            let y = Goldilocks64::of(x0 * c);
            lemma_of_wf(x0 * c);
            lemma_mul_of(x0 * c, x0 * c);
            assert((x0 * c) * (x0 * c) == aa * (c * c)) by (nonlinear_arith)
                requires aa == x0 * x0;
            lemma_mul_of(aa, c * c);
            lemma_mul_of(bb, c * c);
            lemma_mul_of(x1, c);
            assert(Goldilocks64::of(x1 * c) == Goldilocks64::one_spec());
            lemma_mul_of(x1 * c, x1 * c);
            lemma_mul_of(1, 1);
            lemma_mul_of(7, (x1 * c) * (x1 * c));
            lemma_mul_of(7, 1int);
            assert(bb * (c * c) == 7 * ((x1 * c) * (x1 * c))) by (nonlinear_arith)
                requires bb == 7 * (x1 * x1);
            assert(Goldilocks64::mul_spec(y, y) == seven());
        }
    }
}

/// The base-field element `x` in the extension.
pub closed spec fn embed(x: Goldilocks64) -> Goldilocks64Ext {
    Goldilocks64Ext { c0: x, c1: Goldilocks64::zero_spec() }
}

/// Squaring an element of the base field inside the extension.
proof fn lemma_square_n_base(x: Goldilocks64, k: nat)
    requires
        x.wf(),
    ensures
        square_n(embed(x), k) == embed(square_n(x, k)),
    decreases k,
{
    if k > 0 {
        let k1 = (k - 1) as nat;
        lemma_square_n_base(x, k1);
        let y = square_n(x, k1);
        crate::field::lemma_square_n_wf(x, k1);
        let z = Goldilocks64::zero_spec();
        Goldilocks64::lemma_closed(y, y);
        Goldilocks64::lemma_identities(z);
        Goldilocks64::lemma_identities(y);
        Goldilocks64::lemma_identities(Goldilocks64::mul_spec(y, y));
        lemma_consts_of();
        lemma_of_wf(7);
        Goldilocks64::lemma_identities(seven());
        Goldilocks64::lemma_mul_comm(z, y);
    }
}

impl Field for Goldilocks64Ext {
    open spec fn wf(self) -> bool {
        self.coeffs().0.wf() && self.coeffs().1.wf()
    }

    closed spec fn zero_spec() -> Self {
        Goldilocks64Ext { c0: Goldilocks64::zero_spec(), c1: Goldilocks64::zero_spec() }
    }

    closed spec fn one_spec() -> Self {
        Goldilocks64Ext { c0: Goldilocks64::one_spec(), c1: Goldilocks64::zero_spec() }
    }

    closed spec fn add_spec(a: Self, b: Self) -> Self {
        Goldilocks64Ext {
            c0: Goldilocks64::add_spec(a.c0, b.c0),
            c1: Goldilocks64::add_spec(a.c1, b.c1),
        }
    }

    closed spec fn sub_spec(a: Self, b: Self) -> Self {
        Goldilocks64Ext {
            c0: Goldilocks64::sub_spec(a.c0, b.c0),
            c1: Goldilocks64::sub_spec(a.c1, b.c1),
        }
    }

    closed spec fn mul_spec(a: Self, b: Self) -> Self {
        Goldilocks64Ext {
            c0: Goldilocks64::add_spec(
                Goldilocks64::mul_spec(a.c0, b.c0),
                Goldilocks64::mul_spec(seven(), Goldilocks64::mul_spec(a.c1, b.c1)),
            ),
            c1: Goldilocks64::add_spec(
                Goldilocks64::mul_spec(a.c0, b.c1),
                Goldilocks64::mul_spec(a.c1, b.c0),
            ),
        }
    }

    closed spec fn neg_spec(a: Self) -> Self {
        Goldilocks64Ext { c0: Goldilocks64::neg_spec(a.c0), c1: Goldilocks64::neg_spec(a.c1) }
    }

    closed spec fn from_int_spec(x: u64) -> Self {
        Goldilocks64Ext { c0: Goldilocks64::from_int_spec(x), c1: Goldilocks64::zero_spec() }
    }

    closed spec fn inv2_spec() -> Self {
        Goldilocks64Ext { c0: Goldilocks64::inv2_spec(), c1: Goldilocks64::zero_spec() }
    }

    closed spec fn has_inverse_spec(a: Self) -> bool {
        a.wf() && Goldilocks64::has_inverse_spec(norm(a.c0, a.c1))
    }

    closed spec fn bytes_spec(a: Self) -> Seq<u8> {
        Goldilocks64::bytes_spec(a.c0) + Goldilocks64::bytes_spec(a.c1)
    }

    closed spec fn byte_size_spec() -> nat {
        2 * Goldilocks64::byte_size_spec()
    }

    closed spec fn root_of_unity_spec() -> Self {
        Goldilocks64Ext { c0: Goldilocks64::root_of_unity_spec(), c1: Goldilocks64::zero_spec() }
    }

    closed spec fn log_order_spec() -> nat {
        Goldilocks64::log_order_spec()
    }

    proof fn lemma_closed(a: Self, b: Self) {
        Goldilocks64::lemma_closed(a.c0, b.c0);
        assert(Self::one_spec().c0 != Self::zero_spec().c0);
        Goldilocks64::lemma_closed(Goldilocks64::inv2_spec(), a.c0);
        Goldilocks64::lemma_closed(a.c1, b.c1);
        Goldilocks64::lemma_closed(a.c0, b.c1);
        Goldilocks64::lemma_closed(a.c1, b.c0);
        Goldilocks64::lemma_closed(seven(), Goldilocks64::mul_spec(a.c1, b.c1));
        Goldilocks64::lemma_closed(
            Goldilocks64::mul_spec(a.c0, b.c0),
            Goldilocks64::mul_spec(seven(), Goldilocks64::mul_spec(a.c1, b.c1)),
        );
        Goldilocks64::lemma_closed(
            Goldilocks64::mul_spec(a.c0, b.c1),
            Goldilocks64::mul_spec(a.c1, b.c0),
        );
    }

    proof fn lemma_nonzero_unit(a: Self) {
        lemma_norm_nonzero(a.c0, a.c1);
        let n = norm(a.c0, a.c1);
        Goldilocks64::lemma_closed(a.c0, a.c0);
        Goldilocks64::lemma_closed(a.c1, a.c1);
        lemma_of_wf(7);
        lemma_consts_of();
        Goldilocks64::lemma_closed(seven(), Goldilocks64::mul_spec(a.c1, a.c1));
        Goldilocks64::lemma_closed(
            Goldilocks64::mul_spec(a.c0, a.c0),
            Goldilocks64::mul_spec(seven(), Goldilocks64::mul_spec(a.c1, a.c1)),
        );
        Goldilocks64::lemma_nonzero_unit(n);
        let w = choose|w: Goldilocks64| w.wf() && Goldilocks64::mul_spec(n, w) == Goldilocks64::one_spec();
        lemma_conjugate_inverse(a.c0, a.c1, w);
        let inv = Goldilocks64Ext {
            c0: Goldilocks64::mul_spec(a.c0, w),
            c1: Goldilocks64::neg_spec(Goldilocks64::mul_spec(a.c1, w)),
        };
        Goldilocks64::lemma_closed(a.c0, w);
        Goldilocks64::lemma_closed(a.c1, w);
        Goldilocks64::lemma_closed(Goldilocks64::mul_spec(a.c1, w), w);
        assert(inv.wf());
        assert(Self::mul_spec(a, inv) == Self::one_spec());
    }

    proof fn lemma_unit_has_inverse(a: Self, w: Self) {
        let (x0, x1, y0, y1) = (a.c0.value(), a.c1.value(), w.c0.value(), w.c1.value());
        lemma_mk(a);
        lemma_mk(w);
        lemma_mk_ops(x0, x1, y0, y1);
        let (u0, u1) = (x0 * y0 + 7 * (x1 * y1), x0 * y1 + x1 * y0);
        // u0 == 1 and u1 == 0 in the base field
        lemma_consts_of();
        lemma_norm_of(x0, x1);
        lemma_norm_of(y0, y1);
        lemma_norm_of(u0, u1);
        lemma_norm_of(1, 0);
        assert(mk(u0, u1) == mk(1, 0));
        assert(norm(Goldilocks64::of(u0), Goldilocks64::of(u1)) == norm(Goldilocks64::of(1), Goldilocks64::of(0)));
        let na = x0 * x0 - 7 * (x1 * x1);
        let nw = y0 * y0 - 7 * (y1 * y1);
        let (aa, bb, cc, dd) = (x0 * y0, x1 * y1, x0 * y1, x1 * y0);
        assert(u0 * u0 == aa * aa + 14 * (aa * bb) + 49 * (bb * bb)) by (nonlinear_arith)
            requires u0 == aa + 7 * bb;
        assert(u1 * u1 == cc * cc + 2 * (cc * dd) + dd * dd) by (nonlinear_arith)
            requires u1 == cc + dd;
        assert(aa * bb == cc * dd) by (nonlinear_arith)
            requires aa == x0 * y0, bb == x1 * y1, cc == x0 * y1, dd == x1 * y0;
        let (sx0, sx1, sy0, sy1) = (x0 * x0, x1 * x1, y0 * y0, y1 * y1);
        assert(na * nw == sx0 * sy0 - 7 * (sx0 * sy1) - 7 * (sx1 * sy0) + 49 * (sx1 * sy1))
            by (nonlinear_arith)
            requires na == sx0 - 7 * sx1, nw == sy0 - 7 * sy1;
        assert(sx0 * sy0 == aa * aa) by (nonlinear_arith)
            requires sx0 == x0 * x0, sy0 == y0 * y0, aa == x0 * y0;
        assert(sx0 * sy1 == cc * cc) by (nonlinear_arith)
            requires sx0 == x0 * x0, sy1 == y1 * y1, cc == x0 * y1;
        assert(sx1 * sy0 == dd * dd) by (nonlinear_arith)
            requires sx1 == x1 * x1, sy0 == y0 * y0, dd == x1 * y0;
        assert(sx1 * sy1 == bb * bb) by (nonlinear_arith)
            requires sx1 == x1 * x1, sy1 == y1 * y1, bb == x1 * y1;
        assert(u0 * u0 - 7 * (u1 * u1) == na * nw);
        lemma_mul_of(na, nw);
        lemma_of_wf(na);
        lemma_of_wf(nw);
        lemma_of_wf(na * nw);
        // of(na) * of(nw) == of(na * nw) == of(1)
        assert(Goldilocks64::of(na * nw) == Goldilocks64::of(1 * 1 - 7 * (0 * 0)));
        lemma_of_wf(1);
        assert(Goldilocks64::mul_spec(Goldilocks64::of(na), Goldilocks64::of(nw)) == Goldilocks64::one_spec());
        Goldilocks64::lemma_unit_has_inverse(Goldilocks64::of(na), Goldilocks64::of(nw));
    }

    proof fn lemma_add_comm(a: Self, b: Self) {
        Goldilocks64::lemma_add_comm(a.c0, b.c0);
        Goldilocks64::lemma_add_comm(a.c1, b.c1);
    }

    proof fn lemma_mul_comm(a: Self, b: Self) {
        Goldilocks64::lemma_mul_comm(a.c0, b.c0);
        Goldilocks64::lemma_mul_comm(a.c1, b.c1);
        Goldilocks64::lemma_mul_comm(a.c0, b.c1);
        Goldilocks64::lemma_mul_comm(a.c1, b.c0);
        Goldilocks64::lemma_add_comm(
            Goldilocks64::mul_spec(a.c0, b.c1),
            Goldilocks64::mul_spec(a.c1, b.c0),
        );
    }

    proof fn lemma_add_assoc(a: Self, b: Self, c: Self) {
        let (x0, x1, y0, y1, z0, z1) = (
            a.c0.value(),
            a.c1.value(),
            b.c0.value(),
            b.c1.value(),
            c.c0.value(),
            c.c1.value(),
        );
        lemma_mk(a);
        lemma_mk(b);
        lemma_mk(c);
        lemma_mk_ops(x0, x1, y0, y1);
        lemma_mk_ops(x0 + y0, x1 + y1, z0, z1);
        lemma_mk_ops(y0, y1, z0, z1);
        lemma_mk_ops(x0, x1, y0 + z0, y1 + z1);
        lemma_mk_eq(x0 + y0 + z0, x1 + y1 + z1, x0 + (y0 + z0), x1 + (y1 + z1));
    }

    proof fn lemma_mul_assoc(a: Self, b: Self, c: Self) {
        let (x0, x1, y0, y1, z0, z1) = (
            a.c0.value(),
            a.c1.value(),
            b.c0.value(),
            b.c1.value(),
            c.c0.value(),
            c.c1.value(),
        );
        lemma_mk(a);
        lemma_mk(b);
        lemma_mk(c);
        let (u0, u1) = (x0 * y0 + 7 * (x1 * y1), x0 * y1 + x1 * y0);
        let (w0, w1) = (y0 * z0 + 7 * (y1 * z1), y0 * z1 + y1 * z0);
        lemma_mk_ops(x0, x1, y0, y1);
        lemma_mk_ops(u0, u1, z0, z1);
        lemma_mk_ops(y0, y1, z0, z1);
        lemma_mk_ops(x0, x1, w0, w1);
        assert(u0 * z0 == x0 * y0 * z0 + 7 * (x1 * y1 * z0)) by (nonlinear_arith)
            requires
                u0 == x0 * y0 + 7 * (x1 * y1),
        ;
        assert(u1 * z1 == x0 * y1 * z1 + x1 * y0 * z1) by (nonlinear_arith)
            requires
                u1 == x0 * y1 + x1 * y0,
        ;
        assert(x0 * w0 == x0 * y0 * z0 + 7 * (x0 * y1 * z1)) by (nonlinear_arith)
            requires
                w0 == y0 * z0 + 7 * (y1 * z1),
        ;
        assert(x1 * w1 == x1 * y0 * z1 + x1 * y1 * z0) by (nonlinear_arith)
            requires
                w1 == y0 * z1 + y1 * z0,
        ;
        assert(u0 * z1 == x0 * y0 * z1 + 7 * (x1 * y1 * z1)) by (nonlinear_arith)
            requires
                u0 == x0 * y0 + 7 * (x1 * y1),
        ;
        assert(u1 * z0 == x0 * y1 * z0 + x1 * y0 * z0) by (nonlinear_arith)
            requires
                u1 == x0 * y1 + x1 * y0,
        ;
        assert(x0 * w1 == x0 * y0 * z1 + x0 * y1 * z0) by (nonlinear_arith)
            requires
                w1 == y0 * z1 + y1 * z0,
        ;
        assert(x1 * w0 == x1 * y0 * z0 + 7 * (x1 * y1 * z1)) by (nonlinear_arith)
            requires
                w0 == y0 * z0 + 7 * (y1 * z1),
        ;
        lemma_mk_eq(u0 * z0 + 7 * (u1 * z1), u0 * z1 + u1 * z0, x0 * w0 + 7 * (x1 * w1), x0 * w1 + x1 * w0);
    }

    proof fn lemma_distrib(a: Self, b: Self, c: Self) {
        let (x0, x1, y0, y1, z0, z1) = (
            a.c0.value(),
            a.c1.value(),
            b.c0.value(),
            b.c1.value(),
            c.c0.value(),
            c.c1.value(),
        );
        lemma_mk(a);
        lemma_mk(b);
        lemma_mk(c);
        lemma_mk_ops(y0, y1, z0, z1);
        lemma_mk_ops(x0, x1, y0 + z0, y1 + z1);
        lemma_mk_ops(x0, x1, y0, y1);
        lemma_mk_ops(x0, x1, z0, z1);
        lemma_mk_ops(
            x0 * y0 + 7 * (x1 * y1),
            x0 * y1 + x1 * y0,
            x0 * z0 + 7 * (x1 * z1),
            x0 * z1 + x1 * z0,
        );
        assert(x0 * (y0 + z0) + 7 * (x1 * (y1 + z1)) == x0 * y0 + 7 * (x1 * y1) + (x0 * z0 + 7 * (
        x1 * z1))) by (nonlinear_arith);
        assert(x0 * (y1 + z1) + x1 * (y0 + z0) == x0 * y1 + x1 * y0 + (x0 * z1 + x1 * z0))
            by (nonlinear_arith);
    }

    proof fn lemma_identities(a: Self) {
        let (x0, x1) = (a.c0.value(), a.c1.value());
        lemma_mk(a);
        lemma_mk_ops(x0, x1, 0, 0);
        lemma_mk_ops(x0, x1, 1, 0);
        lemma_mk_ops(x0, x1, -x0, -x1);
        lemma_mk_eq(x0 * 1 + 7 * (x1 * 0), x0 * 0 + x1 * 1, x0, x1);
        lemma_mk_eq(x0 * 0 + 7 * (x1 * 0), x0 * 0 + x1 * 0, 0, 0);
    }

    proof fn lemma_sub_is_add_neg(a: Self, b: Self) {
        let (x0, x1, y0, y1) = (a.c0.value(), a.c1.value(), b.c0.value(), b.c1.value());
        lemma_mk(a);
        lemma_mk(b);
        lemma_mk_ops(x0, x1, y0, y1);
        lemma_mk_ops(x0, x1, -y0, -y1);
        lemma_mk_ops(y0, y1, 0, 0);
        lemma_mk_eq(x0 - y0, x1 - y1, x0 + -y0, x1 + -y1);
    }

    fn zero() -> (r: Self) {
        Goldilocks64Ext { c0: Goldilocks64::zero(), c1: Goldilocks64::zero() }
    }

    fn one() -> (r: Self) {
        Goldilocks64Ext { c0: Goldilocks64::one(), c1: Goldilocks64::zero() }
    }

    fn from_int(x: u64) -> (r: Self) {
        Goldilocks64Ext { c0: Goldilocks64::from_int(x), c1: Goldilocks64::zero() }
    }

    fn add(self, o: Self) -> (r: Self) {
        Goldilocks64Ext { c0: self.c0.add(o.c0), c1: self.c1.add(o.c1) }
    }

    fn sub(self, o: Self) -> (r: Self) {
        Goldilocks64Ext { c0: self.c0.sub(o.c0), c1: self.c1.sub(o.c1) }
    }

    fn mul(self, o: Self) -> (r: Self) {
        let s = Goldilocks64::from_int(7);
        Goldilocks64Ext {
            c0: self.c0.mul(o.c0).add(s.mul(self.c1.mul(o.c1))),
            c1: self.c0.mul(o.c1).add(self.c1.mul(o.c0)),
        }
    }

    fn neg(self) -> (r: Self) {
        Goldilocks64Ext { c0: self.c0.neg(), c1: self.c1.neg() }
    }

    fn equals(self, o: Self) -> (r: bool) {
        self.c0.equals(o.c0) && self.c1.equals(o.c1)
    }

    fn is_zero(self) -> (r: bool) {
        self.c0.is_zero() && self.c1.is_zero()
    }

    fn inverse(self) -> (r: Self) {
        proof {
            if self.wf() && self != Self::zero_spec() {
                Self::lemma_nonzero_unit(self);
                let w = choose|w: Self| w.wf() && #[trigger] Self::mul_spec(self, w) == Self::one_spec();
                Self::lemma_unit_has_inverse(self, w);
            }
        }
        let s = Goldilocks64::from_int(7);
        let n = self.c0.mul(self.c0).sub(s.mul(self.c1.mul(self.c1)));
        let w = n.inverse();
        let r = Goldilocks64Ext { c0: self.c0.mul(w), c1: self.c1.mul(w).neg() };
        proof {
            if Self::has_inverse_spec(self) {
                lemma_conjugate_inverse(self.c0, self.c1, w);
            }
        }
        r
    }

    fn inverse_2() -> (r: Self) {
        let h = Goldilocks64::inverse_2();
        proof {
            lemma_consts_of();
            lemma_of_value(h);
            lemma_mul_of(h.value(), 2);
            lemma_mul_of(h.value(), 0);
            lemma_mul_of(0, 0);
            lemma_mul_of(0, 2);
            lemma_mul_of(7, 0);
            lemma_add_of(h.value() * 2, 0);
            lemma_add_of(0, 0);
        }
        Goldilocks64Ext { c0: h, c1: Goldilocks64::zero() }
    }

    fn random_element() -> (r: Self) {
        Goldilocks64Ext { c0: Goldilocks64::random_element(), c1: Goldilocks64::random_element() }
    }

    fn to_bytes(self) -> (r: Vec<u8>) {
        let mut r = self.c0.to_bytes();
        let mut t = self.c1.to_bytes();
        r.append(&mut t);
        r
    }

    fn byte_size() -> (r: usize) {
        proof {
            lemma_byte_size();
        }
        2 * Goldilocks64::byte_size()
    }

    fn root_of_unity() -> (r: Self) {
        Goldilocks64Ext { c0: Goldilocks64::root_of_unity(), c1: Goldilocks64::zero() }
    }

    fn log_order() -> (r: u64) {
        Goldilocks64::log_order()
    }
}

impl crate::field::RootOfUnity for Goldilocks64Ext {
    proof fn lemma_root_order() {
        <Goldilocks64 as crate::field::RootOfUnity>::lemma_root_order();
        lemma_square_n_base(Goldilocks64::root_of_unity_spec(), Goldilocks64::log_order_spec());
        lemma_square_n_base(
            Goldilocks64::root_of_unity_spec(),
            (Goldilocks64::log_order_spec() - 1) as nat,
        );
        Goldilocks64::lemma_closed(Goldilocks64::zero_spec(), Goldilocks64::zero_spec());
    }
}

} // verus!
