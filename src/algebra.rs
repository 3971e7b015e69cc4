//! Identities of commutative rings derived from the `Field` axioms, for the
//! linear interpolation used by the sumcheck fold and the evaluation argument.
use vstd::prelude::*;
use crate::field::Field;

verus! {

/// `l * (1 - a) + h * a`: the line through `(0, l)` and `(1, h)` at `a`.
pub open spec fn lin<T: Field>(l: T, h: T, a: T) -> T {
    T::add_spec(T::mul_spec(l, T::sub_spec(T::one_spec(), a)), T::mul_spec(h, a))
}

/// The sum with `b` is zero only for `b == -a`.
pub proof fn lemma_neg_unique<T: Field>(a: T, b: T)
    requires
        a.wf(),
        b.wf(),
        T::add_spec(a, b) == T::zero_spec(),
    ensures
        b == T::neg_spec(a),
{
    T::lemma_closed(a, b);
    T::lemma_identities(b);
    T::lemma_identities(a);
    T::lemma_add_assoc(b, a, T::neg_spec(a));
    T::lemma_add_comm(b, a);
    T::lemma_add_comm(T::zero_spec(), T::neg_spec(a));
    T::lemma_identities(T::neg_spec(a));
}

/// `a * (-b) == -(a * b)`.
pub proof fn lemma_mul_neg<T: Field>(a: T, b: T)
    requires
        a.wf(),
        b.wf(),
    ensures
        T::mul_spec(a, T::neg_spec(b)) == T::neg_spec(T::mul_spec(a, b)),
{
    T::lemma_closed(a, b);
    T::lemma_closed(b, b);
    T::lemma_closed(a, T::neg_spec(b));
    T::lemma_distrib(a, b, T::neg_spec(b));
    T::lemma_identities(b);
    T::lemma_identities(a);
    lemma_neg_unique(T::mul_spec(a, b), T::mul_spec(a, T::neg_spec(b)));
}

/// `a * (c - x) == a * c - a * x`, the latter as `a * c + -(a * x)`.
pub proof fn lemma_mul_sub<T: Field>(a: T, c: T, x: T)
    requires
        a.wf(),
        c.wf(),
        x.wf(),
    ensures
        T::mul_spec(a, T::sub_spec(c, x)) == T::add_spec(
            T::mul_spec(a, c),
            T::neg_spec(T::mul_spec(a, x)),
        ),
{
    T::lemma_closed(c, x);
    T::lemma_closed(x, x);
    T::lemma_sub_is_add_neg(c, x);
    T::lemma_distrib(a, c, T::neg_spec(x));
    lemma_mul_neg(a, x);
}

/// `(p + q) - p == q`.
pub proof fn lemma_add_sub_cancel<T: Field>(p: T, q: T)
    requires
        p.wf(),
        q.wf(),
    ensures
        T::sub_spec(T::add_spec(p, q), p) == q,
{
    T::lemma_closed(p, q);
    T::lemma_sub_is_add_neg(T::add_spec(p, q), p);
    T::lemma_add_comm(p, q);
    T::lemma_add_assoc(q, p, T::neg_spec(p));
    T::lemma_identities(p);
    T::lemma_identities(q);
}

/// `l * (1 - a) + h * a == l + (h * a + -(l * a))`.
pub proof fn lemma_lin_expanded<T: Field>(l: T, h: T, a: T)
    requires
        l.wf(),
        h.wf(),
        a.wf(),
    ensures
        lin(l, h, a) == T::add_spec(
            l,
            T::add_spec(T::mul_spec(h, a), T::neg_spec(T::mul_spec(l, a))),
        ),
{
    let one = T::one_spec();
    T::lemma_closed(one, a);
    T::lemma_closed(l, a);
    T::lemma_closed(h, a);
    T::lemma_closed(l, one);
    lemma_mul_sub(l, one, a);
    T::lemma_identities(l);
    let la = T::mul_spec(l, a);
    let ha = T::mul_spec(h, a);
    T::lemma_closed(la, ha);
    T::lemma_add_assoc(l, T::neg_spec(la), ha);
    T::lemma_add_comm(T::neg_spec(la), ha);
}

/// The line through `(0, l)` and `(1, h)` at `a` is `l + (h - l) * a`.
pub proof fn lemma_lin_affine<T: Field>(l: T, h: T, a: T)
    requires
        l.wf(),
        h.wf(),
        a.wf(),
    ensures
        lin(l, h, a) == T::add_spec(l, T::mul_spec(T::sub_spec(h, l), a)),
{
    lemma_lin_expanded(l, h, a);
    T::lemma_closed(h, l);
    T::lemma_mul_comm(T::sub_spec(h, l), a);
    lemma_mul_sub(a, h, l);
    T::lemma_mul_comm(a, h);
    T::lemma_mul_comm(a, l);
}

/// One step of the evaluation argument: moving from the line's value at
/// `x` towards its value at `x + 1` by `c - x` lands on its value at `c`.
pub proof fn lemma_lin_step<T: Field>(l: T, h: T, x: T, c: T)
    requires
        l.wf(),
        h.wf(),
        x.wf(),
        c.wf(),
    ensures
        T::add_spec(
            lin(l, h, x),
            T::mul_spec(
                T::sub_spec(lin(l, h, T::add_spec(x, T::one_spec())), lin(l, h, x)),
                T::sub_spec(c, x),
            ),
        ) == lin(l, h, c),
{
    let one = T::one_spec();
    T::lemma_closed(x, one);
    T::lemma_closed(h, l);
    T::lemma_closed(c, x);
    let d = T::sub_spec(h, l);
    let x1 = T::add_spec(x, one);
    lemma_lin_affine(l, h, x);
    lemma_lin_affine(l, h, x1);
    lemma_lin_affine(l, h, c);
    let dx = T::mul_spec(d, x);
    let dc = T::mul_spec(d, c);
    T::lemma_closed(d, x);
    T::lemma_closed(d, c);
    T::lemma_closed(l, dx);
    // d * (x + 1) == d * x + d
    T::lemma_distrib(d, x, one);
    T::lemma_identities(d);
    // e == (l + d * x) + d, so e - y == d
    T::lemma_add_assoc(l, dx, d);
    let y = T::add_spec(l, dx);
    lemma_add_sub_cancel(y, d);
    // y + d * (c - x) == l + d * c
    lemma_mul_sub(d, c, x);
    T::lemma_closed(dc, T::neg_spec(dx));
    T::lemma_closed(dx, dc);
    T::lemma_add_assoc(l, dx, T::add_spec(dc, T::neg_spec(dx)));
    T::lemma_add_comm(dc, T::neg_spec(dx));
    T::lemma_add_assoc(dx, T::neg_spec(dx), dc);
    T::lemma_identities(dx);
    T::lemma_add_comm(T::zero_spec(), dc);
    T::lemma_identities(dc);
}

/// `(p + q) * s == p * s + q * s`.
pub proof fn lemma_distrib_right<T: Field>(p: T, q: T, s: T)
    requires
        p.wf(),
        q.wf(),
        s.wf(),
    ensures
        T::mul_spec(T::add_spec(p, q), s) == T::add_spec(T::mul_spec(p, s), T::mul_spec(q, s)),
{
    T::lemma_mul_comm(T::add_spec(p, q), s);
    T::lemma_distrib(s, p, q);
    T::lemma_mul_comm(s, p);
    T::lemma_mul_comm(s, q);
}

/// `(a * u) * s == (a * s) * u`.
pub proof fn lemma_mul_swap<T: Field>(a: T, u: T, s: T)
    requires
        a.wf(),
        u.wf(),
        s.wf(),
    ensures
        T::mul_spec(T::mul_spec(a, u), s) == T::mul_spec(T::mul_spec(a, s), u),
{
    T::lemma_mul_assoc(a, u, s);
    T::lemma_mul_comm(u, s);
    T::lemma_mul_assoc(a, s, u);
}

/// `(a + b) + (c + d) == (a + c) + (b + d)`.
pub proof fn lemma_add_shuffle<T: Field>(a: T, b: T, c: T, d: T)
    requires
        a.wf(),
        b.wf(),
        c.wf(),
        d.wf(),
    ensures
        T::add_spec(T::add_spec(a, b), T::add_spec(c, d)) == T::add_spec(
            T::add_spec(a, c),
            T::add_spec(b, d),
        ),
{
    T::lemma_closed(a, b);
    T::lemma_closed(c, d);
    T::lemma_closed(b, d);
    T::lemma_closed(c, b);
    T::lemma_closed(a, c);
    T::lemma_add_assoc(a, b, T::add_spec(c, d));
    T::lemma_add_assoc(b, c, d);
    T::lemma_add_comm(b, c);
    T::lemma_add_assoc(c, b, d);
    T::lemma_add_assoc(a, c, T::add_spec(b, d));
}

/// Interpolating in two directions commutes.
pub proof fn lemma_lin_swap<T: Field>(a0: T, b0: T, a1: T, b1: T, x: T, y: T)
    requires
        a0.wf(),
        b0.wf(),
        a1.wf(),
        b1.wf(),
        x.wf(),
        y.wf(),
    ensures
        lin(lin(a0, b0, x), lin(a1, b1, x), y) == lin(lin(a0, a1, y), lin(b0, b1, y), x),
{
    let one = T::one_spec();
    T::lemma_closed(one, x);
    T::lemma_closed(one, y);
    let u = T::sub_spec(one, x);
    let s = T::sub_spec(one, y);
    T::lemma_closed(a0, u);
    T::lemma_closed(b0, x);
    T::lemma_closed(a1, u);
    T::lemma_closed(b1, x);
    T::lemma_closed(a0, s);
    T::lemma_closed(a1, y);
    T::lemma_closed(b0, s);
    T::lemma_closed(b1, y);
    // left side
    lemma_distrib_right(T::mul_spec(a0, u), T::mul_spec(b0, x), s);
    lemma_distrib_right(T::mul_spec(a1, u), T::mul_spec(b1, x), y);
    lemma_mul_swap(a0, u, s);
    lemma_mul_swap(b0, x, s);
    lemma_mul_swap(a1, u, y);
    lemma_mul_swap(b1, x, y);
    // right side
    lemma_distrib_right(T::mul_spec(a0, s), T::mul_spec(a1, y), u);
    lemma_distrib_right(T::mul_spec(b0, s), T::mul_spec(b1, y), x);
    T::lemma_closed(T::mul_spec(a0, s), u);
    T::lemma_closed(T::mul_spec(b0, s), x);
    T::lemma_closed(T::mul_spec(a1, y), u);
    T::lemma_closed(T::mul_spec(b1, y), x);
    lemma_add_shuffle(
        T::mul_spec(T::mul_spec(a0, s), u),
        T::mul_spec(T::mul_spec(b0, s), x),
        T::mul_spec(T::mul_spec(a1, y), u),
        T::mul_spec(T::mul_spec(b1, y), x),
    );
}

pub proof fn lemma_lin_wf<T: Field>(l: T, h: T, a: T)
    requires
        l.wf(),
        h.wf(),
        a.wf(),
    ensures
        lin(l, h, a).wf(),
{
    let one = T::one_spec();
    T::lemma_closed(one, a);
    T::lemma_closed(l, T::sub_spec(one, a));
    T::lemma_closed(h, a);
    T::lemma_closed(T::mul_spec(l, T::sub_spec(one, a)), T::mul_spec(h, a));
}

} // verus!
