//! The field capability that every protocol of the crate is generic over.
use vstd::prelude::*;

verus! {

/// A finite field. Its arithmetic is described by spec functions; each
/// executable operation is tied to them by its contract.
pub trait Field: Sized + Copy {
    /// Canonical representation of an element.
    spec fn wf(self) -> bool;

    spec fn zero_spec() -> Self;

    spec fn one_spec() -> Self;

    spec fn add_spec(a: Self, b: Self) -> Self;

    spec fn sub_spec(a: Self, b: Self) -> Self;

    spec fn mul_spec(a: Self, b: Self) -> Self;

    spec fn neg_spec(a: Self) -> Self;

    spec fn from_int_spec(x: u64) -> Self;

    /// The element returned by `inverse_2`.
    spec fn inv2_spec() -> Self;

    /// Whether `inverse` is guaranteed to find a multiplicative inverse.
    spec fn has_inverse_spec(a: Self) -> bool;

    /// Fixed-width little-endian serialization.
    spec fn bytes_spec(a: Self) -> Seq<u8>;

    spec fn byte_size_spec() -> nat;

    /// Generator of the multiplicative subgroup of order `2^log_order()`.
    spec fn root_of_unity_spec() -> Self;

    spec fn log_order_spec() -> nat;

    /// Every operation yields a canonical element.
    proof fn lemma_closed(a: Self, b: Self)
        ensures
            Self::add_spec(a, b).wf(),
            Self::sub_spec(a, b).wf(),
            Self::mul_spec(a, b).wf(),
            Self::neg_spec(a).wf(),
            Self::zero_spec().wf(),
            Self::one_spec().wf(),
            Self::from_int_spec(0) == Self::zero_spec(),
            Self::from_int_spec(1) == Self::one_spec(),
            Self::inv2_spec().wf(),
            Self::one_spec() != Self::zero_spec(),
            Self::root_of_unity_spec() != Self::zero_spec(),
            Self::root_of_unity_spec().wf(),
    ;

    /// The field law: every non-zero element has an inverse.
    proof fn lemma_nonzero_unit(a: Self)
        requires
            a.wf(),
            a != Self::zero_spec(),
        ensures
            exists|w: Self| w.wf() && #[trigger] Self::mul_spec(a, w) == Self::one_spec(),
    ;

    /// An element with an inverse is one that `inverse` inverts.
    proof fn lemma_unit_has_inverse(a: Self, w: Self)
        requires
            a.wf(),
            w.wf(),
            Self::mul_spec(a, w) == Self::one_spec(),
        ensures
            Self::has_inverse_spec(a),
    ;

    proof fn lemma_add_comm(a: Self, b: Self)
        ensures
            Self::add_spec(a, b) == Self::add_spec(b, a),
    ;

    proof fn lemma_mul_comm(a: Self, b: Self)
        ensures
            Self::mul_spec(a, b) == Self::mul_spec(b, a),
    ;

    proof fn lemma_add_assoc(a: Self, b: Self, c: Self)
        requires
            a.wf(),
            b.wf(),
            c.wf(),
        ensures
            Self::add_spec(Self::add_spec(a, b), c) == Self::add_spec(a, Self::add_spec(b, c)),
    ;

    proof fn lemma_mul_assoc(a: Self, b: Self, c: Self)
        requires
            a.wf(),
            b.wf(),
            c.wf(),
        ensures
            Self::mul_spec(Self::mul_spec(a, b), c) == Self::mul_spec(a, Self::mul_spec(b, c)),
    ;

    proof fn lemma_distrib(a: Self, b: Self, c: Self)
        requires
            a.wf(),
            b.wf(),
            c.wf(),
        ensures
            Self::mul_spec(a, Self::add_spec(b, c)) == Self::add_spec(
                Self::mul_spec(a, b),
                Self::mul_spec(a, c),
            ),
    ;

    proof fn lemma_identities(a: Self)
        requires
            a.wf(),
        ensures
            Self::add_spec(a, Self::zero_spec()) == a,
            Self::mul_spec(a, Self::one_spec()) == a,
            Self::mul_spec(a, Self::zero_spec()) == Self::zero_spec(),
            Self::add_spec(a, Self::neg_spec(a)) == Self::zero_spec(),
    ;

    proof fn lemma_sub_is_add_neg(a: Self, b: Self)
        requires
            a.wf(),
            b.wf(),
        ensures
            Self::sub_spec(a, b) == Self::add_spec(a, Self::neg_spec(b)),
    ;

    fn zero() -> (r: Self)
        ensures
            r == Self::zero_spec(),
            r.wf(),
    ;

    fn one() -> (r: Self)
        ensures
            r == Self::one_spec(),
            r.wf(),
    ;

    fn from_int(x: u64) -> (r: Self)
        ensures
            r == Self::from_int_spec(x),
            r.wf(),
    ;

    fn add(self, o: Self) -> (r: Self)
        ensures
            r == Self::add_spec(self, o),
            r.wf(),
    ;

    fn sub(self, o: Self) -> (r: Self)
        ensures
            r == Self::sub_spec(self, o),
            r.wf(),
    ;

    fn mul(self, o: Self) -> (r: Self)
        ensures
            r == Self::mul_spec(self, o),
            r.wf(),
    ;

    fn neg(self) -> (r: Self)
        ensures
            r == Self::neg_spec(self),
            r.wf(),
    ;

    fn equals(self, o: Self) -> (r: bool)
        ensures
            r == (self == o),
    ;

    fn is_zero(self) -> (r: bool)
        ensures
            r == (self == Self::zero_spec()),
    ;

    fn inverse(self) -> (r: Self)
        ensures
            Self::has_inverse_spec(self) ==> Self::mul_spec(self, r) == Self::one_spec(),
            self.wf() && self != Self::zero_spec() ==> Self::mul_spec(self, r)
                == Self::one_spec(),
            r.wf(),
    ;

    /// The inverse of two.
    fn inverse_2() -> (r: Self)
        ensures
            Self::mul_spec(r, Self::from_int_spec(2)) == Self::one_spec(),
            r == Self::inv2_spec(),
            r.wf(),
    ;

    fn random_element() -> (r: Self)
        ensures
            r.wf(),
    ;

    fn to_bytes(self) -> (r: Vec<u8>)
        ensures
            r@ == Self::bytes_spec(self),
            r@.len() == Self::byte_size_spec(),
    ;

    fn byte_size() -> (r: usize)
        ensures
            r == Self::byte_size_spec(),
            r >= 1,
    ;

    fn root_of_unity() -> (r: Self)
        ensures
            r == Self::root_of_unity_spec(),
            r.wf(),
    ;

    fn log_order() -> (r: u64)
        ensures
            r == Self::log_order_spec(),
            r < 64,
    ;
}

/// Adding one changes every element.
pub proof fn lemma_add_one_differs<T: Field>(f: T)
    requires
        f.wf(),
    ensures
        T::add_spec(f, T::one_spec()) != f,
{
    let one = T::one_spec();
    T::lemma_closed(f, one);
    if T::add_spec(f, one) == f {
        T::lemma_identities(f);
        T::lemma_add_comm(f, one);
        T::lemma_add_assoc(one, f, T::neg_spec(f));
        T::lemma_identities(one);
        assert(T::add_spec(T::add_spec(one, f), T::neg_spec(f)) == T::add_spec(f, T::neg_spec(f)));
        assert(one == T::zero_spec());
    }
}

/// A field whose root of unity has order exactly `2^log_order`.
pub trait RootOfUnity: Field {
    proof fn lemma_root_order()
        ensures
            Self::log_order_spec() >= 1,
            Self::root_of_unity_spec().wf(),
            square_n(Self::root_of_unity_spec(), Self::log_order_spec()) == Self::one_spec(),
            square_n(Self::root_of_unity_spec(), (Self::log_order_spec() - 1) as nat)
                != Self::one_spec(),
    ;
}

/// The generator of order `2^log_size`: squared `log_size` times it is
/// one, and squared one time less it is not.
pub proof fn lemma_generator_order<T: RootOfUnity>(log_size: nat)
    requires
        1 <= log_size <= T::log_order_spec(),
    ensures
        ({
            let g = square_n(T::root_of_unity_spec(), (T::log_order_spec() - log_size) as nat);
            &&& square_n(g, log_size) == T::one_spec()
            &&& square_n(g, (log_size - 1) as nat) != T::one_spec()
        }),
{
    T::lemma_root_order();
    let d = (T::log_order_spec() - log_size) as nat;
    lemma_square_n_add(T::root_of_unity_spec(), d, log_size);
    lemma_square_n_add(T::root_of_unity_spec(), d, (log_size - 1) as nat);
    assert(d + log_size == T::log_order_spec());
    assert(d + (log_size - 1) as nat == (T::log_order_spec() - 1) as nat);
}

/// A non-zero element is a unit that `inverse` inverts.
pub proof fn lemma_nonzero_has_inverse<T: Field>(a: T)
    requires
        a.wf(),
        a != T::zero_spec(),
    ensures
        is_unit(a),
        T::has_inverse_spec(a),
{
    T::lemma_nonzero_unit(a);
    T::lemma_unit_has_inverse(a, unit_inverse(a));
}

/// `e - z == 0` only for `e == z`.
pub proof fn lemma_sub_zero<T: Field>(e: T, z: T)
    requires
        e.wf(),
        z.wf(),
        T::sub_spec(e, z) == T::zero_spec(),
    ensures
        e == z,
{
    T::lemma_closed(z, z);
    T::lemma_sub_is_add_neg(e, z);
    T::lemma_add_assoc(e, T::neg_spec(z), z);
    T::lemma_add_comm(T::neg_spec(z), z);
    T::lemma_identities(z);
    T::lemma_identities(e);
    T::lemma_add_comm(T::zero_spec(), z);
}

/// A product of non-zero elements is non-zero.
pub proof fn lemma_mul_nonzero<T: Field>(a: T, b: T)
    requires
        a.wf(),
        b.wf(),
        a != T::zero_spec(),
        b != T::zero_spec(),
    ensures
        T::mul_spec(a, b) != T::zero_spec(),
{
    lemma_nonzero_has_inverse(a);
    let w = unit_inverse(a);
    if T::mul_spec(a, b) == T::zero_spec() {
        T::lemma_mul_assoc(w, a, b);
        T::lemma_mul_comm(w, a);
        T::lemma_mul_comm(T::one_spec(), b);
        T::lemma_identities(b);
        T::lemma_identities(w);
    }
}

pub proof fn lemma_square_n_nonzero<T: Field>(x: T, k: nat)
    requires
        x.wf(),
        x != T::zero_spec(),
    ensures
        square_n(x, k) != T::zero_spec(),
    decreases k,
{
    lemma_square_n_wf(x, k);
    if k > 0 {
        lemma_square_n_nonzero(x, (k - 1) as nat);
        lemma_square_n_wf(x, (k - 1) as nat);
        lemma_mul_nonzero(square_n(x, (k - 1) as nat), square_n(x, (k - 1) as nat));
    }
}

pub proof fn lemma_pow_nonzero<T: Field>(x: T, n: nat)
    requires
        x.wf(),
        x != T::zero_spec(),
    ensures
        pow_spec(x, n) != T::zero_spec(),
    decreases n,
{
    T::lemma_closed(x, x);
    if n > 0 {
        lemma_pow_nonzero(x, (n - 1) as nat);
        lemma_pow_wf(x, (n - 1) as nat);
        lemma_mul_nonzero(pow_spec(x, (n - 1) as nat), x);
    }
}

/// Whether `a` has a multiplicative inverse.
pub open spec fn is_unit<T: Field>(a: T) -> bool {
    exists|w: T| w.wf() && T::mul_spec(a, w) == T::one_spec()
}

/// The inverse of a unit.
pub open spec fn unit_inverse<T: Field>(a: T) -> T {
    choose|w: T| w.wf() && T::mul_spec(a, w) == T::one_spec()
}

/// Inverses are unique.
pub proof fn lemma_inverse_unique<T: Field>(a: T, w1: T, w2: T)
    requires
        a.wf(),
        w1.wf(),
        w2.wf(),
        T::mul_spec(a, w1) == T::one_spec(),
        T::mul_spec(a, w2) == T::one_spec(),
    ensures
        w1 == w2,
{
    T::lemma_identities(w1);
    T::lemma_mul_assoc(w1, a, w2);
    T::lemma_mul_comm(w1, a);
    T::lemma_mul_comm(T::one_spec(), w2);
    T::lemma_identities(w2);
}

/// `inverse` finds the inverse of every unit, and only of units.
pub fn checked_inverse<T: Field>(a: T) -> (r: Option<T>)
    requires
        a.wf(),
    ensures
        r is Some <==> is_unit(a),
        r is Some ==> r->0 == unit_inverse(a),
{
    let w = a.inverse();
    if a.mul(w).equals(T::one()) {
        proof {
            lemma_inverse_unique(a, w, unit_inverse(a));
        }
        Some(w)
    } else {
        proof {
            if is_unit(a) {
                let u = unit_inverse(a);
                T::lemma_unit_has_inverse(a, u);
            }
        }
        None
    }
}

/// A product of units is a unit.
pub proof fn lemma_prefix_unit<T: Field>(s: Seq<T>, n: nat)
    requires
        n <= s.len(),
        all_wf(s),
        forall|i: int| 0 <= i < s.len() ==> is_unit(#[trigger] s[i]),
    ensures
        is_unit(prefix_product(s, n)),
    decreases n,
{
    T::lemma_closed(T::one_spec(), T::one_spec());
    if n == 0 {
        T::lemma_identities(T::one_spec());
    } else {
        lemma_prefix_unit(s, (n - 1) as nat);
        lemma_prefix_wf(s, (n - 1) as nat);
        let p = prefix_product(s, (n - 1) as nat);
        let v = s[n - 1];
        let pw = unit_inverse(p);
        assert(is_unit(v));
        let vw = unit_inverse(v);
        T::lemma_closed(pw, vw);
        T::lemma_closed(p, v);
        // (p * v) * (pw * vw) == (p * pw) * (v * vw)
        T::lemma_mul_assoc(p, v, T::mul_spec(pw, vw));
        T::lemma_mul_assoc(v, pw, vw);
        T::lemma_mul_comm(v, pw);
        T::lemma_mul_assoc(pw, v, vw);
        T::lemma_mul_assoc(p, pw, T::mul_spec(v, vw));
        T::lemma_identities(T::one_spec());
        assert(T::mul_spec(prefix_product(s, n), T::mul_spec(pw, vw)) == T::one_spec());
    }
}

/// Product of the first `n` elements of `s`.
pub open spec fn prefix_product<T: Field>(s: Seq<T>, n: nat) -> T
    decreases n,
{
    if n == 0 {
        T::one_spec()
    } else {
        T::mul_spec(prefix_product(s, (n - 1) as nat), s[n - 1])
    }
}

/// Concatenated serializations of the elements of `s`.
pub open spec fn bytes_of<T: Field>(s: Seq<T>) -> Seq<u8>
    decreases s.len(),
{
    if s.len() == 0 {
        Seq::empty()
    } else {
        bytes_of(s.drop_last()) + T::bytes_spec(s.last())
    }
}

/// `x` squared `k` times.
pub open spec fn square_n<T: Field>(x: T, k: nat) -> T
    decreases k,
{
    if k == 0 {
        x
    } else {
        let y = square_n(x, (k - 1) as nat);
        T::mul_spec(y, y)
    }
}

pub proof fn lemma_square_n_wf<T: Field>(x: T, k: nat)
    requires
        x.wf(),
    ensures
        square_n(x, k).wf(),
    decreases k,
{
    if k > 0 {
        lemma_square_n_wf(x, (k - 1) as nat);
        T::lemma_closed(square_n(x, (k - 1) as nat), square_n(x, (k - 1) as nat));
    }
}

/// Squaring `a` times and then `b` times is squaring `a + b` times.
pub proof fn lemma_square_n_add<T: Field>(x: T, a: nat, b: nat)
    ensures
        square_n(square_n(x, a), b) == square_n(x, a + b),
    decreases b,
{
    if b > 0 {
        lemma_square_n_add(x, a, (b - 1) as nat);
        assert((a + b - 1) as nat == a + (b - 1) as nat);
    }
}

/// `x` to the power `n`.
pub open spec fn pow_spec<T: Field>(x: T, n: nat) -> T
    decreases n,
{
    if n == 0 {
        T::one_spec()
    } else {
        T::mul_spec(pow_spec(x, (n - 1) as nat), x)
    }
}

pub open spec fn all_wf<T: Field>(s: Seq<T>) -> bool {
    forall|i: int| 0 <= i < s.len() ==> (#[trigger] s[i]).wf()
}

/// The serialization of a sequence of elements, one after another.
pub fn as_bytes_vec<T: Field>(s: &[T]) -> (r: Vec<u8>)
    ensures
        r@ == bytes_of(s@),
{
    let mut res: Vec<u8> = Vec::new();
    let mut i: usize = 0;
    while i < s.len()
        invariant
            i <= s@.len(),
            res@ == bytes_of(s@.subrange(0, i as int)),
        decreases s@.len() - i,
    {
        let mut b = s[i].to_bytes();
        res.append(&mut b);
        proof {
            assert(s@.subrange(0, i + 1).drop_last() =~= s@.subrange(0, i as int));
        }
        i = i + 1;
    }
    assert(s@.subrange(0, s@.len() as int) =~= s@);
    res
}

pub proof fn lemma_prefix_wf<T: Field>(s: Seq<T>, n: nat)
    requires
        n <= s.len(),
    ensures
        prefix_product(s, n).wf(),
    decreases n,
{
    T::lemma_closed(T::one_spec(), T::one_spec());
    if n > 0 {
        lemma_prefix_wf(s, (n - 1) as nat);
        T::lemma_closed(prefix_product(s, (n - 1) as nat), s[n - 1]);
    }
}

/// `v * (inv * p) == (p * v) * inv`.
proof fn lemma_rearrange<T: Field>(v: T, inv: T, p: T)
    requires
        v.wf(),
        inv.wf(),
        p.wf(),
    ensures
        T::mul_spec(v, T::mul_spec(inv, p)) == T::mul_spec(T::mul_spec(p, v), inv),
        T::mul_spec(p, T::mul_spec(inv, v)) == T::mul_spec(T::mul_spec(p, v), inv),
{
    T::lemma_mul_comm(inv, p);
    T::lemma_mul_assoc(v, p, inv);
    T::lemma_mul_comm(v, p);
    T::lemma_mul_comm(inv, v);
    T::lemma_mul_assoc(p, v, inv);
}

/// Inverses of all elements of `v` with a single field inversion: the
/// prefix products are chained forward, their total is inverted once, and
/// the inverses are peeled off backward.
pub fn batch_inverse<T: Field>(v: &Vec<T>) -> (r: Vec<T>)
    requires
        v.len() > 0,
        all_wf(v@),
    ensures
        r.len() == v.len(),
        all_wf(r@),
        T::has_inverse_spec(prefix_product(v@, v@.len())) ==> forall|i: int|
            0 <= i < v.len() ==> T::mul_spec(v@[i], #[trigger] r@[i]) == T::one_spec(),
        (forall|i: int| 0 <= i < v.len() ==> #[trigger] v@[i] != T::zero_spec())
            ==> forall|i: int| 0 <= i < v.len() ==> T::mul_spec(v@[i], #[trigger] r@[i]) == T::one_spec(),
{
    proof {
        if (forall|i: int| 0 <= i < v.len() ==> #[trigger] v@[i] != T::zero_spec()) {
            assert forall|i: int| 0 <= i < v@.len() implies is_unit(#[trigger] v@[i]) by {
                lemma_nonzero_has_inverse(v@[i]);
            }
            lemma_prefix_unit(v@, v@.len());
            lemma_prefix_wf(v@, v@.len());
            let p = prefix_product(v@, v@.len());
            T::lemma_unit_has_inverse(p, unit_inverse(p));
        }
    }
    let len = v.len();
    let mut res: Vec<T> = Vec::new();
    res.push(v[0]);
    proof {
        reveal_with_fuel(prefix_product, 2);
        T::lemma_mul_comm(T::one_spec(), v@[0]);
        T::lemma_identities(v@[0]);
    }
    let mut i: usize = 1;
    while i < len
        invariant
            1 <= i <= len,
            len == v.len(),
            res.len() == i,
            all_wf(v@),
            forall|j: int| 0 <= j < i ==> #[trigger] res@[j] == prefix_product(v@, (j + 1) as nat),
        decreases len - i,
    {
        let x = res[i - 1];
        let y = v[i].mul(x);
        proof {
            T::lemma_mul_comm(v@[i as int], x);
        }
        res.push(y);
        i = i + 1;
    }
    let ghost h = T::has_inverse_spec(prefix_product(v@, v@.len()));
    let mut inv = res[len - 1].inverse();
    let mut i: usize = len - 1;
    proof {
        lemma_prefix_wf(v@, len as nat);
    }
    while i > 0
        invariant
            i < len,
            len == v.len(),
            res.len() == len,
            all_wf(v@),
            inv.wf(),
            h == T::has_inverse_spec(prefix_product(v@, v@.len())),
            forall|j: int| 0 <= j <= i ==> #[trigger] res@[j] == prefix_product(v@, (j + 1) as nat),
            forall|j: int| i < j < len ==> (#[trigger] res@[j]).wf(),
            h ==> T::mul_spec(prefix_product(v@, (i + 1) as nat), inv) == T::one_spec(),
            h ==> forall|j: int|
                i < j < len ==> T::mul_spec(v@[j], #[trigger] res@[j]) == T::one_spec(),
        decreases i,
    {
        let p = res[i - 1];
        let vi = v[i];
        let ri = inv.mul(p);
        proof {
            lemma_prefix_wf(v@, i as nat);
            lemma_rearrange(vi, inv, p);
            T::lemma_closed(inv, p);
        }
        res.set(i, ri);
        inv = inv.mul(vi);
        i = i - 1;
    }
    proof {
        reveal_with_fuel(prefix_product, 2);
        T::lemma_mul_comm(T::one_spec(), v@[0]);
        T::lemma_identities(v@[0]);
    }
    res.set(0, inv);
    res
}

/// A copy of the elements of `v`.
pub fn copy_elements<T: Field>(v: &Vec<T>) -> (r: Vec<T>)
    ensures
        r@ == v@,
{
    let mut r: Vec<T> = Vec::new();
    let mut i: usize = 0;
    while i < v.len()
        invariant
            i <= v@.len(),
            r@ == v@.subrange(0, i as int),
        decreases v@.len() - i,
    {
        r.push(v[i]);
        assert(r@ =~= v@.subrange(0, i + 1));
        i = i + 1;
    }
    assert(r@ =~= v@);
    r
}

pub proof fn lemma_pow_wf<T: Field>(g: T, n: nat)
    requires
        g.wf(),
    ensures
        pow_spec(g, n).wf(),
    decreases n,
{
    T::lemma_closed(g, g);
    if n > 0 {
        lemma_pow_wf(g, (n - 1) as nat);
        T::lemma_closed(pow_spec(g, (n - 1) as nat), g);
    }
}

/// `x^(a + b) == x^a * x^b`.
pub proof fn lemma_pow_add<T: Field>(x: T, a: nat, b: nat)
    requires
        x.wf(),
    ensures
        pow_spec(x, a + b) == T::mul_spec(pow_spec(x, a), pow_spec(x, b)),
    decreases b,
{
    lemma_pow_wf(x, a);
    if b == 0 {
        T::lemma_identities(pow_spec(x, a));
    } else {
        lemma_pow_add(x, a, (b - 1) as nat);
        lemma_pow_wf(x, (b - 1) as nat);
        T::lemma_mul_assoc(pow_spec(x, a), pow_spec(x, (b - 1) as nat), x);
        assert(a + b - 1 == a + (b - 1));
    }
}

/// `(x * x)^k == x^(2k)`.
pub proof fn lemma_pow_square<T: Field>(x: T, k: nat)
    requires
        x.wf(),
    ensures
        pow_spec(T::mul_spec(x, x), k) == pow_spec(x, 2 * k),
    decreases k,
{
    T::lemma_closed(x, x);
    if k > 0 {
        lemma_pow_square(x, (k - 1) as nat);
        lemma_pow_wf(x, (2 * k - 2) as nat);
        T::lemma_mul_assoc(pow_spec(x, (2 * k - 2) as nat), x, x);
        assert(pow_spec(x, 2 * k) == T::mul_spec(pow_spec(x, (2 * k - 1) as nat), x));
        assert(pow_spec(x, (2 * k - 1) as nat) == T::mul_spec(pow_spec(x, (2 * k - 2) as nat), x));
    }
}

/// `x` to the power `n`, by repeated squaring.
pub fn pow<T: Field>(x: T, n: u64) -> (r: T)
    requires
        x.wf(),
    ensures
        r == pow_spec(x, n as nat),
{
    let mut ret = T::one();
    let mut base = x;
    let mut e: u64 = n;
    proof {
        lemma_pow_wf(x, n as nat);
        T::lemma_mul_comm(T::one_spec(), pow_spec(x, n as nat));
        T::lemma_identities(pow_spec(x, n as nat));
    }
    while e > 0
        invariant
            ret.wf(),
            base.wf(),
            T::mul_spec(ret, pow_spec(base, e as nat)) == pow_spec(x, n as nat),
        decreases e,
    {
        if e % 2 == 1 {
            proof {
                lemma_pow_wf(base, (e - 1) as nat);
                T::lemma_mul_comm(pow_spec(base, (e - 1) as nat), base);
                T::lemma_mul_assoc(ret, base, pow_spec(base, (e - 1) as nat));
                T::lemma_closed(ret, base);
            }
            ret = ret.mul(base);
            e = e - 1;
        }
        proof {
            lemma_pow_square(base, (e / 2) as nat);
            assert(2 * (e / 2) == e);
            T::lemma_closed(base, base);
        }
        base = base.mul(base);
        e = e / 2;
    }
    proof {
        T::lemma_identities(ret);
    }
    ret
}

/// Element of multiplicative order `2^log_size`, obtained by squaring the
/// field's root of unity.
pub fn get_generator<T: Field>(log_size: u64) -> (r: T)
    requires
        log_size <= T::log_order_spec(),
    ensures
        r == square_n(T::root_of_unity_spec(), (T::log_order_spec() - log_size) as nat),
        r.wf(),
{
    let mut res = T::root_of_unity();
    let lo = T::log_order();
    let mut k: u64 = lo;
    while k > log_size
        invariant
            log_size <= k <= lo,
            lo == T::log_order_spec(),
            res == square_n(T::root_of_unity_spec(), (lo - k) as nat),
            res.wf(),
        decreases k,
    {
        res = res.mul(res);
        k = k - 1;
    }
    res
}

} // verus!
