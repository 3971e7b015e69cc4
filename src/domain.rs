//! Multiplicative cosets of power-of-two size: the evaluation domains of
//! the codewords that get folded.
use vstd::prelude::*;
use crate::field::{Field, all_wf, is_unit, batch_inverse, get_generator, lemma_pow_wf, pow_spec, prefix_product, square_n};

verus! {

pub open spec fn exp2(k: nat) -> nat
    decreases k,
{
    if k == 0 {
        1
    } else {
        2 * exp2((k - 1) as nat)
    }
}

pub proof fn lemma_exp2_mono(j: nat, k: nat)
    requires
        j <= k,
    ensures
        exp2(j) <= exp2(k),
        j < k ==> exp2(j) < exp2(k),
        exp2(j) >= 1,
    decreases k,
{
    if j < k {
        lemma_exp2_mono(j, (k - 1) as nat);
    } else if k > 0 {
        lemma_exp2_mono(0, (k - 1) as nat);
    }
}

/// A size that a domain of the field `T` can have: a power of two that
/// divides the order of the field's root of unity.
pub open spec fn valid_size<T: Field>(size: nat) -> bool {
    exists|k: nat| k <= T::log_order_spec() && #[trigger] exp2(k) == size
}

/// Value of the polynomial with coefficients `c` (lowest degree first) at `x`.
pub open spec fn horner<T: Field>(c: Seq<T>, x: T) -> T
    decreases c.len(),
{
    if c.len() == 0 {
        T::zero_spec()
    } else {
        T::add_spec(T::mul_spec(horner(c.drop_first(), x), x), c[0])
    }
}

/// `shift * g^i` for `i < n`.
pub open spec fn coset_seq<T: Field>(shift: T, g: T, n: nat) -> Seq<T> {
    Seq::new(n, |i: int| T::mul_spec(shift, pow_spec(g, i as nat)))
}

/// Why a domain could not be built.
#[derive(Clone, Copy, Debug, PartialEq, Eq, Structural)]
pub enum DomainError {
    /// The size is not a power of two that the field supports.
    InvalidSize,
    /// The product of the domain's elements has no inverse: under the field
    /// law this happens only for a zero shift.
    NotInvertible,
}

/// The coset `shift * <g>` of the subgroup generated by `g`, with each
/// element's inverse precomputed.
#[derive(Clone, Debug)]
pub struct Coset<T: Field> {
    elements: Vec<T>,
    element_inv: Vec<T>,
    log_size: u64,
    shift: T,
    generator: T,
}

pub proof fn lemma_square_inverse<T: Field>(e: T, iv: T)
    requires
        e.wf(),
        iv.wf(),
        T::mul_spec(e, iv) == T::one_spec(),
    ensures
        T::mul_spec(T::mul_spec(e, e), T::mul_spec(iv, iv)) == T::one_spec(),
{
    T::lemma_closed(e, e);
    T::lemma_closed(iv, iv);
    T::lemma_mul_assoc(e, e, T::mul_spec(iv, iv));
    T::lemma_mul_assoc(e, iv, iv);
    T::lemma_mul_comm(T::one_spec(), iv);
    T::lemma_identities(iv);
}

impl<T: Field> Coset<T> {
    pub closed spec fn elems(&self) -> Seq<T> {
        self.elements@
    }

    pub closed spec fn invs(&self) -> Seq<T> {
        self.element_inv@
    }

    pub closed spec fn log_size_spec(&self) -> nat {
        self.log_size as nat
    }

    pub closed spec fn shift_spec(&self) -> T {
        self.shift
    }

    pub closed spec fn generator_spec(&self) -> T {
        self.generator
    }

    /// Sizes agree, every element is canonical, and each stored inverse
    /// is the inverse of its element.
    pub open spec fn wf(&self) -> bool {
        &&& self.elems().len() == exp2(self.log_size_spec())
        &&& self.invs().len() == self.elems().len()
        &&& self.log_size_spec() < 64
        &&& all_wf(self.elems())
        &&& all_wf(self.invs())
        &&& forall|i: int|
            0 <= i < self.elems().len() ==> T::mul_spec(
                #[trigger] self.elems()[i],
                self.invs()[i],
            ) == T::one_spec()
    }

    /// The coset of size `size` shifted by `shift`.
    pub fn new(size: usize, shift: T) -> (r: Result<Coset<T>, DomainError>)
        requires
            shift.wf(),
        ensures
            match r {
                Ok(d) => {
                    &&& d.wf()
                    &&& d.elems().len() == size
                    &&& d.shift_spec() == shift
                    &&& d.generator_spec() == square_n(
                        T::root_of_unity_spec(),
                        (T::log_order_spec() - d.log_size_spec()) as nat,
                    )
                    &&& d.elems() == coset_seq(shift, d.generator_spec(), size as nat)
                },
                Err(DomainError::InvalidSize) => !valid_size::<T>(size as nat),
                Err(DomainError::NotInvertible) => {
                    &&& valid_size::<T>(size as nat)
                    &&& exists|k: nat|
                        exp2(k) == size && !T::has_inverse_spec(
                            #[trigger] prefix_product(
                                coset_seq(
                                    shift,
                                    square_n(T::root_of_unity_spec(), (T::log_order_spec() - k) as nat),
                                    size as nat,
                                ),
                                size as nat,
                            ),
                        )
                },
            },
            shift != T::zero_spec() && valid_size::<T>(size as nat) ==> r is Ok,
    {
        let lo = T::log_order();
        let mut k: u64 = 0;
        let mut s: u128 = 1;
        while s < size as u128 && k < lo
            invariant
                s == exp2(k as nat),
                k <= lo,
                lo == T::log_order_spec(),
                lo < 64,
                forall|j: nat| j < k ==> #[trigger] exp2(j) < size,
            decreases lo - k,
        {
            s = s * 2;
            k = k + 1;
        }
        if s != size as u128 {
            proof {
                assert forall|j: nat| j <= T::log_order_spec() implies #[trigger] exp2(j) != size by {
                    if j > k {
                        lemma_exp2_mono(k as nat, j);
                    }
                    if j < k {
                        assert(exp2(j) < size);
                    }
                }
            }
            return Err(DomainError::InvalidSize);
        }
        proof {
            lemma_exp2_mono(0, k as nat);
        }
        let g: T = get_generator(k);
        let mut elements: Vec<T> = Vec::new();
        let mut x = shift;
        let mut i: usize = 0;
        proof {
            T::lemma_identities(shift);
        }
        while i < size
            invariant
                i <= size,
                elements@ == coset_seq(shift, g, i as nat),
                x == T::mul_spec(shift, pow_spec(g, i as nat)),
                x.wf(),
                g.wf(),
                shift.wf(),
            decreases size - i,
        {
            elements.push(x);
            proof {
                lemma_pow_wf(g, i as nat);
                T::lemma_mul_assoc(shift, pow_spec(g, i as nat), g);
                T::lemma_closed(x, g);
                assert(elements@ =~= coset_seq(shift, g, (i + 1) as nat));
            }
            x = x.mul(g);
            i = i + 1;
        }
        proof {
            assert forall|j: int| 0 <= j < elements@.len() implies (#[trigger] elements@[j]).wf() by {
                lemma_pow_wf(g, j as nat);
                T::lemma_closed(shift, pow_spec(g, j as nat));
            }
        }
        proof {
            if shift != T::zero_spec() {
                T::lemma_closed(shift, shift);
                crate::field::lemma_square_n_nonzero(
                    T::root_of_unity_spec(),
                    (T::log_order_spec() - k) as nat,
                );
                assert forall|j: int| 0 <= j < elements@.len() implies is_unit(
                    #[trigger] elements@[j],
                ) by {
                    lemma_pow_wf(g, j as nat);
                    crate::field::lemma_pow_nonzero(g, j as nat);
                    crate::field::lemma_mul_nonzero(shift, pow_spec(g, j as nat));
                    crate::field::lemma_nonzero_has_inverse(elements@[j]);
                }
                crate::field::lemma_prefix_unit(elements@, size as nat);
                crate::field::lemma_prefix_wf(elements@, size as nat);
                let p = prefix_product(elements@, size as nat);
                T::lemma_unit_has_inverse(p, crate::field::unit_inverse(p));
            }
        }
        let element_inv = batch_inverse(&elements);
        let mut ok = true;
        let mut j: usize = 0;
        while j < size
            invariant
                j <= size,
                elements.len() == size,
                element_inv.len() == size,
                ok ==> forall|t: int|
                    0 <= t < j ==> T::mul_spec(#[trigger] elements@[t], element_inv@[t]) == T::one_spec(),
                T::has_inverse_spec(prefix_product(elements@, size as nat)) ==> ok,
                T::has_inverse_spec(prefix_product(elements@, size as nat)) ==> forall|t: int|
                    0 <= t < size ==> T::mul_spec(elements@[t], #[trigger] element_inv@[t])
                        == T::one_spec(),
            decreases size - j,
        {
            let one = T::one();
            if !elements[j].mul(element_inv[j]).equals(one) {
                ok = false;
            }
            j = j + 1;
        }
        if !ok {
            return Err(DomainError::NotInvertible);
        }
        Ok(Coset { elements, element_inv, log_size: k, shift, generator: g })
    }

    pub fn size(&self) -> (r: usize)
        ensures
            r == self.elems().len(),
    {
        self.elements.len()
    }

    pub fn element_at(&self, i: usize) -> (r: T)
        requires
            i < self.elems().len(),
        ensures
            r == self.elems()[i as int],
    {
        self.elements[i]
    }

    pub fn element_inv_at(&self, i: usize) -> (r: T)
        requires
            i < self.invs().len(),
        ensures
            r == self.invs()[i as int],
    {
        self.element_inv[i]
    }

    /// All elements of the domain in order.
    pub fn all_elements(&self) -> (r: Vec<T>)
        ensures
            r@ == self.elems(),
    {
        let mut r: Vec<T> = Vec::new();
        let mut i: usize = 0;
        while i < self.elements.len()
            invariant
                i <= self.elements@.len(),
                r@ == self.elements@.subrange(0, i as int),
            decreases self.elements@.len() - i,
        {
            r.push(self.elements[i]);
            assert(r@ =~= self.elements@.subrange(0, i + 1));
            i = i + 1;
        }
        assert(r@ =~= self.elements@);
        r
    }

    /// The domain of the next folding round: the squares of the first half
    /// of the elements, with the squares of their inverses.
    pub fn halve(&self) -> (r: Coset<T>)
        requires
            self.wf(),
            self.elems().len() >= 2,
        ensures
            r.wf(),
            r.log_size_spec() + 1 == self.log_size_spec(),
            r.elems().len() * 2 == self.elems().len(),
            r.shift_spec() == T::mul_spec(self.shift_spec(), self.shift_spec()),
            r.generator_spec() == T::mul_spec(self.generator_spec(), self.generator_spec()),
            forall|i: int|
                0 <= i < r.elems().len() ==> #[trigger] r.elems()[i] == T::mul_spec(
                    self.elems()[i],
                    self.elems()[i],
                ),
    {
        let half = self.elements.len() / 2;
        proof {
            if self.log_size == 0 {
                assert(self.elems().len() == 1);
            }
        }
        let mut elements: Vec<T> = Vec::new();
        let mut element_inv: Vec<T> = Vec::new();
        let mut i: usize = 0;
        while i < half
            invariant
                self.wf(),
                half * 2 == self.elems().len(),
                i <= half,
                elements.len() == i,
                element_inv.len() == i,
                all_wf(elements@),
                all_wf(element_inv@),
                forall|t: int|
                    0 <= t < i ==> #[trigger] elements@[t] == T::mul_spec(
                        self.elems()[t],
                        self.elems()[t],
                    ),
                forall|t: int|
                    0 <= t < i ==> T::mul_spec(#[trigger] elements@[t], element_inv@[t])
                        == T::one_spec(),
            decreases half - i,
        {
            let e = self.elements[i];
            let v = self.element_inv[i];
            proof {
                lemma_square_inverse(e, v);
                T::lemma_closed(e, e);
                T::lemma_closed(v, v);
            }
            elements.push(e.mul(e));
            element_inv.push(v.mul(v));
            i = i + 1;
        }
        Coset {
            elements,
            element_inv,
            log_size: self.log_size - 1,
            shift: self.shift.mul(self.shift),
            generator: self.generator.mul(self.generator),
        }
    }

    /// Evaluations of the polynomial with coefficients `coeffs` (lowest
    /// degree first) at every element of the domain.
    pub fn fft(&self, coeffs: &Vec<T>) -> (r: Vec<T>)
        ensures
            r.len() == self.elems().len(),
            forall|i: int|
                0 <= i < r.len() ==> #[trigger] r@[i] == horner(coeffs@, self.elems()[i]),
    {
        let mut r: Vec<T> = Vec::new();
        let mut i: usize = 0;
        while i < self.elements.len()
            invariant
                i <= self.elems().len(),
                r.len() == i,
                forall|t: int| 0 <= t < i ==> #[trigger] r@[t] == horner(coeffs@, self.elems()[t]),
            decreases self.elems().len() - i,
        {
            r.push(evaluate_at(coeffs, self.elements[i]));
            i = i + 1;
        }
        r
    }
}

/// Value of the polynomial with coefficients `c` at `x`, by Horner's rule.
pub fn evaluate_at<T: Field>(c: &Vec<T>, x: T) -> (r: T)
    ensures
        r == horner(c@, x),
{
    let mut acc = T::zero();
    let mut k: usize = c.len();
    assert(c@.subrange(k as int, c@.len() as int).len() == 0);
    while k > 0
        invariant
            k <= c@.len(),
            acc == horner(c@.subrange(k as int, c@.len() as int), x),
        decreases k,
    {
        k = k - 1;
        assert(c@.subrange(k as int, c@.len() as int).drop_first() =~= c@.subrange(
            k + 1,
            c@.len() as int,
        ));
        acc = acc.mul(x).add(c[k]);
    }
    assert(c@.subrange(0, c@.len() as int) =~= c@);
    acc
}

/// Each element of a domain times its stored inverse is one.
pub proof fn lemma_domain_inverse<T: Field>(d: Coset<T>, i: int)
    requires
        d.wf(),
        0 <= i < d.elems().len(),
    ensures
        T::mul_spec(d.elems()[i], d.invs()[i]) == T::one_spec(),
{
}

} // verus!
