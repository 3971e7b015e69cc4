//! Multilinear polynomials in coefficient form and the tables of their
//! values over the boolean hypercube.
use vstd::prelude::*;
use crate::domain::exp2;
use crate::algebra::{lemma_lin_swap, lemma_lin_wf, lin};
use crate::field::{Field, all_wf};

verus! {

/// Value at `p` of the multilinear polynomial whose coefficient at index
/// `S` belongs to the monomial of the variables `X_k` with bit `k` set in `S`.
pub open spec fn coeff_eval<T: Field>(c: Seq<T>, p: Seq<T>) -> T
    decreases p.len(),
{
    if p.len() == 0 {
        c[0]
    } else {
        let half = c.len() / 2;
        coeff_eval(
            Seq::new(half, |i: int| T::add_spec(c[i], T::mul_spec(p.last(), c[i + half]))),
            p.drop_last(),
        )
    }
}

/// One step of the sumcheck-style halving: the table restricted to the
/// value `x` of its leading variable.
pub open spec fn fold_table<T: Field>(t: Seq<T>, x: T) -> Seq<T> {
    let m = t.len() / 2;
    Seq::new(
        m,
        |i: int|
            T::add_spec(T::mul_spec(t[i], T::sub_spec(T::one_spec(), x)), T::mul_spec(t[i + m], x)),
    )
}

/// Multilinear extension of the hypercube table `t` evaluated at `p`; the
/// first coordinate of `p` belongs to the highest bit of the table index.
pub open spec fn mle_eval<T: Field>(t: Seq<T>, p: Seq<T>) -> T
    decreases p.len(),
{
    if p.len() == 0 {
        t[0]
    } else {
        mle_eval(fold_table(t, p[0]), p.drop_first())
    }
}

/// The hypercube point of table index `i` over `n` variables: coordinate
/// `k` is bit `n - 1 - k` of `i`.
pub open spec fn hyper_point<T: Field>(i: nat, n: nat) -> Seq<T>
    decreases n,
{
    if n == 0 {
        Seq::empty()
    } else {
        hyper_point::<T>(i / 2, (n - 1) as nat).push(
            if i % 2 == 1 {
                T::one_spec()
            } else {
                T::zero_spec()
            },
        )
    }
}

/// Pointwise interpolation of two tables of equal length.
pub open spec fn lin_tables<T: Field>(a: Seq<T>, b: Seq<T>, x: T) -> Seq<T> {
    Seq::new(a.len(), |i: int| lin(a[i], b[i], x))
}

pub proof fn lemma_fold_table_wf<T: Field>(t: Seq<T>, x: T)
    requires
        all_wf(t),
        x.wf(),
    ensures
        all_wf(fold_table(t, x)),
{
    let m = t.len() / 2;
    assert forall|i: int| 0 <= i < m implies (#[trigger] fold_table(t, x)[i]).wf() by {
        lemma_lin_wf(t[i], t[i + m], x);
    }
}

pub proof fn lemma_mle_wf<T: Field>(t: Seq<T>, p: Seq<T>)
    requires
        all_wf(t),
        all_wf(p),
        t.len() == exp2(p.len()),
    ensures
        mle_eval(t, p).wf(),
    decreases p.len(),
{
    if p.len() == 0 {
        assert(t.len() == 1);
    } else {
        assert(exp2(p.len()) == 2 * exp2((p.len() - 1) as nat));
        lemma_fold_table_wf(t, p[0]);
        lemma_mle_wf(fold_table(t, p[0]), p.drop_first());
    }
}

/// The multilinear extension is linear in the table: extending a pointwise
/// interpolation of two tables interpolates their extensions.
pub proof fn lemma_mle_linear<T: Field>(a: Seq<T>, b: Seq<T>, x: T, p: Seq<T>)
    requires
        a.len() == exp2(p.len()),
        b.len() == a.len(),
        all_wf(a),
        all_wf(b),
        all_wf(p),
        x.wf(),
    ensures
        mle_eval(lin_tables(a, b, x), p) == lin(mle_eval(a, p), mle_eval(b, p), x),
    decreases p.len(),
{
    if p.len() == 0 {
        assert(a.len() == 1);
    } else {
        assert(exp2(p.len()) == 2 * exp2((p.len() - 1) as nat));
        let m = a.len() / 2;
        let fa = fold_table(a, p[0]);
        let fb = fold_table(b, p[0]);
        let c = lin_tables(a, b, x);
        assert forall|i: int| 0 <= i < m implies #[trigger] fold_table(c, p[0])[i] == lin_tables(
            fa,
            fb,
            x,
        )[i] by {
            lemma_lin_swap(a[i], b[i], a[i + m], b[i + m], x, p[0]);
        }
        assert(fold_table(c, p[0]) =~= lin_tables(fa, fb, x));
        lemma_fold_table_wf(a, p[0]);
        lemma_fold_table_wf(b, p[0]);
        lemma_mle_linear(fa, fb, x, p.drop_first());
    }
}

/// The extension at `p` is the line between the extensions of the two
/// halves of the table, at the first coordinate.
pub proof fn lemma_mle_split<T: Field>(t: Seq<T>, p: Seq<T>)
    requires
        p.len() >= 1,
        t.len() == exp2(p.len()),
        all_wf(t),
        all_wf(p),
    ensures
        mle_eval(t, p) == lin(
            mle_eval(t.subrange(0, t.len() as int / 2), p.drop_first()),
            mle_eval(t.subrange(t.len() as int / 2, t.len() as int), p.drop_first()),
            p[0],
        ),
{
    assert(exp2(p.len()) == 2 * exp2((p.len() - 1) as nat));
    let m = t.len() as int / 2;
    let lo = t.subrange(0, m);
    let hi = t.subrange(m, t.len() as int);
    assert(fold_table(t, p[0]) =~= lin_tables(lo, hi, p[0]));
    lemma_mle_linear(lo, hi, p[0], p.drop_first());
}

/// Folds a hypercube table by `x`: `t[i] * (1 - x) + t[i + m] * x` for
/// `i < m`, with `m` half the length.
pub fn fold_hypercube<T: Field>(t: &Vec<T>, x: T) -> (r: Vec<T>)
    ensures
        r@ == fold_table(t@, x),
{
    let tl = t.len();
    let m = tl / 2;
    let one = T::one();
    let mut r: Vec<T> = Vec::new();
    let mut i: usize = 0;
    while i < m
        invariant
            m == t@.len() / 2,
            tl == t@.len(),
            i <= m,
            one == T::one_spec(),
            r@ =~= fold_table(t@, x).subrange(0, i as int),
        decreases m - i,
    {
        let v = t[i].mul(one.sub(x)).add(t[i + m].mul(x));
        r.push(v);
        i = i + 1;
    }
    assert(r@ =~= fold_table(t@, x));
    r
}

/// A multilinear polynomial given by its `2^n` coefficients.
#[derive(Clone, Debug)]
pub struct MultilinearPolynomial<T: Field> {
    coefficients: Vec<T>,
    variable_num: usize,
}

impl<T: Field> MultilinearPolynomial<T> {
    pub closed spec fn coeffs(&self) -> Seq<T> {
        self.coefficients@
    }

    pub closed spec fn num_vars(&self) -> nat {
        self.variable_num as nat
    }

    pub open spec fn wf(&self) -> bool {
        &&& self.coeffs().len() == exp2(self.num_vars())
        &&& all_wf(self.coeffs())
    }

    /// The polynomial with the given coefficients; their number must be
    /// `2^variable_num`.
    pub fn new(coefficients: Vec<T>, variable_num: usize) -> (r: Self)
        requires
            coefficients@.len() == exp2(variable_num as nat),
        ensures
            r.coeffs() == coefficients@,
            r.num_vars() == variable_num,
    {
        MultilinearPolynomial { coefficients, variable_num }
    }

    /// A polynomial with `2^variable_num` random coefficients.
    pub fn random_polynomial(variable_num: usize) -> (r: Self)
        ensures
            r.wf(),
            r.num_vars() == variable_num,
    {
        let mut coefficients: Vec<T> = Vec::new();
        coefficients.push(T::random_element());
        let mut k: usize = 0;
        while k < variable_num
            invariant
                k <= variable_num,
                coefficients@.len() == exp2(k as nat),
                all_wf(coefficients@),
            decreases variable_num - k,
        {
            let len = coefficients.len();
            let mut j: usize = 0;
            while j < len
                invariant
                    j <= len,
                    coefficients@.len() == len + j,
                    all_wf(coefficients@),
                decreases len - j,
            {
                coefficients.push(T::random_element());
                j = j + 1;
            }
            k = k + 1;
        }
        MultilinearPolynomial { coefficients, variable_num }
    }

    pub fn variable_num(&self) -> (r: usize)
        ensures
            r == self.num_vars(),
    {
        self.variable_num
    }

    pub fn coefficients(&self) -> (r: &Vec<T>)
        ensures
            r@ == self.coeffs(),
    {
        &self.coefficients
    }

    /// Value of the polynomial at `point`, one variable per coordinate.
    pub fn evaluate(&self, point: &Vec<T>) -> (r: T)
        requires
            self.wf(),
            point.len() == self.num_vars(),
        ensures
            r == coeff_eval(self.coeffs(), point@),
    {
        let mut c: Vec<T> = Vec::new();
        let mut i: usize = 0;
        while i < self.coefficients.len()
            invariant
                i <= self.coeffs().len(),
                c@ == self.coeffs().subrange(0, i as int),
            decreases self.coeffs().len() - i,
        {
            c.push(self.coefficients[i]);
            assert(c@ =~= self.coeffs().subrange(0, i + 1));
            i = i + 1;
        }
        assert(c@ =~= self.coeffs());
        assert(point@.subrange(0, point@.len() as int) =~= point@);
        let mut k: usize = point.len();
        while k > 0
            invariant
                k <= point.len(),
                c@.len() == exp2(k as nat),
                coeff_eval(c@, point@.subrange(0, k as int)) == coeff_eval(self.coeffs(), point@),
            decreases k,
        {
            let x = point[k - 1];
            let cl = c.len();
            let half = cl / 2;
            proof {
                assert(exp2(k as nat) == 2 * exp2((k - 1) as nat));
            }
            let mut next: Vec<T> = Vec::new();
            let mut j: usize = 0;
            while j < half
                invariant
                    half * 2 == c@.len(),
                    cl == c@.len(),
                    j <= half,
                    next@ =~= Seq::new(
                        half as nat,
                        |i: int| T::add_spec(c@[i], T::mul_spec(x, c@[i + half])),
                    ).subrange(0, j as int),
                decreases half - j,
            {
                next.push(c[j].add(x.mul(c[j + half])));
                j = j + 1;
            }
            proof {
                let p = point@.subrange(0, k as int);
                assert(p.drop_last() =~= point@.subrange(0, k - 1));
                assert(next@ =~= Seq::new(
                    half as nat,
                    |i: int| T::add_spec(c@[i], T::mul_spec(p.last(), c@[i + half])),
                ));
            }
            c = next;
            k = k - 1;
        }
        proof {
            assert(point@.subrange(0, 0) =~= Seq::<T>::empty());
            crate::domain::lemma_exp2_mono(0, 0);
        }
        c[0]
    }

    /// The table of values over the boolean hypercube: entry `i` is the
    /// value at `hyper_point(i)`.
    pub fn evaluate_hypercube(&self) -> (r: Vec<T>)
        requires
            self.wf(),
        ensures
            r.len() == self.coeffs().len(),
            forall|i: int|
                0 <= i < r.len() ==> #[trigger] r@[i] == coeff_eval(
                    self.coeffs(),
                    hyper_point::<T>(i as nat, self.num_vars()),
                ),
    {
        let n = self.coefficients.len();
        let mut r: Vec<T> = Vec::new();
        let mut i: usize = 0;
        while i < n
            invariant
                self.wf(),
                n == self.coeffs().len(),
                i <= n,
                r.len() == i,
                forall|t: int|
                    0 <= t < i ==> #[trigger] r@[t] == coeff_eval(
                        self.coeffs(),
                        hyper_point::<T>(t as nat, self.num_vars()),
                    ),
            decreases n - i,
        {
            let p = hyper_point_exec(i, self.variable_num);
            r.push(self.evaluate(&p));
            i = i + 1;
        }
        r
    }
}

/// The hypercube point of table index `i` over `n` variables.
pub fn hyper_point_exec<T: Field>(i: usize, n: usize) -> (r: Vec<T>)
    ensures
        r@ == hyper_point::<T>(i as nat, n as nat),
        r@.len() == n,
    decreases n,
{
    if n == 0 {
        Vec::new()
    } else {
        let mut v = hyper_point_exec(i / 2, n - 1);
        if i % 2 == 1 {
            v.push(T::one());
        } else {
            v.push(T::zero());
        }
        v
    }
}

/// Value at `point` of the multilinear extension of the hypercube table
/// `table`, computed by halving the table once per coordinate.
pub fn evaluate_table<T: Field>(point: &Vec<T>, table: &Vec<T>) -> (r: T)
    requires
        table@.len() == exp2(point@.len()),
    ensures
        r == mle_eval(table@, point@),
{
    let mut cur: Vec<T> = Vec::new();
    let mut i: usize = 0;
    while i < table.len()
        invariant
            i <= table@.len(),
            cur@ == table@.subrange(0, i as int),
        decreases table@.len() - i,
    {
        cur.push(table[i]);
        assert(cur@ =~= table@.subrange(0, i + 1));
        i = i + 1;
    }
    assert(cur@ =~= table@);
    let n = point.len();
    let mut k: usize = 0;
    assert(point@.subrange(0, n as int) =~= point@);
    while k < n
        invariant
            k <= n,
            n == point@.len(),
            cur@.len() == exp2((n - k) as nat),
            mle_eval(cur@, point@.subrange(k as int, n as int)) == mle_eval(table@, point@),
        decreases n - k,
    {
        proof {
            assert(exp2((n - k) as nat) == 2 * exp2((n - k - 1) as nat));
            let p = point@.subrange(k as int, n as int);
            assert(p.drop_first() =~= point@.subrange(k + 1, n as int));
        }
        cur = fold_hypercube(&cur, point[k]);
        k = k + 1;
    }
    proof {
        assert(point@.subrange(n as int, n as int) =~= Seq::<T>::empty());
    }
    cur[0]
}

} // verus!
