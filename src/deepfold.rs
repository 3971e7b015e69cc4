//! The Deepfold polynomial commitment: the evaluation argument that ties a
//! claimed value to the folded codeword, and the proof that is exchanged.
use vstd::prelude::*;
use crate::domain::{Coset, exp2};
use crate::field::{Field, square_n};
use crate::indices::reduce_spec;
use crate::algebra::lemma_lin_step;
use crate::field::all_wf;
use crate::polynomial::{
    evaluate_table, fold_table, lemma_fold_table_wf, lemma_mle_split, lemma_mle_wf, mle_eval,
};
use crate::query_result::QueryResult;

verus! {

/// The DEEP point `(z, z^2, z^4, ...)` with `n` coordinates.
pub open spec fn deep_point<T: Field>(z: T, n: nat) -> Seq<T> {
    Seq::new(n, |i: int| square_n(z, i as nat))
}

/// The hypercube table after `k` sumcheck folds by `cs[0..k]`.
pub open spec fn hyper_table<T: Field>(t: Seq<T>, cs: Seq<T>, k: nat) -> Seq<T>
    decreases k,
{
    if k == 0 {
        t
    } else {
        fold_table(hyper_table(t, cs, (k - 1) as nat), cs[k - 1])
    }
}

/// The positions opened in round `i`: the query list reduced modulo each
/// round's half-domain size in turn, sorted and deduplicated.
pub open spec fn round_indices<T: Field>(q: Seq<usize>, cosets: Seq<Coset<T>>, i: nat) -> Seq<usize>
    decreases i,
{
    let m = (cosets[i as int].elems().len() / 2) as usize;
    if i == 0 {
        reduce_spec(q, m)
    } else {
        reduce_spec(round_indices(q, cosets, (i - 1) as nat), m)
    }
}

/// The DEEP point `(z, z^2, z^4, ...)` with `n` coordinates.
pub fn deep_point_exec<T: Field>(z: T, n: usize) -> (r: Vec<T>)
    requires
        z.wf(),
    ensures
        r@ == deep_point(z, n as nat),
{
    let mut r: Vec<T> = Vec::new();
    let mut x = z;
    let mut i: usize = 0;
    while i < n
        invariant
            i <= n,
            x == square_n(z, i as nat),
            r@ =~= deep_point(z, n as nat).subrange(0, i as int),
        decreases n - i,
    {
        r.push(x);
        x = x.mul(x);
        i = i + 1;
    }
    assert(r@ =~= deep_point(z, n as nat));
    r
}

/// The point `p[k..]` with its first coordinate increased by one.
pub open spec fn sibling_point<T: Field>(p: Seq<T>, k: nat) -> Seq<T> {
    let s = p.subrange(k as int, p.len() as int);
    s.update(0, T::add_spec(s[0], T::one_spec()))
}

/// The value reached from `y0` by `n` steps of linear interpolation: step
/// `k` moves from the current value towards `es[k]` by `cs[k] - xs[k]`.
pub open spec fn interpolate_chain<T: Field>(
    y0: T,
    xs: Seq<T>,
    es: Seq<T>,
    cs: Seq<T>,
    n: nat,
) -> T
    decreases n,
{
    if n == 0 {
        y0
    } else {
        let y = interpolate_chain(y0, xs, es, cs, (n - 1) as nat);
        T::add_spec(y, T::mul_spec(T::sub_spec(es[n - 1], y), T::sub_spec(cs[n - 1], xs[n - 1])))
    }
}

proof fn lemma_hyper_table<T: Field>(t: Seq<T>, cs: Seq<T>, k: nat, n: nat)
    requires
        k <= n,
        n <= cs.len(),
        t.len() == exp2(n),
        all_wf(t),
        all_wf(cs),
    ensures
        hyper_table(t, cs, k).len() == exp2((n - k) as nat),
        all_wf(hyper_table(t, cs, k)),
    decreases k,
{
    if k > 0 {
        lemma_hyper_table(t, cs, (k - 1) as nat, n);
        assert(exp2((n - k + 1) as nat) == 2 * exp2((n - k) as nat));
        lemma_fold_table_wf(hyper_table(t, cs, (k - 1) as nat), cs[k - 1]);
    }
}

/// Evaluating at `cs` is folding by its first `k` coordinates and
/// evaluating the folded table at the rest.
proof fn lemma_mle_by_folds<T: Field>(t: Seq<T>, cs: Seq<T>, k: nat)
    requires
        k <= cs.len(),
    ensures
        mle_eval(t, cs) == mle_eval(hyper_table(t, cs, k), cs.subrange(k as int, cs.len() as int)),
    decreases k,
{
    if k == 0 {
        assert(cs.subrange(0, cs.len() as int) =~= cs);
    } else {
        lemma_mle_by_folds(t, cs, (k - 1) as nat);
        let r = cs.subrange(k - 1, cs.len() as int);
        assert(r.drop_first() =~= cs.subrange(k as int, cs.len() as int));
    }
}

/// The sibling values an honest prover records for the argument at `x` on
/// the table `t`, one per folding round with the challenges `cs`.
pub open spec fn honest_else_evals<T: Field>(t: Seq<T>, x: Seq<T>, cs: Seq<T>) -> Seq<T> {
    Seq::new(x.len(), |k: int| mle_eval(hyper_table(t, cs, k as nat), sibling_point(x, k as nat)))
}

/// Round trip of the evaluation argument: built at `x` from the table `t`,
/// completed with the sibling values of the tables folded by `cs`, and
/// checked against `cs`, it yields the value of `t`'s multilinear extension
/// at `cs`, the point `x` with every coordinate replaced by its challenge.
pub proof fn lemma_deep_eval_round_trip<T: Field>(t: Seq<T>, x: Seq<T>, cs: Seq<T>)
    requires
        t.len() == exp2(x.len()),
        cs.len() == x.len(),
        all_wf(t),
        all_wf(x),
        all_wf(cs),
    ensures
        interpolate_chain(mle_eval(t, x), x, honest_else_evals(t, x, cs), cs, x.len()) == mle_eval(
            t,
            cs,
        ),
{
    lemma_chain_prefix(t, x, cs, x.len());
    lemma_mle_by_folds(t, cs, x.len());
    assert(x.subrange(x.len() as int, x.len() as int) =~= cs.subrange(
        cs.len() as int,
        cs.len() as int,
    ));
}

/// After `k` steps the chain holds the value of the `k`-times folded table
/// at the remaining coordinates of `x`.
proof fn lemma_chain_prefix<T: Field>(t: Seq<T>, x: Seq<T>, cs: Seq<T>, k: nat)
    requires
        k <= x.len(),
        t.len() == exp2(x.len()),
        cs.len() == x.len(),
        all_wf(t),
        all_wf(x),
        all_wf(cs),
    ensures
        interpolate_chain(mle_eval(t, x), x, honest_else_evals(t, x, cs), cs, k) == mle_eval(
            hyper_table(t, cs, k),
            x.subrange(k as int, x.len() as int),
        ),
    decreases k,
{
    let n = x.len();
    if k == 0 {
        assert(x.subrange(0, n as int) =~= x);
    } else {
        let j = (k - 1) as nat;
        lemma_chain_prefix(t, x, cs, j);
        lemma_hyper_table(t, cs, j, n);
        let tj = hyper_table(t, cs, j);
        let q = x.subrange(j as int, n as int);
        let p = x.subrange(k as int, n as int);
        let sib = sibling_point(x, j);
        let one = T::one_spec();
        T::lemma_closed(x[j as int], one);
        assert(q.drop_first() =~= p);
        assert(sib.drop_first() =~= p);
        assert(all_wf(q));
        assert(all_wf(p));
        assert(all_wf(sib));
        lemma_mle_split(tj, q);
        lemma_mle_split(tj, sib);
        let m = tj.len() as int / 2;
        let lo = tj.subrange(0, m);
        let hi = tj.subrange(m, tj.len() as int);
        assert(exp2((n - j) as nat) == 2 * exp2((n - k) as nat));
        lemma_mle_wf(lo, p);
        lemma_mle_wf(hi, p);
        let l = mle_eval(lo, p);
        let h = mle_eval(hi, p);
        // the folded table's value at the rest of x is the line at cs[j]
        let cq = p.insert(0, cs[j as int]);
        assert(cq.drop_first() =~= p);
        assert(all_wf(cq));
        lemma_mle_split(tj, cq);
        lemma_lin_step(l, h, x[j as int], cs[j as int]);
    }
}

/// An evaluation argument: the value of a hypercube table at `point`, and
/// one value at a sibling point for each round folded since.
#[derive(Clone, Debug)]
pub struct DeepEval<T: Field> {
    pub point: Vec<T>,
    pub first_eval: T,
    pub else_evals: Vec<T>,
}

impl<T: Field> DeepEval<T> {
    /// The argument at `point` for the table `poly_hypercube`.
    pub fn new(point: Vec<T>, poly_hypercube: Vec<T>) -> (r: Self)
        requires
            poly_hypercube@.len() == exp2(point@.len()),
        ensures
            r.point@ == point@,
            r.first_eval == mle_eval(poly_hypercube@, point@),
            r.else_evals@.len() == 0,
    {
        let first_eval = Self::evaluatioin_at(&point, &poly_hypercube);
        DeepEval { point, first_eval, else_evals: Vec::new() }
    }

    /// Value of the multilinear extension of `poly_hypercube` at `point`.
    pub fn evaluatioin_at(point: &Vec<T>, poly_hypercube: &Vec<T>) -> (r: T)
        requires
            poly_hypercube@.len() == exp2(point@.len()),
        ensures
            r == mle_eval(poly_hypercube@, point@),
    {
        evaluate_table(point, poly_hypercube)
    }

    /// Records the value of the current table at the sibling of the point's
    /// first unconsumed coordinate.
    pub fn append_else_eval(&mut self, poly_hypercube: Vec<T>)
        requires
            old(self).else_evals@.len() < old(self).point@.len(),
            poly_hypercube@.len() == exp2(
                (old(self).point@.len() - old(self).else_evals@.len()) as nat,
            ),
        ensures
            final(self).point@ == old(self).point@,
            final(self).first_eval == old(self).first_eval,
            final(self).else_evals@ == old(self).else_evals@.push(
                mle_eval(
                    poly_hypercube@,
                    sibling_point(old(self).point@, old(self).else_evals@.len()),
                ),
            ),
    {
        let k = self.else_evals.len();
        let mut point: Vec<T> = Vec::new();
        let mut i: usize = k;
        while i < self.point.len()
            invariant
                k <= i <= self.point@.len(),
                k == self.else_evals@.len(),
                point@ == self.point@.subrange(k as int, i as int),
            decreases self.point@.len() - i,
        {
            point.push(self.point[i]);
            assert(point@ =~= self.point@.subrange(k as int, i + 1));
            i = i + 1;
        }
        let bumped = point[0].add(T::one());
        point.set(0, bumped);
        let e = Self::evaluatioin_at(&point, &poly_hypercube);
        self.else_evals.push(e);
    }

    /// Folds the recorded values with the last `point.len()` entries of
    /// `challenges`; a complete argument yields the final folded value.
    pub fn verify(&self, challenges: &Vec<T>) -> (r: T)
        requires
            self.else_evals@.len() == self.point@.len(),
            self.point@.len() <= challenges@.len(),
        ensures
            r == interpolate_chain(
                self.first_eval,
                self.point@,
                self.else_evals@,
                challenges@.subrange(
                    challenges@.len() - self.point@.len(),
                    challenges@.len() as int,
                ),
                self.point@.len(),
            ),
    {
        let n = self.point.len();
        let cl = challenges.len();
        let off = cl - n;
        let ghost cs = challenges@.subrange(off as int, challenges@.len() as int);
        let mut y = self.first_eval;
        let mut k: usize = 0;
        while k < n
            invariant
                k <= n,
                n == self.point@.len(),
                n == self.else_evals@.len(),
                off + n == challenges@.len(),
                cl == challenges@.len(),
                cs == challenges@.subrange(off as int, challenges@.len() as int),
                y == interpolate_chain(self.first_eval, self.point@, self.else_evals@, cs, k as nat),
            decreases n - k,
        {
            let x = self.point[k];
            let e = self.else_evals[k];
            let c = challenges[off + k];
            y = y.add(e.sub(y).mul(c.sub(x)));
            k = k + 1;
        }
        y
    }
}

/// The commitment: the root of the first codeword and the value of the
/// first evaluation argument.
#[derive(Clone, Debug)]
pub struct Commit<T: Field> {
    pub merkle_root: Vec<u8>,
    pub deep: T,
}

/// Bytes of the opened values and proofs of `qs`.
pub open spec fn queries_size<T: Field>(qs: Seq<QueryResult<T>>) -> nat
    decreases qs.len(),
{
    if qs.len() == 0 {
        0
    } else {
        (queries_size(qs.drop_last()) + qs.last().proof_bytes@.len() + qs.last().proof_values@.len()
            * T::byte_size_spec()) as nat
    }
}

/// Number of sibling values recorded in `ds`.
pub open spec fn else_count<T>(ds: Seq<(T, Vec<T>)>) -> nat
    decreases ds.len(),
{
    if ds.len() == 0 {
        0
    } else {
        else_count(ds.drop_last()) + ds.last().1@.len()
    }
}

proof fn lemma_queries_size_mono<T: Field>(qs: Seq<QueryResult<T>>, i: int)
    requires
        0 <= i <= qs.len(),
    ensures
        queries_size(qs.subrange(0, i)) <= queries_size(qs),
    decreases qs.len() - i,
{
    if i < qs.len() {
        lemma_queries_size_mono(qs, i + 1);
        assert(qs.subrange(0, i + 1).drop_last() =~= qs.subrange(0, i));
    } else {
        assert(qs.subrange(0, i) =~= qs);
    }
}

proof fn lemma_else_count_mono<T>(ds: Seq<(T, Vec<T>)>, i: int)
    requires
        0 <= i <= ds.len(),
    ensures
        else_count(ds.subrange(0, i)) <= else_count(ds),
    decreases ds.len() - i,
{
    if i < ds.len() {
        lemma_else_count_mono(ds, i + 1);
        assert(ds.subrange(0, i + 1).drop_last() =~= ds.subrange(0, i));
    } else {
        assert(ds.subrange(0, i) =~= ds);
    }
}

/// Everything the prover sends after the commitment.
#[derive(Clone, Debug)]
pub struct Proof<T: Field> {
    pub merkle_root: Vec<Vec<u8>>,
    pub query_result: Vec<QueryResult<T>>,
    pub deep_evals: Vec<(T, Vec<T>)>,
    pub shuffle_evals: Vec<T>,
    pub evaluation: T,
    pub final_value: T,
}

impl<T: Field> Proof<T> {
    /// Size in bytes of the proof: the round roots, every opening, and the
    /// sibling values, claimed evaluation and final value.
    pub open spec fn size_spec(&self) -> nat {
        (self.merkle_root@.len() * crate::merkle::MERKLE_ROOT_SIZE + queries_size(self.query_result@) + (
        else_count(self.deep_evals@) + self.shuffle_evals@.len() + 2) * T::byte_size_spec()) as nat
    }

    pub fn size(&self) -> (r: usize)
        requires
            self.size_spec() <= usize::MAX,
        ensures
            r == self.size_spec(),
    {
        let b = T::byte_size();
        let mut q: usize = 0;
        let mut i: usize = 0;
        while i < self.query_result.len()
            invariant
                i <= self.query_result@.len(),
                b == T::byte_size_spec(),
                self.size_spec() <= usize::MAX,
                q == queries_size(self.query_result@.subrange(0, i as int)),
            decreases self.query_result@.len() - i,
        {
            proof {
                lemma_queries_size_mono(self.query_result@, i + 1);
                assert(self.query_result@.subrange(0, i + 1).drop_last() =~= self.query_result@.subrange(0, i as int));
            }
            let qr = &self.query_result[i];
            assert(qr.proof_bytes@.len() + qr.proof_values@.len() * b <= usize::MAX);
            q = q + qr.proof_size();
            i = i + 1;
        }
        proof {
            assert(self.query_result@.subrange(0, self.query_result@.len() as int) =~= self.query_result@);
        }
        let mut e: usize = 0;
        let mut j: usize = 0;
        while j < self.deep_evals.len()
            invariant
                j <= self.deep_evals@.len(),
                self.size_spec() <= usize::MAX,
                b == T::byte_size_spec(),
                b >= 1,
                e == else_count(self.deep_evals@.subrange(0, j as int)),
            decreases self.deep_evals@.len() - j,
        {
            proof {
                lemma_else_count_mono(self.deep_evals@, j + 1);
                assert(self.deep_evals@.subrange(0, j + 1).drop_last() =~= self.deep_evals@.subrange(0, j as int));
                assert(else_count(self.deep_evals@) * b <= usize::MAX) by (nonlinear_arith)
                    requires
                        (else_count(self.deep_evals@) + self.shuffle_evals@.len() + 2) * b <= usize::MAX;
                assert(else_count(self.deep_evals@) <= usize::MAX) by (nonlinear_arith)
                    requires
                        (else_count(self.deep_evals@) + self.shuffle_evals@.len() + 2) * b <= usize::MAX,
                        b >= 1;
            }
            e = e + self.deep_evals[j].1.len();
            j = j + 1;
        }
        proof {
            assert(self.deep_evals@.subrange(0, self.deep_evals@.len() as int) =~= self.deep_evals@);
            assert((e + self.shuffle_evals@.len() + 2) * b <= usize::MAX);
            assert(e + self.shuffle_evals@.len() + 2 <= usize::MAX) by (nonlinear_arith)
                requires
                    (e + self.shuffle_evals@.len() + 2) * b <= usize::MAX,
                    b >= 1;
            assert(self.merkle_root@.len() * 32 <= usize::MAX);
        }
        let tail = (e + self.shuffle_evals.len() + 2) * b;
        self.merkle_root.len() * 32 + q + tail
    }
}

} // verus!
