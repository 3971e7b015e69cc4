//! The Deepfold prover: commits to a multilinear polynomial, folds its
//! codeword round by round while keeping the evaluation arguments up to
//! date, and opens the queried positions.
use vstd::prelude::*;
use crate::CODE_RATE;
use crate::deepfold::{
    Commit, DeepEval, Proof, deep_point, deep_point_exec, hyper_table, round_indices,
    sibling_point,
};
use crate::domain::{Coset, exp2, horner};
use crate::field::{Field, all_wf, copy_elements};
use crate::folding::{fold_codeword, fold_codeword_exec, fold_rounds};
use crate::indices::{reduce_indices, reduce_ok};
use crate::interpolation::{InterpolateValue, codeword_leaves, codeword_root, opened_pairs};
use crate::merkle::{multi_path, tree_layers};
use crate::polynomial::{MultilinearPolynomial, coeff_eval, fold_hypercube, fold_table, hyper_point, mle_eval};
use crate::query_result::QueryResult;
use crate::random_oracle::RandomOracle;

verus! {

/// The domains of a session with `r` rounds: domain `i` is well formed and
/// has `2^(r + CODE_RATE - i)` elements.
pub open spec fn cosets_ok<T: Field>(cosets: Seq<Coset<T>>, r: nat) -> bool {
    &&& cosets.len() == r
    &&& forall|i: int|
        0 <= i < r ==> (#[trigger] cosets[i]).wf() && cosets[i].elems().len() == exp2(
            (r + CODE_RATE - i) as nat,
        )
}

pub open spec fn coset_invs<T: Field>(cosets: Seq<Coset<T>>) -> Seq<Seq<T>> {
    Seq::new(cosets.len(), |i: int| cosets[i].invs())
}

/// Whether `d` is the evaluation argument spawned at round `j` of a session
/// on the table `t` with challenges `cs`, DEEP base `z` and `r` rounds,
/// after `n` rounds have been folded into it.
pub open spec fn deep_eval_ok<T: Field>(
    d: DeepEval<T>,
    t: Seq<T>,
    cs: Seq<T>,
    z: T,
    r: nat,
    j: nat,
    n: nat,
) -> bool {
    &&& d.point@ == deep_point(z, (r - j) as nat)
    &&& d.first_eval == mle_eval(hyper_table(t, cs, j), d.point@)
    &&& d.else_evals@.len() == n
    &&& forall|k: int|
        0 <= k < n ==> #[trigger] d.else_evals@[k] == mle_eval(
            hyper_table(t, cs, j + k as nat),
            sibling_point(d.point@, k as nat),
        )
}

/// Whether `d` is the argument at `point` on the table `t`, after `n`
/// folding rounds with challenges `cs`.
pub open spec fn shuffle_ok<T: Field>(d: DeepEval<T>, t: Seq<T>, cs: Seq<T>, point: Seq<T>, n: nat) -> bool {
    &&& d.point@ == point
    &&& d.first_eval == mle_eval(t, point)
    &&& d.else_evals@.len() == n
    &&& forall|k: int|
        0 <= k < n ==> #[trigger] d.else_evals@[k] == mle_eval(
            hyper_table(t, cs, k as nat),
            sibling_point(point, k as nat),
        )
}

/// Appends to every argument of `evals` its value on `table` at its next
/// sibling point.
pub fn append_else_evals<T: Field>(evals: Vec<DeepEval<T>>, table: &Vec<T>) -> (r: Vec<DeepEval<T>>)
    requires
        forall|t: int|
            0 <= t < evals@.len() ==> (#[trigger] evals@[t]).else_evals@.len() < evals@[t].point@.len()
                && table@.len() == exp2(
                (evals@[t].point@.len() - evals@[t].else_evals@.len()) as nat,
            ),
    ensures
        r@.len() == evals@.len(),
        forall|t: int|
            0 <= t < evals@.len() ==> {
                &&& (#[trigger] r@[t]).point@ == evals@[t].point@
                &&& r@[t].first_eval == evals@[t].first_eval
                &&& r@[t].else_evals@ == evals@[t].else_evals@.push(
                    mle_eval(table@, sibling_point(evals@[t].point@, evals@[t].else_evals@.len())),
                )
            },
{
    let ghost orig = evals@;
    let mut rest = evals;
    let mut out: Vec<DeepEval<T>> = Vec::new();
    let n = rest.len();
    let mut j: usize = 0;
    while j < n
        invariant
            j <= n,
            n == orig.len(),
            rest@ == orig.subrange(j as int, n as int),
            out@.len() == j,
            forall|t: int|
                0 <= t < orig.len() ==> (#[trigger] orig[t]).else_evals@.len() < orig[t].point@.len()
                    && table@.len() == exp2((orig[t].point@.len() - orig[t].else_evals@.len()) as nat),
            forall|t: int|
                0 <= t < j ==> {
                    &&& (#[trigger] out@[t]).point@ == orig[t].point@
                    &&& out@[t].first_eval == orig[t].first_eval
                    &&& out@[t].else_evals@ == orig[t].else_evals@.push(
                        mle_eval(table@, sibling_point(orig[t].point@, orig[t].else_evals@.len())),
                    )
                },
        decreases n - j,
    {
        let mut d = rest.remove(0);
        assert(d == orig[j as int]);
        d.append_else_eval(copy_elements(table));
        out.push(d);
        assert(rest@ =~= orig.subrange(j + 1, n as int));
        j = j + 1;
    }
    out
}

/// Runs the evaluation arguments through every round: before round `i`
/// folds the table, each live argument and the one at `point` record their
/// sibling values, and a new argument is spawned on the folded table.
pub fn track_evaluations<T: Field>(
    t0: &Vec<T>,
    cs: &Vec<T>,
    deep: &Vec<T>,
    point: Vec<T>,
    first: Vec<DeepEval<T>>,
) -> (r: (Vec<DeepEval<T>>, DeepEval<T>))
    requires
        cs@.len() >= 1,
        deep@.len() == cs@.len(),
        all_wf(deep@),
        t0@.len() == exp2(cs@.len() as nat),
        point@.len() == cs@.len(),
        first@.len() == 1,
        deep_eval_ok(first@[0], t0@, cs@, deep@[0], cs@.len() as nat, 0, 0),
    ensures
        r.0@.len() == cs@.len(),
        forall|j: int|
            0 <= j < cs@.len() ==> deep_eval_ok(
                #[trigger] r.0@[j],
                t0@,
                cs@,
                deep@[j],
                cs@.len() as nat,
                j as nat,
                (cs@.len() - j) as nat,
            ),
        shuffle_ok(r.1, t0@, cs@, point@, cs@.len() as nat),
{
    let r = cs.len();
    let mut table = copy_elements(t0);
    let mut shuffle = DeepEval::new(point, copy_elements(&table));
    let mut evals = first;
    let mut i: usize = 0;
    while i < r
        invariant
            r == cs@.len(),
            r >= 1,
            deep@.len() == r,
            all_wf(deep@),
            point@.len() == r,
            i <= r,
            i < r ==> table@ == hyper_table(t0@, cs@, i as nat),
            i < r ==> table@.len() == exp2((r - i) as nat),
            evals@.len() == if i < r { i + 1 } else { r as int },
            forall|j: int|
                0 <= j < evals@.len() ==> deep_eval_ok(
                    #[trigger] evals@[j],
                    t0@,
                    cs@,
                    deep@[j],
                    r as nat,
                    j as nat,
                    (i - j) as nat,
                ),
            shuffle_ok(shuffle, t0@, cs@, point@, i as nat),
        decreases r - i,
    {
        let c = cs[i];
        shuffle.append_else_eval(copy_elements(&table));
        evals = append_else_evals(evals, &table);
        if i < r - 1 {
            proof {
                assert(exp2((r - i) as nat) == 2 * exp2((r - i - 1) as nat));
            }
            let m = table.len() / 2;
            let ghost before = table@;
            Prover::<T>::sumcheck_next_domain(&mut table, m, c);
            assert(before.subrange(0, 2 * m) =~= before);
            let pt = deep_point_exec(deep[i + 1], r - i - 1);
            evals.push(DeepEval::new(pt, copy_elements(&table)));
        }
        i = i + 1;
    }
    (evals, shuffle)
}

/// Whether `pair` holds the value and the recorded sibling values of the
/// argument spawned at round `j` of a completed session.
pub open spec fn deep_pair_ok<T: Field>(
    pair: (T, Seq<T>),
    t: Seq<T>,
    cs: Seq<T>,
    z: T,
    r: nat,
    j: nat,
) -> bool {
    let p = deep_point(z, (r - j) as nat);
    &&& pair.0 == mle_eval(hyper_table(t, cs, j), p)
    &&& pair.1.len() == r - j
    &&& forall|k: int|
        0 <= k < r - j ==> #[trigger] pair.1[k] == mle_eval(
            hyper_table(t, cs, j + k as nat),
            sibling_point(p, k as nat),
        )
}

/// The reduction that yields round `i`'s positions has its defining
/// properties: increasing, the right entries, all below the half-domain size.
#[verifier::opaque]
pub open spec fn round_reduce_ok<T: Field>(q: Seq<usize>, cosets: Seq<Coset<T>>, i: int) -> bool {
    reduce_ok(
        if i == 0 {
            q
        } else {
            round_indices(q, cosets, (i - 1) as nat)
        },
        (cosets[i].elems().len() / 2) as usize,
    )
}

/// Whether `res` holds, for each round, the openings of that round's
/// codeword at the round's reduced query positions.
pub open spec fn opened_rounds<T: Field>(
    res: Seq<QueryResult<T>>,
    codewords: Seq<InterpolateValue<T>>,
    cosets: Seq<Coset<T>>,
    q: Seq<usize>,
) -> bool {
    &&& res.len() == codewords.len()
    &&& forall|i: int| 0 <= i < codewords.len() ==> #[trigger] round_reduce_ok(q, cosets, i)
    &&& forall|i: int|
        0 <= i < codewords.len() ==> {
            let idx = round_indices(q, cosets, i as nat);
            let v = codewords[i].values();
            &&& (#[trigger] res[i]).proof_values@ == opened_pairs(v, idx)
            &&& res[i].proof_bytes@ == multi_path(tree_layers(codeword_leaves(v)), idx)
        }
}

/// Two openings of the same codewords at the same transcript's positions
/// are identical: the reduced, sorted, deduplicated positions and the values
/// and proofs opened there depend on nothing else.
pub proof fn lemma_query_deterministic<T: Field>(
    res1: Seq<QueryResult<T>>,
    res2: Seq<QueryResult<T>>,
    codewords: Seq<InterpolateValue<T>>,
    cosets: Seq<Coset<T>>,
    q: Seq<usize>,
)
    requires
        opened_rounds(res1, codewords, cosets, q),
        opened_rounds(res2, codewords, cosets, q),
    ensures
        res1.len() == res2.len(),
        forall|i: int|
            0 <= i < res1.len() ==> (#[trigger] res1[i]).proof_values@ == res2[i].proof_values@
                && res1[i].proof_bytes@ == res2[i].proof_bytes@,
{
    assert forall|i: int| 0 <= i < res1.len() implies (#[trigger] res1[i]).proof_values@
        == res2[i].proof_values@ && res1[i].proof_bytes@ == res2[i].proof_bytes@ by {
        assert(res2[i].proof_values@ == opened_pairs(codewords[i].values(), round_indices(q, cosets, i as nat)));
    }
}

/// Opens each codeword at the query positions `q` reduced to its round's
/// half-domain.
pub fn open_rounds<T: Field>(
    interpolations: &Vec<InterpolateValue<T>>,
    cosets: &Vec<Coset<T>>,
    q: &Vec<usize>,
) -> (res: Vec<QueryResult<T>>)
    requires
        interpolations@.len() <= cosets@.len(),
        forall|t: int| 0 <= t < interpolations@.len() ==> (#[trigger] interpolations@[t]).wf(),
        forall|t: int|
            0 <= t < interpolations@.len() ==> (#[trigger] cosets@[t]).elems().len()
                == interpolations@[t].values().len(),
    ensures
        opened_rounds(res@, interpolations@, cosets@, q@),
{
    let r = interpolations.len();
    let mut res: Vec<QueryResult<T>> = Vec::new();
    let mut leaf_indices: Vec<usize> = Vec::new();
    let mut i: usize = 0;
    while i < r
        invariant
            r == interpolations@.len(),
            r <= cosets@.len(),
            forall|t: int| 0 <= t < r ==> (#[trigger] interpolations@[t]).wf(),
            forall|t: int|
                0 <= t < r ==> (#[trigger] cosets@[t]).elems().len() == interpolations@[t].values().len(),
            i <= r,
            i > 0 ==> leaf_indices@ == round_indices(q@, cosets@, (i - 1) as nat),
            res@.len() == i,
            forall|t: int| 0 <= t < i ==> #[trigger] round_reduce_ok(q@, cosets@, t),
            forall|t: int|
                0 <= t < i ==> {
                    let idx = round_indices(q@, cosets@, t as nat);
                    let v = interpolations@[t].values();
                    &&& (#[trigger] res@[t]).proof_values@ == opened_pairs(v, idx)
                    &&& res@[t].proof_bytes@ == multi_path(tree_layers(codeword_leaves(v)), idx)
                },
        decreases r - i,
    {
        let len = cosets[i].size();
        assert(interpolations@[i as int].wf());
        let half = len / 2;
        if i == 0 {
            leaf_indices = reduce_indices(q, half);
        } else {
            leaf_indices = reduce_indices(&leaf_indices, half);
        }
        res.push(interpolations[i].query(&leaf_indices));
        assert(round_reduce_ok(q@, cosets@, i as int)) by {
            reveal(round_reduce_ok);
        }
        i = i + 1;
    }
    res
}

/// The prover of one Deepfold session.
#[derive(Clone, Debug)]
pub struct Prover<T: Field> {
    pub total_round: usize,
    pub interpolate_cosets: Vec<Coset<T>>,
    pub interpolations: Vec<InterpolateValue<T>>,
    pub hypercube_interpolation: Vec<T>,
    pub deep_eval: Vec<DeepEval<T>>,
    pub shuffle_eval: Option<DeepEval<T>>,
    pub oracle: RandomOracle<T>,
    pub final_value: Option<T>,
}

impl<T: Field> Prover<T> {
    /// The parts that never change after construction are consistent.
    pub open spec fn wf(&self) -> bool {
        let r = self.total_round as nat;
        &&& r >= 1
        &&& r + CODE_RATE < 64
        &&& cosets_ok(self.interpolate_cosets@, r)
        &&& self.hypercube_interpolation@.len() == exp2(r)
        &&& self.oracle.wf()
        &&& self.oracle.folding_challenges@.len() == r
        &&& self.oracle.deep@.len() == r
        &&& self.interpolations@.len() >= 1
        &&& self.interpolations@[0].wf()
        &&& self.interpolations@[0].values().len() == exp2((r + CODE_RATE) as nat)
    }

    /// The codeword of round `t` that an honest run produces.
    pub open spec fn codeword(&self, t: nat) -> Seq<T> {
        fold_rounds(
            self.interpolations@[0].values(),
            coset_invs(self.interpolate_cosets@),
            self.oracle.folding_challenges@,
            t,
            true,
        )
    }

    /// Everything a completed `prove` leaves behind, for the opening point `point`.
    pub open spec fn proved(&self, point: Seq<T>) -> bool {
        let r = self.total_round as nat;
        let t0 = self.hypercube_interpolation@;
        let cs = self.oracle.folding_challenges@;
        &&& self.interpolations@.len() == r
        &&& forall|t: int| 0 <= t < r ==> (#[trigger] self.interpolations@[t]).wf()
        &&& forall|t: int|
            0 <= t < r ==> (#[trigger] self.interpolations@[t]).values() == self.codeword(t as nat)
        &&& forall|t: int|
            0 <= t < r ==> (#[trigger] self.interpolations@[t]).values().len() == exp2(
                (r + CODE_RATE - t) as nat,
            )
        &&& self.final_value == Some(self.codeword(r)[0])
        &&& self.deep_eval@.len() == r
        &&& forall|j: int|
            0 <= j < r ==> deep_eval_ok(
                #[trigger] self.deep_eval@[j],
                t0,
                cs,
                self.oracle.deep@[j],
                r,
                j as nat,
                (r - j) as nat,
            )
        &&& self.shuffle_eval is Some
        &&& shuffle_ok(self.shuffle_eval->0, t0, cs, point, r)
    }

    /// A prover for `polynomial` with `total_round` variables, one domain per
    /// round, and the session's transcript.
    pub fn new(
        total_round: usize,
        interpolate_cosets: Vec<Coset<T>>,
        polynomial: MultilinearPolynomial<T>,
        oracle: RandomOracle<T>,
    ) -> (r: Self)
        requires
            total_round >= 1,
            total_round + CODE_RATE < 64,
            cosets_ok(interpolate_cosets@, total_round as nat),
            polynomial.wf(),
            polynomial.num_vars() == total_round,
            oracle.wf(),
            oracle.folding_challenges@.len() == total_round,
            oracle.deep@.len() == total_round,
        ensures
            r.wf(),
            r.total_round == total_round,
            r.interpolate_cosets@ == interpolate_cosets@,
            r.oracle == oracle,
            r.interpolations@.len() == 1,
            r.interpolations@[0].values() == Seq::new(
                exp2((total_round + CODE_RATE) as nat),
                |i: int| horner(polynomial.coeffs(), interpolate_cosets@[0].elems()[i]),
            ),
            r.hypercube_interpolation@.len() == exp2(total_round as nat),
            forall|i: int|
                0 <= i < exp2(total_round as nat) ==> #[trigger] r.hypercube_interpolation@[i]
                    == coeff_eval(polynomial.coeffs(), hyper_point::<T>(i as nat, total_round as nat)),
            r.deep_eval@.len() == 1,
            deep_eval_ok(
                r.deep_eval@[0],
                r.hypercube_interpolation@,
                oracle.folding_challenges@,
                oracle.deep@[0],
                total_round as nat,
                0,
                0,
            ),
            r.shuffle_eval is None,
            r.final_value is None,
    {
        let point = deep_point_exec(oracle.deep[0], total_round);
        let hypercube_interpolation = polynomial.evaluate_hypercube();
        let codeword = interpolate_cosets[0].fft(polynomial.coefficients());
        proof {
            assert(exp2((total_round + CODE_RATE) as nat) == codeword@.len());
            assert(codeword@ =~= Seq::new(
                exp2((total_round + CODE_RATE) as nat),
                |i: int| horner(polynomial.coeffs(), interpolate_cosets@[0].elems()[i]),
            ));
        }
        let first = InterpolateValue::new(codeword);
        let table = copy_elements(&hypercube_interpolation);
        let d = DeepEval::new(point, table);
        let mut interpolations: Vec<InterpolateValue<T>> = Vec::new();
        interpolations.push(first);
        let mut deep_eval: Vec<DeepEval<T>> = Vec::new();
        deep_eval.push(d);
        Prover {
            total_round,
            interpolate_cosets,
            interpolations,
            hypercube_interpolation,
            deep_eval,
            shuffle_eval: None,
            oracle,
            final_value: None,
        }
    }
}

impl<T: Field> Prover<T> {
    /// The commitment: the root of the first codeword and the first
    /// evaluation argument's value.
    pub fn commit_polynomial(&self) -> (r: Commit<T>)
        requires
            self.wf(),
            self.deep_eval@.len() >= 1,
        ensures
            r.merkle_root@ == codeword_root(self.interpolations@[0].values()),
            r.deep == self.deep_eval@[0].first_eval,
    {
        Commit { merkle_root: self.interpolations[0].commit(), deep: self.deep_eval[0].first_eval }
    }

    /// The codeword of round `round + 1`: round `round`'s codeword folded
    /// by `challenge`, halved.
    pub fn evaluation_next_domain(&self, round: usize, challenge: T) -> (r: Vec<T>)
        requires
            self.wf(),
            round < self.total_round,
            round < self.interpolations@.len(),
            self.interpolations@[round as int].values().len() == exp2(
                (self.total_round + CODE_RATE - round) as nat,
            ),
        ensures
            r@ == fold_codeword(
                self.interpolations@[round as int].values(),
                self.interpolate_cosets@[round as int].invs(),
                challenge,
                true,
            ),
    {
        fold_codeword_exec(self.interpolations[round].value(), &self.interpolate_cosets[round], challenge, true)
    }

    /// Folds the first `2 * m` entries of the hypercube table in place by
    /// `challenge`, leaving the `m` folded entries.
    pub fn sumcheck_next_domain(hypercube_interpolation: &mut Vec<T>, m: usize, challenge: T)
        requires
            old(hypercube_interpolation)@.len() >= 2 * m,
        ensures
            final(hypercube_interpolation)@ == fold_table(
                old(hypercube_interpolation)@.subrange(0, 2 * m),
                challenge,
            ),
    {
        let len = hypercube_interpolation.len();
        assert(2 * m <= len);
        let n2: usize = m + m;
        let mut front: Vec<T> = Vec::new();
        let mut i: usize = 0;
        while i < n2 && i < len
            invariant
                len == hypercube_interpolation@.len(),
                i <= n2,
                n2 == 2 * m,
                n2 <= hypercube_interpolation@.len(),
                front@ == hypercube_interpolation@.subrange(0, i as int),
            decreases n2 - i,
        {
            front.push(hypercube_interpolation[i]);
            assert(front@ =~= hypercube_interpolation@.subrange(0, i + 1));
            i = i + 1;
        }
        let next = fold_hypercube(&front, challenge);
        *hypercube_interpolation = next;
    }

    /// Runs every folding round for the opening point `point`.
    #[verifier::rlimit(100)]
    pub fn prove(&mut self, point: Vec<T>)
        requires
            old(self).wf(),
            point@.len() == old(self).total_round,
            old(self).interpolations@.len() == 1,
            old(self).deep_eval@.len() == 1,
            deep_eval_ok(
                old(self).deep_eval@[0],
                old(self).hypercube_interpolation@,
                old(self).oracle.folding_challenges@,
                old(self).oracle.deep@[0],
                old(self).total_round as nat,
                0,
                0,
            ),
        ensures
            final(self).wf(),
            final(self).total_round == old(self).total_round,
            final(self).interpolate_cosets@ == old(self).interpolate_cosets@,
            final(self).hypercube_interpolation@ == old(self).hypercube_interpolation@,
            final(self).oracle == old(self).oracle,
            final(self).interpolations@[0] == old(self).interpolations@[0],
            final(self).proved(point@),
    {
        let r = self.total_round;
        let ghost t0 = self.hypercube_interpolation@;
        let ghost cs = self.oracle.folding_challenges@;
        let ghost v0 = self.interpolations@[0];
        let mut first: Vec<DeepEval<T>> = Vec::new();
        core::mem::swap(&mut first, &mut self.deep_eval);
        let (evals, shuffle) = track_evaluations(
            &self.hypercube_interpolation,
            &self.oracle.folding_challenges,
            &self.oracle.deep,
            point,
            first,
        );
        self.deep_eval = evals;
        // The codewords, each folded from the previous one.
        let ghost evals_done = self.deep_eval@;
        let mut i: usize = 0;
        let mut next = self.evaluation_next_domain(0, self.oracle.folding_challenges[0]);
        proof {
            reveal_with_fuel(fold_rounds, 2);
        }
        while i < r
            invariant
                self.wf(),
                r == self.total_round,
                r == old(self).total_round,
                i <= r,
                self.interpolate_cosets@ == old(self).interpolate_cosets@,
                self.hypercube_interpolation@ == old(self).hypercube_interpolation@,
                self.oracle == old(self).oracle,
                self.deep_eval@ == evals_done,
                self.interpolations@[0] == v0,
                v0 == old(self).interpolations@[0],
                i < r ==> next@ == self.codeword((i + 1) as nat),
                i < r ==> next@.len() == exp2((r + CODE_RATE - i - 1) as nat),
                self.interpolations@.len() == if i < r { i + 1 } else { r as int },
                forall|t: int| 0 <= t < self.interpolations@.len() ==> (#[trigger] self.interpolations@[t]).wf(),
                forall|t: int|
                    0 <= t < self.interpolations@.len() ==> (#[trigger] self.interpolations@[t]).values()
                        == self.codeword(t as nat),
                forall|t: int|
                    0 <= t < self.interpolations@.len() ==> (#[trigger] self.interpolations@[t]).values().len()
                        == exp2((r + CODE_RATE - t) as nat),
                i == r ==> self.final_value == Some(self.codeword(r as nat)[0]),
            decreases r - i,
        {
            proof {
                assert(exp2((r + CODE_RATE - i) as nat) == 2 * exp2((r + CODE_RATE - i - 1) as nat));
                crate::domain::lemma_exp2_mono(0, (r + CODE_RATE - i - 1) as nat);
            }
            if i < r - 1 {
                proof {
                    assert(exp2((r + CODE_RATE - i - 1) as nat) == 2 * exp2((r + CODE_RATE - i - 2) as nat));
                }
                self.interpolations.push(InterpolateValue::new(next));
                let c = self.oracle.folding_challenges[i + 1];
                next = self.evaluation_next_domain(i + 1, c);
            } else {
                self.final_value = Some(next[0]);
            }
            i = i + 1;
        }
        self.shuffle_eval = Some(shuffle);
    }

    /// Opens every round's codeword at the transcript's query positions,
    /// reduced to that round's half-domain.
    pub fn query(&self) -> (res: Vec<QueryResult<T>>)
        requires
            self.wf(),
            self.interpolations@.len() == self.total_round,
            forall|t: int| 0 <= t < self.total_round ==> (#[trigger] self.interpolations@[t]).wf(),
            forall|t: int|
                0 <= t < self.total_round ==> (#[trigger] self.interpolations@[t]).values().len()
                    == exp2((self.total_round + CODE_RATE - t) as nat),
        ensures
            opened_rounds(res@, self.interpolations@, self.interpolate_cosets@, self.oracle.query_list@),
    {
        open_rounds(&self.interpolations, &self.interpolate_cosets, &self.oracle.query_list)
    }

    /// Runs the rounds for `point`, opens the queries and assembles the proof.
    #[verifier::rlimit(60)]
    pub fn generate_proof(self, point: Vec<T>) -> (r: Proof<T>)
        requires
            self.wf(),
            point@.len() == self.total_round,
            self.interpolations@.len() == 1,
            self.deep_eval@.len() == 1,
            deep_eval_ok(
                self.deep_eval@[0],
                self.hypercube_interpolation@,
                self.oracle.folding_challenges@,
                self.oracle.deep@[0],
                self.total_round as nat,
                0,
                0,
            ),
        ensures
            ({
                let n = self.total_round as nat;
                let t0 = self.hypercube_interpolation@;
                let cs = self.oracle.folding_challenges@;
                &&& r.merkle_root@.len() == n - 1
                &&& forall|t: int|
                    0 <= t < n - 1 ==> (#[trigger] r.merkle_root@[t])@ == codeword_root(
                        self.codeword((t + 1) as nat),
                    )
                &&& r.query_result@.len() == n
                &&& forall|i: int|
                    0 <= i < n ==> {
                        let idx = round_indices(
                            self.oracle.query_list@,
                            self.interpolate_cosets@,
                            i as nat,
                        );
                        let v = self.codeword(i as nat);
                        &&& (#[trigger] r.query_result@[i]).proof_values@ == opened_pairs(v, idx)
                        &&& r.query_result@[i].proof_bytes@ == multi_path(
                            tree_layers(codeword_leaves(v)),
                            idx,
                        )
                    }
                &&& r.deep_evals@.len() == n
                &&& forall|j: int|
                    0 <= j < n ==> deep_pair_ok(
                        ((#[trigger] r.deep_evals@[j]).0, r.deep_evals@[j].1@),
                        t0,
                        cs,
                        self.oracle.deep@[j],
                        n,
                        j as nat,
                    )
                &&& r.shuffle_evals@.len() == n
                &&& forall|k: int|
                    0 <= k < n ==> #[trigger] r.shuffle_evals@[k] == mle_eval(
                        hyper_table(t0, cs, k as nat),
                        sibling_point(point@, k as nat),
                    )
                &&& r.evaluation == mle_eval(t0, point@)
                &&& r.final_value == self.codeword(n)[0]
            }),
    {
        let ghost pre = self;
        let ghost pt = point@;
        let mut me = self;
        me.prove(point);
        let query_result = me.query();
        let n = me.total_round;
        let mut merkle_root: Vec<Vec<u8>> = Vec::new();
        let mut x: usize = 1;
        while x < n
            invariant
                me.wf(),
                n == me.total_round,
                me.proved(pt),
                me.interpolations@[0] == pre.interpolations@[0],
                me.interpolate_cosets@ == pre.interpolate_cosets@,
                me.oracle == pre.oracle,
                1 <= x <= n,
                merkle_root@.len() == x - 1,
                forall|t: int|
                    0 <= t < x - 1 ==> (#[trigger] merkle_root@[t])@ == codeword_root(
                        pre.codeword((t + 1) as nat),
                    ),
            decreases n - x,
        {
            merkle_root.push(me.interpolations[x].commit());
            x = x + 1;
        }
        let mut deep_evals: Vec<(T, Vec<T>)> = Vec::new();
        let mut j: usize = 0;
        while j < n
            invariant
                me.wf(),
                n == me.total_round,
                me.proved(pt),
                me.hypercube_interpolation@ == pre.hypercube_interpolation@,
                me.oracle == pre.oracle,
                j <= n,
                deep_evals@.len() == j,
                forall|t: int|
                    0 <= t < j ==> deep_pair_ok(
                        ((#[trigger] deep_evals@[t]).0, deep_evals@[t].1@),
                        pre.hypercube_interpolation@,
                        pre.oracle.folding_challenges@,
                        pre.oracle.deep@[t],
                        n as nat,
                        t as nat,
                    ),
            decreases n - j,
        {
            let d = &me.deep_eval[j];
            deep_evals.push((d.first_eval, copy_elements(&d.else_evals)));
            j = j + 1;
        }
        let (shuffle_evals, evaluation) = match &me.shuffle_eval {
            Some(s) => (copy_elements(&s.else_evals), s.first_eval),
            None => (Vec::new(), T::zero()),
        };
        let final_value = match me.final_value {
            Some(v) => v,
            None => T::zero(),
        };
        Proof { merkle_root, query_result, deep_evals, shuffle_evals, evaluation, final_value }
    }
}

} // verus!
