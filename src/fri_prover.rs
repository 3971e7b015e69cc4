//! The FRI prover: commits to a univariate polynomial, proves its value at
//! a point by folding the quotient `(f(x) - f(z)) / (x - z)` down to a
//! constant, and opens the queried positions.
use vstd::prelude::*;
use crate::CODE_RATE;
use crate::deepfold::round_indices;
use crate::deepfold_prover::{coset_invs, cosets_ok, open_rounds, opened_rounds};
use crate::domain::{exp2, evaluate_at, horner};
use crate::domain::Coset;
use crate::field::{Field, all_wf, batch_inverse, is_unit, lemma_inverse_unique, lemma_prefix_unit, prefix_product, unit_inverse};
use crate::folding::{fold_codeword, fold_codeword_exec, fold_rounds};
use crate::fri_verifier::Verifier;
use crate::indices::reduce_indices;
use crate::interpolation::{InterpolateValue, codeword_leaves, codeword_root, opened_pairs};
use crate::merkle::{multi_path, tree_layers};
use crate::query_result::QueryResult;
use crate::random_oracle::RandomOracle;

verus! {

/// `(v[i] - y) / (e[i] - z)` at every position.
pub open spec fn quotient<T: Field>(v: Seq<T>, y: T, e: Seq<T>, z: T) -> Seq<T> {
    Seq::new(
        v.len(),
        |i: int| T::mul_spec(T::sub_spec(v[i], y), unit_inverse(T::sub_spec(e[i], z))),
    )
}

/// The prover of one FRI session.
#[derive(Clone, Debug)]
pub struct Prover<T: Field> {
    pub total_round: usize,
    pub polynomial: Vec<T>,
    pub interpolate_cosets: Vec<Coset<T>>,
    pub interpolations: Vec<InterpolateValue<T>>,
    pub oracle: RandomOracle<T>,
    pub final_value: Option<T>,
}

impl<T: Field> Prover<T> {
    pub open spec fn wf(&self) -> bool {
        let r = self.total_round as nat;
        &&& r >= 1
        &&& r + CODE_RATE < 64
        &&& cosets_ok(self.interpolate_cosets@, r)
        &&& self.oracle.wf()
        &&& self.oracle.folding_challenges@.len() == r
        &&& self.interpolations@.len() >= 1
        &&& self.interpolations@[0].wf()
        &&& self.interpolations@[0].values().len() == exp2((r + CODE_RATE) as nat)
        &&& all_wf(self.interpolations@[0].values())
    }

    /// The codeword of round `t >= 1` for the opening point `z`.
    pub open spec fn codeword(&self, z: T, t: nat) -> Seq<T> {
        let v0 = self.interpolations@[0].values();
        let q = quotient(v0, horner(self.polynomial@, z), self.interpolate_cosets@[0].elems(), z);
        let invs = coset_invs(self.interpolate_cosets@);
        let cs = self.oracle.folding_challenges@;
        fold_rounds(
            fold_codeword(q, invs[0], cs[0], false),
            invs.drop_first(),
            cs.drop_first(),
            (t - 1) as nat,
            false,
        )
    }

    /// A prover for the polynomial with coefficients `polynomial`.
    pub fn new(
        total_round: usize,
        interpolate_coset: Vec<Coset<T>>,
        polynomial: Vec<T>,
        oracle: RandomOracle<T>,
    ) -> (r: Self)
        requires
            total_round >= 1,
            total_round + CODE_RATE < 64,
            cosets_ok(interpolate_coset@, total_round as nat),
            all_wf(polynomial@),
            oracle.wf(),
            oracle.folding_challenges@.len() == total_round,
        ensures
            r.wf(),
            r.total_round == total_round,
            r.polynomial@ == polynomial@,
            r.interpolate_cosets@ == interpolate_coset@,
            r.oracle == oracle,
            r.interpolations@.len() == 1,
            r.interpolations@[0].values() == Seq::new(
                exp2((total_round + CODE_RATE) as nat),
                |i: int| horner(polynomial@, interpolate_coset@[0].elems()[i]),
            ),
            r.final_value is None,
    {
        let codeword = interpolate_coset[0].fft(&polynomial);
        proof {
            assert(codeword@ =~= Seq::new(
                exp2((total_round + CODE_RATE) as nat),
                |i: int| horner(polynomial@, interpolate_coset@[0].elems()[i]),
            ));
            assert forall|i: int| 0 <= i < codeword@.len() implies (#[trigger] codeword@[i]).wf() by {
                lemma_horner_wf(polynomial@, interpolate_coset@[0].elems()[i]);
            }
        }
        let first = InterpolateValue::new(codeword);
        let mut interpolations: Vec<InterpolateValue<T>> = Vec::new();
        interpolations.push(first);
        Prover {
            total_round,
            polynomial,
            interpolate_cosets: interpolate_coset,
            interpolations,
            oracle,
            final_value: None,
        }
    }

    /// Root of the first codeword.
    pub fn commit_polynomial(&self) -> (r: Vec<u8>)
        requires
            self.wf(),
        ensures
            r@ == codeword_root(self.interpolations@[0].values()),
    {
        self.interpolations[0].commit()
    }

    /// Sends the roots of the folded codewords and the final value.
    pub fn commit_foldings(&self, verifier: &mut Verifier<T>)
        requires
            self.total_round >= 1,
            self.interpolations@.len() == self.total_round,
            forall|t: int| 0 <= t < self.total_round ==> (#[trigger] self.interpolations@[t]).wf(),
            self.final_value is Some,
        ensures
            final(verifier).interpolation_roots@.len() == old(verifier).interpolation_roots@.len()
                + self.total_round - 1,
            forall|t: int|
                0 <= t < old(verifier).interpolation_roots@.len() ==> (#[trigger] final(verifier).interpolation_roots@[t])
                    == old(verifier).interpolation_roots@[t],
            forall|t: int|
                1 <= t < self.total_round ==> (#[trigger] final(verifier).interpolation_roots@[
                    old(verifier).interpolation_roots@.len() + t - 1]).merkle_root@ == codeword_root(
                    self.interpolations@[t].values(),
                ),
            forall|t: int|
                1 <= t < self.total_round ==> (#[trigger] final(verifier).interpolation_roots@[
                    old(verifier).interpolation_roots@.len() + t - 1]).leave_number
                    == self.interpolations@[t].values().len() / 2,
            final(verifier).final_value == self.final_value,
            final(verifier).total_round == old(verifier).total_round,
            final(verifier).interpolate_cosets@ == old(verifier).interpolate_cosets@,
            final(verifier).oracle == old(verifier).oracle,
            final(verifier).open_point == old(verifier).open_point,
    {
        let ghost start = verifier.interpolation_roots@;
        let mut i: usize = 1;
        while i < self.total_round
            invariant
                1 <= i <= self.total_round,
                self.interpolations@.len() == self.total_round,
                forall|t: int| 0 <= t < self.total_round ==> (#[trigger] self.interpolations@[t]).wf(),
                verifier.interpolation_roots@.len() == start.len() + i - 1,
                forall|t: int| 0 <= t < start.len() ==> #[trigger] verifier.interpolation_roots@[t] == start[t],
                forall|t: int|
                    1 <= t < i ==> {
                        let m = #[trigger] verifier.interpolation_roots@[start.len() + t - 1];
                        &&& m.merkle_root@ == codeword_root(self.interpolations@[t].values())
                        &&& m.leave_number == self.interpolations@[t].values().len() / 2
                    },
                verifier.final_value == old(verifier).final_value,
                verifier.total_round == old(verifier).total_round,
                verifier.interpolate_cosets@ == old(verifier).interpolate_cosets@,
                verifier.oracle == old(verifier).oracle,
                verifier.open_point == old(verifier).open_point,
            decreases self.total_round - i,
        {
            let interpolation = &self.interpolations[i];
            verifier.receive_interpolation_root(interpolation.leave_num(), interpolation.commit());
            i = i + 1;
        }
        let v = match self.final_value {
            Some(v) => v,
            None => T::zero(),
        };
        verifier.set_final_value(v);
    }

    /// Round `round`'s codeword, the first entries of `folding_value` up to
    /// the round's domain size, folded by `challenge`.
    pub fn evaluation_next_domain(&self, folding_value: &Vec<T>, round: usize, challenge: T) -> (r: Vec<T>)
        requires
            self.wf(),
            round < self.total_round,
            folding_value@.len() >= self.interpolate_cosets@[round as int].elems().len(),
        ensures
            r@ == fold_codeword(
                folding_value@.subrange(0, self.interpolate_cosets@[round as int].elems().len() as int),
                self.interpolate_cosets@[round as int].invs(),
                challenge,
                false,
            ),
    {
        let coset = &self.interpolate_cosets[round];
        let n = coset.size();
        let mut front: Vec<T> = Vec::new();
        let mut i: usize = 0;
        while i < n
            invariant
                i <= n,
                n <= folding_value@.len(),
                front@ == folding_value@.subrange(0, i as int),
            decreases n - i,
        {
            front.push(folding_value[i]);
            assert(front@ =~= folding_value@.subrange(0, i + 1));
            i = i + 1;
        }
        fold_codeword_exec(&front, coset, challenge, false)
    }

    /// Runs every folding round for the opening point `point` and returns
    /// the polynomial's value there; `point` lies outside the first domain.
    #[verifier::rlimit(60)]
    pub fn prove(&mut self, point: T) -> (res: T)
        requires
            old(self).wf(),
            old(self).interpolations@.len() == 1,
            point.wf(),
            forall|i: int|
                0 <= i < old(self).interpolate_cosets@[0].elems().len() ==> #[trigger] old(
                    self,
                ).interpolate_cosets@[0].elems()[i] != point,
        ensures
            res == horner(old(self).polynomial@, point),
            final(self).wf(),
            final(self).total_round == old(self).total_round,
            final(self).polynomial@ == old(self).polynomial@,
            final(self).interpolate_cosets@ == old(self).interpolate_cosets@,
            final(self).oracle == old(self).oracle,
            final(self).interpolations@[0] == old(self).interpolations@[0],
            final(self).interpolations@.len() == final(self).total_round,
            forall|t: int| 0 <= t < final(self).total_round ==> (#[trigger] final(self).interpolations@[t]).wf(),
            forall|t: int|
                1 <= t < final(self).total_round ==> (#[trigger] final(self).interpolations@[t]).values()
                    == old(self).codeword(point, t as nat),
            final(self).final_value == Some(old(self).codeword(point, final(self).total_round as nat)[0]),
    {
        let r = self.total_round;
        let ghost pre = *old(self);
        let coset0 = &self.interpolate_cosets[0];
        let elements = coset0.all_elements();
        let mut diffs: Vec<T> = Vec::new();
        let mut k: usize = 0;
        while k < elements.len()
            invariant
                k <= elements@.len(),
                diffs@ =~= Seq::new(elements@.len(), |i: int| T::sub_spec(elements@[i], point)).subrange(0, k as int),
            decreases elements@.len() - k,
        {
            diffs.push(elements[k].sub(point));
            k = k + 1;
        }
        proof {
            assert forall|i: int| 0 <= i < diffs@.len() implies (#[trigger] diffs@[i]).wf() by {
                T::lemma_closed(elements@[i], point);
            }
            assert forall|i: int| 0 <= i < diffs@.len() implies is_unit(#[trigger] diffs@[i]) by {
                T::lemma_closed(elements@[i], point);
                if diffs@[i] == T::zero_spec() {
                    crate::field::lemma_sub_zero(elements@[i], point);
                }
                crate::field::lemma_nonzero_has_inverse(diffs@[i]);
            }
            crate::domain::lemma_exp2_mono(1, (r + CODE_RATE) as nat);
            lemma_prefix_unit(diffs@, diffs@.len());
            let p = prefix_product(diffs@, diffs@.len());
            crate::field::lemma_prefix_wf(diffs@, diffs@.len());
            T::lemma_unit_has_inverse(p, unit_inverse(p));
        }
        let inv = batch_inverse(&diffs);
        let res = evaluate_at(&self.polynomial, point);
        let v = self.interpolations[0].value();
        let mut q: Vec<T> = Vec::new();
        let mut k: usize = 0;
        while k < v.len()
            invariant
                k <= v@.len(),
                v@.len() == diffs@.len(),
                inv@.len() == diffs@.len(),
                all_wf(inv@),
                all_wf(diffs@),
                forall|i: int| 0 <= i < diffs@.len() ==> T::mul_spec(diffs@[i], #[trigger] inv@[i]) == T::one_spec(),
                diffs@ == Seq::new(elements@.len(), |i: int| T::sub_spec(elements@[i], point)),
                q@ =~= quotient(v@, res, elements@, point).subrange(0, k as int),
            decreases v@.len() - k,
        {
            proof {
                lemma_inverse_unique(diffs@[k as int], inv@[k as int], unit_inverse(diffs@[k as int]));
            }
            q.push(v[k].sub(res).mul(inv[k]));
            k = k + 1;
        }
        let c0 = self.oracle.folding_challenges[0];
        let mut next = self.evaluation_next_domain(&q, 0, c0);
        assert(q@.subrange(0, q@.len() as int) =~= q@);
        let mut i: usize = 0;
        while i < r
            invariant
                self.wf(),
                r == self.total_round,
                1 <= i + 1 <= r + 1,
                self.polynomial@ == pre.polynomial@,
                self.interpolate_cosets@ == pre.interpolate_cosets@,
                self.oracle == pre.oracle,
                self.interpolations@[0] == pre.interpolations@[0],
                self.total_round == pre.total_round,
                i < r ==> next@ == pre.codeword(point, (i + 1) as nat),
                i < r ==> next@.len() == exp2((r + CODE_RATE - i - 1) as nat),
                self.interpolations@.len() == if i < r { i + 1 } else { r as int },
                forall|t: int| 0 <= t < self.interpolations@.len() ==> (#[trigger] self.interpolations@[t]).wf(),
                forall|t: int|
                    1 <= t < self.interpolations@.len() ==> (#[trigger] self.interpolations@[t]).values()
                        == pre.codeword(point, t as nat),
                i == r ==> self.final_value == Some(pre.codeword(point, r as nat)[0]),
            decreases r - i,
        {
            proof {
                assert(exp2((r + CODE_RATE - i) as nat) == 2 * exp2((r + CODE_RATE - i - 1) as nat));
                crate::domain::lemma_exp2_mono(0, (r + CODE_RATE - i - 1) as nat);
            }
            if i < r - 1 {
                proof {
                    assert(exp2((r + CODE_RATE - i - 1) as nat) == 2 * exp2((r + CODE_RATE - i - 2) as nat));
                }
                self.interpolations.push(InterpolateValue::new(next));
                let c = self.oracle.folding_challenges[i + 1];
                next = self.evaluation_next_domain(self.interpolations[i + 1].value(), i + 1, c);
                assert(self.interpolations@[i + 1].values().subrange(
                    0,
                    self.interpolations@[i + 1].values().len() as int,
                ) =~= self.interpolations@[i + 1].values());
                proof {
                    let invs = coset_invs(pre.interpolate_cosets@);
                    let cs = pre.oracle.folding_challenges@;
                    assert(invs.drop_first()[i as int] == invs[i + 1]);
                    assert(cs.drop_first()[i as int] == cs[i + 1]);
                }
            } else {
                self.final_value = Some(next[0]);
            }
            i = i + 1;
        }
        res
    }
}

impl<T: Field> Prover<T> {
    /// Opens every round's codeword at the transcript's query positions,
    /// reduced to that round's half-domain.
    pub fn query(&self) -> (res: Vec<QueryResult<T>>)
        requires
            self.wf(),
            self.interpolations@.len() == self.total_round,
            forall|t: int| 0 <= t < self.total_round ==> (#[trigger] self.interpolations@[t]).wf(),
            forall|t: int|
                0 <= t < self.total_round ==> (#[trigger] self.interpolations@[t]).values().len()
                    == exp2((self.total_round + CODE_RATE - t) as nat),
        ensures
            opened_rounds(res@, self.interpolations@, self.interpolate_cosets@, self.oracle.query_list@),
    {
        open_rounds(&self.interpolations, &self.interpolate_cosets, &self.oracle.query_list)
    }
}

pub proof fn lemma_horner_wf<T: Field>(c: Seq<T>, x: T)
    requires
        all_wf(c),
        x.wf(),
    ensures
        crate::domain::horner(c, x).wf(),
    decreases c.len(),
{
    T::lemma_closed(x, x);
    if c.len() > 0 {
        lemma_horner_wf(c.drop_first(), x);
        T::lemma_closed(crate::domain::horner(c.drop_first(), x), x);
        T::lemma_closed(T::mul_spec(crate::domain::horner(c.drop_first(), x), x), c[0]);
    }
}

} // verus!
