//! The Basefold verifier: checks the sumcheck messages round by round next
//! to the same Merkle-authenticated fold checks as Deepfold.
use vstd::prelude::*;
use crate::CODE_RATE;
use crate::deepfold::round_indices;
use crate::deepfold_prover::cosets_ok;
use crate::deepfold_verifier::round_ok;
use crate::domain::{Coset, exp2};
use crate::field::{Field, copy_elements};
use crate::folding::{fold_at, fold_value};
use crate::indices::reduce_indices;
use crate::merkle::MerkleTreeVerifier;
use crate::query_result::{QueryResult, lookup, pair_present};
use crate::random_oracle::RandomOracle;

verus! {

/// The value at `c` of the quadratic through `(0, x0)`, `(1, x1)`, `(2, x2)`.
pub open spec fn quadratic_at<T: Field>(x: (T, T, T), c: T) -> T {
    let one = T::from_int_spec(1);
    let two = T::from_int_spec(2);
    let h = T::inv2_spec();
    T::add_spec(
        T::add_spec(
            T::mul_spec(T::mul_spec(T::mul_spec(x.0, T::sub_spec(one, c)), T::sub_spec(two, c)), h),
            T::mul_spec(T::mul_spec(x.1, c), T::sub_spec(two, c)),
        ),
        T::mul_spec(T::mul_spec(T::mul_spec(x.2, c), T::sub_spec(c, one)), h),
    )
}

/// The running sumcheck claim before round `i`.
pub open spec fn sumcheck_claim<T: Field>(sv: Seq<(T, T, T)>, cs: Seq<T>, i: nat) -> T {
    if i == 0 {
        T::add_spec(sv[0].0, sv[0].1)
    } else {
        quadratic_at(sv[i - 1], cs[i - 1])
    }
}

/// The quadratic through `(0, x.0)`, `(1, x.1)`, `(2, x.2)` at `c`.
pub fn quadratic_at_exec<T: Field>(x: (T, T, T), c: T) -> (r: T)
    ensures
        r == quadratic_at(x, c),
{
    let one = T::from_int(1);
    let two = T::from_int(2);
    let h = T::inverse_2();
    x.0.mul(one.sub(c)).mul(two.sub(c)).mul(h).add(x.1.mul(c).mul(two.sub(c))).add(
        x.2.mul(c).mul(c.sub(one)).mul(h),
    )
}

/// The verifier of one Basefold session.
#[derive(Clone, Debug)]
pub struct Verifier<T: Field> {
    pub total_round: usize,
    pub interpolate_cosets: Vec<Coset<T>>,
    pub polynomial_roots: Vec<MerkleTreeVerifier>,
    pub oracle: RandomOracle<T>,
    pub final_value: Option<T>,
    pub sumcheck_values: Vec<(T, T, T)>,
    pub open_point: Vec<T>,
    pub evaluation: Option<T>,
}

impl<T: Field> Verifier<T> {
    pub open spec fn wf(&self) -> bool {
        let r = self.total_round as nat;
        &&& r >= 1
        &&& r + CODE_RATE < 64
        &&& cosets_ok(self.interpolate_cosets@, r)
        &&& self.oracle.wf()
        &&& self.oracle.folding_challenges@.len() == r
    }

    /// Whether the openings `proof` are accepted with the received sumcheck
    /// messages, roots and final value.
    pub open spec fn accepts(&self, proof: Seq<QueryResult<T>>) -> bool {
        let r = self.total_round as nat;
        let cs = self.oracle.folding_challenges@;
        let sv = self.sumcheck_values@;
        &&& self.final_value is Some
        &&& sv.len() == r
        &&& self.polynomial_roots@.len() == r
        &&& proof.len() == r
        &&& forall|i: int| 0 <= i < r ==> #[trigger] self.round_checks(proof, self.final_value->0, i)
    }

    /// The checks of round `i`: the sumcheck message matches the running
    /// claim, the root has the round's number of leaves, and the openings
    /// and folds are consistent.
    pub open spec fn round_checks(&self, proof: Seq<QueryResult<T>>, final_value: T, i: int) -> bool {
        let r = self.total_round as nat;
        let cs = self.oracle.folding_challenges@;
        let sv = self.sumcheck_values@;
        &&& sumcheck_claim(sv, cs, i as nat) == T::add_spec(sv[i].0, sv[i].1)
        &&& self.polynomial_roots@[i].leave_number == self.interpolate_cosets@[i].elems().len() / 2
        &&& round_ok(
            self.interpolate_cosets@,
            self.oracle.query_list@,
            cs,
            self.polynomial_roots@[i].merkle_root@,
            proof[i],
            if i + 1 < r {
                Some(proof[i + 1])
            } else {
                None
            },
            final_value,
            i as nat,
        )
    }

    /// A verifier that received the root `commit` of the first codeword; the
    /// opening point is drawn at random.
    pub fn new(
        total_round: usize,
        coset: Vec<Coset<T>>,
        commit: Vec<u8>,
        oracle: RandomOracle<T>,
    ) -> (r: Self)
        requires
            total_round >= 1,
            total_round + CODE_RATE < 64,
            cosets_ok(coset@, total_round as nat),
            oracle.wf(),
            oracle.folding_challenges@.len() == total_round,
        ensures
            r.wf(),
            r.total_round == total_round,
            r.interpolate_cosets@ == coset@,
            r.oracle == oracle,
            r.polynomial_roots@.len() == 1,
            r.polynomial_roots@[0].merkle_root@ == commit@,
            r.polynomial_roots@[0].leave_number == coset@[0].elems().len() / 2,
            r.sumcheck_values@.len() == 0,
            r.open_point@.len() == total_round,
            r.final_value is None,
            r.evaluation is None,
    {
        let half = coset[0].size() / 2;
        let mut polynomial_roots: Vec<MerkleTreeVerifier> = Vec::new();
        polynomial_roots.push(MerkleTreeVerifier::new(half, &commit));
        let mut open_point: Vec<T> = Vec::new();
        let mut i: usize = 0;
        while i < total_round
            invariant
                i <= total_round,
                open_point@.len() == i,
            decreases total_round - i,
        {
            open_point.push(T::random_element());
            i = i + 1;
        }
        Verifier {
            total_round,
            interpolate_cosets: coset,
            polynomial_roots,
            oracle,
            final_value: None,
            sumcheck_values: Vec::new(),
            open_point,
            evaluation: None,
        }
    }

    pub fn get_open_point(&self) -> (r: Vec<T>)
        ensures
            r@ == self.open_point@,
    {
        copy_elements(&self.open_point)
    }

    /// Records the next sumcheck message: the round polynomial at 0, 1 and 2.
    pub fn receive_sumcheck_value(&mut self, value: (T, T, T))
        ensures
            final(self).sumcheck_values@ == old(self).sumcheck_values@.push(value),
            final(self).total_round == old(self).total_round,
            final(self).interpolate_cosets@ == old(self).interpolate_cosets@,
            final(self).polynomial_roots@ == old(self).polynomial_roots@,
            final(self).oracle == old(self).oracle,
            final(self).final_value == old(self).final_value,
            final(self).evaluation == old(self).evaluation,
            final(self).open_point@ == old(self).open_point@,
    {
        self.sumcheck_values.push(value);
    }

    /// Records the root of the next folded codeword.
    pub fn receive_folding_root(&mut self, leave_number: usize, folding_root: Vec<u8>)
        ensures
            final(self).polynomial_roots@ == old(self).polynomial_roots@.push(
                MerkleTreeVerifier { merkle_root: folding_root, leave_number },
            ),
            final(self).total_round == old(self).total_round,
            final(self).interpolate_cosets@ == old(self).interpolate_cosets@,
            final(self).sumcheck_values@ == old(self).sumcheck_values@,
            final(self).oracle == old(self).oracle,
            final(self).final_value == old(self).final_value,
            final(self).evaluation == old(self).evaluation,
            final(self).open_point@ == old(self).open_point@,
    {
        self.polynomial_roots.push(MerkleTreeVerifier { leave_number, merkle_root: folding_root });
    }

    pub fn set_evalutation(&mut self, evaluation: T)
        ensures
            final(self).evaluation == Some(evaluation),
            final(self).total_round == old(self).total_round,
            final(self).interpolate_cosets@ == old(self).interpolate_cosets@,
            final(self).polynomial_roots@ == old(self).polynomial_roots@,
            final(self).sumcheck_values@ == old(self).sumcheck_values@,
            final(self).oracle == old(self).oracle,
            final(self).final_value == old(self).final_value,
            final(self).open_point@ == old(self).open_point@,
    {
        self.evaluation = Some(evaluation);
    }

    pub fn set_final_value(&mut self, value: T)
        ensures
            final(self).final_value == Some(value),
            final(self).total_round == old(self).total_round,
            final(self).interpolate_cosets@ == old(self).interpolate_cosets@,
            final(self).polynomial_roots@ == old(self).polynomial_roots@,
            final(self).sumcheck_values@ == old(self).sumcheck_values@,
            final(self).oracle == old(self).oracle,
            final(self).evaluation == old(self).evaluation,
            final(self).open_point@ == old(self).open_point@,
    {
        self.final_value = Some(value);
    }

    /// Checks the openings `polynomial_proof`; any failed check rejects.
    #[verifier::rlimit(60)]
    pub fn verify(&self, polynomial_proof: &Vec<QueryResult<T>>) -> (r: bool)
        requires
            self.wf(),
        ensures
            r == self.accepts(polynomial_proof@),
    {
        let n = self.total_round;
        let final_value = match self.final_value {
            Some(v) => v,
            None => return false,
        };
        if self.sumcheck_values.len() != n || self.polynomial_roots.len() != n
            || polynomial_proof.len() != n {
            return false;
        }
        let mut sum = self.sumcheck_values[0].0.add(self.sumcheck_values[0].1);
        let mut leaf_indices: Vec<usize> = Vec::new();
        let mut i: usize = 0;
        while i < n
            invariant
                self.wf(),
                n == self.total_round,
                i <= n,
                self.final_value == Some(final_value),
                self.sumcheck_values@.len() == n,
                self.polynomial_roots@.len() == n,
                polynomial_proof@.len() == n,
                i < n ==> sum == sumcheck_claim(
                    self.sumcheck_values@,
                    self.oracle.folding_challenges@,
                    i as nat,
                ),
                i > 0 ==> leaf_indices@ == round_indices(
                    self.oracle.query_list@,
                    self.interpolate_cosets@,
                    (i - 1) as nat,
                ),
                forall|t: int| 0 <= t < i ==> #[trigger] self.round_checks(polynomial_proof@, final_value, t),
            decreases n - i,
        {
            let coset = &self.interpolate_cosets[i];
            let domain_size = coset.size();
            proof {
                crate::domain::lemma_exp2_mono(1, (n + CODE_RATE - i) as nat);
                assert(exp2(1) == 2) by {
                    reveal_with_fuel(exp2, 2);
                }
            }
            let half = domain_size / 2;
            if i == 0 {
                leaf_indices = reduce_indices(&self.oracle.query_list, half);
            } else {
                leaf_indices = reduce_indices(&leaf_indices, half);
            }
            let qr = &polynomial_proof[i];
            let root = &self.polynomial_roots[i];
            if root.leave_number != half {
                proof {
                    assert(!self.round_checks(polynomial_proof@, final_value, i as int));
                    assert(!self.round_checks(polynomial_proof@, self.final_value->0, i as int));
                    assert(!self.accepts(polynomial_proof@));
                }
                return false;
            }
            let x = self.sumcheck_values[i];
            if !sum.equals(x.0.add(x.1)) {
                proof {
                    assert(!self.round_checks(polynomial_proof@, final_value, i as int));
                    assert(!self.round_checks(polynomial_proof@, self.final_value->0, i as int));
                    assert(!self.accepts(polynomial_proof@));
                }
                return false;
            }
            if !qr.verify_merkle_tree(&leaf_indices, root) {
                proof {
                    assert(!self.round_checks(polynomial_proof@, final_value, i as int));
                    assert(!self.round_checks(polynomial_proof@, self.final_value->0, i as int));
                    assert(!self.accepts(polynomial_proof@));
                }
                return false;
            }
            let challenge = self.oracle.folding_challenges[i];
            let ghost next: Option<QueryResult<T>> = if i + 1 < n {
                Some(polynomial_proof@[i + 1])
            } else {
                None
            };
            let mut k: usize = 0;
            while k < leaf_indices.len()
                invariant
                    self.wf(),
                    n == self.total_round,
                    i < n,
                    polynomial_proof@.len() == n,
                    self.polynomial_roots@.len() == n,
                    self.sumcheck_values@.len() == n,
                    self.final_value == Some(final_value),
                    qr == polynomial_proof@[i as int],
                    coset == self.interpolate_cosets@[i as int],
                    half == coset.elems().len() / 2,
                    challenge == self.oracle.folding_challenges@[i as int],
                    next == if i + 1 < n {
                        Some(polynomial_proof@[i + 1])
                    } else {
                        None::<QueryResult<T>>
                    },
                    leaf_indices@ == round_indices(
                        self.oracle.query_list@,
                        self.interpolate_cosets@,
                        i as nat,
                    ),
                    forall|t: int| 0 <= t < leaf_indices@.len() ==> #[trigger] leaf_indices@[t] < half,
                    forall|t: int|
                        0 <= t < leaf_indices@.len() ==> pair_present(
                            qr.proof_values@,
                            #[trigger] leaf_indices@[t],
                            half,
                        ),
                    k <= leaf_indices@.len(),
                    forall|t: int| 0 <= t < i ==> #[trigger] self.round_checks(polynomial_proof@, final_value, t),
                    forall|t: int|
                        0 <= t < k ==> {
                            let x = #[trigger] leaf_indices@[t];
                            let f = fold_value(
                                lookup(qr.proof_values@, x)->0,
                                lookup(qr.proof_values@, (x + half) as usize)->0,
                                challenge,
                                coset.invs()[x as int],
                                true,
                            );
                            match next {
                                Some(nq) => lookup(nq.proof_values@, x) == Some(f),
                                None => f == final_value,
                            }
                        },
                decreases leaf_indices@.len() - k,
            {
                let j = leaf_indices[k];
                let x = match qr.get_value(j) {
                    Some(v) => v,
                    None => T::zero(),
                };
                let nx = match qr.get_value(j + half) {
                    Some(v) => v,
                    None => T::zero(),
                };
                let v = fold_at(x, nx, challenge, coset.element_inv_at(j), true);
                if i == n - 1 {
                    if !v.equals(final_value) {
                        proof {
                            assert(!self.round_checks(polynomial_proof@, final_value, i as int));
                            assert(!self.round_checks(polynomial_proof@, self.final_value->0, i as int));
                            assert(!self.accepts(polynomial_proof@));
                        }
                        return false;
                    }
                } else {
                    match polynomial_proof[i + 1].get_value(j) {
                        Some(w) => {
                            if !v.equals(w) {
                                proof {
                                    assert(!self.round_checks(polynomial_proof@, final_value, i as int));
                                    assert(!self.round_checks(polynomial_proof@, self.final_value->0, i as int));
                                    assert(!self.accepts(polynomial_proof@));
                                }
                                return false;
                            }
                        },
                        None => {
                            proof {
                                assert(!self.round_checks(polynomial_proof@, final_value, i as int));
                                assert(!self.round_checks(polynomial_proof@, self.final_value->0, i as int));
                                assert(!self.accepts(polynomial_proof@));
                            }
                            return false;
                        },
                    }
                }
                k = k + 1;
            }
            sum = quadratic_at_exec(x, challenge);
            i = i + 1;
        }
        true
    }
}

} // verus!
