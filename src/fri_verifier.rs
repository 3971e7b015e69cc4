//! The FRI verifier: checks each round's openings against the received
//! roots and recomputes every queried fold, starting from the quotient by
//! the opening point.
use vstd::prelude::*;
use crate::CODE_RATE;
use crate::deepfold::round_indices;
use crate::deepfold_prover::cosets_ok;
use crate::domain::{Coset, exp2};
use crate::field::{Field, checked_inverse, is_unit, unit_inverse};
use crate::folding::{fold_at, fold_value};
use crate::indices::reduce_indices;
use crate::merkle::{MerkleTreeVerifier, verify_spec};
use crate::query_result::{QueryResult, lookup, pair_leaves, pair_present};
use crate::random_oracle::RandomOracle;

verus! {

/// Where a round takes the values it folds from.
#[derive(Clone, Copy, Debug)]
pub enum FoldingSource<T: Field> {
    /// The first round folds `(v - evaluation) / (x - z)`.
    Quotient { evaluation: T, point: T },
    /// Later rounds fold the opened values themselves.
    Direct,
}

/// Whether the value to fold at position `x` is defined.
pub open spec fn source_ok<T: Field>(src: FoldingSource<T>, x: T) -> bool {
    match src {
        FoldingSource::Quotient { evaluation, point } => is_unit(T::sub_spec(x, point)),
        FoldingSource::Direct => true,
    }
}

/// The value folded for the opened value `v` at the domain element `x`.
pub open spec fn source_value<T: Field>(src: FoldingSource<T>, v: T, x: T) -> T {
    match src {
        FoldingSource::Quotient { evaluation, point } => T::mul_spec(
            T::sub_spec(v, evaluation),
            unit_inverse(T::sub_spec(x, point)),
        ),
        FoldingSource::Direct => v,
    }
}

/// The checks of round `i`.
pub open spec fn fri_round_ok<T: Field>(
    cosets: Seq<Coset<T>>,
    q: Seq<usize>,
    cs: Seq<T>,
    root: MerkleTreeVerifier,
    src: FoldingSource<T>,
    qr: QueryResult<T>,
    next: Option<QueryResult<T>>,
    final_value: T,
    i: nat,
) -> bool {
    let idx = round_indices(q, cosets, i);
    let half = (cosets[i as int].elems().len() / 2) as usize;
    let vals = qr.proof_values@;
    let e = cosets[i as int].elems();
    &&& root.leave_number == half
    &&& forall|k: int| 0 <= k < idx.len() ==> pair_present(vals, #[trigger] idx[k], half)
    &&& verify_spec(root.merkle_root@, half as nat, qr.proof_bytes@, idx, pair_leaves(vals, idx, half))
    &&& forall|k: int|
        0 <= k < idx.len() ==> {
            let x = #[trigger] idx[k];
            let nx = (x + half) as usize;
            &&& source_ok(src, e[x as int])
            &&& source_ok(src, e[nx as int])
            &&& {
                let f = fold_value(
                    source_value(src, lookup(vals, x)->0, e[x as int]),
                    source_value(src, lookup(vals, nx)->0, e[nx as int]),
                    cs[i as int],
                    cosets[i as int].invs()[x as int],
                    false,
                );
                match next {
                    Some(n) => lookup(n.proof_values@, x) == Some(f),
                    None => f == final_value,
                }
            }
        }
}

/// The verifier of one FRI session.
#[derive(Clone, Debug)]
pub struct Verifier<T: Field> {
    pub total_round: usize,
    pub interpolate_cosets: Vec<Coset<T>>,
    pub interpolation_roots: Vec<MerkleTreeVerifier>,
    pub oracle: RandomOracle<T>,
    pub final_value: Option<T>,
    pub open_point: T,
}

impl<T: Field> Verifier<T> {
    pub open spec fn wf(&self) -> bool {
        let r = self.total_round as nat;
        &&& r >= 1
        &&& r + CODE_RATE < 64
        &&& cosets_ok(self.interpolate_cosets@, r)
        &&& self.oracle.wf()
        &&& self.oracle.folding_challenges@.len() == r
        &&& self.open_point.wf()
    }

    /// Whether the openings `proof` and the claimed `evaluation` are accepted.
    pub open spec fn accepts(&self, proof: Seq<QueryResult<T>>, evaluation: T) -> bool {
        let r = self.total_round as nat;
        &&& self.final_value is Some
        &&& self.interpolation_roots@.len() == r
        &&& proof.len() == r
        &&& forall|i: int|
            0 <= i < r ==> fri_round_ok(
                self.interpolate_cosets@,
                self.oracle.query_list@,
                self.oracle.folding_challenges@,
                self.interpolation_roots@[i],
                if i == 0 {
                    FoldingSource::Quotient { evaluation, point: self.open_point }
                } else {
                    FoldingSource::Direct
                },
                #[trigger] proof[i],
                if i + 1 < r {
                    Some(proof[i + 1])
                } else {
                    None
                },
                self.final_value->0,
                i as nat,
            )
    }

    /// A verifier that received the root `commit` of the first codeword; the
    /// opening point is drawn at random.
    pub fn new(
        total_round: usize,
        coset: Vec<Coset<T>>,
        commit: Vec<u8>,
        oracle: RandomOracle<T>,
    ) -> (r: Self)
        requires
            total_round >= 1,
            total_round + CODE_RATE < 64,
            cosets_ok(coset@, total_round as nat),
            oracle.wf(),
            oracle.folding_challenges@.len() == total_round,
        ensures
            r.wf(),
            r.total_round == total_round,
            r.interpolate_cosets@ == coset@,
            r.oracle == oracle,
            r.interpolation_roots@.len() == 1,
            r.interpolation_roots@[0].merkle_root@ == commit@,
            r.interpolation_roots@[0].leave_number == coset@[0].elems().len() / 2,
            r.final_value is None,
    {
        let half = coset[0].size() / 2;
        let mut interpolation_roots: Vec<MerkleTreeVerifier> = Vec::new();
        interpolation_roots.push(MerkleTreeVerifier::new(half, &commit));
        Verifier {
            total_round,
            interpolate_cosets: coset,
            interpolation_roots,
            oracle,
            final_value: None,
            open_point: T::random_element(),
        }
    }

    pub fn get_open_point(&self) -> (r: T)
        ensures
            r == self.open_point,
    {
        self.open_point
    }

    /// Records the root of the next folded codeword.
    pub fn receive_interpolation_root(&mut self, leave_number: usize, interpolation_root: Vec<u8>)
        ensures
            final(self).interpolation_roots@ == old(self).interpolation_roots@.push(
                MerkleTreeVerifier { merkle_root: interpolation_root, leave_number },
            ),
            final(self).final_value == old(self).final_value,
            final(self).total_round == old(self).total_round,
            final(self).interpolate_cosets@ == old(self).interpolate_cosets@,
            final(self).oracle == old(self).oracle,
            final(self).open_point == old(self).open_point,
    {
        self.interpolation_roots.push(MerkleTreeVerifier { merkle_root: interpolation_root, leave_number });
    }

    pub fn set_final_value(&mut self, value: T)
        ensures
            final(self).final_value == Some(value),
            final(self).interpolation_roots@ == old(self).interpolation_roots@,
            final(self).total_round == old(self).total_round,
            final(self).interpolate_cosets@ == old(self).interpolate_cosets@,
            final(self).oracle == old(self).oracle,
            final(self).open_point == old(self).open_point,
    {
        self.final_value = Some(value);
    }

    /// The value folded at position `x` of a round with the given source.
    fn get_folding_value(src: FoldingSource<T>, qr: &QueryResult<T>, coset: &Coset<T>, x: usize) -> (r: Option<T>)
        requires
            x < coset.elems().len(),
            coset.wf(),
        ensures
            r == if lookup(qr.proof_values@, x) is Some && source_ok(src, coset.elems()[x as int]) {
                Some(source_value(src, lookup(qr.proof_values@, x)->0, coset.elems()[x as int]))
            } else {
                None::<T>
            },
    {
        let v = match qr.get_value(x) {
            Some(v) => v,
            None => return None,
        };
        match src {
            FoldingSource::Quotient { evaluation, point } => {
                let e = coset.element_at(x);
                proof {
                    T::lemma_closed(e, point);
                }
                match checked_inverse(e.sub(point)) {
                    Some(w) => Some(v.sub(evaluation).mul(w)),
                    None => None,
                }
            },
            FoldingSource::Direct => Some(v),
        }
    }

    /// Checks the openings `interpolation_proof` for the claimed `evaluation`.
    #[verifier::rlimit(60)]
    pub fn verify(&self, interpolation_proof: &Vec<QueryResult<T>>, evaluation: T) -> (r: bool)
        requires
            self.wf(),
        ensures
            r == self.accepts(interpolation_proof@, evaluation),
    {
        let n = self.total_round;
        let final_value = match self.final_value {
            Some(v) => v,
            None => return false,
        };
        if self.interpolation_roots.len() != n || interpolation_proof.len() != n {
            return false;
        }
        let mut leaf_indices: Vec<usize> = Vec::new();
        let mut i: usize = 0;
        while i < n
            invariant
                self.wf(),
                n == self.total_round,
                i <= n,
                self.final_value == Some(final_value),
                self.interpolation_roots@.len() == n,
                interpolation_proof@.len() == n,
                i > 0 ==> leaf_indices@ == round_indices(
                    self.oracle.query_list@,
                    self.interpolate_cosets@,
                    (i - 1) as nat,
                ),
                forall|t: int|
                    0 <= t < i ==> fri_round_ok(
                        self.interpolate_cosets@,
                        self.oracle.query_list@,
                        self.oracle.folding_challenges@,
                        self.interpolation_roots@[t],
                        if t == 0 {
                            FoldingSource::Quotient { evaluation, point: self.open_point }
                        } else {
                            FoldingSource::Direct
                        },
                        #[trigger] interpolation_proof@[t],
                        if t + 1 < n {
                            Some(interpolation_proof@[t + 1])
                        } else {
                            None
                        },
                        final_value,
                        t as nat,
                    ),
            decreases n - i,
        {
            let coset = &self.interpolate_cosets[i];
            let domain_size = coset.size();
            proof {
                crate::domain::lemma_exp2_mono(1, (n + CODE_RATE - i) as nat);
                assert(exp2(1) == 2) by {
                    reveal_with_fuel(exp2, 2);
                }
            }
            let half = domain_size / 2;
            if i == 0 {
                leaf_indices = reduce_indices(&self.oracle.query_list, half);
            } else {
                leaf_indices = reduce_indices(&leaf_indices, half);
            }
            let root = &self.interpolation_roots[i];
            let qr = &interpolation_proof[i];
            if root.leave_number != half {
                return false;
            }
            if !qr.verify_merkle_tree(&leaf_indices, root) {
                return false;
            }
            let src = if i == 0 {
                FoldingSource::Quotient { evaluation, point: self.open_point }
            } else {
                FoldingSource::Direct
            };
            let challenge = self.oracle.folding_challenges[i];
            let ghost next: Option<QueryResult<T>> = if i + 1 < n {
                Some(interpolation_proof@[i + 1])
            } else {
                None
            };
            let mut k: usize = 0;
            while k < leaf_indices.len()
                invariant
                    self.wf(),
                    n == self.total_round,
                    i < n,
                    interpolation_proof@.len() == n,
                    self.interpolation_roots@.len() == n,
                    self.final_value == Some(final_value),
                    qr == interpolation_proof@[i as int],
                    coset == self.interpolate_cosets@[i as int],
                    half == coset.elems().len() / 2,
                    challenge == self.oracle.folding_challenges@[i as int],
                    src == if i == 0 {
                        FoldingSource::Quotient { evaluation, point: self.open_point }
                    } else {
                        FoldingSource::<T>::Direct
                    },
                    next == if i + 1 < n {
                        Some(interpolation_proof@[i + 1])
                    } else {
                        None::<QueryResult<T>>
                    },
                    leaf_indices@ == round_indices(
                        self.oracle.query_list@,
                        self.interpolate_cosets@,
                        i as nat,
                    ),
                    forall|t: int| 0 <= t < leaf_indices@.len() ==> #[trigger] leaf_indices@[t] < half,
                    forall|t: int|
                        0 <= t < leaf_indices@.len() ==> pair_present(
                            qr.proof_values@,
                            #[trigger] leaf_indices@[t],
                            half,
                        ),
                    k <= leaf_indices@.len(),
                    forall|t: int|
                        0 <= t < k ==> {
                            let x = #[trigger] leaf_indices@[t];
                            let nx = (x + half) as usize;
                            let e = coset.elems();
                            &&& source_ok(src, e[x as int])
                            &&& source_ok(src, e[nx as int])
                            &&& {
                                let f = fold_value(
                                    source_value(src, lookup(qr.proof_values@, x)->0, e[x as int]),
                                    source_value(src, lookup(qr.proof_values@, nx)->0, e[nx as int]),
                                    challenge,
                                    coset.invs()[x as int],
                                    false,
                                );
                                match next {
                                    Some(nq) => lookup(nq.proof_values@, x) == Some(f),
                                    None => f == final_value,
                                }
                            }
                        },
                decreases leaf_indices@.len() - k,
            {
                let j = leaf_indices[k];
                let x = match Self::get_folding_value(src, qr, coset, j) {
                    Some(v) => v,
                    None => return false,
                };
                let nx = match Self::get_folding_value(src, qr, coset, j + half) {
                    Some(v) => v,
                    None => {
                        proof {
                            let e = coset.elems();
                            assert(!source_ok(src, e[(j + half) as int]));
                            assert(leaf_indices@[k as int] == j);
                        }
                        return false;
                    },
                };
                let v = fold_at(x, nx, challenge, coset.element_inv_at(j), false);
                proof {
                    assert(leaf_indices@[k as int] == j);
                    assert(i + 1 >= n ==> next is None);
                }
                if i == n - 1 {
                    if !v.equals(final_value) {
                        return false;
                    }
                } else {
                    match interpolation_proof[i + 1].get_value(j) {
                        Some(w) => {
                            if !v.equals(w) {
                                return false;
                            }
                        },
                        None => {
                            return false;
                        },
                    }
                }
                k = k + 1;
            }
            i = i + 1;
        }
        true
    }
}

} // verus!
