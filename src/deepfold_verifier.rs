//! The Deepfold verifier: replays the transcript, checks every opening
//! against its round's root, recomputes each queried fold, and checks every
//! evaluation argument against the final value.
use vstd::prelude::*;
use crate::CODE_RATE;
use crate::deepfold::{Commit, DeepEval, Proof, deep_point, deep_point_exec, interpolate_chain, round_indices};
use crate::domain::{Coset, exp2};
use crate::field::{Field, copy_elements};
use crate::folding::{fold_at, fold_value};
use crate::indices::reduce_indices;
use crate::merkle::{MerkleTreeVerifier, verify_spec};
use crate::deepfold_prover::{cosets_ok, opened_rounds, round_reduce_ok};
use crate::folding::fold_codeword;
use crate::indices::{reduce_ok, reduce_spec, reduced_contains};
use crate::interpolation::{InterpolateValue, codeword_root, lemma_opened_lookup, opened_pairs};
use crate::query_result::{QueryResult, lookup, pair_leaves, pair_present};
use crate::random_oracle::RandomOracle;

verus! {

/// The consistency checks of round `i`: the openings are authenticated
/// against the round's root, and each queried fold matches the next
/// round's opened value, or the final value in the last round.
pub open spec fn round_ok<T: Field>(
    cosets: Seq<Coset<T>>,
    q: Seq<usize>,
    cs: Seq<T>,
    root: Seq<u8>,
    qr: QueryResult<T>,
    next: Option<QueryResult<T>>,
    final_value: T,
    i: nat,
) -> bool {
    let idx = round_indices(q, cosets, i);
    let half = (cosets[i as int].elems().len() / 2) as usize;
    let vals = qr.proof_values@;
    &&& forall|k: int| 0 <= k < idx.len() ==> pair_present(vals, #[trigger] idx[k], half)
    &&& verify_spec(root, half as nat, qr.proof_bytes@, idx, pair_leaves(vals, idx, half))
    &&& forall|k: int|
        0 <= k < idx.len() ==> {
            let x = #[trigger] idx[k];
            let f = fold_value(
                lookup(vals, x)->0,
                lookup(vals, (x + half) as usize)->0,
                cs[i as int],
                cosets[i as int].invs()[x as int],
                true,
            );
            match next {
                Some(n) => lookup(n.proof_values@, x) == Some(f),
                None => f == final_value,
            }
        }
}

/// In an honest run every round before the last passes the verifier's
/// checks: its openings authenticate against the root of its codeword, and
/// each queried fold equals the next round's opened value. The last round
/// and the evaluation arguments, which compare with the final value, are
/// not covered.
pub proof fn lemma_honest_round_ok<T: Field>(
    codewords: Seq<InterpolateValue<T>>,
    cosets: Seq<Coset<T>>,
    q: Seq<usize>,
    cs: Seq<T>,
    res: Seq<QueryResult<T>>,
    final_value: T,
    i: int,
)
    requires
        opened_rounds(res, codewords, cosets, q),
        0 <= i,
        i + 1 < codewords.len(),
        codewords.len() <= cosets.len(),
        codewords.len() <= cs.len(),
        forall|t: int|
            0 <= t < codewords.len() ==> (#[trigger] codewords[t]).wf() && cosets[t].wf()
                && cosets[t].elems().len() == codewords[t].values().len(),
        forall|t: int|
            0 <= t < codewords.len() - 1 ==> (#[trigger] codewords[t + 1]).values() == fold_codeword(
                codewords[t].values(),
                cosets[t].invs(),
                cs[t],
                true,
            ),
    ensures
        round_ok(
            cosets,
            q,
            cs,
            codeword_root(codewords[i].values()),
            res[i],
            Some(res[i + 1]),
            final_value,
            i as nat,
        ),
{
    reveal(round_reduce_ok);
    reveal(reduce_ok);
    let v = codewords[i].values();
    let w = codewords[i + 1].values();
    let h = (v.len() / 2) as usize;
    let h2 = (w.len() / 2) as usize;
    assert(codewords[i].wf());
    assert(codewords[i + 1].wf());
    assert(w.len() == h);
    assert(round_reduce_ok(q, cosets, i));
    assert(round_reduce_ok(q, cosets, i + 1));
    let idx = round_indices(q, cosets, i as nat);
    let idx2 = round_indices(q, cosets, (i + 1) as nat);
    assert(idx2 == reduce_spec(idx, h2));
    assert(forall|a: int, b: int| 0 <= a < b < idx.len() ==> idx[a] != idx[b]);
    assert(forall|a: int, b: int| 0 <= a < b < idx2.len() ==> idx2[a] != idx2[b]);
    codewords[i].lemma_query_authenticates(idx);
    lemma_opened_lookup(v, idx);
    lemma_opened_lookup(w, idx2);
    assert(res[i].proof_values@ == opened_pairs(v, idx));
    assert(res[i + 1].proof_values@ == opened_pairs(w, idx2));
    assert forall|k: int| 0 <= k < idx.len() implies {
        let x = #[trigger] idx[k];
        let f = fold_value(
            lookup(res[i].proof_values@, x)->0,
            lookup(res[i].proof_values@, (x + h) as usize)->0,
            cs[i],
            cosets[i].invs()[x as int],
            true,
        );
        lookup(res[i + 1].proof_values@, x) == Some(f)
    } by {
        let x = idx[k];
        let y = (x % h2) as usize;
        assert(reduced_contains(idx, h2, y));
        assert(idx2.contains(y));
        let k2 = choose|k2: int| 0 <= k2 < idx2.len() && idx2[k2] == y;
        assert(idx2[k2] == y);
        assert(x < 2 * h2);
        assert(x == y || x == y + h2) by {
            vstd::arithmetic::div_mod::lemma_fundamental_div_mod(x as int, h2 as int);
            vstd::arithmetic::div_mod::lemma_mod_bound(x as int, h2 as int);
            assert(x as int / h2 as int == 0 || x as int / h2 as int == 1) by (nonlinear_arith)
                requires
                    x as int == h2 as int * (x as int / h2 as int) + x as int % h2 as int,
                    0 <= x as int % h2 as int,
                    (x as int % h2 as int) < (h2 as int),
                    (x as int) < 2 * (h2 as int),
                    (h2 as int) > 0,
            ;
            if x as int / h2 as int == 0 {
                assert(h2 as int * 0 == 0);
            } else {
                assert(h2 as int * 1 == h2);
            }
            assert(y as int == x as int % h2 as int);
        }
    }
}

/// `proof` with its final value replaced by `v`.
pub open spec fn with_final_value<T: Field>(proof: Proof<T>, v: T) -> Proof<T> {
    Proof { final_value: v, ..proof }
}

/// The verifier of one Deepfold session.
#[derive(Clone, Debug)]
pub struct Verifier<T: Field> {
    pub total_round: usize,
    pub interpolate_cosets: Vec<Coset<T>>,
    pub polynomial_roots: Vec<MerkleTreeVerifier>,
    pub first_deep: T,
    pub oracle: RandomOracle<T>,
    pub open_point: Vec<T>,
}

impl<T: Field> Verifier<T> {
    pub open spec fn wf(&self) -> bool {
        let r = self.total_round as nat;
        &&& r >= 1
        &&& r + CODE_RATE < 64
        &&& cosets_ok(self.interpolate_cosets@, r)
        &&& self.oracle.wf()
        &&& self.oracle.folding_challenges@.len() == r
        &&& self.oracle.deep@.len() == r
        &&& self.open_point@.len() == r
        &&& self.polynomial_roots@.len() == 1
        &&& self.polynomial_roots@[0].leave_number == self.interpolate_cosets@[0].elems().len() / 2
    }

    /// The root against which round `i`'s openings are checked.
    pub open spec fn round_root(&self, proof: Proof<T>, i: int) -> Seq<u8> {
        if i == 0 {
            self.polynomial_roots@[0].merkle_root@
        } else {
            proof.merkle_root@[i - 1]@
        }
    }

    /// Whether `proof` is accepted: its parts have the expected sizes, the
    /// first evaluation argument is the committed one, every evaluation
    /// argument folds to the final value, and every round is consistent.
    pub open spec fn accepts(&self, proof: Proof<T>) -> bool {
        let r = self.total_round as nat;
        let cs = self.oracle.folding_challenges@;
        &&& proof.merkle_root@.len() == r - 1
        &&& proof.query_result@.len() == r
        &&& proof.deep_evals@.len() == r
        &&& proof.shuffle_evals@.len() == r
        &&& forall|j: int| 0 <= j < r ==> (#[trigger] proof.deep_evals@[j]).1@.len() == r - j
        &&& proof.deep_evals@[0].0 == self.first_deep
        &&& interpolate_chain(proof.evaluation, self.open_point@, proof.shuffle_evals@, cs, r)
            == proof.final_value
        &&& forall|j: int|
            0 <= j < r ==> interpolate_chain(
                (#[trigger] proof.deep_evals@[j]).0,
                deep_point(self.oracle.deep@[j], (r - j) as nat),
                proof.deep_evals@[j].1@,
                cs.subrange(j, r as int),
                (r - j) as nat,
            ) == proof.final_value
        &&& forall|i: int|
            0 <= i < r ==> round_ok(
                self.interpolate_cosets@,
                self.oracle.query_list@,
                cs,
                self.round_root(proof, i),
                #[trigger] proof.query_result@[i],
                if i + 1 < r {
                    Some(proof.query_result@[i + 1])
                } else {
                    None
                },
                proof.final_value,
                i as nat,
            )
    }

    /// An accepted proof binds its final value: with any other final value,
    /// the same proof is rejected.
    pub proof fn lemma_final_value_binding(&self, proof: Proof<T>, other: T)
        requires
            self.wf(),
            self.accepts(proof),
            other != proof.final_value,
        ensures
            !self.accepts(with_final_value(proof, other)),
    {
        let tampered = with_final_value(proof, other);
        assert(tampered.deep_evals@ == proof.deep_evals@);
        assert(tampered.evaluation == proof.evaluation);
        assert(tampered.shuffle_evals@ == proof.shuffle_evals@);
    }

    /// A round digest is bound by the openings: two proofs with the same
    /// openings but different digests for round `i` are not both accepted,
    /// when that round opens at least one position.
    pub proof fn lemma_digest_binding(&self, p1: Proof<T>, p2: Proof<T>, i: int)
        requires
            self.wf(),
            1 <= i < self.total_round,
            p1.query_result@ == p2.query_result@,
            p1.merkle_root@.len() == p2.merkle_root@.len(),
            p1.merkle_root@.len() >= i,
            p1.merkle_root@[i - 1]@ != p2.merkle_root@[i - 1]@,
            round_indices(self.oracle.query_list@, self.interpolate_cosets@, i as nat).len() > 0,
        ensures
            !(self.accepts(p1) && self.accepts(p2)),
    {
        if self.accepts(p1) && self.accepts(p2) {
            let r = self.total_round as int;
            let next = if i + 1 < r {
                Some(p1.query_result@[i + 1])
            } else {
                None
            };
            assert(round_ok(
                self.interpolate_cosets@,
                self.oracle.query_list@,
                self.oracle.folding_challenges@,
                self.round_root(p1, i),
                p1.query_result@[i],
                next,
                p1.final_value,
                i as nat,
            ));
            assert(round_ok(
                self.interpolate_cosets@,
                self.oracle.query_list@,
                self.oracle.folding_challenges@,
                self.round_root(p2, i),
                p2.query_result@[i],
                next,
                p2.final_value,
                i as nat,
            ));
            let idx = round_indices(self.oracle.query_list@, self.interpolate_cosets@, i as nat);
            let half = (self.interpolate_cosets@[i].elems().len() / 2) as usize;
            let qr = p1.query_result@[i];
            let leaves = pair_leaves(qr.proof_values@, idx, half);
            let d = crate::merkle::log2_floor(half as nat);
            assert(verify_spec(self.round_root(p1, i), half as nat, qr.proof_bytes@, idx, leaves));
            assert(verify_spec(self.round_root(p2, i), half as nat, qr.proof_bytes@, idx, leaves));
            let c = crate::merkle::climb(
                crate::merkle::sha256_of(leaves[0]),
                idx[0] as int,
                qr.proof_bytes@,
                0 * d * crate::merkle::MERKLE_ROOT_SIZE,
                d,
            );
            assert(c == self.round_root(p1, i));
            assert(c == self.round_root(p2, i));
        }
    }

    /// The commitment is bound by the openings: verifiers that differ only
    /// in the committed root do not both accept the same proof, when the
    /// first round opens at least one position.
    pub proof fn lemma_commit_binding(&self, other: Verifier<T>, proof: Proof<T>)
        requires
            self.wf(),
            other.wf(),
            other.total_round == self.total_round,
            other.interpolate_cosets@ == self.interpolate_cosets@,
            other.oracle == self.oracle,
            other.polynomial_roots@[0].merkle_root@ != self.polynomial_roots@[0].merkle_root@,
            round_indices(self.oracle.query_list@, self.interpolate_cosets@, 0).len() > 0,
        ensures
            !(self.accepts(proof) && other.accepts(proof)),
    {
        if self.accepts(proof) && other.accepts(proof) {
            let r = self.total_round as int;
            let next = if 1 < r {
                Some(proof.query_result@[1])
            } else {
                None
            };
            assert(round_ok(
                self.interpolate_cosets@,
                self.oracle.query_list@,
                self.oracle.folding_challenges@,
                self.round_root(proof, 0),
                proof.query_result@[0],
                next,
                proof.final_value,
                0,
            ));
            assert(round_ok(
                other.interpolate_cosets@,
                other.oracle.query_list@,
                other.oracle.folding_challenges@,
                other.round_root(proof, 0),
                proof.query_result@[0],
                next,
                proof.final_value,
                0,
            ));
            let idx = round_indices(self.oracle.query_list@, self.interpolate_cosets@, 0);
            let half = (self.interpolate_cosets@[0].elems().len() / 2) as usize;
            let qr = proof.query_result@[0];
            let leaves = pair_leaves(qr.proof_values@, idx, half);
            let d = crate::merkle::log2_floor(half as nat);
            assert(verify_spec(self.round_root(proof, 0), half as nat, qr.proof_bytes@, idx, leaves));
            assert(verify_spec(other.round_root(proof, 0), half as nat, qr.proof_bytes@, idx, leaves));
            let c = crate::merkle::climb(
                crate::merkle::sha256_of(leaves[0]),
                idx[0] as int,
                qr.proof_bytes@,
                0 * d * crate::merkle::MERKLE_ROOT_SIZE,
                d,
            );
            assert(c == self.round_root(proof, 0));
            assert(c == other.round_root(proof, 0));
        }
    }

    /// Adding one to the final value of an accepted proof makes it rejected.
    pub proof fn lemma_final_value_plus_one(&self, proof: Proof<T>)
        requires
            self.wf(),
            self.accepts(proof),
            proof.final_value.wf(),
        ensures
            !self.accepts(with_final_value(proof, T::add_spec(proof.final_value, T::one_spec()))),
    {
        crate::field::lemma_add_one_differs(proof.final_value);
        self.lemma_final_value_binding(proof, T::add_spec(proof.final_value, T::one_spec()));
    }

    /// A verifier for a session with `total_round` rounds that received
    /// `commit`; the opening point is drawn at random.
    pub fn new(
        total_round: usize,
        interpolate_cosets: Vec<Coset<T>>,
        commit: Commit<T>,
        oracle: RandomOracle<T>,
    ) -> (r: Self)
        requires
            total_round >= 1,
            total_round + CODE_RATE < 64,
            cosets_ok(interpolate_cosets@, total_round as nat),
            oracle.wf(),
            oracle.folding_challenges@.len() == total_round,
            oracle.deep@.len() == total_round,
        ensures
            r.wf(),
            r.total_round == total_round,
            r.interpolate_cosets@ == interpolate_cosets@,
            r.oracle == oracle,
            r.polynomial_roots@[0].merkle_root@ == commit.merkle_root@,
            r.first_deep == commit.deep,
    {
        let half = interpolate_cosets[0].size() / 2;
        let mut polynomial_roots: Vec<MerkleTreeVerifier> = Vec::new();
        polynomial_roots.push(MerkleTreeVerifier::new(half, &commit.merkle_root));
        let mut open_point: Vec<T> = Vec::new();
        let mut i: usize = 0;
        while i < total_round
            invariant
                i <= total_round,
                open_point@.len() == i,
            decreases total_round - i,
        {
            open_point.push(T::random_element());
            i = i + 1;
        }
        Verifier {
            total_round,
            interpolate_cosets,
            polynomial_roots,
            first_deep: commit.deep,
            oracle,
            open_point,
        }
    }

    /// The point at which the committed polynomial is to be opened.
    pub fn get_open_point(&self) -> (r: Vec<T>)
        ensures
            r@ == self.open_point@,
    {
        copy_elements(&self.open_point)
    }

    /// Checks `proof`; any failed check rejects the whole proof.
    pub fn verify(self, proof: Proof<T>) -> (r: bool)
        requires
            self.wf(),
        ensures
            r == self.accepts(proof),
    {
        self._verify(&proof)
    }

    /// All checks of `proof`: its shape, the committed first value, every
    /// evaluation argument against the final value, and every round's
    /// openings and folds.
    #[verifier::rlimit(60)]
    fn _verify(&self, proof: &Proof<T>) -> (r: bool)
        requires
            self.wf(),
        ensures
            r == self.accepts(*proof),
    {
        let n = self.total_round;
        if proof.merkle_root.len() != n - 1 || proof.query_result.len() != n
            || proof.deep_evals.len() != n || proof.shuffle_evals.len() != n {
            return false;
        }
        let mut j: usize = 0;
        while j < n
            invariant
                j <= n,
                proof.deep_evals@.len() == n,
                forall|t: int| 0 <= t < j ==> (#[trigger] proof.deep_evals@[t]).1@.len() == n - t,
            decreases n - j,
        {
            if proof.deep_evals[j].1.len() != n - j {
                return false;
            }
            j = j + 1;
        }
        if !proof.deep_evals[0].0.equals(self.first_deep) {
            return false;
        }
        let challenges = &self.oracle.folding_challenges;
        let shuffle = DeepEval {
            point: copy_elements(&self.open_point),
            first_eval: proof.evaluation,
            else_evals: copy_elements(&proof.shuffle_evals),
        };
        proof {
            assert(challenges@.subrange(0, n as int) =~= challenges@);
        }
        if !shuffle.verify(challenges).equals(proof.final_value) {
            return false;
        }
        let mut j: usize = 0;
        while j < n
            invariant
                self.wf(),
                n == self.total_round,
                j <= n,
                proof.deep_evals@.len() == n,
                challenges == &self.oracle.folding_challenges,
                forall|t: int| 0 <= t < n ==> (#[trigger] proof.deep_evals@[t]).1@.len() == n - t,
                forall|t: int|
                    0 <= t < j ==> interpolate_chain(
                        (#[trigger] proof.deep_evals@[t]).0,
                        deep_point(self.oracle.deep@[t], (n - t) as nat),
                        proof.deep_evals@[t].1@,
                        self.oracle.folding_challenges@.subrange(t, n as int),
                        (n - t) as nat,
                    ) == proof.final_value,
            decreases n - j,
        {
            let d = DeepEval {
                point: deep_point_exec(self.oracle.deep[j], n - j),
                first_eval: proof.deep_evals[j].0,
                else_evals: copy_elements(&proof.deep_evals[j].1),
            };
            if !d.verify(challenges).equals(proof.final_value) {
                return false;
            }
            j = j + 1;
        }
        self.rounds_ok(proof)
    }

    /// The per-round checks of `proof`: openings and folds.
    #[verifier::rlimit(60)]
    fn rounds_ok(&self, proof: &Proof<T>) -> (r: bool)
        requires
            self.wf(),
            proof.merkle_root@.len() == self.total_round - 1,
            proof.query_result@.len() == self.total_round,
        ensures
            r == forall|i: int|
                0 <= i < self.total_round ==> round_ok(
                    self.interpolate_cosets@,
                    self.oracle.query_list@,
                    self.oracle.folding_challenges@,
                    self.round_root(*proof, i),
                    #[trigger] proof.query_result@[i],
                    if i + 1 < self.total_round {
                        Some(proof.query_result@[i + 1])
                    } else {
                        None
                    },
                    proof.final_value,
                    i as nat,
                ),
    {
        let n = self.total_round;
        let mut leaf_indices: Vec<usize> = Vec::new();
        let mut i: usize = 0;
        while i < n
            invariant
                self.wf(),
                n == self.total_round,
                i <= n,
                proof.merkle_root@.len() == n - 1,
                proof.query_result@.len() == n,
                i > 0 ==> leaf_indices@ == round_indices(
                    self.oracle.query_list@,
                    self.interpolate_cosets@,
                    (i - 1) as nat,
                ),
                forall|t: int|
                    0 <= t < i ==> round_ok(
                        self.interpolate_cosets@,
                        self.oracle.query_list@,
                        self.oracle.folding_challenges@,
                        self.round_root(*proof, t),
                        #[trigger] proof.query_result@[t],
                        if t + 1 < n {
                            Some(proof.query_result@[t + 1])
                        } else {
                            None
                        },
                        proof.final_value,
                        t as nat,
                    ),
            decreases n - i,
        {
            let coset = &self.interpolate_cosets[i];
            let domain_size = coset.size();
            proof {
                crate::domain::lemma_exp2_mono(1, (n + CODE_RATE - i) as nat);
                assert(exp2(1) == 2) by {
                    reveal_with_fuel(exp2, 2);
                }
            }
            let half = domain_size / 2;
            if i == 0 {
                leaf_indices = reduce_indices(&self.oracle.query_list, half);
            } else {
                leaf_indices = reduce_indices(&leaf_indices, half);
            }
            let qr = &proof.query_result[i];
            let authenticated = if i == 0 {
                qr.verify_merkle_tree(&leaf_indices, &self.polynomial_roots[0])
            } else {
                let mv = MerkleTreeVerifier::new(half, &proof.merkle_root[i - 1]);
                qr.verify_merkle_tree(&leaf_indices, &mv)
            };
            if !authenticated {
                return false;
            }
            let challenge = self.oracle.folding_challenges[i];
            let ghost next: Option<QueryResult<T>> = if i + 1 < n {
                Some(proof.query_result@[i + 1])
            } else {
                None
            };
            let mut k: usize = 0;
            while k < leaf_indices.len()
                invariant
                    self.wf(),
                    n == self.total_round,
                    i < n,
                    proof.query_result@.len() == n,
                    qr == proof.query_result@[i as int],
                    coset == self.interpolate_cosets@[i as int],
                    half == coset.elems().len() / 2,
                    challenge == self.oracle.folding_challenges@[i as int],
                    next == if i + 1 < n {
                        Some(proof.query_result@[i + 1])
                    } else {
                        None::<QueryResult<T>>
                    },
                    leaf_indices@ == round_indices(
                        self.oracle.query_list@,
                        self.interpolate_cosets@,
                        i as nat,
                    ),
                    forall|t: int| 0 <= t < leaf_indices@.len() ==> #[trigger] leaf_indices@[t] < half,
                    forall|t: int|
                        0 <= t < leaf_indices@.len() ==> pair_present(
                            qr.proof_values@,
                            #[trigger] leaf_indices@[t],
                            half,
                        ),
                    k <= leaf_indices@.len(),
                    forall|t: int|
                        0 <= t < k ==> {
                            let x = #[trigger] leaf_indices@[t];
                            let f = fold_value(
                                lookup(qr.proof_values@, x)->0,
                                lookup(qr.proof_values@, (x + half) as usize)->0,
                                challenge,
                                coset.invs()[x as int],
                                true,
                            );
                            match next {
                                Some(nq) => lookup(nq.proof_values@, x) == Some(f),
                                None => f == proof.final_value,
                            }
                        },
                decreases leaf_indices@.len() - k,
            {
                let j = leaf_indices[k];
                let x = match qr.get_value(j) {
                    Some(v) => v,
                    None => T::zero(),
                };
                let nx = match qr.get_value(j + half) {
                    Some(v) => v,
                    None => T::zero(),
                };
                let v = fold_at(x, nx, challenge, coset.element_inv_at(j), true);
                if i == n - 1 {
                    if !v.equals(proof.final_value) {
                        return false;
                    }
                } else {
                    match proof.query_result[i + 1].get_value(j) {
                        Some(w) => {
                            if !v.equals(w) {
                                return false;
                            }
                        },
                        None => {
                            return false;
                        },
                    }
                }
                k = k + 1;
            }
            i = i + 1;
        }
        true
    }
}

} // verus!
