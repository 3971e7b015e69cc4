//! Opened codeword values together with the Merkle proof that authenticates them.
use vstd::prelude::*;
use crate::field::Field;
use crate::merkle::{MerkleTreeVerifier, verify_spec};

verus! {

/// The value recorded for position `k`: the first pair with that position.
pub open spec fn lookup<T>(s: Seq<(usize, T)>, k: usize) -> Option<T>
    decreases s.len(),
{
    if s.len() == 0 {
        None
    } else if s[0].0 == k {
        Some(s[0].1)
    } else {
        lookup(s.drop_first(), k)
    }
}

/// Whether position `x` and its twin `x + half` both have a value.
pub open spec fn pair_present<T>(s: Seq<(usize, T)>, x: usize, half: usize) -> bool {
    &&& x + half <= usize::MAX
    &&& lookup(s, x) is Some
    &&& lookup(s, (x + half) as usize) is Some
}

/// The Merkle leaf for position `x`: the serialized value at `x` followed by
/// that of its twin `x + half`.
pub open spec fn pair_leaf<T: Field>(s: Seq<(usize, T)>, x: usize, half: usize) -> Seq<u8> {
    T::bytes_spec(lookup(s, x)->0) + T::bytes_spec(lookup(s, (x + half) as usize)->0)
}

pub open spec fn pair_leaves<T: Field>(s: Seq<(usize, T)>, xs: Seq<usize>, half: usize) -> Seq<
    Seq<u8>,
> {
    Seq::new(xs.len(), |i: int| pair_leaf(s, xs[i], half))
}

/// Opened codeword values (position, value) and the opening proof.
#[derive(Clone, Debug)]
pub struct QueryResult<T: Field> {
    pub proof_bytes: Vec<u8>,
    pub proof_values: Vec<(usize, T)>,
}

impl<T: Field> QueryResult<T> {
    /// The value opened at position `k`, if any.
    pub fn get_value(&self, k: usize) -> (r: Option<T>)
        ensures
            r == lookup(self.proof_values@, k),
    {
        let mut i: usize = 0;
        assert(self.proof_values@.subrange(0, self.proof_values@.len() as int) =~= self.proof_values@);
        while i < self.proof_values.len()
            invariant
                i <= self.proof_values@.len(),
                lookup(self.proof_values@, k) == lookup(
                    self.proof_values@.subrange(i as int, self.proof_values@.len() as int),
                    k,
                ),
            decreases self.proof_values@.len() - i,
        {
            let ghost rest = self.proof_values@.subrange(i as int, self.proof_values@.len() as int);
            assert(rest.drop_first() =~= self.proof_values@.subrange(
                i + 1,
                self.proof_values@.len() as int,
            ));
            if self.proof_values[i].0 == k {
                return Some(self.proof_values[i].1);
            }
            i = i + 1;
        }
        None
    }

    /// Whether every position of `leaf_indices` and its twin have a value,
    /// and the proof authenticates those pairs against the verifier's root.
    pub fn verify_merkle_tree(
        &self,
        leaf_indices: &Vec<usize>,
        merkle_verifier: &MerkleTreeVerifier,
    ) -> (r: bool)
        ensures
            r == ((forall|i: int|
                0 <= i < leaf_indices.len() ==> pair_present(
                    self.proof_values@,
                    #[trigger] leaf_indices@[i],
                    merkle_verifier.leave_number,
                )) && verify_spec(
                merkle_verifier.merkle_root@,
                merkle_verifier.leave_number as nat,
                self.proof_bytes@,
                leaf_indices@,
                pair_leaves(self.proof_values@, leaf_indices@, merkle_verifier.leave_number),
            )),
    {
        let half = merkle_verifier.leave_number;
        let mut leaves: Vec<Vec<u8>> = Vec::new();
        let mut i: usize = 0;
        while i < leaf_indices.len()
            invariant
                i <= leaf_indices.len(),
                half == merkle_verifier.leave_number,
                leaves.len() == i,
                forall|j: int|
                    0 <= j < i ==> pair_present(self.proof_values@, #[trigger] leaf_indices@[j], half),
                forall|j: int|
                    0 <= j < i ==> (#[trigger] leaves@[j])@ == pair_leaf(
                        self.proof_values@,
                        leaf_indices@[j],
                        half,
                    ),
            decreases leaf_indices.len() - i,
        {
            let x = leaf_indices[i];
            let twin = match x.checked_add(half) {
                Some(t) => t,
                None => return false,
            };
            let a = match self.get_value(x) {
                Some(a) => a,
                None => return false,
            };
            let b = match self.get_value(twin) {
                Some(b) => b,
                None => return false,
            };
            let mut leaf = a.to_bytes();
            let mut tb = b.to_bytes();
            leaf.append(&mut tb);
            leaves.push(leaf);
            i = i + 1;
        }
        let res = merkle_verifier.verify(&self.proof_bytes, leaf_indices, &leaves);
        proof {
            assert(crate::merkle::vec_views(leaves@) =~= pair_leaves(
                self.proof_values@,
                leaf_indices@,
                half,
            ));
        }
        res
    }

    /// Size of the opening in bytes: the proof and every opened value.
    pub fn proof_size(&self) -> (r: usize)
        requires
            self.proof_bytes@.len() + self.proof_values@.len() * T::byte_size_spec() <= usize::MAX,
        ensures
            r == self.proof_bytes@.len() + self.proof_values@.len() * T::byte_size_spec(),
    {
        let b = T::byte_size();
        assert(self.proof_values@.len() * b <= usize::MAX) by (nonlinear_arith)
            requires
                self.proof_bytes@.len() + self.proof_values@.len() * b <= usize::MAX,
        ;
        self.proof_bytes.len() + self.proof_values.len() * b
    }
}

} // verus!
