//! A codeword together with the Merkle tree that commits to it.
use vstd::prelude::*;
use crate::domain::exp2;
use crate::field::Field;
use crate::merkle::{MerkleTreeProver, lemma_open_verifies, multi_path, sha256_of, tree_layers, tree_root, verify_spec};
use crate::query_result::{QueryResult, lookup, pair_leaf, pair_leaves, pair_present};

verus! {

/// The bytes of the Merkle leaf that pairs position `i` with its twin.
pub open spec fn twin_bytes<T: Field>(v: Seq<T>, i: int) -> Seq<u8> {
    T::bytes_spec(v[i]) + T::bytes_spec(v[i + v.len() / 2])
}

/// Bottom layer of the Merkle tree that commits to the codeword `v`.
pub open spec fn codeword_leaves<T: Field>(v: Seq<T>) -> Seq<Seq<u8>> {
    Seq::new((v.len() / 2) as nat, |i: int| sha256_of(twin_bytes(v, i)))
}

/// Root of the commitment to the codeword `v`.
pub open spec fn codeword_root<T: Field>(v: Seq<T>) -> Seq<u8> {
    tree_root(codeword_leaves(v))
}

/// Positions `j` and `j + half` with their values, for each `j` in order.
pub open spec fn opened_pairs<T>(v: Seq<T>, xs: Seq<usize>) -> Seq<(usize, T)>
    decreases xs.len(),
{
    if xs.len() == 0 {
        Seq::empty()
    } else {
        let j = xs.last();
        let half = v.len() / 2;
        opened_pairs(v, xs.drop_last()) + seq![(j, v[j as int]), ((j + half) as usize, v[j + half])]
    }
}

proof fn lemma_lookup_append<T>(a: Seq<(usize, T)>, b: Seq<(usize, T)>, k: usize)
    ensures
        lookup(a + b, k) == if lookup(a, k) is Some {
            lookup(a, k)
        } else {
            lookup(b, k)
        },
    decreases a.len(),
{
    if a.len() > 0 {
        assert((a + b).drop_first() =~= a.drop_first() + b);
        lemma_lookup_append(a.drop_first(), b, k);
    } else {
        assert(a + b =~= b);
    }
}

/// In the openings at distinct positions below `half`, each position and
/// its twin are found with their values.
pub proof fn lemma_opened_lookup<T>(v: Seq<T>, xs: Seq<usize>)
    requires
        v.len() % 2 == 0,
        v.len() <= usize::MAX,
        forall|i: int| 0 <= i < xs.len() ==> #[trigger] xs[i] < v.len() / 2,
        forall|i: int, j: int| 0 <= i < j < xs.len() ==> xs[i] != xs[j],
    ensures
        forall|i: int|
            0 <= i < xs.len() ==> lookup(opened_pairs(v, xs), #[trigger] xs[i]) == Some(v[xs[i] as int])
                && lookup(opened_pairs(v, xs), (xs[i] + v.len() / 2) as usize) == Some(
                v[xs[i] + v.len() / 2],
            ),
        forall|k: usize|
            lookup(opened_pairs(v, xs), k) is Some ==> exists|i: int|
                0 <= i < xs.len() && (k == #[trigger] xs[i] || k == xs[i] + v.len() / 2),
    decreases xs.len(),
{
    if xs.len() > 0 {
        let half = v.len() / 2;
        let init = xs.drop_last();
        let j = xs.last();
        lemma_opened_lookup(v, init);
        let a = opened_pairs(v, init);
        let b = seq![(j, v[j as int]), ((j + half) as usize, v[j + half])];
        assert(opened_pairs(v, xs) == a + b);
        reveal_with_fuel(lookup, 3);
        assert(b.drop_first().drop_first() =~= Seq::<(usize, T)>::empty());
        assert forall|k: usize| #[trigger] lookup(a + b, k) == if lookup(a, k) is Some {
            lookup(a, k)
        } else {
            lookup(b, k)
        } by {
            lemma_lookup_append(a, b, k);
        }
        assert(lookup(a, j) is None) by {
            if lookup(a, j) is Some {
                let i = choose|i: int| 0 <= i < init.len() && (j == #[trigger] init[i] || j == init[i] + half);
                assert(xs[i] == init[i]);
            }
        }
        assert(lookup(a, (j + half) as usize) is None) by {
            if lookup(a, (j + half) as usize) is Some {
                let i = choose|i: int|
                    0 <= i < init.len() && ((j + half) as usize == #[trigger] init[i] || (j + half) as usize
                        == init[i] + half);
                assert(xs[i] == init[i]);
            }
        }
        assert(b.drop_first() =~= seq![((j + half) as usize, v[j + half])]);
        assert forall|i: int| 0 <= i < xs.len() implies lookup(opened_pairs(v, xs), #[trigger] xs[i])
            == Some(v[xs[i] as int]) && lookup(opened_pairs(v, xs), (xs[i] + half) as usize) == Some(
            v[xs[i] + half],
        ) by {
            if i < init.len() {
                assert(xs[i] == init[i]);
            } else {
                assert(xs[i] == j);
                assert(lookup(a + b, j) == lookup(b, j));
                assert(lookup(a + b, (j + half) as usize) == lookup(b, (j + half) as usize));
            }
        }
        assert forall|k: usize| lookup(opened_pairs(v, xs), k) is Some implies exists|i: int|
            0 <= i < xs.len() && (k == #[trigger] xs[i] || k == xs[i] + half) by {
            if lookup(a, k) is Some {
                let i = choose|i: int| 0 <= i < init.len() && (k == #[trigger] init[i] || k == init[i] + half);
                assert(xs[i] == init[i]);
            } else {
                assert(lookup(a + b, k) == lookup(b, k));
                assert(xs[xs.len() - 1] == j);
                assert(k == j || k == j + half);
            }
        }
    }
}

/// A codeword committed by a Merkle tree whose leaf `i` holds the values at
/// `i` and `i + n/2`, so one opening authenticates both operands of a fold.
#[derive(Clone, Debug)]
pub struct InterpolateValue<T: Field> {
    value: Vec<T>,
    merkle_tree: MerkleTreeProver,
}

impl<T: Field> InterpolateValue<T> {
    pub closed spec fn tree(&self) -> MerkleTreeProver {
        self.merkle_tree
    }

    pub closed spec fn values(&self) -> Seq<T> {
        self.value@
    }

    pub open spec fn wf(&self) -> bool {
        &&& self.tree().wf()
        &&& self.values().len() >= 2
        &&& self.values().len() % 2 == 0
        &&& self.values().len() <= usize::MAX
        &&& self.tree().layers_spec()[0] == codeword_leaves(self.values())
    }

    /// Digest of the commitment.
    pub open spec fn root(&self) -> Seq<u8> {
        self.tree().root_spec()
    }

    /// Commits to `value`, whose length is a power of two and at least two.
    pub fn new(value: Vec<T>) -> (r: Self)
        requires
            exists|k: nat| k >= 1 && exp2(k) == value.len(),
        ensures
            r.wf(),
            r.values() == value@,
    {
        let ghost k = choose|k: nat| k >= 1 && exp2(k) == value.len();
        let len = value.len() / 2;
        proof {
            assert(exp2(k) == 2 * exp2((k - 1) as nat));
            crate::domain::lemma_exp2_mono(0, (k - 1) as nat);
        }
        let mut leaves: Vec<Vec<u8>> = Vec::new();
        let mut i: usize = 0;
        while i < len
            invariant
                i <= len,
                len * 2 == value.len(),
                leaves.len() == i,
                forall|j: int| 0 <= j < i ==> (#[trigger] leaves@[j])@ == twin_bytes(value@, j),
            decreases len - i,
        {
            let mut leaf = value[i].to_bytes();
            let mut tb = value[i + len].to_bytes();
            leaf.append(&mut tb);
            leaves.push(leaf);
            i = i + 1;
        }
        let merkle_tree = MerkleTreeProver::new(leaves);
        let r = InterpolateValue { value, merkle_tree };
        proof {
            assert(r.tree().layers_spec()[0] =~= codeword_leaves(r.values()));
        }
        r
    }

    /// The committed codeword.
    pub fn value(&self) -> (r: &Vec<T>)
        ensures
            r@ == self.values(),
    {
        &self.value
    }

    pub fn leave_num(&self) -> (r: usize)
        requires
            self.wf(),
        ensures
            r == self.values().len() / 2,
    {
        self.merkle_tree.leave_num()
    }

    /// The root digest.
    pub fn commit(&self) -> (r: Vec<u8>)
        requires
            self.wf(),
        ensures
            r@ == self.root(),
            r@ == codeword_root(self.values()),
            r@.len() == crate::merkle::MERKLE_ROOT_SIZE,
    {
        proof {
            self.merkle_tree.lemma_layers_determined();
        }
        self.merkle_tree.commit()
    }

    /// Opening the committed codeword at distinct positions gives values and
    /// a proof that pass the Merkle check against its root.
    pub proof fn lemma_query_authenticates(&self, idx: Seq<usize>)
        requires
            self.wf(),
            forall|i: int| 0 <= i < idx.len() ==> #[trigger] idx[i] < self.values().len() / 2,
            forall|i: int, j: int| 0 <= i < j < idx.len() ==> idx[i] != idx[j],
        ensures
            ({
                let v = self.values();
                let half = (v.len() / 2) as usize;
                let vals = opened_pairs(v, idx);
                &&& forall|i: int| 0 <= i < idx.len() ==> pair_present(vals, #[trigger] idx[i], half)
                &&& verify_spec(
                    codeword_root(v),
                    half as nat,
                    multi_path(tree_layers(codeword_leaves(v)), idx),
                    idx,
                    pair_leaves(vals, idx, half),
                )
            }),
    {
        let v = self.values();
        let half = (v.len() / 2) as usize;
        let vals = opened_pairs(v, idx);
        lemma_opened_lookup(v, idx);
        let leaves = pair_leaves(vals, idx, half);
        let l0 = self.tree().layers_spec()[0];
        assert(l0 == codeword_leaves(v));
        assert forall|i: int| 0 <= i < idx.len() implies #[trigger] idx[i] < l0.len() && sha256_of(
            leaves[i],
        ) == l0[idx[i] as int] by {
            let x = idx[i];
            assert(lookup(vals, x) == Some(v[x as int]));
            assert(lookup(vals, (x + half) as usize) == Some(v[x + half]));
            assert(leaves[i] == pair_leaf(vals, x, half));
            assert(pair_leaf(vals, x, half) == twin_bytes(v, x as int));
        }
        lemma_open_verifies(self.tree(), idx, leaves);
        self.tree().lemma_layers_determined();
    }

    /// Opens the leaves at `leaf_indices`: each position with its twin, and
    /// the authentication paths.
    pub fn query(&self, leaf_indices: &Vec<usize>) -> (r: QueryResult<T>)
        requires
            self.wf(),
            forall|i: int| 0 <= i < leaf_indices.len() ==> #[trigger] leaf_indices@[i] < self.values().len() / 2,
        ensures
            r.proof_values@ == opened_pairs(self.values(), leaf_indices@),
            r.proof_bytes@ == multi_path(self.tree().layers_spec(), leaf_indices@),
            r.proof_bytes@ == multi_path(tree_layers(codeword_leaves(self.values())), leaf_indices@),
    {
        proof {
            self.merkle_tree.lemma_layers_determined();
        }
        let len = self.merkle_tree.leave_num();
        let vlen = self.value.len();
        let mut proof_values: Vec<(usize, T)> = Vec::new();
        let mut i: usize = 0;
        while i < leaf_indices.len()
            invariant
                self.wf(),
                len == self.values().len() / 2,
                vlen == self.values().len(),
                i <= leaf_indices.len(),
                forall|i: int| 0 <= i < leaf_indices.len() ==> #[trigger] leaf_indices@[i] < len,
                proof_values@ == opened_pairs(self.values(), leaf_indices@.subrange(0, i as int)),
            decreases leaf_indices.len() - i,
        {
            let j = leaf_indices[i];
            proof_values.push((j, self.value[j]));
            proof_values.push((j + len, self.value[j + len]));
            proof {
                let xs = leaf_indices@.subrange(0, i + 1);
                assert(xs.drop_last() =~= leaf_indices@.subrange(0, i as int));
                assert(proof_values@ =~= opened_pairs(self.values(), xs));
            }
            i = i + 1;
        }
        assert(leaf_indices@.subrange(0, leaf_indices@.len() as int) =~= leaf_indices@);
        let proof_bytes = self.merkle_tree.open(leaf_indices);
        QueryResult { proof_bytes, proof_values }
    }
}

} // verus!
