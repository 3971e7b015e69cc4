//! Binary Merkle trees over byte strings, hashed with SHA-256.
use vstd::prelude::*;
use crate::domain::exp2;

verus! {

/// Width of a digest in bytes.
pub const MERKLE_ROOT_SIZE: usize = 32;

/// The SHA-256 digest of `data`.
pub uninterp spec fn sha256_of(data: Seq<u8>) -> Seq<u8>;

/// Relies on `sha2::Sha256` through `sha2::Digest::digest`: the SHA-256
/// digest of `data`, which is 32 bytes long.
#[verifier::external_body]
fn sha256(data: &[u8]) -> (r: Vec<u8>)
    ensures
        r@ == sha256_of(data@),
        r@.len() == MERKLE_ROOT_SIZE,
{
    <sha2::Sha256 as sha2::Digest>::digest(data).to_vec()
}

/// Digest of an inner node with children `l` and `r`.
pub open spec fn node_hash(l: Seq<u8>, r: Seq<u8>) -> Seq<u8> {
    sha256_of(l + r)
}

/// The layer above `h`: each pair of siblings hashed together.
pub open spec fn parent_layer(h: Seq<Seq<u8>>) -> Seq<Seq<u8>> {
    Seq::new(h.len() / 2, |i: int| node_hash(h[2 * i], h[2 * i + 1]))
}

/// All layers of the tree whose bottom layer is `h`, from the bottom up.
pub open spec fn tree_layers(h: Seq<Seq<u8>>) -> Seq<Seq<Seq<u8>>>
    decreases h.len(),
{
    if h.len() <= 1 {
        seq![h]
    } else {
        seq![h] + tree_layers(parent_layer(h))
    }
}

/// Root of the tree whose bottom layer is `h`.
pub open spec fn tree_root(h: Seq<Seq<u8>>) -> Seq<u8> {
    tree_layers(h).last()[0]
}

/// Position of the sibling of node `p` within its layer.
pub open spec fn sibling(p: int) -> int {
    if p % 2 == 0 {
        p + 1
    } else {
        p - 1
    }
}

/// Number of halvings that bring `n` down to one.
pub open spec fn log2_floor(n: nat) -> nat
    decreases n,
{
    if n <= 1 {
        0
    } else {
        1 + log2_floor(n / 2)
    }
}

/// Sibling digests on the way from node `p` of layer `k` to the root,
/// concatenated bottom-up.
pub open spec fn auth_path(layers: Seq<Seq<Seq<u8>>>, p: int, k: nat) -> Seq<u8>
    decreases layers.len() - k,
{
    if k + 1 >= layers.len() {
        Seq::empty()
    } else {
        layers[k as int][sibling(p)] + auth_path(layers, p / 2, k + 1)
    }
}

/// Authentication paths of all `indices`, one after another.
pub open spec fn multi_path(layers: Seq<Seq<Seq<u8>>>, indices: Seq<usize>) -> Seq<u8>
    decreases indices.len(),
{
    if indices.len() == 0 {
        Seq::empty()
    } else {
        multi_path(layers, indices.drop_last()) + auth_path(layers, indices.last() as int, 0)
    }
}

/// Digest reached from digest `cur` at position `p` by `steps` hashing steps
/// with the sibling digests read from `proof` at offset `off`.
pub open spec fn climb(cur: Seq<u8>, p: int, proof: Seq<u8>, off: int, steps: nat) -> Seq<u8>
    decreases steps,
{
    if steps == 0 {
        cur
    } else {
        let sib = proof.subrange(off, off + MERKLE_ROOT_SIZE);
        let next = if p % 2 == 0 {
            node_hash(cur, sib)
        } else {
            node_hash(sib, cur)
        };
        climb(next, p / 2, proof, off + MERKLE_ROOT_SIZE, (steps - 1) as nat)
    }
}

/// Whether `proof` authenticates `leaves[i]` at position `indices[i]` for
/// every `i`, in a tree of `leave_number` leaves with root `root`.
pub open spec fn verify_spec(
    root: Seq<u8>,
    leave_number: nat,
    proof: Seq<u8>,
    indices: Seq<usize>,
    leaves: Seq<Seq<u8>>,
) -> bool {
    let d = log2_floor(leave_number);
    &&& leaves.len() == indices.len()
    &&& proof.len() == indices.len() * d * MERKLE_ROOT_SIZE
    &&& forall|i: int|
        0 <= i < indices.len() ==> #[trigger] indices[i] < leave_number && climb(
            sha256_of(leaves[i]),
            indices[i] as int,
            proof,
            i * d * MERKLE_ROOT_SIZE,
            d,
        ) == root
}

/// Digests of the leaves.
pub open spec fn leaf_hashes(leaves: Seq<Vec<u8>>) -> Seq<Seq<u8>> {
    Seq::new(leaves.len(), |i: int| sha256_of(leaves[i]@))
}

pub open spec fn vec_views(v: Seq<Vec<u8>>) -> Seq<Seq<u8>> {
    Seq::new(v.len(), |i: int| v[i]@)
}

/// Appends the bytes of `src` to `out`.
pub fn copy_bytes(out: &mut Vec<u8>, src: &[u8])
    ensures
        final(out)@ == old(out)@ + src@,
{
    let mut i: usize = 0;
    let ghost start = out@;
    while i < src.len()
        invariant
            i <= src@.len(),
            out@ == start + src@.subrange(0, i as int),
        decreases src@.len() - i,
    {
        out.push(src[i]);
        assert(out@ =~= start + src@.subrange(0, i + 1));
        i = i + 1;
    }
    assert(src@.subrange(0, src@.len() as int) =~= src@);
}

/// A Merkle tree kept by the party that committed to the leaves.
#[derive(Clone, Debug)]
pub struct MerkleTreeProver {
    layers: Vec<Vec<Vec<u8>>>,
}

/// The public part of a Merkle tree: its root and its number of leaves.
#[derive(Clone, Debug)]
pub struct MerkleTreeVerifier {
    pub merkle_root: Vec<u8>,
    pub leave_number: usize,
}

impl MerkleTreeProver {
    /// The digests of the tree, layer by layer from the leaves up.
    pub closed spec fn layers_spec(&self) -> Seq<Seq<Seq<u8>>> {
        Seq::new(self.layers@.len(), |k: int| vec_views(self.layers@[k]@))
    }

    pub open spec fn wf(&self) -> bool {
        let l = self.layers_spec();
        &&& l.len() >= 1
        &&& l[l.len() - 1].len() == 1
        &&& forall|k: int| 0 <= k < l.len() ==> #[trigger] l[k].len() == exp2((l.len() - 1 - k) as nat)
        &&& forall|k: int| 0 <= k < l.len() - 1 ==> #[trigger] l[k + 1] == parent_layer(l[k])
        &&& forall|k: int, i: int|
            0 <= k < l.len() && 0 <= i < l[k].len() ==> (#[trigger] l[k][i]).len()
                == MERKLE_ROOT_SIZE
    }

    pub open spec fn root_spec(&self) -> Seq<u8> {
        let l = self.layers_spec();
        l[l.len() - 1][0]
    }

    /// The layers of a well-formed tree are determined by its leaves.
    pub proof fn lemma_layers_determined(&self)
        requires
            self.wf(),
        ensures
            self.layers_spec() == tree_layers(self.layers_spec()[0]),
            self.root_spec() == tree_root(self.layers_spec()[0]),
    {
        let l = self.layers_spec();
        lemma_suffix_layers(l, 0);
        assert(l.subrange(0, l.len() as int) =~= l);
    }

    /// Tree over `leaves`, whose number is a power of two.
    pub fn new(leaves: Vec<Vec<u8>>) -> (r: MerkleTreeProver)
        requires
            exists|d: nat| exp2(d) == leaves.len(),
        ensures
            r.wf(),
            r.layers_spec()[0] == leaf_hashes(leaves@),
    {
        let ghost d = choose|d: nat| exp2(d) == leaves.len();
        let mut bottom: Vec<Vec<u8>> = Vec::new();
        let mut i: usize = 0;
        while i < leaves.len()
            invariant
                i <= leaves.len(),
                bottom.len() == i,
                forall|t: int| 0 <= t < i ==> (#[trigger] bottom@[t])@ == sha256_of(leaves@[t]@),
                forall|t: int| 0 <= t < i ==> (#[trigger] bottom@[t])@.len() == MERKLE_ROOT_SIZE,
            decreases leaves.len() - i,
        {
            bottom.push(sha256(leaves[i].as_slice()));
            i = i + 1;
        }
        let mut layers: Vec<Vec<Vec<u8>>> = Vec::new();
        let mut cur = bottom;
        let ghost mut level: nat = 0;
        proof {
            assert(vec_views(cur@) =~= leaf_hashes(leaves@));
        }
        while cur.len() > 1
            invariant
                level <= d,
                layers.len() == level,
                cur.len() == exp2((d - level) as nat),
                forall|t: int| 0 <= t < cur.len() ==> (#[trigger] cur@[t])@.len() == MERKLE_ROOT_SIZE,
                level == 0 ==> vec_views(cur@) == leaf_hashes(leaves@),
                level > 0 ==> vec_views(cur@) == parent_layer(vec_views(layers@[level - 1]@)),
                level > 0 ==> vec_views(layers@[0]@) == leaf_hashes(leaves@),
                forall|k: int|
                    0 <= k < level ==> (#[trigger] layers@[k]).len() == exp2((d - k) as nat),
                forall|k: int|
                    0 <= k < level - 1 ==> vec_views(#[trigger] layers@[k + 1]@) == parent_layer(
                        vec_views(layers@[k]@),
                    ),
                forall|k: int, t: int|
                    0 <= k < level && 0 <= t < layers@[k].len() ==> (#[trigger] layers@[k]@[t])@.len()
                        == MERKLE_ROOT_SIZE,
            decreases cur.len(),
        {
            proof {
                if level == d {
                    assert(exp2(0) == 1);
                }
                assert(exp2((d - level) as nat) == 2 * exp2((d - level - 1) as nat));
            }
            let half = cur.len() / 2;
            let mut next: Vec<Vec<u8>> = Vec::new();
            let mut j: usize = 0;
            while j < half
                invariant
                    half * 2 == cur.len(),
                    j <= half,
                    next.len() == j,
                    forall|t: int| 0 <= t < j ==> (#[trigger] next@[t])@ == node_hash(
                        cur@[2 * t]@,
                        cur@[2 * t + 1]@,
                    ),
                    forall|t: int| 0 <= t < j ==> (#[trigger] next@[t])@.len() == MERKLE_ROOT_SIZE,
                decreases half - j,
            {
                let mut buf: Vec<u8> = Vec::new();
                copy_bytes(&mut buf, cur[2 * j].as_slice());
                copy_bytes(&mut buf, cur[2 * j + 1].as_slice());
                next.push(sha256(buf.as_slice()));
                j = j + 1;
            }
            proof {
                assert(vec_views(next@) =~= parent_layer(vec_views(cur@)));
            }
            let ghost prev_layers = layers@;
            layers.push(cur);
            cur = next;
            proof {
                level = level + 1;
            }
        }
        proof {
            if level < d {
                lemma_exp2_pos_gt1((d - level) as nat);
            }
        }
        layers.push(cur);
        let r = MerkleTreeProver { layers };
        proof {
            let l = r.layers_spec();
            assert forall|k: int| 0 <= k < l.len() - 1 implies #[trigger] l[k + 1] == parent_layer(
                l[k],
            ) by {
                if k < level - 1 {
                    assert(vec_views(layers@[k + 1]@) == parent_layer(vec_views(layers@[k]@)));
                }
            }
            assert(level == d);
            assert(l.len() >= 1);
            assert(l[l.len() - 1].len() == 1);
            assert(forall|k: int| 0 <= k < l.len() ==> #[trigger] l[k].len() == exp2((l.len() - 1 - k) as nat));
            assert(forall|k: int, i: int|
            0 <= k < l.len() && 0 <= i < l[k].len() ==> (#[trigger] l[k][i]).len()
                == MERKLE_ROOT_SIZE);
        }
        r
    }

    pub fn leave_num(&self) -> (r: usize)
        requires
            self.wf(),
        ensures
            r == self.layers_spec()[0].len(),
    {
        self.layers[0].len()
    }

    /// The root digest.
    pub fn commit(&self) -> (r: Vec<u8>)
        requires
            self.wf(),
        ensures
            r@ == self.root_spec(),
            r@.len() == MERKLE_ROOT_SIZE,
    {
        let top = self.layers.len() - 1;
        let mut r: Vec<u8> = Vec::new();
        copy_bytes(&mut r, self.layers[top][0].as_slice());
        proof {
            let l = self.layers_spec();
            assert(l[top as int][0] == self.layers@[top as int]@[0]@);
            assert(l[top as int][0].len() == MERKLE_ROOT_SIZE);
        }
        r
    }

    /// Authentication paths of the leaves at `indices`, in that order.
    pub fn open(&self, indices: &Vec<usize>) -> (r: Vec<u8>)
        requires
            self.wf(),
            forall|i: int| 0 <= i < indices.len() ==> #[trigger] indices@[i] < self.layers_spec()[0].len(),
        ensures
            r@ == multi_path(self.layers_spec(), indices@),
    {
        let mut out: Vec<u8> = Vec::new();
        let mut i: usize = 0;
        while i < indices.len()
            invariant
                self.wf(),
                i <= indices.len(),
                forall|i: int| 0 <= i < indices.len() ==> #[trigger] indices@[i] < self.layers_spec()[0].len(),
                out@ == multi_path(self.layers_spec(), indices@.subrange(0, i as int)),
            decreases indices.len() - i,
        {
            self.append_path(&mut out, indices[i]);
            proof {
                assert(indices@.subrange(0, i + 1).drop_last() =~= indices@.subrange(0, i as int));
            }
            i = i + 1;
        }
        assert(indices@.subrange(0, indices@.len() as int) =~= indices@);
        out
    }

    fn append_path(&self, out: &mut Vec<u8>, index: usize)
        requires
            self.wf(),
            index < self.layers_spec()[0].len(),
        ensures
            final(out)@ == old(out)@ + auth_path(self.layers_spec(), index as int, 0),
    {
        let ghost l = self.layers_spec();
        let ghost start = old(out)@;
        let mut p: usize = index;
        let mut k: usize = 0;
        while k < self.layers.len() - 1
            invariant
                self.wf(),
                l == self.layers_spec(),
                k < self.layers@.len(),
                p < l[k as int].len(),
                out@ + auth_path(l, p as int, k as nat) == start + auth_path(l, index as int, 0),
            decreases self.layers@.len() - k,
        {
            proof {
                let m = (l.len() - 1 - k) as nat;
                assert(exp2(m) == 2 * exp2((m - 1) as nat));
                assert(l[k + 1].len() == exp2((m - 1) as nat));
            }
            let s: usize = if p % 2 == 0 { p + 1 } else { p - 1 };
            let ghost before = out@;
            copy_bytes(out, self.layers[k][s].as_slice());
            proof {
                assert(self.layers@[k as int]@[s as int]@ == l[k as int][s as int]);
                assert(out@ + auth_path(l, (p / 2) as int, (k + 1) as nat) =~= before + auth_path(
                    l,
                    p as int,
                    k as nat,
                ));
            }
            p = p / 2;
            k = k + 1;
        }
        proof {
            assert(out@ + Seq::<u8>::empty() =~= out@);
        }
    }
}

impl MerkleTreeVerifier {
    pub fn new(leave_number: usize, merkle_root: &Vec<u8>) -> (r: MerkleTreeVerifier)
        ensures
            r.leave_number == leave_number,
            r.merkle_root@ == merkle_root@,
    {
        let mut root: Vec<u8> = Vec::new();
        copy_bytes(&mut root, merkle_root.as_slice());
        MerkleTreeVerifier { merkle_root: root, leave_number }
    }

    /// Whether `proof` authenticates each of `leaves` at the position that
    /// `indices` gives it.
    pub fn verify(&self, proof: &Vec<u8>, indices: &Vec<usize>, leaves: &Vec<Vec<u8>>) -> (r: bool)
        ensures
            r == verify_spec(
                self.merkle_root@,
                self.leave_number as nat,
                proof@,
                indices@,
                vec_views(leaves@),
            ),
    {
        let d = log2_floor_exec(self.leave_number);
        if leaves.len() != indices.len() {
            return false;
        }
        let n = indices.len();
        let plen = proof.len();
        if n == 0 {
            return plen == 0;
        }
        let per: usize = match d.checked_mul(32) {
            Some(x) => x,
            None => {
                assert(n * d * MERKLE_ROOT_SIZE != plen) by (nonlinear_arith)
                    requires d * 32 > usize::MAX, plen <= usize::MAX, n >= 1;
                return false;
            },
        };
        let total: usize = match n.checked_mul(per) {
            Some(x) => x,
            None => {
                assert(n * d * MERKLE_ROOT_SIZE != plen) by (nonlinear_arith)
                    requires n * per > usize::MAX, per == d * 32, plen <= usize::MAX;
                return false;
            },
        };
        assert(total == n * d * MERKLE_ROOT_SIZE) by (nonlinear_arith)
            requires total == n * per, per == d * 32;
        if total != plen {
            return false;
        }
        let mut i: usize = 0;
        while i < n
            invariant
                i <= n,
                n == indices.len(),
                leaves.len() == n,
                d == log2_floor(self.leave_number as nat),
                per == d * 32,
                n * per == plen,
                plen == proof@.len(),
                proof@.len() == n * d * MERKLE_ROOT_SIZE,
                forall|j: int|
                    0 <= j < i ==> #[trigger] indices@[j] < self.leave_number && climb(
                        sha256_of(leaves@[j]@),
                        indices@[j] as int,
                        proof@,
                        j * d * MERKLE_ROOT_SIZE,
                        d as nat,
                    ) == self.merkle_root@,
            decreases n - i,
        {
            if indices[i] >= self.leave_number {
                return false;
            }
            assert(i * per + per <= n * per) by (nonlinear_arith)
                requires i < n, per >= 0;
            let off: usize = i * per;
            assert(off == i * d * MERKLE_ROOT_SIZE) by (nonlinear_arith)
                requires off == i * per, per == d * 32;
            let leaf = sha256(leaves[i].as_slice());
            let top = climb_exec(leaf, indices[i], proof, off, d);
            if !bytes_eq(&top, &self.merkle_root) {
                return false;
            }
            i = i + 1;
        }
        true
    }
}

/// Whether two byte strings are equal.
pub fn bytes_eq(a: &Vec<u8>, b: &Vec<u8>) -> (r: bool)
    ensures
        r == (a@ == b@),
{
    if a.len() != b.len() {
        return false;
    }
    let mut i: usize = 0;
    while i < a.len()
        invariant
            i <= a.len(),
            a.len() == b.len(),
            forall|j: int| 0 <= j < i ==> a@[j] == b@[j],
        decreases a.len() - i,
    {
        if a[i] != b[i] {
            return false;
        }
        i = i + 1;
    }
    assert(a@ =~= b@);
    true
}

fn log2_floor_exec(n: usize) -> (r: usize)
    ensures
        r == log2_floor(n as nat),
{
    let mut m: usize = n;
    let mut k: usize = 0;
    while m > 1
        invariant
            k + log2_floor(m as nat) == log2_floor(n as nat),
            k <= n,
            m <= n - k,
        decreases m,
    {
        m = m / 2;
        k = k + 1;
    }
    k
}

fn climb_exec(leaf: Vec<u8>, index: usize, proof: &Vec<u8>, off: usize, steps: usize) -> (r: Vec<u8>)
    requires
        off + steps * MERKLE_ROOT_SIZE <= proof@.len(),
    ensures
        r@ == climb(leaf@, index as int, proof@, off as int, steps as nat),
{
    let plen = proof.len();
    let mut cur = leaf;
    let mut p: usize = index;
    let mut o: usize = off;
    let mut k: usize = 0;
    while k < steps
        invariant
            k <= steps,
            o == off + k * MERKLE_ROOT_SIZE,
            off + steps * MERKLE_ROOT_SIZE <= proof@.len(),
            plen == proof@.len(),
            climb(cur@, p as int, proof@, o as int, (steps - k) as nat) == climb(
                leaf@,
                index as int,
                proof@,
                off as int,
                steps as nat,
            ),
        decreases steps - k,
    {
        assert(o + MERKLE_ROOT_SIZE <= proof@.len()) by (nonlinear_arith)
            requires
                o == off + k * MERKLE_ROOT_SIZE,
                off + steps * MERKLE_ROOT_SIZE <= proof@.len(),
                k < steps,
        ;
        let mut sib: Vec<u8> = Vec::new();
        let mut t: usize = 0;
        while t < 32
            invariant
                t <= 32,
                o + MERKLE_ROOT_SIZE <= proof@.len(),
                plen == proof@.len(),
                sib@ == proof@.subrange(o as int, o + t),
            decreases 32 - t,
        {
            sib.push(proof[o + t]);
            assert(sib@ =~= proof@.subrange(o as int, o + t + 1));
            t = t + 1;
        }
        let mut buf: Vec<u8> = Vec::new();
        if p % 2 == 0 {
            copy_bytes(&mut buf, cur.as_slice());
            copy_bytes(&mut buf, sib.as_slice());
        } else {
            copy_bytes(&mut buf, sib.as_slice());
            copy_bytes(&mut buf, cur.as_slice());
        }
        cur = sha256(buf.as_slice());
        p = p / 2;
        o = o + 32;
        k = k + 1;
        assert(o == off + k * MERKLE_ROOT_SIZE) by (nonlinear_arith)
            requires o == off + (k - 1) * MERKLE_ROOT_SIZE + 32;
    }
    cur
}

proof fn lemma_suffix_layers(l: Seq<Seq<Seq<u8>>>, k: int)
    requires
        l.len() >= 1,
        0 <= k < l.len(),
        l[l.len() - 1].len() == 1,
        forall|j: int| 0 <= j < l.len() ==> #[trigger] l[j].len() == exp2((l.len() - 1 - j) as nat),
        forall|j: int| 0 <= j < l.len() - 1 ==> #[trigger] l[j + 1] == parent_layer(l[j]),
    ensures
        l.subrange(k, l.len() as int) == tree_layers(l[k]),
    decreases l.len() - k,
{
    if k == l.len() - 1 {
        assert(l.subrange(k, l.len() as int) =~= seq![l[k]]);
    } else {
        lemma_exp2_pos_gt1((l.len() - 1 - k) as nat);
        lemma_suffix_layers(l, k + 1);
        assert(l.subrange(k, l.len() as int) =~= seq![l[k]] + l.subrange(k + 1, l.len() as int));
    }
}

/// `climb` reads only the `steps` digests after `off`.
proof fn lemma_climb_window(cur: Seq<u8>, p: int, proof: Seq<u8>, off: int, steps: nat)
    requires
        0 <= off,
        off + steps * MERKLE_ROOT_SIZE <= proof.len(),
    ensures
        climb(cur, p, proof, off, steps) == climb(
            cur,
            p,
            proof.subrange(off, off + steps * MERKLE_ROOT_SIZE),
            0,
            steps,
        ),
    decreases steps,
{
    if steps > 0 {
        let w = proof.subrange(off, off + steps * MERKLE_ROOT_SIZE);
        assert(proof.subrange(off, off + MERKLE_ROOT_SIZE) =~= w.subrange(0, MERKLE_ROOT_SIZE as int));
        let sib = proof.subrange(off, off + MERKLE_ROOT_SIZE);
        let next = if p % 2 == 0 {
            node_hash(cur, sib)
        } else {
            node_hash(sib, cur)
        };
        let s1 = (steps - 1) as nat;
        assert(off + MERKLE_ROOT_SIZE + s1 * MERKLE_ROOT_SIZE == off + steps * MERKLE_ROOT_SIZE)
            by (nonlinear_arith)
            requires
                s1 == steps - 1,
        ;
        lemma_climb_window(next, p / 2, proof, off + MERKLE_ROOT_SIZE, s1);
        lemma_climb_window(next, p / 2, w, MERKLE_ROOT_SIZE as int, s1);
        assert(w.subrange(MERKLE_ROOT_SIZE as int, MERKLE_ROOT_SIZE + s1 * MERKLE_ROOT_SIZE)
            =~= proof.subrange(
            off + MERKLE_ROOT_SIZE,
            off + MERKLE_ROOT_SIZE + s1 * MERKLE_ROOT_SIZE,
        ));
    }
}

/// From node `p` of layer `k`, the authentication path has one digest per
/// layer above and climbs to the root.
proof fn lemma_path_climbs(l: Seq<Seq<Seq<u8>>>, p: int, k: nat)
    requires
        l.len() >= 1,
        k < l.len(),
        0 <= p < l[k as int].len(),
        l[l.len() - 1].len() == 1,
        forall|j: int| 0 <= j < l.len() ==> #[trigger] l[j].len() == exp2((l.len() - 1 - j) as nat),
        forall|j: int| 0 <= j < l.len() - 1 ==> #[trigger] l[j + 1] == parent_layer(l[j]),
        forall|j: int, i: int|
            0 <= j < l.len() && 0 <= i < l[j].len() ==> (#[trigger] l[j][i]).len() == MERKLE_ROOT_SIZE,
    ensures
        auth_path(l, p, k).len() == (l.len() - 1 - k) * MERKLE_ROOT_SIZE,
        climb(l[k as int][p], p, auth_path(l, p, k), 0, (l.len() - 1 - k) as nat) == l[l.len()
            - 1][0],
    decreases l.len() - k,
{
    let d = (l.len() - 1) as nat;
    if k == d {
        assert(p == 0);
    } else {
        let m = (d - k) as nat;
        assert(exp2(m) == 2 * exp2((m - 1) as nat));
        let q = p / 2;
        lemma_path_climbs(l, q, k + 1);
        let rest = auth_path(l, q, k + 1);
        let sib = l[k as int][sibling(p)];
        let ap = auth_path(l, p, k);
        assert(ap == sib + rest);
        assert(ap.len() == (d - k) * MERKLE_ROOT_SIZE) by (nonlinear_arith)
            requires
                ap.len() == MERKLE_ROOT_SIZE + rest.len(),
                rest.len() == (d - k - 1) * MERKLE_ROOT_SIZE,
        ;
        assert(ap.subrange(0, MERKLE_ROOT_SIZE as int) =~= sib);
        assert(l[k + 1 as int][q] == node_hash(l[k as int][2 * q], l[k as int][2 * q + 1]));
        let s1 = (m - 1) as nat;
        lemma_climb_window(l[k + 1 as int][q], q, ap, MERKLE_ROOT_SIZE as int, s1);
        assert(ap.subrange(MERKLE_ROOT_SIZE as int, MERKLE_ROOT_SIZE + s1 * MERKLE_ROOT_SIZE) =~= rest);
        lemma_climb_window(l[k + 1 as int][q], q, rest, 0, s1);
        assert(rest.subrange(0, s1 * MERKLE_ROOT_SIZE) =~= rest);
    }
}

proof fn lemma_multi_path_prefix(l: Seq<Seq<Seq<u8>>>, idx: Seq<usize>, i: int)
    requires
        0 <= i <= idx.len(),
    ensures
        multi_path(l, idx).subrange(0, multi_path(l, idx.subrange(0, i)).len() as int) == multi_path(
            l,
            idx.subrange(0, i),
        ),
        multi_path(l, idx.subrange(0, i)).len() <= multi_path(l, idx).len(),
    decreases idx.len() - i,
{
    if i == idx.len() {
        assert(idx.subrange(0, i) =~= idx);
        assert(multi_path(l, idx).subrange(0, multi_path(l, idx).len() as int) =~= multi_path(l, idx));
    } else {
        lemma_multi_path_prefix(l, idx, i + 1);
        let a = multi_path(l, idx.subrange(0, i));
        let b = multi_path(l, idx.subrange(0, i + 1));
        assert(idx.subrange(0, i + 1).drop_last() =~= idx.subrange(0, i));
        assert(b.subrange(0, a.len() as int) =~= a);
        assert(multi_path(l, idx).subrange(0, a.len() as int) =~= multi_path(l, idx).subrange(
            0,
            b.len() as int,
        ).subrange(0, a.len() as int));
    }
}

/// Opening a well-formed tree at positions within it gives a proof that
/// verifies against its root, for the leaves whose digests sit at those
/// positions.
pub proof fn lemma_open_verifies(t: MerkleTreeProver, indices: Seq<usize>, leaves: Seq<Seq<u8>>)
    requires
        t.wf(),
        leaves.len() == indices.len(),
        forall|i: int|
            0 <= i < indices.len() ==> #[trigger] indices[i] < t.layers_spec()[0].len()
                && sha256_of(leaves[i]) == t.layers_spec()[0][indices[i] as int],
    ensures
        verify_spec(
            t.root_spec(),
            t.layers_spec()[0].len(),
            multi_path(t.layers_spec(), indices),
            indices,
            leaves,
        ),
{
    let l = t.layers_spec();
    let d = (l.len() - 1) as nat;
    let n = l[0].len();
    lemma_log2_exp2(d);
    let w = (d * MERKLE_ROOT_SIZE) as nat;
    assert forall|i: int| 0 <= i < indices.len() implies #[trigger] multi_path(
        l,
        indices.subrange(0, i),
    ).len() == i * w by {
        lemma_multi_path_len(l, indices, i);
    }
    lemma_multi_path_len(l, indices, indices.len() as int);
    assert(indices.subrange(0, indices.len() as int) =~= indices);
    let mp = multi_path(l, indices);
    assert(mp.len() == indices.len() * d * MERKLE_ROOT_SIZE) by (nonlinear_arith)
        requires
            mp.len() == indices.len() * w,
            w == d * MERKLE_ROOT_SIZE,
    ;
    assert forall|i: int| 0 <= i < indices.len() implies #[trigger] indices[i] < n && climb(
        sha256_of(leaves[i]),
        indices[i] as int,
        mp,
        i * d * MERKLE_ROOT_SIZE,
        d,
    ) == t.root_spec() by {
        let p = indices[i] as int;
        lemma_path_climbs(l, p, 0);
        lemma_multi_path_prefix(l, indices, i + 1);
        let pre = multi_path(l, indices.subrange(0, i));
        let cur = multi_path(l, indices.subrange(0, i + 1));
        assert(indices.subrange(0, i + 1).drop_last() =~= indices.subrange(0, i));
        lemma_multi_path_len(l, indices, i);
        assert(i * d * MERKLE_ROOT_SIZE == i * w) by (nonlinear_arith)
            requires w == d * MERKLE_ROOT_SIZE;
        let ap = auth_path(l, p, 0);
        assert(cur == pre + ap);
        assert(w == d * MERKLE_ROOT_SIZE);
        assert(cur.len() == i * w + w);
        assert(cur.subrange(i * w, i * w + w) =~= ap);
        let ms = mp.subrange(i * w, i * w + w);
        let cs = cur.subrange(i * w, i * w + w);
        assert forall|s: int| 0 <= s < w implies #[trigger] ms[s] == cs[s] by {
            assert(mp.subrange(0, cur.len() as int)[i * w + s] == cur[i * w + s]);
        }
        assert(mp.subrange(i * w, i * w + d * MERKLE_ROOT_SIZE) =~= ap);
        lemma_climb_window(sha256_of(leaves[i]), p, mp, i * w, d);
        lemma_climb_window(sha256_of(leaves[i]), p, ap, 0, d);
        assert(ap.subrange(0, d * MERKLE_ROOT_SIZE) =~= ap);
    }
}

proof fn lemma_multi_path_len(l: Seq<Seq<Seq<u8>>>, idx: Seq<usize>, i: int)
    requires
        0 <= i <= idx.len(),
        l.len() >= 1,
        l[l.len() - 1].len() == 1,
        forall|j: int| 0 <= j < l.len() ==> #[trigger] l[j].len() == exp2((l.len() - 1 - j) as nat),
        forall|j: int| 0 <= j < l.len() - 1 ==> #[trigger] l[j + 1] == parent_layer(l[j]),
        forall|j: int, t: int|
            0 <= j < l.len() && 0 <= t < l[j].len() ==> (#[trigger] l[j][t]).len() == MERKLE_ROOT_SIZE,
        forall|t: int| 0 <= t < idx.len() ==> #[trigger] idx[t] < l[0].len(),
    ensures
        multi_path(l, idx.subrange(0, i)).len() == i * ((l.len() - 1) * MERKLE_ROOT_SIZE),
    decreases i,
{
    if i > 0 {
        lemma_multi_path_len(l, idx, i - 1);
        assert(idx.subrange(0, i).drop_last() =~= idx.subrange(0, i - 1));
        lemma_path_climbs(l, idx[i - 1] as int, 0);
        let w = (l.len() - 1) * MERKLE_ROOT_SIZE;
        assert((i - 1) * w + w == i * w) by (nonlinear_arith);
    } else {
        assert(idx.subrange(0, 0) =~= Seq::<usize>::empty());
    }
}

proof fn lemma_log2_exp2(d: nat)
    ensures
        log2_floor(exp2(d)) == d,
    decreases d,
{
    if d > 0 {
        lemma_log2_exp2((d - 1) as nat);
        crate::domain::lemma_exp2_mono(0, (d - 1) as nat);
        assert(exp2(d) / 2 == exp2((d - 1) as nat));
    }
}

proof fn lemma_exp2_pos_gt1(m: nat)
    requires
        m > 0,
    ensures
        exp2(m) > 1,
    decreases m,
{
    reveal_with_fuel(exp2, 2);
    if m > 1 {
        lemma_exp2_pos_gt1((m - 1) as nat);
    }
}

} // verus!
