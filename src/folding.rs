//! The one-step fold shared by provers and verifiers of every variant.
use vstd::prelude::*;
use crate::domain::Coset;
use crate::field::{Field, all_wf};

verus! {

/// `(x + nx) + c * (x - nx) * inv`, halved when `halve` holds.
pub open spec fn fold_value<T: Field>(x: T, nx: T, c: T, inv: T, halve: bool) -> T {
    let v = T::add_spec(T::add_spec(x, nx), T::mul_spec(T::mul_spec(c, T::sub_spec(x, nx)), inv));
    if halve {
        T::mul_spec(v, T::inv2_spec())
    } else {
        v
    }
}

/// A codeword folded once: position `i` combines `v[i]` and `v[i + n/2]`.
pub open spec fn fold_codeword<T: Field>(v: Seq<T>, inv: Seq<T>, c: T, halve: bool) -> Seq<T> {
    let half = v.len() / 2;
    Seq::new(half, |i: int| fold_value(v[i], v[i + half], c, inv[i], halve))
}

/// The codeword after `k` folding rounds, round `j` with the inverses
/// `invs[j]` and the challenge `cs[j]`.
pub open spec fn fold_rounds<T: Field>(
    v: Seq<T>,
    invs: Seq<Seq<T>>,
    cs: Seq<T>,
    k: nat,
    halve: bool,
) -> Seq<T>
    decreases k,
{
    if k == 0 {
        v
    } else {
        fold_codeword(fold_rounds(v, invs, cs, (k - 1) as nat, halve), invs[k - 1], cs[k - 1], halve)
    }
}

/// One fold of the pair `x`, `nx`.
pub fn fold_at<T: Field>(x: T, nx: T, c: T, inv: T, halve: bool) -> (r: T)
    ensures
        r == fold_value(x, nx, c, inv, halve),
{
    let v = x.add(nx).add(c.mul(x.sub(nx)).mul(inv));
    if halve {
        v.mul(T::inverse_2())
    } else {
        v
    }
}

/// Folds the codeword `v` on the domain `coset` by the challenge `c`.
pub fn fold_codeword_exec<T: Field>(v: &Vec<T>, coset: &Coset<T>, c: T, halve: bool) -> (r: Vec<T>)
    requires
        coset.wf(),
        v@.len() == coset.elems().len(),
    ensures
        r@ == fold_codeword(v@, coset.invs(), c, halve),
{
    let len = coset.size();
    let half = len / 2;
    let mut r: Vec<T> = Vec::new();
    let mut i: usize = 0;
    while i < half
        invariant
            coset.wf(),
            len == v@.len(),
            len == coset.elems().len(),
            half == len / 2,
            i <= half,
            r@ =~= fold_codeword(v@, coset.invs(), c, halve).subrange(0, i as int),
        decreases half - i,
    {
        r.push(fold_at(v[i], v[i + half], c, coset.element_inv_at(i), halve));
        i = i + 1;
    }
    assert(r@ =~= fold_codeword(v@, coset.invs(), c, halve));
    r
}

/// Folding the zero codeword gives the zero codeword.
pub proof fn lemma_fold_zero<T: Field>(v: Seq<T>, inv: Seq<T>, c: T, halve: bool)
    requires
        c.wf(),
        all_wf(inv),
        inv.len() >= v.len() / 2,
        forall|i: int| 0 <= i < v.len() ==> #[trigger] v[i] == T::zero_spec(),
    ensures
        forall|i: int|
            0 <= i < v.len() / 2 ==> #[trigger] fold_codeword(v, inv, c, halve)[i] == T::zero_spec(),
{
    let z = T::zero_spec();
    T::lemma_closed(z, z);
    T::lemma_identities(z);
    T::lemma_sub_is_add_neg(z, z);
    T::lemma_identities(c);
    T::lemma_mul_comm(z, T::inv2_spec());
    T::lemma_identities(T::inv2_spec());
    assert forall|i: int| 0 <= i < v.len() / 2 implies #[trigger] fold_codeword(v, inv, c, halve)[i]
        == z by {
        T::lemma_mul_comm(z, inv[i]);
        T::lemma_identities(inv[i]);
    }
}

/// Folding an all-zero codeword for any number of rounds, with any
/// challenges, leaves only zeros.
pub proof fn lemma_fold_rounds_zero<T: Field>(
    v: Seq<T>,
    invs: Seq<Seq<T>>,
    cs: Seq<T>,
    k: nat,
    halve: bool,
)
    requires
        k <= cs.len(),
        k <= invs.len(),
        all_wf(cs),
        forall|j: int| 0 <= j < invs.len() ==> all_wf(#[trigger] invs[j]),
        forall|j: int|
            0 <= j < k ==> (#[trigger] invs[j]).len() >= fold_rounds(v, invs, cs, j as nat, halve).len()
                / 2,
        forall|i: int| 0 <= i < v.len() ==> #[trigger] v[i] == T::zero_spec(),
    ensures
        forall|i: int|
            0 <= i < fold_rounds(v, invs, cs, k, halve).len() ==> #[trigger] fold_rounds(
                v,
                invs,
                cs,
                k,
                halve,
            )[i] == T::zero_spec(),
    decreases k,
{
    if k > 0 {
        let j = (k - 1) as nat;
        lemma_fold_rounds_zero(v, invs, cs, j, halve);
        lemma_fold_zero(fold_rounds(v, invs, cs, j, halve), invs[j as int], cs[j as int], halve);
    }
}

} // verus!
