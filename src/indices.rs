//! Reduction of the transcript's query positions to each round's half-domain.
use vstd::prelude::*;

verus! {

pub open spec fn strictly_increasing(s: Seq<usize>) -> bool {
    forall|i: int, j: int| 0 <= i < j < s.len() ==> #[trigger] s[i] < #[trigger] s[j]
}

/// Whether `x` is some entry of `list` reduced modulo `m`.
pub open spec fn reduced_contains(list: Seq<usize>, m: usize, x: usize) -> bool {
    exists|i: int| 0 <= i < list.len() && #[trigger] list[i] % m == x
}

/// The increasing sequence of the distinct entries of `list` modulo `m`.
pub open spec fn reduce_spec(list: Seq<usize>, m: usize) -> Seq<usize> {
    choose|r: Seq<usize>|
        strictly_increasing(r) && forall|x: usize| #[trigger] r.contains(x) <==> reduced_contains(
            list,
            m,
            x,
        )
}

/// The defining properties of `reduce_spec(list, m)`.
#[verifier::opaque]
pub open spec fn reduce_ok(list: Seq<usize>, m: usize) -> bool {
    let r = reduce_spec(list, m);
    &&& strictly_increasing(r)
    &&& forall|x: usize| #[trigger] r.contains(x) <==> reduced_contains(list, m, x)
    &&& forall|i: int| 0 <= i < r.len() ==> #[trigger] r[i] < m
}

/// Two increasing sequences with the same entries are equal.
pub proof fn lemma_sorted_unique(a: Seq<usize>, b: Seq<usize>)
    requires
        strictly_increasing(a),
        strictly_increasing(b),
        forall|x: usize| #[trigger] a.contains(x) <==> b.contains(x),
    ensures
        a == b,
    decreases a.len(),
{
    if a.len() == 0 {
        if b.len() > 0 {
            assert(b.contains(b[0]));
            assert(a.contains(b[0]));
        }
        assert(a =~= b);
    } else {
        assert(a.contains(a[0]));
        assert(b.contains(a[0]));
        let j = choose|j: int| 0 <= j < b.len() && b[j] == a[0];
        assert(b.contains(b[0]));
        assert(a.contains(b[0]));
        let i = choose|i: int| 0 <= i < a.len() && a[i] == b[0];
        if j > 0 {
            assert(b[0] < b[j]);
            if i > 0 {
                assert(a[0] < a[i]);
            }
        } else if i > 0 {
            assert(a[0] < a[i]);
        }
        assert(a[0] == b[0]);
        let (at, bt) = (a.drop_first(), b.drop_first());
        assert forall|x: usize| #[trigger] at.contains(x) <==> bt.contains(x) by {
            if at.contains(x) {
                let k = choose|k: int| 0 <= k < at.len() && at[k] == x;
                assert(a[k + 1] == x && a[0] < a[k + 1]);
                assert(a.contains(x));
                assert(b.contains(x));
                let l = choose|l: int| 0 <= l < b.len() && b[l] == x;
                assert(l != 0);
                assert(bt[l - 1] == x);
            }
            if bt.contains(x) {
                let k = choose|k: int| 0 <= k < bt.len() && bt[k] == x;
                assert(b[k + 1] == x && b[0] < b[k + 1]);
                assert(b.contains(x));
                assert(a.contains(x));
                let l = choose|l: int| 0 <= l < a.len() && a[l] == x;
                assert(l != 0);
                assert(at[l - 1] == x);
            }
        }
        lemma_sorted_unique(at, bt);
        assert(a =~= seq![a[0]] + at);
        assert(b =~= seq![b[0]] + bt);
    }
}

/// Every entry of `list` modulo `m`, sorted, without repetition.
pub fn reduce_indices(list: &Vec<usize>, m: usize) -> (r: Vec<usize>)
    requires
        m > 0,
    ensures
        r@ == reduce_spec(list@, m),
        forall|i: int| 0 <= i < r@.len() ==> #[trigger] r@[i] < m,
        reduce_ok(list@, m),
{
    let mut r: Vec<usize> = Vec::new();
    let mut k: usize = 0;
    while k < list.len()
        invariant
            m > 0,
            k <= list@.len(),
            strictly_increasing(r@),
            forall|i: int| 0 <= i < r@.len() ==> #[trigger] r@[i] < m,
            forall|x: usize| #[trigger] r@.contains(x) <==> reduced_contains(list@.subrange(0, k as int), m, x),
        decreases list@.len() - k,
    {
        let x = list[k] % m;
        let mut p: usize = 0;
        while p < r.len() && r[p] < x
            invariant
                p <= r@.len(),
                forall|i: int| 0 <= i < p ==> #[trigger] r@[i] < x,
            decreases r@.len() - p,
        {
            p = p + 1;
        }
        let ghost old_r = r@;
        let ghost pre = list@.subrange(0, k as int);
        let ghost post = list@.subrange(0, k + 1);
        proof {
            assert forall|y: usize| reduced_contains(post, m, y) <==> (reduced_contains(pre, m, y) || y == x) by {
                if reduced_contains(post, m, y) {
                    let i = choose|i: int| 0 <= i < post.len() && #[trigger] post[i] % m == y;
                    if i < k {
                        assert(pre[i] == post[i]);
                    }
                }
                if reduced_contains(pre, m, y) {
                    let i = choose|i: int| 0 <= i < pre.len() && #[trigger] pre[i] % m == y;
                    assert(post[i] == pre[i]);
                }
                if y == x {
                    assert(post[k as int] % m == y);
                }
            }
        }
        if p < r.len() && r[p] == x {
            assert(r@.contains(x));
        } else {
            r.insert(p, x);
            proof {
                assert forall|i: int, j: int| 0 <= i < j < r@.len() implies #[trigger] r@[i] < #[trigger] r@[j] by {
                    if j < p {
                    } else if j == p {
                    } else if i < p {
                        assert(old_r[j - 1] > x || old_r[j - 1] == x);
                    } else if i == p {
                        if p < old_r.len() {
                            assert(old_r[p as int] > x);
                            assert(old_r[p as int] <= old_r[j - 1]);
                        }
                    }
                }
                assert forall|y: usize| #[trigger] r@.contains(y) <==> (old_r.contains(y) || y == x) by {
                    if r@.contains(y) {
                        let i = choose|i: int| 0 <= i < r@.len() && r@[i] == y;
                        if i < p {
                            assert(old_r[i] == y);
                        } else if i > p {
                            assert(old_r[i - 1] == y);
                        }
                    }
                    if old_r.contains(y) {
                        let i = choose|i: int| 0 <= i < old_r.len() && old_r[i] == y;
                        if i < p {
                            assert(r@[i] == y);
                        } else {
                            assert(r@[i + 1] == y);
                        }
                    }
                    if y == x {
                        assert(r@[p as int] == x);
                    }
                }
            }
        }
        k = k + 1;
    }
    proof {
        assert(list@.subrange(0, list@.len() as int) =~= list@);
        lemma_sorted_unique(r@, reduce_spec(list@, m));
        reveal(reduce_ok);
    }
    r
}

} // verus!
