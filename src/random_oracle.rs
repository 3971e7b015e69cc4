//! The public-coin transcript: all protocol randomness, sampled up front.
use vstd::prelude::*;
use crate::field::{Field, all_wf};
use crate::rng::random_usize;

verus! {

/// Round challenges, DEEP base points, query positions and the two batching
/// scalars of one protocol session.
#[derive(Clone, Debug)]
pub struct RandomOracle<T: Field> {
    pub beta: T,
    pub rlc: T,
    pub folding_challenges: Vec<T>,
    pub deep: Vec<T>,
    pub query_list: Vec<usize>,
}

impl<T: Field> RandomOracle<T> {
    pub open spec fn wf(&self) -> bool {
        &&& self.beta.wf()
        &&& self.rlc.wf()
        &&& all_wf(self.folding_challenges@)
        &&& all_wf(self.deep@)
    }

    /// A fresh transcript for `total_round` rounds and `query_num` queries.
    pub fn new(total_round: usize, query_num: usize) -> (r: Self)
        ensures
            r.wf(),
            r.folding_challenges@.len() == total_round,
            r.deep@.len() == total_round,
            r.query_list@.len() == query_num,
    {
        let beta = T::random_element();
        let rlc = T::random_element();
        let mut folding_challenges: Vec<T> = Vec::new();
        let mut deep: Vec<T> = Vec::new();
        let mut i: usize = 0;
        while i < total_round
            invariant
                i <= total_round,
                folding_challenges.len() == i,
                deep.len() == i,
                all_wf(folding_challenges@),
                all_wf(deep@),
            decreases total_round - i,
        {
            folding_challenges.push(T::random_element());
            deep.push(T::random_element());
            i = i + 1;
        }
        let mut query_list: Vec<usize> = Vec::new();
        let mut j: usize = 0;
        while j < query_num
            invariant
                j <= query_num,
                query_list.len() == j,
            decreases query_num - j,
        {
            query_list.push(random_usize());
            j = j + 1;
        }
        RandomOracle { beta, rlc, folding_challenges, deep, query_list }
    }
}

} // verus!
