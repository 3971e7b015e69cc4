use deepfold::deepfold::{DeepEval, deep_point_exec};
use deepfold::domain::{Coset, DomainError, evaluate_at};
use deepfold::field::Field;
use deepfold::folding::{fold_at, fold_codeword_exec};
use deepfold::goldilocks64::Goldilocks64;
use deepfold::goldilocks64ext::Goldilocks64Ext;
use deepfold::indices::reduce_indices;
use deepfold::interpolation::InterpolateValue;
use deepfold::merkle::{MerkleTreeProver, MerkleTreeVerifier};
use deepfold::polynomial::{MultilinearPolynomial, evaluate_table, fold_hypercube, hyper_point_exec};
use deepfold::random_oracle::RandomOracle;

fn g(x: u64) -> Goldilocks64 {
    Goldilocks64::from_int(x)
}

#[test]
fn domain_elements_times_inverses_are_one() {
    for log in 0..8 {
        let d = Coset::new(1 << log, Goldilocks64Ext::random_element()).unwrap();
        for i in 0..d.size() {
            assert_eq!(d.element_at(i).mul(d.element_inv_at(i)), Goldilocks64Ext::one());
        }
    }
    let d = Coset::new(64, g(5)).unwrap();
    for i in 0..64 {
        assert_eq!(d.element_at(i).mul(d.element_inv_at(i)), g(1));
    }
}

#[test]
fn halved_domain_squares_elements() {
    let d = Coset::new(32, g(3)).unwrap();
    let h = d.halve();
    assert_eq!(h.size(), 16);
    for i in 0..16 {
        assert_eq!(h.element_at(i), d.element_at(i).mul(d.element_at(i)));
        assert_eq!(h.element_at(i).mul(h.element_inv_at(i)), g(1));
        // the twin of position i is its negation
        assert_eq!(d.element_at(i + 16), d.element_at(i).neg());
    }
}

#[test]
fn domain_errors() {
    assert_eq!(Coset::new(3, g(1)).unwrap_err(), DomainError::InvalidSize);
    assert_eq!(Coset::new(0, g(1)).unwrap_err(), DomainError::InvalidSize);
    assert_eq!(Coset::new(1 << 33, g(1)).unwrap_err(), DomainError::InvalidSize);
    assert_eq!(Coset::new(8, g(0)).unwrap_err(), DomainError::NotInvertible);
    assert!(Coset::new(1, g(1)).is_ok());
}

#[test]
fn fft_evaluates_the_polynomial() {
    let d = Coset::new(8, g(2)).unwrap();
    let coeffs = vec![g(1), g(2), g(3)];
    let values = d.fft(&coeffs);
    for i in 0..8 {
        let x = d.element_at(i);
        assert_eq!(values[i], g(1).add(g(2).mul(x)).add(g(3).mul(x).mul(x)));
    }
    assert_eq!(evaluate_at(&coeffs, g(10)), g(321));
}

#[test]
fn folding_zero_codeword_gives_zero() {
    let d = Coset::new(64, g(7)).unwrap();
    let zeros = vec![g(0); 64];
    let mut v = zeros;
    let mut dom = d;
    for r in 0..5 {
        v = fold_codeword_exec(&v, &dom, g(1234567 + r), true);
        assert!(v.iter().all(|x| x.is_zero()));
        dom = dom.halve();
    }
    assert_eq!(v.len(), 2);
}

#[test]
fn one_step_fold_value() {
    // (x + nx) + c * (x - nx) * inv, then halved
    let v = fold_at(g(10), g(4), g(3), g(5), false);
    assert_eq!(v, g(14 + 3 * 6 * 5));
    let h = fold_at(g(10), g(4), g(3), g(5), true);
    assert_eq!(h.mul(g(2)), g(104));
}

#[test]
fn deep_eval_round_trip_on_values() {
    let n = 4;
    let table: Vec<Goldilocks64Ext> = (0..16).map(|_| Goldilocks64Ext::random_element()).collect();
    let point: Vec<Goldilocks64Ext> = (0..n).map(|_| Goldilocks64Ext::random_element()).collect();
    let challenges: Vec<Goldilocks64Ext> = (0..n).map(|_| Goldilocks64Ext::random_element()).collect();
    let mut d = DeepEval::new(point.clone(), table.clone());
    assert_eq!(d.first_eval, evaluate_table(&point, &table));
    let mut t = table.clone();
    for k in 0..n {
        d.append_else_eval(t.clone());
        t = fold_hypercube(&t, challenges[k]);
    }
    assert_eq!(d.else_evals.len(), n);
    assert_eq!(d.verify(&challenges), evaluate_table(&challenges, &table));
}

#[test]
fn multilinear_tables_agree_with_coefficients() {
    let p = MultilinearPolynomial::new(vec![g(1), g(2), g(3), g(4)], 2);
    // f = 1 + 2 X0 + 3 X1 + 4 X0 X1
    let table = p.evaluate_hypercube();
    // index bit 1 is X0, bit 0 is X1
    assert_eq!(table, vec![g(1), g(4), g(3), g(10)]);
    assert_eq!(p.evaluate(&vec![g(2), g(5)]), g(1 + 4 + 15 + 40));
    assert_eq!(evaluate_table(&vec![g(2), g(5)], &table), g(60));
    assert_eq!(hyper_point_exec::<Goldilocks64>(2, 2), vec![g(1), g(0)]);
}

#[test]
fn deep_points_are_repeated_squares() {
    assert_eq!(deep_point_exec(g(3), 4), vec![g(3), g(9), g(81), g(6561)]);
}

#[test]
fn index_reduction_sorts_and_deduplicates() {
    assert_eq!(reduce_indices(&vec![13, 5, 21, 2, 7, 5], 8), vec![2, 5, 7]);
    assert_eq!(reduce_indices(&vec![], 4), Vec::<usize>::new());
    assert_eq!(reduce_indices(&vec![usize::MAX, 3], 2), vec![1]);
}

#[test]
fn merkle_root_of_single_leaf_is_its_digest() {
    let t = MerkleTreeProver::new(vec![b"abc".to_vec()]);
    let expected = [
        0xba, 0x78, 0x16, 0xbf, 0x8f, 0x01, 0xcf, 0xea, 0x41, 0x41, 0x40, 0xde, 0x5d, 0xae, 0x22,
        0x23, 0xb0, 0x03, 0x61, 0xa3, 0x96, 0x17, 0x7a, 0x9c, 0xb4, 0x10, 0xff, 0x61, 0xf2, 0x00,
        0x15, 0xad,
    ];
    assert_eq!(t.commit(), expected.to_vec());
}

#[test]
fn merkle_open_and_verify() {
    let leaves: Vec<Vec<u8>> = (0..16u8).map(|i| vec![i, i * 3, 7]).collect();
    let t = MerkleTreeProver::new(leaves.clone());
    let root = t.commit();
    let idx = vec![1, 6, 11];
    let proof = t.open(&idx);
    assert_eq!(proof.len(), 3 * 4 * 32);
    let v = MerkleTreeVerifier::new(16, &root);
    let opened: Vec<Vec<u8>> = idx.iter().map(|&i| leaves[i].clone()).collect();
    assert!(v.verify(&proof, &idx, &opened));
    let mut wrong = opened.clone();
    wrong[2][0] ^= 1;
    assert!(!v.verify(&proof, &idx, &wrong));
    let mut bad = proof.clone();
    bad[40] ^= 1;
    assert!(!v.verify(&bad, &idx, &opened));
    assert!(!v.verify(&proof, &vec![1, 6, 12], &opened));
    assert!(!v.verify(&proof[1..].to_vec(), &idx, &opened));
}

#[test]
fn committed_codeword_query_pairs_twins() {
    let values: Vec<Goldilocks64> = (0..16).map(|i| g(i * i + 1)).collect();
    let iv = InterpolateValue::new(values.clone());
    assert_eq!(iv.leave_num(), 8);
    let q = iv.query(&vec![2, 5]);
    assert_eq!(q.proof_values, vec![(2, g(5)), (10, g(101)), (5, g(26)), (13, g(170))]);
    assert_eq!(q.get_value(13), Some(g(170)));
    assert_eq!(q.get_value(3), None);
    let v = MerkleTreeVerifier::new(8, &iv.commit());
    assert!(q.verify_merkle_tree(&vec![2, 5], &v));
    assert!(!q.verify_merkle_tree(&vec![2, 6], &v));
    assert_eq!(q.proof_size(), 2 * 3 * 32 + 4 * 8);
}

#[test]
fn transcript_has_the_requested_shape() {
    let o = RandomOracle::<Goldilocks64>::new(5, 33);
    assert_eq!(o.folding_challenges.len(), 5);
    assert_eq!(o.deep.len(), 5);
    assert_eq!(o.query_list.len(), 33);
    assert!(o.beta.as_u64() < 18446744069414584321);
}
