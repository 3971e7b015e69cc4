use deepfold::basefold_verifier::{Verifier, quadratic_at_exec};
use deepfold::deepfold_prover::Prover;
use deepfold::domain::Coset;
use deepfold::field::Field;
use deepfold::goldilocks64::Goldilocks64;
use deepfold::polynomial::MultilinearPolynomial;
use deepfold::random_oracle::RandomOracle;
use deepfold::CODE_RATE;

type F = Goldilocks64;

fn setup(n: usize, break_sumcheck: bool) -> bool {
    let mut cosets = vec![Coset::new(1 << (n + CODE_RATE), F::from_int(1)).unwrap()];
    for i in 1..n {
        let next = cosets[i - 1].halve();
        cosets.push(next);
    }
    let oracle = RandomOracle::new(n, 16);
    let polynomial = MultilinearPolynomial::<F>::random_polynomial(n);
    let prover = Prover::new(n, cosets.clone(), polynomial, oracle.clone());
    let root = prover.commit_polynomial().merkle_root;
    let point: Vec<F> = (0..n).map(|_| F::random_element()).collect();
    let proof = prover.generate_proof(point);
    let mut verifier = Verifier::new(n, cosets.clone(), root, oracle.clone());
    for i in 1..n {
        verifier.receive_folding_root(cosets[i].size() / 2, proof.merkle_root[i - 1].clone());
    }
    verifier.set_final_value(proof.final_value);
    verifier.set_evalutation(proof.evaluation);
    let mut message = (F::from_int(3), F::from_int(4), F::from_int(5));
    for i in 0..n {
        verifier.receive_sumcheck_value(message);
        let claim = quadratic_at_exec(message, oracle.folding_challenges[i]);
        let x0 = F::from_int(10 + i as u64);
        let x1 = if break_sumcheck && i == n / 2 { claim } else { claim.sub(x0) };
        message = (x0, x1, F::from_int(7));
    }
    verifier.verify(&proof.query_result)
}

#[test]
fn basefold_accepts_consistent_messages() {
    for n in 1..6 {
        assert!(setup(n, false));
    }
}

#[test]
fn basefold_rejects_inconsistent_sumcheck() {
    assert!(!setup(4, true));
}

#[test]
fn quadratic_through_three_values() {
    // values 3, 4, 5 at 0, 1, 2 lie on x + 3
    let v = quadratic_at_exec((F::from_int(3), F::from_int(4), F::from_int(5)), F::from_int(10));
    assert_eq!(v, F::from_int(13));
    // values 1, 2, 5 lie on x^2 + 1
    let v = quadratic_at_exec((F::from_int(1), F::from_int(2), F::from_int(5)), F::from_int(4));
    assert_eq!(v, F::from_int(17));
}
