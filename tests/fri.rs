use deepfold::domain::Coset;
use deepfold::field::Field;
use deepfold::fri_prover::Prover;
use deepfold::fri_verifier::Verifier;
use deepfold::goldilocks64ext::Goldilocks64Ext;
use deepfold::random_oracle::RandomOracle;
use deepfold::{CODE_RATE, SECURITY_BITS};

type F = Goldilocks64Ext;

fn cosets(variable_num: usize) -> Vec<Coset<F>> {
    let mut c = vec![Coset::new(1 << (variable_num + CODE_RATE), F::random_element()).unwrap()];
    for i in 1..variable_num {
        let next = c[i - 1].halve();
        c.push(next);
    }
    c
}

fn run(variable_num: usize, tamper: bool) -> bool {
    let coeffs: Vec<F> = (0..(1usize << variable_num)).map(|_| F::random_element()).collect();
    let interpolate_cosets = cosets(variable_num);
    let oracle = RandomOracle::new(variable_num, SECURITY_BITS / CODE_RATE);
    let mut prover = Prover::new(variable_num, interpolate_cosets.clone(), coeffs.clone(), oracle.clone());
    let commit = prover.commit_polynomial();
    let mut verifier = Verifier::new(variable_num, interpolate_cosets, commit, oracle);
    let point = verifier.get_open_point();
    let evaluation = prover.prove(point);
    assert_eq!(evaluation, deepfold::domain::evaluate_at(&coeffs, point));
    prover.commit_foldings(&mut verifier);
    let proofs = prover.query();
    if tamper {
        verifier.verify(&proofs, evaluation.add(F::one()))
    } else {
        verifier.verify(&proofs, evaluation)
    }
}

#[test]
fn fri_round_trip_accepts() {
    for n in 1..7 {
        assert!(run(n, false));
    }
}

#[test]
fn fri_rejects_a_wrong_evaluation() {
    assert!(!run(4, true));
}
