use deepfold::deepfold_prover::Prover;
use deepfold::deepfold_verifier::Verifier;
use deepfold::domain::Coset;
use deepfold::field::Field;
use deepfold::goldilocks64::Goldilocks64;
use deepfold::goldilocks64ext::Goldilocks64Ext;
use deepfold::polynomial::MultilinearPolynomial;
use deepfold::random_oracle::RandomOracle;
use deepfold::{CODE_RATE, SECURITY_BITS};

fn cosets_for<T: Field>(variable_num: usize, shift: T) -> Vec<Coset<T>> {
    let mut interpolate_cosets =
        vec![Coset::new(1 << (variable_num + CODE_RATE), shift).expect("valid domain")];
    for i in 1..variable_num {
        let next = interpolate_cosets[i - 1].halve();
        interpolate_cosets.push(next);
    }
    interpolate_cosets
}

fn output_proof_size<T: Field>(variable_num: usize) -> usize {
    let polynomial = MultilinearPolynomial::<T>::random_polynomial(variable_num);
    let interpolate_cosets = cosets_for(variable_num, T::from_int(1));
    let oracle = RandomOracle::new(variable_num, SECURITY_BITS / CODE_RATE);
    let prover = Prover::new(variable_num, interpolate_cosets.clone(), polynomial, oracle.clone());
    let commit = prover.commit_polynomial();
    let verifier = Verifier::new(variable_num, interpolate_cosets, commit, oracle);
    let point = verifier.get_open_point();
    let proof = prover.generate_proof(point);
    let size = proof.size();
    assert!(verifier.verify(proof));
    size
}

// Sizes from 10 variables up. The domain's forward transform evaluates by
// Horner's rule at every point, which is quadratic in the domain size, so
// the run stops at the largest size that fits the time a test is given.
#[test]
fn test_proof_size() {
    for i in 10..12 {
        let proof_size = output_proof_size::<Goldilocks64Ext>(i);
        println!(
            "Deepfold pcs proof size of {} variables is {} bytes, using {}",
            i, proof_size, "Goldilocks64Ext"
        );
        let proof_size = output_proof_size::<Goldilocks64>(i);
        println!(
            "Deepfold pcs proof size of {} variables is {} bytes, using {}",
            i, proof_size, "Goldilocks64"
        );
    }
}

fn session<T: Field>(
    variable_num: usize,
    query_num: usize,
) -> (Verifier<T>, deepfold::deepfold::Proof<T>, Prover<T>) {
    let polynomial = MultilinearPolynomial::<T>::random_polynomial(variable_num);
    let interpolate_cosets = cosets_for(variable_num, T::from_int(1));
    let oracle = RandomOracle::new(variable_num, query_num);
    let prover = Prover::new(variable_num, interpolate_cosets.clone(), polynomial, oracle.clone());
    let commit = prover.commit_polynomial();
    let verifier = Verifier::new(variable_num, interpolate_cosets, commit, oracle);
    let point = verifier.get_open_point();
    let proof = prover.clone().generate_proof(point);
    (verifier, proof, prover)
}

#[test]
fn four_rounds_accepts_and_rejects_shifted_final_value() {
    let (verifier, proof, _) = session::<Goldilocks64Ext>(4, 8);
    assert_eq!(proof.merkle_root.len(), 3);
    assert_eq!(proof.query_result.len(), 4);
    assert_eq!(proof.deep_evals.len(), 4);
    assert!(verifier.clone().verify(proof.clone()));
    let mut bad = proof;
    bad.final_value = bad.final_value.add(Goldilocks64Ext::one());
    assert!(!verifier.verify(bad));
}

#[test]
fn tampered_opened_value_is_rejected() {
    let (verifier, proof, _) = session::<Goldilocks64>(4, 8);
    for round in 0..4 {
        let mut bad = proof.clone();
        let entry = bad.query_result[round].proof_values[0];
        bad.query_result[round].proof_values[0] = (entry.0, entry.1.add(Goldilocks64::one()));
        assert!(!verifier.clone().verify(bad));
    }
}

#[test]
fn tampered_merkle_proof_byte_is_rejected() {
    let (verifier, proof, _) = session::<Goldilocks64>(4, 8);
    let mut bad = proof.clone();
    bad.query_result[1].proof_bytes[0] ^= 1;
    assert!(!verifier.clone().verify(bad));
    let mut bad = proof;
    let last = bad.query_result[0].proof_bytes.len() - 1;
    bad.query_result[0].proof_bytes[last] ^= 0x80;
    assert!(!verifier.verify(bad));
}

#[test]
fn tampered_round_digest_is_rejected() {
    let (verifier, proof, _) = session::<Goldilocks64>(4, 8);
    for round in 0..3 {
        let mut bad = proof.clone();
        bad.merkle_root[round][5] ^= 4;
        assert!(!verifier.clone().verify(bad));
    }
}

#[test]
fn tampered_evaluation_and_deep_values_are_rejected() {
    let (verifier, proof, _) = session::<Goldilocks64Ext>(3, 8);
    let mut bad = proof.clone();
    bad.evaluation = bad.evaluation.add(Goldilocks64Ext::one());
    assert!(!verifier.clone().verify(bad));
    let mut bad = proof.clone();
    bad.deep_evals[1].1[0] = bad.deep_evals[1].1[0].add(Goldilocks64Ext::one());
    assert!(!verifier.clone().verify(bad));
    let mut bad = proof;
    bad.shuffle_evals.pop();
    assert!(!verifier.verify(bad));
}

#[test]
fn query_is_deterministic_for_a_fixed_transcript() {
    let (_, _, prover) = session::<Goldilocks64>(4, 8);
    let mut p = prover;
    let point: Vec<Goldilocks64> = (0..4).map(|i| Goldilocks64::from_int(i + 3)).collect();
    p.prove(point);
    let a = p.query();
    let b = p.query();
    assert_eq!(a.len(), b.len());
    for i in 0..a.len() {
        assert_eq!(a[i].proof_bytes, b[i].proof_bytes);
        assert_eq!(a[i].proof_values, b[i].proof_values);
    }
}

#[test]
fn honest_final_value_matches_polynomial_at_challenges() {
    // The last codeword is constant and equals the polynomial at the challenges.
    let (verifier, proof, prover) = session::<Goldilocks64Ext>(3, 4);
    assert!(verifier.verify(proof.clone()));
    let challenges = prover.oracle.folding_challenges.clone();
    let table = prover.hypercube_interpolation.clone();
    let v = deepfold::polynomial::evaluate_table(&challenges, &table);
    assert_eq!(v, proof.final_value);
}
