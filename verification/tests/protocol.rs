use sumcheck::field::{fq_add, Fq};
use sumcheck::fiat_shamir::Transcript;
use sumcheck::multilinear_poly::{MultilinearPoly, ProductPoly, SumPoly};
use sumcheck::sum_check_protocol::{gkr_prove, gkr_verify, prove, verify};

fn to_field(input: Vec<u64>) -> Vec<Fq> {
    input.into_iter().map(Fq::from_u64).collect()
}

#[test]
fn test_hash() {
    let mut transcript = Transcript::new();
    transcript.append("hello".as_bytes());

    let random_challenge = transcript.get_random_challenge();

    println!("{}", random_challenge == random_challenge);
}

#[test]
fn transcript_is_deterministic() {
    let mut t1 = Transcript::new();
    let mut t2 = Transcript::new();
    t1.append("hello".as_bytes());
    t2.append("hello".as_bytes());
    assert!(t1.get_random_challenge() == t2.get_random_challenge());

    // only the absorbed byte sequence matters, not how it was split
    let mut t3 = Transcript::new();
    t3.append("hel".as_bytes());
    t3.append("lo".as_bytes());
    assert!(t3.get_random_challenge() == t1.get_random_challenge());

    // asking twice with no append in between returns the same element
    assert!(t1.get_random_challenge() == t1.get_random_challenge());

    // one extra append changes the challenge
    let mut t4 = Transcript::new();
    t4.append("hello".as_bytes());
    t4.append("x".as_bytes());
    assert!(t4.get_random_challenge() != t1.get_random_challenge());
}

#[test]
fn challenge_actually_hashes() {
    // an empty transcript's digest is not the empty byte string, so the
    // challenge is not the zero element
    let transcript = Transcript::new();
    assert!(transcript.get_random_challenge() != Fq::from_u64(0));
}

#[test]
fn test_sumcheck_protocol() {
    let poly = MultilinearPoly::new(to_field(vec![0, 0, 0, 3, 0, 0, 2, 5])).unwrap();
    let proof = prove(&poly, Fq::from_u64(20));

    assert!(!verify(&poly, &proof));
}

#[test]
fn sumcheck_accepts_the_true_sum() {
    // the evaluations sum to 10
    let poly = MultilinearPoly::new(to_field(vec![0, 0, 0, 3, 0, 0, 2, 5])).unwrap();
    let proof = prove(&poly, Fq::from_u64(10));

    assert!(verify(&poly, &proof));
    assert_eq!(proof.round_polys.len(), 3);
}

#[test]
fn sumcheck_rejects_tampered_round_message() {
    let poly = MultilinearPoly::new(to_field(vec![0, 0, 0, 3, 0, 0, 2, 5])).unwrap();
    let mut proof = prove(&poly, Fq::from_u64(10));
    let (m0, m1) = proof.round_polys[1];
    // shifting one entry breaks that round's sum check
    proof.round_polys[1] = (fq_add(&m0, &Fq::from_u64(1)), m1);
    assert!(!verify(&poly, &proof));
}

fn two_term_sum_poly() -> SumPoly {
    let term_1 = ProductPoly::new(vec![to_field(vec![0, 0, 0, 3]), to_field(vec![0, 0, 0, 2])])
        .unwrap();
    let term_2 = ProductPoly::new(vec![to_field(vec![0, 0, 0, 4]), to_field(vec![0, 0, 0, 5])])
        .unwrap();
    SumPoly::new(vec![term_1, term_2]).unwrap()
}

#[test]
fn gkr_round_messages_have_degree_plus_one_entries() {
    let sum_poly = two_term_sum_poly();
    let mut transcript = Transcript::new();
    // the terms' pointwise products are [0,0,0,6] and [0,0,0,20]: the sum is 26
    let proof = gkr_prove(Fq::from_u64(26), &sum_poly, &mut transcript);
    assert_eq!(proof.proof_polynomials.len(), 2);
    for message in &proof.proof_polynomials {
        assert_eq!(message.len(), 3);
    }
}

#[test]
fn gkr_verify_accepts_matching_prover() {
    let sum_poly = two_term_sum_poly();
    let mut prover_transcript = Transcript::new();
    let claimed = Fq::from_u64(26);
    let proof = gkr_prove(claimed, &sum_poly, &mut prover_transcript);

    let mut verifier_transcript = Transcript::new();
    let result = gkr_verify(proof.proof_polynomials, claimed, &mut verifier_transcript);
    assert!(result.verified);
    assert!(result.random_challenges == proof.random_challenges);

    // the caller's oracle check: the final claim is the composed polynomial's
    // value at the challenge point
    let oracle = sum_poly.evaluate(result.random_challenges).unwrap();
    assert!(result.final_claimed_sum == oracle);
}

#[test]
fn gkr_verify_rejects_wrong_claimed_sum() {
    let sum_poly = two_term_sum_poly();
    let mut prover_transcript = Transcript::new();
    let proof = gkr_prove(Fq::from_u64(26), &sum_poly, &mut prover_transcript);

    let mut verifier_transcript = Transcript::new();
    let result = gkr_verify(proof.proof_polynomials, Fq::from_u64(27), &mut verifier_transcript);
    assert!(!result.verified);
    assert!(result.final_claimed_sum == Fq::from_u64(0));
    assert!(result.random_challenges == vec![Fq::from_u64(0)]);
}

#[test]
fn gkr_verify_rejects_tampered_round_message() {
    let sum_poly = two_term_sum_poly();
    let mut prover_transcript = Transcript::new();
    let claimed = Fq::from_u64(26);
    let proof = gkr_prove(claimed, &sum_poly, &mut prover_transcript);

    let mut messages = proof.proof_polynomials;
    // tamper with the second round's first sample: its round check fails
    messages[1][0] = Fq::from_u64(12345);
    let mut verifier_transcript = Transcript::new();
    let result = gkr_verify(messages, claimed, &mut verifier_transcript);
    assert!(!result.verified);
}

#[test]
fn sumcheck_on_a_constant_polynomial() {
    // zero variables: no rounds, only the final oracle comparison
    let poly = MultilinearPoly::new(to_field(vec![7])).unwrap();
    let good = prove(&poly, Fq::from_u64(7));
    assert!(verify(&poly, &good));
    let bad = prove(&poly, Fq::from_u64(8));
    assert!(!verify(&poly, &bad));
}
