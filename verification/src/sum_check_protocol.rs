//! The two sum-check protocols: the basic one for a single multilinear
//! polynomial, and the generalized one for a sum of products of multilinear
//! factors, whose higher-degree round messages the verifier reconstructs by
//! interpolation.
//!
//! Both are modelled exactly: a spec-level replay of every round, over the
//! canonical values and the transcript's absorbed bytes, pins down each round
//! message, each challenge, and the verdict.

use vstd::arithmetic::power2::pow2;
use vstd::prelude::*;

use crate::field::{
    f_add, f_aff, fq_add, fq_bytes_be, fq_bytes_le, fq_eq, fq_mul, fq_sub, fq_to_bytes_be,
    fq_to_bytes_le, fq_val, Fq,
};
use crate::fiat_shamir::{spec_challenge, Transcript};
use crate::multilinear_poly::{
    aff_seq, clone_fq_vec, fq_seq, lemma_spec_pe_bounded, lemma_spec_pe_head_split,
    lemma_sum_affine, lemma_sum_prefix_bounded, lemma_sum_prefix_split, spec_eval, spec_mpe,
    spec_pe, spec_sp_pe, spec_sp_reduce, spec_sum_prefix, spec_sum_seq, MultilinearPoly, SumPoly,
};
use crate::polynomial::{
    all_denoms_nonzero, has_duplicate, spec_interp, spec_uni_eval, UnivariatePolynomial,
};

verus! {

/// The big-endian flat encoding of the first `i` values.
pub open spec fn be_flat_prefix(vs: Seq<nat>, i: int) -> Seq<u8>
    decreases i,
{
    if i <= 0 {
        Seq::empty()
    } else {
        be_flat_prefix(vs, i - 1) + fq_bytes_be(vs[i - 1])
    }
}

/// The big-endian flat encoding of a value sequence.
pub open spec fn be_flat(vs: Seq<nat>) -> Seq<u8> {
    be_flat_prefix(vs, vs.len() as int)
}

/// The little-endian flat encoding of the first `i` values.
pub open spec fn le_flat_prefix(vs: Seq<nat>, i: int) -> Seq<u8>
    decreases i,
{
    if i <= 0 {
        Seq::empty()
    } else {
        le_flat_prefix(vs, i - 1) + fq_bytes_le(vs[i - 1])
    }
}

/// The little-endian flat encoding of a value sequence.
pub open spec fn le_flat(vs: Seq<nat>) -> Seq<u8> {
    le_flat_prefix(vs, vs.len() as int)
}

/// The canonical values of a sequence of pairs of field elements.
pub open spec fn pairs_vals(s: Seq<(Fq, Fq)>) -> Seq<(nat, nat)> {
    s.map(|i: int, p: (Fq, Fq)| (fq_val(p.0), fq_val(p.1)))
}

/// The canonical values of a sequence of vectors of field elements.
pub open spec fn vecs_vals(s: Seq<Vec<Fq>>) -> Seq<Seq<nat>> {
    s.map(|i: int, v: Vec<Fq>| fq_seq(v@))
}

/// The concatenated little-endian encodings of the values, as the generalized
/// protocol absorbs a round message.
fn fq_vec_to_bytes(values: &Vec<Fq>) -> (r: Vec<u8>)
    ensures
        r@ == le_flat(fq_seq(values@)),
{
    let mut out: Vec<u8> = Vec::new();
    let mut i: usize = 0;
    while i < values.len()
        invariant
            i <= values@.len(),
            out@ == le_flat_prefix(fq_seq(values@), i as int),
        decreases values@.len() - i,
    {
        let mut bytes = fq_to_bytes_le(&values[i]);
        out.append(&mut bytes);
        i = i + 1;
    }
    out
}

/// The concatenated big-endian encodings of the values, as the basic protocol
/// absorbs an evaluation vector.
fn fq_vec_to_bytes_be(values: &Vec<Fq>) -> (r: Vec<u8>)
    ensures
        r@ == be_flat(fq_seq(values@)),
{
    let mut out: Vec<u8> = Vec::new();
    let mut i: usize = 0;
    while i < values.len()
        invariant
            i <= values@.len(),
            out@ == be_flat_prefix(fq_seq(values@), i as int),
        decreases values@.len() - i,
    {
        let mut bytes = fq_to_bytes_be(&values[i]);
        out.append(&mut bytes);
        i = i + 1;
    }
    out
}

/// The field sum of a vector's entries, folded left from zero.
fn sum_fq_vec(values: &Vec<Fq>) -> (r: Fq)
    ensures
        fq_val(r) == spec_sum_seq(fq_seq(values@)),
{
    let mut acc = Fq::from_u64(0);
    let mut i: usize = 0;
    while i < values.len()
        invariant
            i <= values@.len(),
            fq_val(acc) == spec_sum_prefix(fq_seq(values@), i as int),
        decreases values@.len() - i,
    {
        acc = fq_add(&acc, &values[i]);
        i = i + 1;
    }
    acc
}

/// A basic sum-check proof: the claimed sum and one pair of partial sums per
/// variable.
pub struct Proof {
    pub claimed_sum: Fq,
    pub round_polys: Vec<(Fq, Fq)>,
}

/// The basic round message over `e`: the sums over the hypercube of the
/// polynomial with its leading variable fixed to 0 and to 1.
pub open spec fn spec_round_pair(e: Seq<nat>, n: nat) -> (nat, nat) {
    (spec_sum_seq(spec_pe(e, n, 0, 0)), spec_sum_seq(spec_pe(e, n, 0, 1)))
}

/// What the prover absorbs before the first round: the whole evaluation vector
/// and the claimed sum, big-endian.
pub open spec fn spec_initial_absorb(e: Seq<nat>, claimed: nat) -> Seq<u8> {
    be_flat(e) + fq_bytes_be(claimed)
}

/// The basic prover's rounds, replayed: the round messages and the final
/// absorbed byte sequence, as a function of the evaluations and the transcript
/// state.
pub open spec fn spec_prove_rounds(e: Seq<nat>, n: nat, absorbed: Seq<u8>, rounds: nat) -> (
    Seq<(nat, nat)>,
    Seq<u8>,
)
    decreases rounds,
{
    if rounds == 0 {
        (Seq::empty(), absorbed)
    } else {
        let m = spec_round_pair(e, n);
        let ab1 = absorbed + fq_bytes_be(m.0) + fq_bytes_be(m.1);
        let c = spec_challenge(ab1);
        let rest = spec_prove_rounds(spec_pe(e, n, 0, c), (n - 1) as nat, ab1, (rounds - 1) as nat);
        (seq![m] + rest.0, rest.1)
    }
}

/// Produces the basic sum-check proof for the claim that `poly` sums to
/// `claimed_sum` over the hypercube: `n_vars` rounds, each message the pair of
/// partial sums of the current polynomial, each challenge derived from the
/// transcript after absorbing that message.
pub fn prove(poly: &MultilinearPoly, claimed_sum: Fq) -> (r: Proof)
    requires
        poly.wf(),
    ensures
        r.claimed_sum == claimed_sum,
        r.round_polys@.len() == poly.n_vars,
        pairs_vals(r.round_polys@) == spec_prove_rounds(
            poly.vals(),
            poly.n_vars as nat,
            spec_initial_absorb(poly.vals(), fq_val(claimed_sum)),
            poly.n_vars as nat,
        ).0,
{
    let ghost e0 = poly.vals();
    let ghost n = poly.n_vars as nat;
    let mut round_polys: Vec<(Fq, Fq)> = Vec::new();
    let mut transcript = Transcript::new();
    let evals_bytes = fq_vec_to_bytes_be(&poly.evals);
    transcript.append(evals_bytes.as_slice());
    let cs_bytes = fq_to_bytes_be(&claimed_sum);
    transcript.append(cs_bytes.as_slice());
    let ghost ab0 = spec_initial_absorb(e0, fq_val(claimed_sum));
    proof {
        assert(transcript@ =~= ab0);
    }
    let zero = Fq::from_u64(0);
    let one = Fq::from_u64(1);
    let mut current = poly.duplicate();
    let mut i: usize = 0;
    while i < poly.n_vars
        invariant
            i <= poly.n_vars,
            n == poly.n_vars as nat,
            fq_val(zero) == 0,
            fq_val(one) == 1,
            current.wf(),
            current.n_vars == poly.n_vars - i,
            round_polys@.len() == i,
            spec_prove_rounds(e0, n, ab0, n).0 == pairs_vals(round_polys@) + spec_prove_rounds(
                current.vals(),
                (n - i) as nat,
                transcript@,
                (n - i) as nat,
            ).0,
            spec_prove_rounds(e0, n, ab0, n).1 == spec_prove_rounds(
                current.vals(),
                (n - i) as nat,
                transcript@,
                (n - i) as nat,
            ).1,
        decreases poly.n_vars - i,
    {
        let ghost e_cur = current.vals();
        let ghost ab_cur = transcript@;
        let m0_poly = current.partial_evaluate(0, &zero);
        let m0 = sum_fq_vec(&m0_poly.evals);
        let m1_poly = current.partial_evaluate(0, &one);
        let m1 = sum_fq_vec(&m1_poly.evals);
        proof {
            assert(fq_seq(m0_poly.evals@) == m0_poly.vals());
            assert((fq_val(m0), fq_val(m1)) == spec_round_pair(e_cur, (n - i) as nat));
        }
        let m0_bytes = fq_to_bytes_be(&m0);
        transcript.append(m0_bytes.as_slice());
        let m1_bytes = fq_to_bytes_be(&m1);
        transcript.append(m1_bytes.as_slice());
        round_polys.push((m0, m1));
        let challenge = transcript.get_random_challenge();
        current = current.partial_evaluate(0, &challenge);
        proof {
            let ghost ab1 = ab_cur + fq_bytes_be(fq_val(m0)) + fq_bytes_be(fq_val(m1));
            assert(transcript@ =~= ab1);
            let rest = spec_prove_rounds(e_cur, (n - i) as nat, ab_cur, (n - i) as nat);
            assert(rest.0 == seq![(fq_val(m0), fq_val(m1))] + spec_prove_rounds(
                current.vals(),
                (n - i - 1) as nat,
                ab1,
                (n - i - 1) as nat,
            ).0);
            assert(pairs_vals(round_polys@) =~= pairs_vals(round_polys@.drop_last()) + seq![
                (fq_val(m0), fq_val(m1)),
            ]);
            assert(pairs_vals(round_polys@.drop_last()) + (seq![(fq_val(m0), fq_val(m1))]
                + spec_prove_rounds(
                current.vals(),
                (n - i - 1) as nat,
                ab1,
                (n - i - 1) as nat,
            ).0) =~= pairs_vals(round_polys@) + spec_prove_rounds(
                current.vals(),
                (n - i - 1) as nat,
                ab1,
                (n - i - 1) as nat,
            ).0);
        }
        i = i + 1;
    }
    proof {
        assert(spec_prove_rounds(current.vals(), 0, transcript@, 0).0 =~= Seq::<(nat, nat)>::empty());
        assert(pairs_vals(round_polys@) + Seq::<(nat, nat)>::empty() =~= pairs_vals(round_polys@));
    }
    Proof { claimed_sum, round_polys }
}

/// The basic verifier's rounds, replayed: the verdict so far, the running sum,
/// the challenges drawn, and the final absorbed byte sequence.
pub open spec fn spec_verify_rounds(msgs: Seq<(nat, nat)>, sum: nat, absorbed: Seq<u8>) -> (
    bool,
    nat,
    Seq<nat>,
    Seq<u8>,
)
    decreases msgs.len(),
{
    if msgs.len() == 0 {
        (true, sum, Seq::empty(), absorbed)
    } else {
        let m = msgs[0];
        if f_add(m.0, m.1) != sum {
            (false, sum, Seq::empty(), absorbed)
        } else {
            let ab1 = absorbed + fq_bytes_be(m.0) + fq_bytes_be(m.1);
            let c = spec_challenge(ab1);
            let rest = spec_verify_rounds(msgs.drop_first(), f_aff(m.0, m.1, c), ab1);
            (rest.0, rest.1, seq![c] + rest.2, rest.3)
        }
    }
}

/// The basic verifier's outcome: one round message for each variable, every
/// round sum consistent, and the final running sum equal to a direct
/// evaluation of the polynomial at the challenge point.
pub open spec fn spec_verify(e: Seq<nat>, n: nat, claimed: nat, msgs: Seq<(nat, nat)>) -> bool {
    if msgs.len() != n {
        false
    } else {
        let r = spec_verify_rounds(msgs, claimed, spec_initial_absorb(e, claimed));
        r.0 && r.1 == spec_eval(e, n, r.2)
    }
}

/// Checks a basic sum-check proof against `poly` by replaying the transcript:
/// accepts exactly when every round is consistent and the final claim matches
/// the oracle evaluation at the derived challenges.
pub fn verify(poly: &MultilinearPoly, proof: &Proof) -> (r: bool)
    requires
        poly.wf(),
    ensures
        r == spec_verify(
            poly.vals(),
            poly.n_vars as nat,
            fq_val(proof.claimed_sum),
            pairs_vals(proof.round_polys@),
        ),
{
    let ghost e0 = poly.vals();
    let ghost n = poly.n_vars as nat;
    let ghost msgs = pairs_vals(proof.round_polys@);
    if proof.round_polys.len() != poly.n_vars {
        return false;
    }
    let mut challenges: Vec<Fq> = Vec::new();
    let mut transcript = Transcript::new();
    let evals_bytes = fq_vec_to_bytes_be(&poly.evals);
    transcript.append(evals_bytes.as_slice());
    let cs_bytes = fq_to_bytes_be(&proof.claimed_sum);
    transcript.append(cs_bytes.as_slice());
    let ghost ab0 = spec_initial_absorb(e0, fq_val(proof.claimed_sum));
    proof {
        assert(transcript@ =~= ab0);
    }
    let ghost full = spec_verify_rounds(msgs, fq_val(proof.claimed_sum), ab0);
    let mut claimed_sum = proof.claimed_sum;
    let mut i: usize = 0;
    proof {
        assert(msgs.skip(0) =~= msgs);
        assert(Seq::<nat>::empty() + full.2 =~= full.2);
        assert(fq_seq(challenges@) =~= Seq::<nat>::empty());
    }
    while i < proof.round_polys.len()
        invariant
            i <= proof.round_polys@.len(),
            proof.round_polys@.len() == poly.n_vars,
            e0 == poly.vals(),
            n == poly.n_vars as nat,
            msgs == pairs_vals(proof.round_polys@),
            ab0 == spec_initial_absorb(e0, fq_val(proof.claimed_sum)),
            full == spec_verify_rounds(msgs, fq_val(proof.claimed_sum), ab0),
            challenges@.len() == i,
            full == {
                let rest = spec_verify_rounds(msgs.skip(i as int), fq_val(claimed_sum), transcript@);
                (rest.0, rest.1, fq_seq(challenges@) + rest.2, rest.3)
            },
        decreases proof.round_polys@.len() - i,
    {
        let (m0, m1) = proof.round_polys[i];
        let ghost rest_before = spec_verify_rounds(
            msgs.skip(i as int),
            fq_val(claimed_sum),
            transcript@,
        );
        proof {
            assert(msgs.skip(i as int)[0] == (fq_val(m0), fq_val(m1)));
        }
        let pair_sum = fq_add(&m0, &m1);
        if !fq_eq(&claimed_sum, &pair_sum) {
            proof {
                assert(!rest_before.0);
                assert(!full.0);
            }
            return false;
        }
        let ghost ab_cur = transcript@;
        let m0_bytes = fq_to_bytes_be(&m0);
        transcript.append(m0_bytes.as_slice());
        let m1_bytes = fq_to_bytes_be(&m1);
        transcript.append(m1_bytes.as_slice());
        let challenge = transcript.get_random_challenge();
        claimed_sum = fq_add(&m0, &fq_mul(&challenge, &fq_sub(&m1, &m0)));
        challenges.push(challenge);
        proof {
            assert(transcript@ =~= ab_cur + fq_bytes_be(fq_val(m0)) + fq_bytes_be(fq_val(m1)));
            assert(msgs.skip(i as int).drop_first() =~= msgs.skip(i as int + 1));
            let rest_after = spec_verify_rounds(
                msgs.skip(i as int + 1),
                fq_val(claimed_sum),
                transcript@,
            );
            assert(rest_before == (
                rest_after.0,
                rest_after.1,
                seq![spec_challenge(transcript@)] + rest_after.2,
                rest_after.3,
            ));
            assert(fq_seq(challenges@) =~= fq_seq(challenges@.drop_last()) + seq![
                fq_val(challenge),
            ]);
            assert(fq_seq(challenges@.drop_last()) + (seq![fq_val(challenge)] + rest_after.2)
                =~= fq_seq(challenges@) + rest_after.2);
        }
        i = i + 1;
    }
    proof {
        assert(msgs.skip(i as int) =~= Seq::<(nat, nat)>::empty());
        assert(fq_seq(challenges@) + Seq::<nat>::empty() =~= fq_seq(challenges@));
        assert(full.0);
        assert(full.1 == fq_val(claimed_sum));
        assert(full.2 == fq_seq(challenges@));
    }
    let eval = match poly.evaluate(challenges) {
        Ok(v) => v,
        Err(_) => {
            return false;
        }
    };
    if !fq_eq(&claimed_sum, &eval) {
        return false;
    }
    true
}

/// A generalized sum-check proof: one message of `degree + 1` samples per
/// round, the claimed sum, and the challenges the transcript produced.
pub struct GkrProof {
    pub proof_polynomials: Vec<Vec<Fq>>,
    pub claimed_sum: Fq,
    pub random_challenges: Vec<Fq>,
}

/// The generalized verifier's outcome: the verdict, the final running claim
/// (to be checked by the caller against an oracle), and the challenges drawn.
pub struct GkrVerify {
    pub verified: bool,
    pub final_claimed_sum: Fq,
    pub random_challenges: Vec<Fq>,
}

/// The generalized round message over the terms `ts`: for each `i` up to the
/// degree, the sum of the entries of the reduced composed polynomial with its
/// leading variable fixed to the field element `i`.
pub open spec fn spec_gkr_round_msg(ts: Seq<Seq<Seq<nat>>>, n: nat, d: nat) -> Seq<nat> {
    Seq::new((d + 1) as nat, |i: int| spec_sum_seq(spec_sp_reduce(spec_sp_pe(ts, n, i as nat))))
}

/// The generalized prover's rounds, replayed: the round messages, the
/// challenges, and the final absorbed byte sequence.
pub open spec fn spec_gkr_prove_rounds(
    ts: Seq<Seq<Seq<nat>>>,
    n: nat,
    absorbed: Seq<u8>,
    d: nat,
    rounds: nat,
) -> (Seq<Seq<nat>>, Seq<nat>, Seq<u8>)
    decreases rounds,
{
    if rounds == 0 {
        (Seq::empty(), Seq::empty(), absorbed)
    } else {
        let m = spec_gkr_round_msg(ts, n, d);
        let ab1 = absorbed + le_flat(m);
        let c = spec_challenge(ab1);
        let rest = spec_gkr_prove_rounds(
            spec_sp_pe(ts, n, c),
            (n - 1) as nat,
            ab1,
            d,
            (rounds - 1) as nat,
        );
        (seq![m] + rest.0, seq![c] + rest.1, rest.2)
    }
}

/// One generalized round message: entry `i` is the hypercube sum of the
/// composed polynomial with its leading variable fixed to the field element
/// `i`, for `i` from 0 through the degree.
fn get_round_partial_polynomial_proof_gkr(composed_poly: &SumPoly) -> (r: Vec<Fq>)
    requires
        composed_poly.sp_wf(),
        composed_poly.sp_uniform(),
        composed_poly.sp_n_vars() >= 1,
        composed_poly.sp_degree() < usize::MAX,
    ensures
        fq_seq(r@) == spec_gkr_round_msg(
            composed_poly.terms(),
            composed_poly.sp_n_vars(),
            composed_poly.sp_degree(),
        ),
        r@.len() == composed_poly.sp_degree() + 1,
{
    let degree = composed_poly.get_degree();
    let mut out: Vec<Fq> = Vec::new();
    let mut i: usize = 0;
    while i <= degree
        invariant
            i <= degree + 1,
            degree == composed_poly.sp_degree(),
            degree < usize::MAX,
            composed_poly.sp_wf(),
            composed_poly.sp_uniform(),
            composed_poly.sp_n_vars() >= 1,
            out@.len() == i,
            forall|j: int|
                0 <= j < i ==> fq_val(#[trigger] out@[j]) == spec_gkr_round_msg(
                    composed_poly.terms(),
                    composed_poly.sp_n_vars(),
                    composed_poly.sp_degree(),
                )[j],
        decreases degree + 1 - i,
    {
        let point = Fq::from_u64(i as u64);
        let partial = composed_poly.partial_evaluate(&point);
        let reduced = partial.reduce();
        let v = sum_fq_vec(&reduced);
        proof {
            assert(fq_val(point) == i as nat);
        }
        out.push(v);
        i = i + 1;
    }
    proof {
        assert(fq_seq(out@) =~= spec_gkr_round_msg(
            composed_poly.terms(),
            composed_poly.sp_n_vars(),
            composed_poly.sp_degree(),
        ));
    }
    out
}

/// Runs the generalized sum-check prover over a caller-owned transcript: one
/// round per variable, each message of `degree + 1` sampled sums, each
/// challenge derived after absorbing the message, the composed polynomial
/// bound by the challenge between rounds.
pub fn gkr_prove(
    claimed_sum: Fq,
    composed_polynomial: &SumPoly,
    transcript: &mut Transcript,
) -> (r: GkrProof)
    requires
        composed_polynomial.sp_wf(),
        composed_polynomial.sp_uniform(),
        composed_polynomial.sp_degree() < usize::MAX,
    ensures
        r.claimed_sum == claimed_sum,
        r.proof_polynomials@.len() == composed_polynomial.sp_n_vars(),
        r.random_challenges@.len() == composed_polynomial.sp_n_vars(),
        forall|i: int|
            0 <= i < r.proof_polynomials@.len() ==> (#[trigger] r.proof_polynomials@[i])@.len()
                == composed_polynomial.sp_degree() + 1,
        vecs_vals(r.proof_polynomials@) == spec_gkr_prove_rounds(
            composed_polynomial.terms(),
            composed_polynomial.sp_n_vars(),
            old(transcript)@,
            composed_polynomial.sp_degree(),
            composed_polynomial.sp_n_vars(),
        ).0,
        fq_seq(r.random_challenges@) == spec_gkr_prove_rounds(
            composed_polynomial.terms(),
            composed_polynomial.sp_n_vars(),
            old(transcript)@,
            composed_polynomial.sp_degree(),
            composed_polynomial.sp_n_vars(),
        ).1,
        final(transcript)@ == spec_gkr_prove_rounds(
            composed_polynomial.terms(),
            composed_polynomial.sp_n_vars(),
            old(transcript)@,
            composed_polynomial.sp_degree(),
            composed_polynomial.sp_n_vars(),
        ).2,
{
    let ghost ts0 = composed_polynomial.terms();
    let ghost n = composed_polynomial.sp_n_vars();
    let ghost d = composed_polynomial.sp_degree();
    let ghost ab0 = old(transcript)@;
    let ghost full = spec_gkr_prove_rounds(ts0, n, ab0, d, n);
    let num_rounds = composed_polynomial.polys[0].evaluation[0].n_vars;
    let mut proof_polynomials: Vec<Vec<Fq>> = Vec::new();
    let mut random_challenges: Vec<Fq> = Vec::new();
    let mut current_poly = composed_polynomial.duplicate();
    let mut i: usize = 0;
    proof {
        assert(vecs_vals(proof_polynomials@) =~= Seq::<Seq<nat>>::empty());
        assert(fq_seq(random_challenges@) =~= Seq::<nat>::empty());
        assert(Seq::<Seq<nat>>::empty() + full.0 =~= full.0);
        assert(Seq::<nat>::empty() + full.1 =~= full.1);
    }
    while i < num_rounds
        invariant
            i <= num_rounds,
            num_rounds as nat == n,
            d < usize::MAX,
            full == spec_gkr_prove_rounds(ts0, n, ab0, d, n),
            current_poly.sp_wf(),
            current_poly.sp_uniform(),
            current_poly.sp_degree() == d,
            current_poly.sp_n_vars() == n - i,
            proof_polynomials@.len() == i,
            random_challenges@.len() == i,
            forall|j: int|
                0 <= j < i ==> (#[trigger] proof_polynomials@[j])@.len() == d + 1,
            full == {
                let rest = spec_gkr_prove_rounds(
                    current_poly.terms(),
                    (n - i) as nat,
                    transcript@,
                    d,
                    (n - i) as nat,
                );
                (
                    vecs_vals(proof_polynomials@) + rest.0,
                    fq_seq(random_challenges@) + rest.1,
                    rest.2,
                )
            },
        decreases num_rounds - i,
    {
        let ghost ts_cur = current_poly.terms();
        let ghost ab_cur = transcript@;
        let proof_poly = get_round_partial_polynomial_proof_gkr(&current_poly);
        let bytes = fq_vec_to_bytes(&proof_poly);
        transcript.append(bytes.as_slice());
        let ghost m = spec_gkr_round_msg(ts_cur, (n - i) as nat, d);
        proof {
            assert(transcript@ =~= ab_cur + le_flat(m));
        }
        proof_polynomials.push(proof_poly);
        let random_challenge = transcript.get_random_challenge();
        random_challenges.push(random_challenge);
        current_poly = current_poly.partial_evaluate(&random_challenge);
        proof {
            let rest = spec_gkr_prove_rounds(ts_cur, (n - i) as nat, ab_cur, d, (n - i) as nat);
            let rest_next = spec_gkr_prove_rounds(
                current_poly.terms(),
                (n - i - 1) as nat,
                transcript@,
                d,
                (n - i - 1) as nat,
            );
            assert(rest.0 == seq![m] + rest_next.0);
            assert(rest.1 == seq![spec_challenge(transcript@)] + rest_next.1);
            assert(vecs_vals(proof_polynomials@) =~= vecs_vals(proof_polynomials@.drop_last())
                + seq![m]);
            assert(vecs_vals(proof_polynomials@.drop_last()) + (seq![m] + rest_next.0)
                =~= vecs_vals(proof_polynomials@) + rest_next.0);
            assert(fq_seq(random_challenges@) =~= fq_seq(random_challenges@.drop_last()) + seq![
                fq_val(random_challenge),
            ]);
            assert(fq_seq(random_challenges@.drop_last()) + (seq![fq_val(random_challenge)]
                + rest_next.1) =~= fq_seq(random_challenges@) + rest_next.1);
        }
        i = i + 1;
    }
    proof {
        assert(vecs_vals(proof_polynomials@) + Seq::<Seq<nat>>::empty() =~= vecs_vals(
            proof_polynomials@,
        ));
        assert(fq_seq(random_challenges@) + Seq::<nat>::empty() =~= fq_seq(random_challenges@));
    }
    GkrProof { proof_polynomials, claimed_sum, random_challenges }
}

/// The abscissas a round message of length `l` is interpolated over: the field
/// elements 0 through `l - 1`.
pub open spec fn spec_gkr_xs(l: nat) -> Seq<nat> {
    Seq::new(l, |i: int| i as nat)
}

/// The generalized verifier's rounds, replayed: the verdict, the final running
/// claim, the challenges (discarded on rejection, as the rejection value
/// carries a single zero), and the final absorbed byte sequence.
pub open spec fn spec_gkr_verify_rounds(msgs: Seq<Seq<nat>>, sum: nat, absorbed: Seq<u8>) -> (
    bool,
    nat,
    Seq<nat>,
    Seq<u8>,
)
    decreases msgs.len(),
{
    if msgs.len() == 0 {
        (true, sum, Seq::empty(), absorbed)
    } else {
        let m = msgs[0];
        if f_add(m[0], m[1]) != sum {
            (false, 0, seq![0nat], absorbed)
        } else {
            let ab1 = absorbed + le_flat(m);
            let c = spec_challenge(ab1);
            let xs = spec_gkr_xs(m.len());
            if has_duplicate(xs) || !all_denoms_nonzero(xs) {
                (false, 0, seq![0nat], ab1)
            } else {
                let next = spec_uni_eval(spec_interp(xs, m), c);
                let rest = spec_gkr_verify_rounds(msgs.drop_first(), next, ab1);
                if rest.0 {
                    (true, rest.1, seq![c] + rest.2, rest.3)
                } else {
                    rest
                }
            }
        }
    }
}

/// Replays the generalized verifier over a caller-owned transcript: rejects a
/// round whose first two samples do not sum to the running claim, otherwise
/// absorbs the message, draws the challenge, interpolates the message into the
/// round's univariate polynomial and evaluates it at the challenge as the next
/// running claim.  The consistency check reads only the first two samples,
/// even for messages of higher degree — the remaining samples enter through
/// the interpolation alone.  Performs no final oracle check: the caller
/// compares the final claim against a direct evaluation at the challenges.
pub fn gkr_verify(
    round_polys: Vec<Vec<Fq>>,
    claimed_sum: Fq,
    transcript: &mut Transcript,
) -> (r: GkrVerify)
    requires
        forall|i: int| 0 <= i < round_polys@.len() ==> (#[trigger] round_polys@[i])@.len() >= 2,
    ensures
        r.verified == spec_gkr_verify_rounds(
            vecs_vals(round_polys@),
            fq_val(claimed_sum),
            old(transcript)@,
        ).0,
        fq_val(r.final_claimed_sum) == spec_gkr_verify_rounds(
            vecs_vals(round_polys@),
            fq_val(claimed_sum),
            old(transcript)@,
        ).1,
        fq_seq(r.random_challenges@) == spec_gkr_verify_rounds(
            vecs_vals(round_polys@),
            fq_val(claimed_sum),
            old(transcript)@,
        ).2,
        final(transcript)@ == spec_gkr_verify_rounds(
            vecs_vals(round_polys@),
            fq_val(claimed_sum),
            old(transcript)@,
        ).3,
{
    let ghost msgs = vecs_vals(round_polys@);
    let ghost ab0 = old(transcript)@;
    let ghost full = spec_gkr_verify_rounds(msgs, fq_val(claimed_sum), ab0);
    let mut random_challenges: Vec<Fq> = Vec::new();
    let mut running_sum = claimed_sum;
    let zero = Fq::from_u64(0);
    let mut i: usize = 0;
    proof {
        assert(msgs.skip(0) =~= msgs);
        assert(Seq::<nat>::empty() + full.2 =~= full.2);
        assert(fq_seq(random_challenges@) =~= Seq::<nat>::empty());
    }
    while i < round_polys.len()
        invariant
            i <= round_polys@.len(),
            msgs == vecs_vals(round_polys@),
            forall|j: int| 0 <= j < round_polys@.len() ==> (#[trigger] round_polys@[j])@.len()
                >= 2,
            fq_val(zero) == 0,
            ab0 == old(transcript)@,
            full == spec_gkr_verify_rounds(msgs, fq_val(claimed_sum), ab0),
            random_challenges@.len() == i,
            full == {
                let rest = spec_gkr_verify_rounds(
                    msgs.skip(i as int),
                    fq_val(running_sum),
                    transcript@,
                );
                if rest.0 {
                    (rest.0, rest.1, fq_seq(random_challenges@) + rest.2, rest.3)
                } else {
                    rest
                }
            },
        decreases round_polys@.len() - i,
    {
        let ghost m = msgs[i as int];
        let ghost rest_before = spec_gkr_verify_rounds(
            msgs.skip(i as int),
            fq_val(running_sum),
            transcript@,
        );
        proof {
            assert(msgs.skip(i as int)[0] == m);
        }
        let f_b_0 = round_polys[i][0];
        let f_b_1 = round_polys[i][1];
        let pair_sum = fq_add(&f_b_0, &f_b_1);
        if !fq_eq(&pair_sum, &running_sum) {
            proof {
                assert(!rest_before.0 && rest_before.1 == 0 && rest_before.2 =~= seq![0nat]);
            }
            let mut reject_challenges: Vec<Fq> = Vec::new();
            reject_challenges.push(zero);
            proof {
                assert(fq_seq(reject_challenges@) =~= seq![0nat]);
            }
            return GkrVerify {
                verified: false,
                final_claimed_sum: zero,
                random_challenges: reject_challenges,
            };
        }
        let ghost ab_cur = transcript@;
        let bytes = fq_vec_to_bytes(&round_polys[i]);
        transcript.append(bytes.as_slice());
        proof {
            assert(transcript@ =~= ab_cur + le_flat(m));
        }
        let r_c = transcript.get_random_challenge();
        let msg_len = round_polys[i].len();
        let mut xs: Vec<Fq> = Vec::new();
        let mut t: usize = 0;
        while t < msg_len
            invariant
                t <= msg_len,
                xs@.len() == t,
                forall|u: int| 0 <= u < t ==> fq_val(#[trigger] xs@[u]) == u as nat,
            decreases msg_len - t,
        {
            xs.push(Fq::from_u64(t as u64));
            t = t + 1;
        }
        proof {
            assert(fq_seq(xs@) =~= spec_gkr_xs(m.len()));
        }
        let ys = clone_fq_vec(&round_polys[i]);
        let round_uni_poly = match UnivariatePolynomial::interpolate(xs, ys) {
            Ok(p) => p,
            Err(_) => {
                proof {
                    assert(!rest_before.0 && rest_before.1 == 0 && rest_before.2 =~= seq![0nat]);
                }
                let mut reject_challenges: Vec<Fq> = Vec::new();
                reject_challenges.push(zero);
                proof {
                    assert(fq_seq(reject_challenges@) =~= seq![0nat]);
                }
                return GkrVerify {
                    verified: false,
                    final_claimed_sum: zero,
                    random_challenges: reject_challenges,
                };
            }
        };
        random_challenges.push(r_c);
        running_sum = round_uni_poly.evaluate(r_c);
        proof {
            assert(msgs.skip(i as int).drop_first() =~= msgs.skip(i as int + 1));
            let rest_after = spec_gkr_verify_rounds(
                msgs.skip(i as int + 1),
                fq_val(running_sum),
                transcript@,
            );
            if rest_after.0 {
                assert(fq_seq(random_challenges@) =~= fq_seq(random_challenges@.drop_last())
                    + seq![fq_val(r_c)]);
                assert(fq_seq(random_challenges@.drop_last()) + (seq![fq_val(r_c)]
                    + rest_after.2) =~= fq_seq(random_challenges@) + rest_after.2);
            }
        }
        i = i + 1;
    }
    proof {
        assert(msgs.skip(i as int) =~= Seq::<Seq<nat>>::empty());
        assert(fq_seq(random_challenges@) + Seq::<nat>::empty() =~= fq_seq(random_challenges@));
    }
    GkrVerify {
        verified: true,
        final_claimed_sum: running_sum,
        random_challenges,
    }
}

/// The running claim the generalized verifier holds before round `j`, and the
/// bytes absorbed by then: the claim chain the round messages must follow.
pub open spec fn spec_gkr_round_state(msgs: Seq<Seq<nat>>, sum: nat, absorbed: Seq<u8>, j: int) -> (
    nat,
    Seq<u8>,
)
    decreases j,
{
    if j <= 0 || msgs.len() == 0 {
        (sum, absorbed)
    } else {
        let m = msgs[0];
        let ab1 = absorbed + le_flat(m);
        let c = spec_challenge(ab1);
        let xs = spec_gkr_xs(m.len());
        spec_gkr_round_state(msgs.drop_first(), spec_uni_eval(spec_interp(xs, m), c), ab1, j - 1)
    }
}

/// If the generalized verifier accepts, then every round message's first two
/// samples sum to the running claim of its round: no round slipped through.
pub proof fn lemma_gkr_verify_checks_every_round(
    msgs: Seq<Seq<nat>>,
    sum: nat,
    absorbed: Seq<u8>,
    j: int,
)
    requires
        0 <= j < msgs.len(),
        spec_gkr_verify_rounds(msgs, sum, absorbed).0,
    ensures
        f_add(msgs[j][0], msgs[j][1]) == spec_gkr_round_state(msgs, sum, absorbed, j).0,
    decreases j,
{
    let m = msgs[0];
    let ab1 = absorbed + le_flat(m);
    let c = spec_challenge(ab1);
    let xs = spec_gkr_xs(m.len());
    if j == 0 {
        assert(f_add(m[0], m[1]) == sum);
    } else {
        let next = spec_uni_eval(spec_interp(xs, m), c);
        assert(spec_gkr_verify_rounds(msgs.drop_first(), next, ab1).0);
        lemma_gkr_verify_checks_every_round(msgs.drop_first(), next, ab1, j - 1);
        assert(msgs.drop_first()[j - 1] == msgs[j]);
    }
}

/// A round message whose two leading samples do not sum to the claim the chain
/// demands of its round makes the generalized verifier reject: tampering with
/// any single round message is caught.
pub proof fn lemma_gkr_verify_rejects_tampered(
    msgs: Seq<Seq<nat>>,
    sum: nat,
    absorbed: Seq<u8>,
    j: int,
)
    requires
        0 <= j < msgs.len(),
        f_add(msgs[j][0], msgs[j][1]) != spec_gkr_round_state(msgs, sum, absorbed, j).0,
    ensures
        !spec_gkr_verify_rounds(msgs, sum, absorbed).0,
{
    if spec_gkr_verify_rounds(msgs, sum, absorbed).0 {
        lemma_gkr_verify_checks_every_round(msgs, sum, absorbed, j);
    }
}

/// The prover emits exactly one message per round.
pub proof fn lemma_spec_prove_rounds_len(e: Seq<nat>, n: nat, absorbed: Seq<u8>, rounds: nat)
    ensures
        spec_prove_rounds(e, n, absorbed, rounds).0.len() == rounds,
    decreases rounds,
{
    if rounds > 0 {
        let m = spec_round_pair(e, n);
        let ab1 = absorbed + fq_bytes_be(m.0) + fq_bytes_be(m.1);
        let c = spec_challenge(ab1);
        lemma_spec_prove_rounds_len(spec_pe(e, n, 0, c), (n - 1) as nat, ab1, (rounds - 1) as nat);
    }
}

/// A round message's halves are the field sums of the two halves of the
/// evaluation vector, so together they re-sum to the whole vector; and the
/// interpolated next claim is the sum of the vector bound at the challenge.
proof fn lemma_round_pair_facts(e: Seq<nat>, n: nat, c: nat)
    requires
        n >= 1,
        e.len() == pow2(n),
        forall|i: int| 0 <= i < e.len() ==> #[trigger] e[i] < crate::field::fq_modulus(),
    ensures
        f_add(spec_round_pair(e, n).0, spec_round_pair(e, n).1) == spec_sum_seq(e),
        f_aff(spec_round_pair(e, n).0, spec_round_pair(e, n).1, c) == spec_sum_seq(
            spec_pe(e, n, 0, c),
        ),
{
    let h = pow2((n - 1) as nat) as int;
    let a = e.take(h);
    let b = e.skip(h);
    vstd::arithmetic::power2::lemma_pow2_unfold(n);
    let sa = spec_sum_prefix(a, h);
    let sb = spec_sum_prefix(b, h);
    lemma_sum_prefix_bounded(a, h);
    lemma_sum_prefix_bounded(b, h);
    // the two message halves are the sums of the halves
    lemma_spec_pe_head_split(e, n, 0);
    lemma_sum_affine(a, b, 0, h);
    crate::field::lemma_f_aff_endpoints(sa, sb);
    assert(spec_round_pair(e, n).0 == sa);
    lemma_spec_pe_head_split(e, n, 1);
    lemma_sum_affine(a, b, 1, h);
    assert(spec_round_pair(e, n).1 == sb);
    // and together they sum the whole vector
    lemma_sum_prefix_split(e, h, h);
    assert(spec_sum_prefix(a, h) == spec_sum_prefix(e, h)) by {
        lemma_sum_prefix_take_agrees(e, h, h);
    }
    // the claim after binding the challenge
    lemma_spec_pe_head_split(e, n, c);
    lemma_sum_affine(a, b, c, h);
}

/// A partial field sum reads only the entries below the cut, so it agrees on a
/// sequence and its prefix.
proof fn lemma_sum_prefix_take_agrees(s: Seq<nat>, h: int, i: int)
    requires
        0 <= i <= h <= s.len(),
    ensures
        spec_sum_prefix(s.take(h), i) == spec_sum_prefix(s, i),
    decreases i,
{
    if i > 0 {
        lemma_sum_prefix_take_agrees(s, h, i - 1);
        assert(s.take(h)[i - 1] == s[i - 1]);
    }
}

/// Completeness of the basic sum-check rounds: on the proof produced for the
/// true hypercube sum, every round check passes, and the verifier's final
/// running claim is the polynomial's value at the derived challenge point.
pub proof fn lemma_sumcheck_rounds_complete(e: Seq<nat>, n: nat, absorbed: Seq<u8>)
    requires
        e.len() == pow2(n),
        forall|i: int| 0 <= i < e.len() ==> #[trigger] e[i] < crate::field::fq_modulus(),
    ensures
        ({
            let msgs = spec_prove_rounds(e, n, absorbed, n).0;
            let r = spec_verify_rounds(msgs, spec_sum_seq(e), absorbed);
            r.0 && r.1 == spec_eval(e, n, r.2)
        }),
    decreases n,
{
    let msgs = spec_prove_rounds(e, n, absorbed, n).0;
    let sum = spec_sum_seq(e);
    if n == 0 {
        vstd::arithmetic::power2::lemma2_to64();
        assert(msgs =~= Seq::<(nat, nat)>::empty());
        assert(sum == f_add(spec_sum_prefix(e, 0), e[0]));
        vstd::arithmetic::div_mod::lemma_small_mod(e[0], crate::field::fq_modulus());
        assert(spec_mpe(e, 0, Seq::<nat>::empty()) == e);
    } else {
        let m = spec_round_pair(e, n);
        let ab1 = absorbed + fq_bytes_be(m.0) + fq_bytes_be(m.1);
        let c = spec_challenge(ab1);
        let e1 = spec_pe(e, n, 0, c);
        let rest_msgs = spec_prove_rounds(e1, (n - 1) as nat, ab1, (n - 1) as nat).0;
        assert(msgs == seq![m] + rest_msgs);
        assert(msgs[0] == m);
        assert(msgs.drop_first() =~= rest_msgs);
        lemma_round_pair_facts(e, n, c);
        assert(f_add(m.0, m.1) == sum);
        lemma_spec_pe_bounded(e, n, 0, c);
        lemma_sumcheck_rounds_complete(e1, (n - 1) as nat, ab1);
        let rest_r = spec_verify_rounds(rest_msgs, spec_sum_seq(e1), ab1);
        let r = spec_verify_rounds(msgs, sum, absorbed);
        assert(f_aff(m.0, m.1, c) == spec_sum_seq(e1));
        assert(r == (rest_r.0, rest_r.1, seq![c] + rest_r.2, rest_r.3));
        // the oracle evaluation folds the challenge into the reduced vector
        assert((seq![c] + rest_r.2)[0] == c);
        assert((seq![c] + rest_r.2).drop_first() =~= rest_r.2);
        assert(spec_mpe(e, n, seq![c] + rest_r.2) == spec_mpe(e1, (n - 1) as nat, rest_r.2));
    }
}

/// Completeness of the basic sum-check: the proof produced for the true
/// hypercube sum of a polynomial always verifies against it.
pub proof fn lemma_sumcheck_completeness(e: Seq<nat>, n: nat)
    requires
        e.len() == pow2(n),
        forall|i: int| 0 <= i < e.len() ==> #[trigger] e[i] < crate::field::fq_modulus(),
    ensures
        spec_verify(
            e,
            n,
            spec_sum_seq(e),
            spec_prove_rounds(e, n, spec_initial_absorb(e, spec_sum_seq(e)), n).0,
        ),
{
    let ab0 = spec_initial_absorb(e, spec_sum_seq(e));
    lemma_spec_prove_rounds_len(e, n, ab0, n);
    lemma_sumcheck_rounds_complete(e, n, ab0);
}

} // verus!
