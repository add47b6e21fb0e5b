//! The Fiat-Shamir transcript: a running accumulator of every protocol message
//! absorbed so far, from which field-element challenges are derived
//! deterministically by hashing.
//!
//! The view of a transcript is the byte sequence it has absorbed.  A challenge
//! is a pure function of that sequence, so a prover and a verifier that absorb
//! byte-identical messages in byte-identical order derive identical challenges.

use sha3::Digest;
use vstd::prelude::*;

use crate::field::{fq_from_le_bytes_mod_order, fq_modulus, fq_val, le_bytes_to_nat, Fq};

verus! {

/// The Keccak-256 digest of a byte sequence.  Named, not stated: the digest is
/// a function of the input bytes alone, and nothing here claims what it is on
/// any particular input.
pub uninterp spec fn keccak256_of(s: Seq<u8>) -> Seq<u8>;

/// Relies on the sha3 crate's `Keccak256` (through `Digest::digest`): the
/// 32-byte Keccak-256 digest of the input, depending on the input alone.
#[verifier::external_body]
fn keccak256(data: &[u8]) -> (r: Vec<u8>)
    ensures
        r@ == keccak256_of(data@),
        r@.len() == 32,
{
    sha3::Keccak256::digest(data).to_vec()
}

/// The challenge derived from an absorbed byte sequence: the digest read as a
/// little-endian integer, reduced modulo the field order.
pub open spec fn spec_challenge(absorbed: Seq<u8>) -> nat {
    le_bytes_to_nat(keccak256_of(absorbed)) % fq_modulus()
}

/// A Fiat-Shamir transcript.  Created once per proof or verification session,
/// grown by `append`, and read (without being consumed) by
/// `get_random_challenge`.
pub struct Transcript {
    data: Vec<u8>,
}

impl View for Transcript {
    type V = Seq<u8>;

    closed spec fn view(&self) -> Seq<u8> {
        self.data@
    }
}

impl Transcript {
    /// A transcript that has absorbed nothing.
    pub fn new() -> (r: Self)
        ensures
            r@ == Seq::<u8>::empty(),
    {
        let t = Transcript { data: Vec::new() };
        proof {
            assert(t@ =~= Seq::<u8>::empty());
        }
        t
    }

    /// Absorbs `preimage`; order-sensitive and never undone within a session.
    pub fn append(&mut self, preimage: &[u8])
        ensures
            final(self)@ == old(self)@ + preimage@,
    {
        let mut i: usize = 0;
        while i < preimage.len()
            invariant
                i <= preimage@.len(),
                self.data@ =~= old(self).data@ + preimage@.take(i as int),
            decreases preimage@.len() - i,
        {
            self.data.push(preimage[i]);
            i = i + 1;
        }
        proof {
            assert(self.data@ =~= old(self).data@ + preimage@);
        }
    }

    /// Derives the challenge the absorbed bytes determine, without mutating the
    /// running state: asking twice with no `append` between returns the same
    /// element.
    pub fn get_random_challenge(&self) -> (r: Fq)
        ensures
            fq_val(r) == spec_challenge(self@),
    {
        let digest = keccak256(self.data.as_slice());
        fq_from_le_bytes_mod_order(digest.as_slice())
    }
}

/// Transcript determinism: challenges depend on nothing but the absorbed
/// bytes, so two transcripts that have absorbed the same sequence yield the
/// same challenge.
pub proof fn lemma_transcript_determinism(t1: Transcript, t2: Transcript)
    requires
        t1@ == t2@,
    ensures
        spec_challenge(t1@) == spec_challenge(t2@),
{
}

} // verus!
