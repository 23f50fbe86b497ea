use vstd::prelude::*;

use crate::field::FieldElem;
use ark_crypto_primitives::sponge::poseidon::{find_poseidon_ark_and_mds, PoseidonConfig,
    PoseidonSponge};
use ark_crypto_primitives::sponge::{CryptographicSponge, FieldBasedCryptographicSponge};
use ark_ff::PrimeField;
use ark_ff::Zero;
use ark_pallas::Fq;

verus! {

/// The value of the Poseidon sponge hash of a sequence of field elements.
/// The sponge's permutation is far too large to restate here, so the result
/// is only given a name; it is a pure function of the input sequence, since
/// the sponge's parameters are fixed and its state starts from zero.
pub uninterp spec fn poseidon_hash_spec(input: Seq<FieldElem>) -> FieldElem;

/// The hash that combines two sibling hashes into their parent's hash.
pub open spec fn hash2(a: FieldElem, b: FieldElem) -> FieldElem {
    poseidon_hash_spec(seq![a, b])
}

/// Hashes a sequence of field elements with the Poseidon sponge.
///
/// Relies on ark_crypto_primitives' PoseidonSponge over ark_pallas::Fq: the
/// round constants and MDS matrix come from the deterministic Grain LFSR
/// (`find_poseidon_ark_and_mds` on fixed inputs), a fresh sponge starts from
/// the all-zero state, and absorb/squeeze are pure functions of parameters,
/// state and input, so the squeezed element depends on `input` alone.
/// Non-canonical limb encodings (at or above the modulus) are absorbed as
/// zero, which keeps the result a function of the limbs.
#[verifier::external_body]
pub fn poseidon_hash(input: &Vec<FieldElem>) -> (r: FieldElem)
    ensures
        r == poseidon_hash_spec(input@),
{
    let mut fps: Vec<Fq> = Vec::with_capacity(input.len());
    for e in input.iter() {
        fps.push(Fq::from_bigint(ark_ff::BigInt::new([e.l0, e.l1, e.l2, e.l3]))
            .unwrap_or(Fq::zero()));
    }
    let (ark, mds) =
        find_poseidon_ark_and_mds::<Fq>(Fq::MODULUS_BIT_SIZE as u64, 2, 8, 31, 0);
    let mut sponge = PoseidonSponge::new(&PoseidonConfig::new(8, 31, 5, mds, ark, 2, 1));
    sponge.absorb(&fps);
    let out = sponge.squeeze_native_field_elements(1);
    let limbs = out[0].into_bigint().0;
    FieldElem { l0: limbs[0], l1: limbs[1], l2: limbs[2], l3: limbs[3] }
}

/// Hashes a single field element.
pub fn hashp(fp: FieldElem) -> (r: FieldElem)
    ensures
        r == poseidon_hash_spec(seq![fp]),
{
    let mut input: Vec<FieldElem> = Vec::new();
    input.push(fp);
    proof {
        assert(input@ =~= seq![fp]);
    }
    poseidon_hash(&input)
}

/// Hashes a pair of field elements: the parent-of-two rule of the tree.
pub fn hashpd(fp: FieldElem, fpd: FieldElem) -> (r: FieldElem)
    ensures
        r == hash2(fp, fpd),
{
    let mut input: Vec<FieldElem> = Vec::new();
    input.push(fp);
    input.push(fpd);
    proof {
        assert(input@ =~= seq![fp, fpd]);
    }
    poseidon_hash(&input)
}

} // verus!
