use ark_crypto_primitives::sponge::poseidon::{find_poseidon_ark_and_mds, PoseidonConfig,
    PoseidonSponge};
use ark_crypto_primitives::sponge::{CryptographicSponge, FieldBasedCryptographicSponge};
use ark_ff::PrimeField;
use ark_pallas::Fq;
use pasta_merkle::field::FieldElem;
use pasta_merkle::hash::{hashpd, poseidon_hash};

fn fe(x: u64) -> FieldElem {
    FieldElem::from_u64(x)
}

// Recomputes the hash with the sponge driven directly, so a library hash that
// mangled its input or its conversions would not match.
fn direct_hash(input: &[Fq]) -> Fq {
    let (ark, mds) = find_poseidon_ark_and_mds::<Fq>(Fq::MODULUS_BIT_SIZE as u64, 2, 8, 31, 0);
    let mut sponge = PoseidonSponge::new(&PoseidonConfig::new(8, 31, 5, mds, ark, 2, 1));
    sponge.absorb(&input);
    sponge.squeeze_native_field_elements(1)[0]
}

fn to_elem(x: Fq) -> FieldElem {
    let limbs = x.into_bigint().0;
    FieldElem { l0: limbs[0], l1: limbs[1], l2: limbs[2], l3: limbs[3] }
}

#[test]
fn library_hash_matches_direct_sponge() {
    let expect = direct_hash(&[Fq::from(1u64), Fq::from(2u64)]);
    assert_eq!(hashpd(fe(1), fe(2)), to_elem(expect));

    let expect3 = direct_hash(&[Fq::from(7u64), Fq::from(8u64), Fq::from(9u64)]);
    let v = vec![fe(7), fe(8), fe(9)];
    assert_eq!(poseidon_hash(&v), to_elem(expect3));
}

#[test]
fn from_u64_is_canonical_encoding() {
    assert_eq!(fe(5), to_elem(Fq::from(5u64)));
    assert_eq!(FieldElem::zero(), to_elem(Fq::from(0u64)));
}

#[test]
fn hash_order_matters() {
    assert_ne!(hashpd(fe(1), fe(2)), hashpd(fe(2), fe(1)));
}
