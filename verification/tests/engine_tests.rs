use ark_bn254::{Bn254, Fr as BnFr};
use ark_circom::circom::R1CS;
use ark_circom::CircomCircuit;
use ark_groth16::Groth16;
use ark_serialize::CanonicalSerialize;
use ark_snark::SNARK;
use zkproof::engine::{
    prove, prove_and_verify, verify, verify_with_key_bytes, vk_from_bytes, Proof, ProvingKey,
};
use zkproof::errors::ServiceError;
use zkproof::field::{fr_from_u64, fr_one, Fr};
use zkproof::r1cs::{Constraint, ConstraintSystem, LinComb, Term};
use zkproof::witness::{build, public_inputs_of, PublicInputs, SignalMap, Witness};

fn lc(terms: Vec<(usize, Fr)>) -> LinComb {
    LinComb { terms: terms.into_iter().map(|(signal, coeff)| Term { signal, coeff }).collect() }
}

fn multiplier() -> (ConstraintSystem, SignalMap) {
    let cs = ConstraintSystem {
        num_public: 1,
        num_private: 2,
        num_aux: 0,
        constraints: vec![Constraint {
            a: lc(vec![(2, fr_one())]),
            b: lc(vec![(3, fr_one())]),
            c: lc(vec![(1, fr_one())]),
        }],
    };
    let sm = SignalMap {
        public_names: vec!["z".to_string()],
        private_names: vec!["x".to_string(), "y".to_string()],
    };
    (cs, sm)
}

// A circuit-specific one-time setup over the same constraint shape,
// done directly with the arkworks toolchain, as the offline ceremony
// would be.
fn setup() -> (Vec<u8>, Vec<u8>) {
    let shape = CircomCircuit::<BnFr> {
        r1cs: R1CS {
            num_inputs: 2,
            num_aux: 2,
            num_variables: 4,
            constraints: vec![(
                vec![(2, BnFr::from(1u64))],
                vec![(3, BnFr::from(1u64))],
                vec![(1, BnFr::from(1u64))],
            )],
            wire_mapping: None,
        },
        witness: None,
    };
    let mut rng = rand::thread_rng();
    let (pk, vk) = Groth16::<Bn254>::circuit_specific_setup(shape, &mut rng).unwrap();
    let mut pk_bytes: Vec<u8> = Vec::new();
    pk.serialize_compressed(&mut pk_bytes).unwrap();
    let mut vk_bytes: Vec<u8> = Vec::new();
    vk.serialize_compressed(&mut vk_bytes).unwrap();
    (pk_bytes, vk_bytes)
}

fn inputs(x: u64, y: u64, z: u64) -> Vec<(String, Fr)> {
    vec![
        ("x".to_string(), fr_from_u64(x)),
        ("y".to_string(), fr_from_u64(y)),
        ("z".to_string(), fr_from_u64(z)),
    ]
}

fn witness_for(x: u64, y: u64, z: u64) -> (ConstraintSystem, SignalMap, Witness) {
    let (cs, sm) = multiplier();
    let w = build(&cs, &sm, &inputs(x, y, z)).unwrap();
    (cs, sm, w)
}

#[test]
fn round_trip_proof_verifies() {
    let (pk_bytes, vk_bytes) = setup();
    let (cs, _, w) = witness_for(3, 5, 15);
    let proof = prove(&ProvingKey { bytes: pk_bytes }, &cs, &w).unwrap();
    let public = public_inputs_of(&cs, &w);
    let vk = vk_from_bytes(vk_bytes).unwrap();
    assert_eq!(vk.expected_inputs, 1);
    assert_eq!(verify(&vk, &public, &proof), Ok(true));
}

#[test]
fn altered_public_input_fails() {
    let (pk_bytes, vk_bytes) = setup();
    let (cs, _, w) = witness_for(3, 5, 15);
    let proof = prove(&ProvingKey { bytes: pk_bytes }, &cs, &w).unwrap();
    let vk = vk_from_bytes(vk_bytes).unwrap();
    let altered = PublicInputs { values: vec![fr_from_u64(16)] };
    assert_eq!(verify(&vk, &altered, &proof), Ok(false));
}

#[test]
fn tampered_proof_never_verifies() {
    let (pk_bytes, vk_bytes) = setup();
    let (cs, _, w) = witness_for(3, 5, 15);
    let proof = prove(&ProvingKey { bytes: pk_bytes }, &cs, &w).unwrap();
    let public = public_inputs_of(&cs, &w);
    let vk = vk_from_bytes(vk_bytes).unwrap();
    for byte_index in [0, proof.bytes.len() / 2, proof.bytes.len() - 1] {
        for bit in [1u8, 128u8] {
            let mut bytes = proof.bytes.clone();
            bytes[byte_index] ^= bit;
            let r = verify(&vk, &public, &Proof { bytes });
            // A flipped bit either breaks the encoding or fails the
            // pairing check; it must never verify.
            assert_ne!(r, Ok(true));
        }
    }
}

#[test]
fn fresh_randomness_gives_distinct_valid_proofs() {
    let (pk_bytes, vk_bytes) = setup();
    let (cs, _, w) = witness_for(3, 5, 15);
    let pk = ProvingKey { bytes: pk_bytes };
    let p1 = prove(&pk, &cs, &w).unwrap();
    let p2 = prove(&pk, &cs, &w).unwrap();
    assert_ne!(p1.bytes, p2.bytes);
    let public = public_inputs_of(&cs, &w);
    let vk = vk_from_bytes(vk_bytes).unwrap();
    assert_eq!(verify(&vk, &public, &p1), Ok(true));
    assert_eq!(verify(&vk, &public, &p2), Ok(true));
}

#[test]
fn input_length_mismatch_is_reported() {
    let (pk_bytes, vk_bytes) = setup();
    let (cs, _, w) = witness_for(3, 5, 15);
    let proof = prove(&ProvingKey { bytes: pk_bytes }, &cs, &w).unwrap();
    let vk = vk_from_bytes(vk_bytes).unwrap();
    let short = PublicInputs { values: vec![] };
    assert_eq!(verify(&vk, &short, &proof), Err(ServiceError::InputLengthMismatch));
    let long = PublicInputs { values: vec![fr_from_u64(15), fr_from_u64(1)] };
    assert_eq!(verify(&vk, &long, &proof), Err(ServiceError::InputLengthMismatch));
}

#[test]
fn garbage_key_is_malformed() {
    let r = vk_from_bytes(vec![1, 2, 3]);
    assert_eq!(r.unwrap_err(), ServiceError::MalformedCircuit);
}

#[test]
fn verify_with_key_bytes_runs_end_to_end() {
    let (pk_bytes, vk_bytes) = setup();
    let (cs, _, w) = witness_for(4, 6, 24);
    let proof = prove(&ProvingKey { bytes: pk_bytes }, &cs, &w).unwrap();
    let public = public_inputs_of(&cs, &w);
    assert_eq!(verify_with_key_bytes(vk_bytes, &public, &proof), Ok(true));
}

#[test]
fn prove_and_verify_round_trips() {
    let (pk_bytes, vk_bytes) = setup();
    let (cs, _, w) = witness_for(7, 8, 56);
    let pk = ProvingKey { bytes: pk_bytes };
    let vk = vk_from_bytes(vk_bytes).unwrap();
    assert_eq!(prove_and_verify(&pk, &vk, &cs, &w), Ok(true));
}

#[test]
fn prove_rejects_garbage_key() {
    let (cs, _, w) = witness_for(3, 5, 15);
    let r = prove(&ProvingKey { bytes: vec![9, 9, 9] }, &cs, &w);
    assert_eq!(r.unwrap_err(), ServiceError::MalformedCircuit);
}
