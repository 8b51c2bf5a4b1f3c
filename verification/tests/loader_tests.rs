use zkproof::errors::ServiceError;
use zkproof::field::{fr_eq, fr_one, Fr};
use zkproof::loader::{load, serialize_circuit, serialize_signal_map};
use zkproof::r1cs::{Constraint, ConstraintSystem, LinComb, Term};
use zkproof::witness::SignalMap;

fn lc(terms: Vec<(usize, Fr)>) -> LinComb {
    LinComb { terms: terms.into_iter().map(|(signal, coeff)| Term { signal, coeff }).collect() }
}

fn multiplier() -> (ConstraintSystem, SignalMap) {
    let cs = ConstraintSystem {
        num_public: 1,
        num_private: 2,
        num_aux: 0,
        constraints: vec![Constraint {
            a: lc(vec![(2, fr_one())]),
            b: lc(vec![(3, fr_one())]),
            c: lc(vec![(1, fr_one())]),
        }],
    };
    let sm = SignalMap {
        public_names: vec!["z".to_string()],
        private_names: vec!["x".to_string(), "y".to_string()],
    };
    (cs, sm)
}

fn artifacts() -> (Vec<u8>, Vec<u8>) {
    let (cs, sm) = multiplier();
    (serialize_circuit(&cs).unwrap(), serialize_signal_map(&sm).unwrap())
}

#[test]
fn round_trip() {
    let (cb, sb) = artifacts();
    let (cs, sm) = load(&cb, &sb).unwrap();
    assert_eq!(cs.num_public, 1);
    assert_eq!(cs.num_private, 2);
    assert_eq!(cs.num_aux, 0);
    assert_eq!(cs.constraints.len(), 1);
    assert_eq!(cs.constraints[0].a.terms.len(), 1);
    assert_eq!(cs.constraints[0].a.terms[0].signal, 2);
    assert!(fr_eq(&cs.constraints[0].a.terms[0].coeff, &fr_one()));
    assert_eq!(sm.public_names, vec!["z".to_string()]);
    assert_eq!(sm.private_names, vec!["x".to_string(), "y".to_string()]);
    // Loading is exact: the accepted bytes re-encode to themselves.
    assert_eq!(serialize_circuit(&cs).unwrap(), cb);
    assert_eq!(serialize_signal_map(&sm).unwrap(), sb);
}

#[test]
fn bad_magic_is_malformed() {
    let (mut cb, sb) = artifacts();
    cb[0] = 0;
    assert_eq!(load(&cb, &sb).unwrap_err(), ServiceError::MalformedCircuit);
}

#[test]
fn bad_version_is_malformed() {
    let (mut cb, sb) = artifacts();
    cb[4] = 2;
    assert_eq!(load(&cb, &sb).unwrap_err(), ServiceError::MalformedCircuit);
}

#[test]
fn truncated_is_malformed() {
    let (cb, sb) = artifacts();
    let cut = cb[..cb.len() - 1].to_vec();
    assert_eq!(load(&cut, &sb).unwrap_err(), ServiceError::MalformedCircuit);
}

#[test]
fn trailing_byte_is_malformed() {
    let (mut cb, sb) = artifacts();
    cb.push(0);
    assert_eq!(load(&cb, &sb).unwrap_err(), ServiceError::MalformedCircuit);
}

#[test]
fn signal_out_of_range_is_malformed() {
    let (cs, sm) = multiplier();
    let mut wide = cs;
    wide.constraints[0].a.terms[0].signal = 9;
    let cb = serialize_circuit(&wide).unwrap();
    let sb = serialize_signal_map(&sm).unwrap();
    assert_eq!(load(&cb, &sb).unwrap_err(), ServiceError::MalformedCircuit);
}

#[test]
fn non_canonical_coefficient_is_malformed() {
    let (cs, sm) = multiplier();
    let mut alias = cs;
    // The field order itself: a value, but not in canonical form.
    alias.constraints[0].a.terms[0].coeff = Fr {
        l0: 0x43E1F593F0000001,
        l1: 0x2833E84879B97091,
        l2: 0xB85045B68181585D,
        l3: 0x30644E72E131A029,
    };
    let cb = serialize_circuit(&alias).unwrap();
    let sb = serialize_signal_map(&sm).unwrap();
    assert_eq!(load(&cb, &sb).unwrap_err(), ServiceError::MalformedCircuit);
}

#[test]
fn count_mismatch_is_malformed() {
    let (cs, _) = multiplier();
    let fewer = SignalMap {
        public_names: vec!["z".to_string()],
        private_names: vec!["x".to_string()],
    };
    let cb = serialize_circuit(&cs).unwrap();
    let sb = serialize_signal_map(&fewer).unwrap();
    assert_eq!(load(&cb, &sb).unwrap_err(), ServiceError::MalformedCircuit);
}

#[test]
fn oversized_count_is_malformed() {
    let (mut cb, sb) = artifacts();
    let n: u32 = 200_000_000;
    cb[8..12].copy_from_slice(&n.to_le_bytes());
    assert_eq!(load(&cb, &sb).unwrap_err(), ServiceError::MalformedCircuit);
}

#[test]
fn signal_map_bad_magic_is_malformed() {
    let (cb, mut sb) = artifacts();
    sb[0] = 0;
    assert_eq!(load(&cb, &sb).unwrap_err(), ServiceError::MalformedCircuit);
}

#[test]
fn signal_map_bad_version_is_malformed() {
    let (cb, mut sb) = artifacts();
    sb[4] = 9;
    assert_eq!(load(&cb, &sb).unwrap_err(), ServiceError::MalformedCircuit);
}

#[test]
fn signal_map_invalid_utf8_is_malformed() {
    let (cb, mut sb) = artifacts();
    // The first name's single byte sits right after the header and its
    // length field; 0xFF is never valid UTF-8.
    sb[20] = 0xFF;
    assert_eq!(load(&cb, &sb).unwrap_err(), ServiceError::MalformedCircuit);
}
