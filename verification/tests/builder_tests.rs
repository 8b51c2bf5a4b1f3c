use zkproof::errors::ServiceError;
use zkproof::field::{fr_eq, fr_from_u64, fr_one, Fr};
use zkproof::r1cs::{Constraint, ConstraintSystem, LinComb, Term};
use zkproof::witness::{build, public_inputs_of, SignalMap};

fn lc(terms: Vec<(usize, Fr)>) -> LinComb {
    LinComb { terms: terms.into_iter().map(|(signal, coeff)| Term { signal, coeff }).collect() }
}

// One public signal z (index 1), private x (2) and y (3), one
// constraint x * y = z.
fn multiplier() -> (ConstraintSystem, SignalMap) {
    let cs = ConstraintSystem {
        num_public: 1,
        num_private: 2,
        num_aux: 0,
        constraints: vec![Constraint {
            a: lc(vec![(2, fr_one())]),
            b: lc(vec![(3, fr_one())]),
            c: lc(vec![(1, fr_one())]),
        }],
    };
    let sm = SignalMap {
        public_names: vec!["z".to_string()],
        private_names: vec!["x".to_string(), "y".to_string()],
    };
    (cs, sm)
}

// Same computation through an auxiliary signal w (index 4): the first
// constraint defines w = x * y, the second checks w * 1 = z.
fn multiplier_with_aux() -> (ConstraintSystem, SignalMap) {
    let cs = ConstraintSystem {
        num_public: 1,
        num_private: 2,
        num_aux: 1,
        constraints: vec![
            Constraint {
                a: lc(vec![(2, fr_one())]),
                b: lc(vec![(3, fr_one())]),
                c: lc(vec![(4, fr_one())]),
            },
            Constraint {
                a: lc(vec![(4, fr_one())]),
                b: lc(vec![(0, fr_one())]),
                c: lc(vec![(1, fr_one())]),
            },
        ],
    };
    let sm = SignalMap {
        public_names: vec!["z".to_string()],
        private_names: vec!["x".to_string(), "y".to_string()],
    };
    (cs, sm)
}

fn inputs(x: u64, y: u64, z: u64) -> Vec<(String, Fr)> {
    vec![
        ("x".to_string(), fr_from_u64(x)),
        ("y".to_string(), fr_from_u64(y)),
        ("z".to_string(), fr_from_u64(z)),
    ]
}

#[test]
fn build_satisfying_witness() {
    let (cs, sm) = multiplier();
    let w = build(&cs, &sm, &inputs(3, 5, 15)).unwrap();
    assert_eq!(w.signals.len(), 4);
    assert!(fr_eq(&w.signals[0], &fr_one()));
    assert!(fr_eq(&w.signals[1], &fr_from_u64(15)));
    assert!(fr_eq(&w.signals[2], &fr_from_u64(3)));
    assert!(fr_eq(&w.signals[3], &fr_from_u64(5)));
}

#[test]
fn build_missing_input() {
    let (cs, sm) = multiplier();
    let partial = vec![
        ("y".to_string(), fr_from_u64(5)),
        ("z".to_string(), fr_from_u64(15)),
    ];
    let r = build(&cs, &sm, &partial);
    assert_eq!(r.unwrap_err(), ServiceError::MissingInput("x".to_string()));
}

#[test]
fn build_unsatisfied_constraint() {
    let (cs, sm) = multiplier();
    let r = build(&cs, &sm, &inputs(3, 5, 16));
    assert_eq!(r.unwrap_err(), ServiceError::UnsatisfiedConstraint(0));
}

#[test]
fn build_forward_pass_fills_aux() {
    let (cs, sm) = multiplier_with_aux();
    let w = build(&cs, &sm, &inputs(3, 5, 15)).unwrap();
    assert_eq!(w.signals.len(), 5);
    assert!(fr_eq(&w.signals[4], &fr_from_u64(15)));
}

#[test]
fn build_aux_detects_bad_public() {
    let (cs, sm) = multiplier_with_aux();
    // The defining constraint always holds; the check constraint fails.
    let r = build(&cs, &sm, &inputs(3, 5, 14));
    assert_eq!(r.unwrap_err(), ServiceError::UnsatisfiedConstraint(1));
}

#[test]
fn public_inputs_are_the_public_prefix() {
    let (cs, sm) = multiplier();
    let w = build(&cs, &sm, &inputs(2, 2, 4)).unwrap();
    let p = public_inputs_of(&cs, &w);
    assert_eq!(p.values.len(), 1);
    assert!(fr_eq(&p.values[0], &fr_from_u64(4)));
}
