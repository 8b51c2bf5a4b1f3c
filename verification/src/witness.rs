//! Building a full witness vector from named input signals.
//!
//! The caller hands a mapping from signal names to scalars. Every
//! declared input must be present; the auxiliary signals are then
//! computed by one forward pass over the defining constraints, and the
//! result is checked against every constraint before it is handed out.

use vstd::prelude::*;
use crate::errors::ServiceError;
use crate::field::{Fr, fr_mul, fr_one, fr_order, fr_zero};
use crate::r1cs::{
    Constraint, ConstraintSystem, Term, constraint_holds, constraint_wf, cs_satisfied, eval_lc,
    find_unsatisfied, lc_eval, lc_wf, seq_wf, values_of,
};

verus! {

/// The named input signals of a circuit. Witness index 0 is the reserved
/// constant-one signal; the public inputs sit at indices `1..=p`, in the
/// order of `public_names`, and the private inputs right after them.
#[derive(Debug, Clone)]
pub struct SignalMap {
    pub public_names: Vec<String>,
    pub private_names: Vec<String>,
}

impl SignalMap {
    /// The map names exactly the input signals the system counts.
    pub open spec fn consistent_with(self, cs: ConstraintSystem) -> bool {
        &&& self.public_names@.len() == cs.num_public
        &&& self.private_names@.len() == cs.num_private
    }

    /// All declared input names, public first, in declaration order.
    pub open spec fn all_names(self) -> Seq<String> {
        self.public_names@ + self.private_names@
    }
}

/// A complete assignment of scalars to every signal of a circuit.
#[derive(Debug, Clone)]
pub struct Witness {
    pub signals: Vec<Fr>,
}

/// The scalars a verifier is shown: the public input signals, in signal
/// order.
#[derive(Debug, Clone)]
pub struct PublicInputs {
    pub values: Vec<Fr>,
}

/// Every supplied input scalar is in canonical form.
pub open spec fn inputs_wf(inputs: Seq<(String, Fr)>) -> bool {
    forall|i: int| 0 <= i < inputs.len() ==> (#[trigger] inputs[i]).1.wf()
}

/// The value supplied for a name: the first entry that carries it, if
/// any.
pub open spec fn lookup(inputs: Seq<(String, Fr)>, name: Seq<char>) -> Option<Fr>
    decreases inputs.len(),
{
    if inputs.len() == 0 {
        None
    } else if inputs[0].0@ == name {
        Some(inputs[0].1)
    } else {
        lookup(inputs.drop_first(), name)
    }
}

/// The first declared name, in order, that the supplied inputs lack.
pub open spec fn first_missing(names: Seq<String>, inputs: Seq<(String, Fr)>) -> Option<
    Seq<char>,
>
    decreases names.len(),
{
    if names.len() == 0 {
        None
    } else if lookup(inputs, names[0]@) is None {
        Some(names[0]@)
    } else {
        first_missing(names.drop_first(), inputs)
    }
}

/// The witness vector before the forward pass: one, then the supplied
/// inputs in declaration order, then zeros where the auxiliary signals
/// will go.
pub open spec fn initial_values(
    cs: ConstraintSystem,
    sm: SignalMap,
    inputs: Seq<(String, Fr)>,
) -> Seq<nat> {
    Seq::new(
        cs.spec_num_signals(),
        |i: int|
            if i == 0 {
                1
            } else if i <= cs.num_public {
                lookup(inputs, sm.public_names@[i - 1]@).unwrap().value()
            } else if i < cs.aux_base() {
                lookup(inputs, sm.private_names@[i - 1 - cs.num_public]@).unwrap().value()
            } else {
                0
            },
    )
}

/// The witness vector after `k` steps of the forward pass: step `j`
/// overwrites auxiliary signal `j` with the product of the two left
/// sides of constraint `j`.
pub open spec fn forward_pass(cs: ConstraintSystem, w: Seq<nat>, k: int) -> Seq<nat>
    decreases k,
{
    if k <= 0 {
        w
    } else {
        let prev = forward_pass(cs, w, k - 1);
        let c = cs.constraints@[k - 1];
        prev.update(
            cs.aux_base() + k - 1,
            (lc_eval(c.a.terms@, prev) * lc_eval(c.b.terms@, prev)) % fr_order(),
        )
    }
}

/// The full witness the builder is specified to produce.
pub open spec fn built_values(
    cs: ConstraintSystem,
    sm: SignalMap,
    inputs: Seq<(String, Fr)>,
) -> Seq<nat> {
    forward_pass(cs, initial_values(cs, sm, inputs), cs.num_aux as int)
}

proof fn lemma_forward_pass_len(cs: ConstraintSystem, w: Seq<nat>, k: int)
    requires
        cs.wf(),
        w.len() == cs.spec_num_signals(),
        k <= cs.num_aux,
    ensures
        forward_pass(cs, w, k).len() == w.len(),
    decreases k,
{
    if k > 0 {
        lemma_forward_pass_len(cs, w, k - 1);
        assert(cs.aux_base() + k - 1 < w.len());
    }
}

proof fn lemma_forward_pass_stable(cs: ConstraintSystem, w: Seq<nat>, k1: int, k2: int, i: int)
    requires
        cs.wf(),
        w.len() == cs.spec_num_signals(),
        0 <= k1 <= k2 <= cs.num_aux,
        0 <= i < cs.aux_base() + k1,
    ensures
        forward_pass(cs, w, k2)[i] == forward_pass(cs, w, k1)[i],
    decreases k2 - k1,
{
    if k2 > k1 {
        lemma_forward_pass_stable(cs, w, k1, k2 - 1, i);
        lemma_forward_pass_len(cs, w, k2 - 1);
        assert(cs.aux_base() + k2 - 1 < w.len());
    }
}

/// The defensive constraint check cannot fire on a defining constraint:
/// for a well-formed system, each of the first `num_aux` constraints
/// holds of the built witness by construction, whatever the inputs. A
/// report of an unsatisfied constraint therefore always names one of
/// the pure check constraints behind them.
pub proof fn lemma_defining_constraints_hold(
    cs: ConstraintSystem,
    sm: SignalMap,
    inputs: Seq<(String, Fr)>,
)
    requires
        cs.wf(),
    ensures
        forall|j: int| 0 <= j < cs.num_aux ==> constraint_holds(
            #[trigger] cs.constraints@[j],
            built_values(cs, sm, inputs),
        ),
{
    let init = initial_values(cs, sm, inputs);
    let built = built_values(cs, sm, inputs);
    lemma_forward_pass_len(cs, init, cs.num_aux as int);
    assert forall|j: int| 0 <= j < cs.num_aux implies constraint_holds(
        #[trigger] cs.constraints@[j],
        built,
    ) by {
        let c = cs.constraints@[j];
        let prev = forward_pass(cs, init, j);
        let next = forward_pass(cs, init, j + 1);
        lemma_forward_pass_len(cs, init, j);
        lemma_forward_pass_len(cs, init, j + 1);
        let v = (lc_eval(c.a.terms@, prev) * lc_eval(c.b.terms@, prev)) % fr_order();
        assert(next == prev.update(cs.aux_base() + j, v));
        lemma_forward_pass_stable(cs, init, j + 1, cs.num_aux as int, cs.aux_base() + j);
        assert(built[cs.aux_base() + j] == v);
        assert forall|i: int| 0 <= i < cs.aux_base() + j implies built[i] == prev[i] by {
            lemma_forward_pass_stable(cs, init, j, cs.num_aux as int, i);
        }
        crate::r1cs::lemma_lc_eval_frame(c.a.terms@, (cs.aux_base() + j) as nat, built, prev);
        crate::r1cs::lemma_lc_eval_frame(c.b.terms@, (cs.aux_base() + j) as nat, built, prev);
        assert(c.c.terms@.len() == 1);
        assert(c.c.terms@[0].signal as nat == cs.aux_base() + j);
        assert(c.c.terms@[0].coeff.value() == 1);
        assert(c.c.terms@.drop_last() =~= Seq::<Term>::empty());
        assert(c.c.terms@.last() == c.c.terms@[0]);
        assert(lc_eval(c.c.terms@.drop_last(), built) == 0);
        assert(lc_eval(c.c.terms@, built) == (0 + c.c.terms@[0].coeff.value() * built[cs.aux_base()
            + j]) % fr_order());
        assert(v < fr_order());
        vstd::arithmetic::div_mod::lemma_small_mod(v, fr_order());
        assert(lc_eval(c.c.terms@, built) == v);
    }
}

proof fn lemma_first_missing_at(names: Seq<String>, inputs: Seq<(String, Fr)>, k: int)
    requires
        0 <= k < names.len(),
        lookup(inputs, names[k]@) is None,
        forall|j: int| 0 <= j < k ==> lookup(inputs, (#[trigger] names[j])@) is Some,
    ensures
        first_missing(names, inputs) == Some(names[k]@),
    decreases k,
{
    if k > 0 {
        assert(lookup(inputs, names[0]@) is Some);
        assert forall|j: int| 0 <= j < k - 1 implies lookup(
            inputs,
            (#[trigger] names.drop_first()[j])@,
        ) is Some by {
            assert(names.drop_first()[j] == names[j + 1]);
        }
        assert(names.drop_first()[k - 1] == names[k]);
        lemma_first_missing_at(names.drop_first(), inputs, k - 1);
    }
}

proof fn lemma_first_missing_none(names: Seq<String>, inputs: Seq<(String, Fr)>)
    requires
        forall|j: int| 0 <= j < names.len() ==> lookup(inputs, (#[trigger] names[j])@) is Some,
    ensures
        first_missing(names, inputs) is None,
    decreases names.len(),
{
    if names.len() > 0 {
        assert(lookup(inputs, names[0]@) is Some);
        assert forall|j: int| 0 <= j < names.drop_first().len() implies lookup(
            inputs,
            (#[trigger] names.drop_first()[j])@,
        ) is Some by {
            assert(names.drop_first()[j] == names[j + 1]);
        }
        lemma_first_missing_none(names.drop_first(), inputs);
    }
}

/// Finds the value supplied for a name by a linear scan.
pub fn find_input(inputs: &Vec<(String, Fr)>, name: &String) -> (r: Option<Fr>)
    requires
        inputs_wf(inputs@),
    ensures
        r == lookup(inputs@, name@),
        r matches Some(v) ==> v.wf(),
{
    let mut i: usize = 0;
    proof {
        assert(inputs@.skip(0) =~= inputs@);
    }
    while i < inputs.len()
        invariant
            0 <= i <= inputs@.len(),
            inputs_wf(inputs@),
            lookup(inputs@, name@) == lookup(inputs@.skip(i as int), name@),
        decreases inputs@.len() - i,
    {
        proof {
            assert(inputs@.skip(i as int)[0] == inputs@[i as int]);
            assert(inputs@.skip(i as int).drop_first() =~= inputs@.skip(i + 1int));
        }
        if inputs[i].0 == *name {
            return Some(inputs[i].1);
        }
        i += 1;
    }
    proof {
        assert(inputs@.skip(inputs@.len() as int).len() == 0);
    }
    None
}

/// Builds the witness for the supplied inputs, or reports the first
/// missing input name, or the first constraint the assignment fails.
pub fn build(
    cs: &ConstraintSystem,
    sm: &SignalMap,
    input_values: &Vec<(String, Fr)>,
) -> (r: Result<Witness, ServiceError>)
    requires
        cs.wf(),
        sm.consistent_with(*cs),
        inputs_wf(input_values@),
    ensures
        match r {
            Ok(w) => {
                &&& first_missing(sm.all_names(), input_values@) is None
                &&& w.signals@.len() == cs.spec_num_signals()
                &&& seq_wf(w.signals@)
                &&& values_of(w.signals@) == built_values(*cs, *sm, input_values@)
                &&& cs_satisfied(*cs, values_of(w.signals@))
            },
            Err(ServiceError::MissingInput(n)) => first_missing(sm.all_names(), input_values@)
                == Some(n@),
            Err(ServiceError::UnsatisfiedConstraint(j)) => {
                &&& first_missing(sm.all_names(), input_values@) is None
                &&& j < cs.constraints@.len()
                &&& !constraint_holds(
                    cs.constraints@[j as int],
                    built_values(*cs, *sm, input_values@),
                )
                &&& forall|k: int| 0 <= k < j ==> constraint_holds(
                    #[trigger] cs.constraints@[k],
                    built_values(*cs, *sm, input_values@),
                )
            },
            Err(_) => false,
        },
{
    let np = sm.public_names.len();
    let npr = sm.private_names.len();
    let total = cs.num_signals();
    let mut w: Vec<Fr> = Vec::new();
    w.push(fr_one());

    let mut k: usize = 0;
    while k < np
        invariant
            cs.wf(),
            sm.consistent_with(*cs),
            inputs_wf(input_values@),
            np == cs.num_public,
            0 <= k <= np,
            w@.len() == 1 + k,
            seq_wf(w@),
            w@[0].value() == 1,
            forall|j: int| 0 <= j < k ==> lookup(
                input_values@,
                (#[trigger] sm.public_names@[j])@,
            ) is Some && w@[1 + j].value() == lookup(
                input_values@,
                sm.public_names@[j]@,
            ).unwrap().value(),
        decreases np - k,
    {
        match find_input(input_values, &sm.public_names[k]) {
            None => {
                proof {
                    assert(sm.all_names()[k as int] == sm.public_names@[k as int]);
                    assert forall|j: int| 0 <= j < k implies lookup(
                        input_values@,
                        (#[trigger] sm.all_names()[j])@,
                    ) is Some by {
                        assert(sm.all_names()[j] == sm.public_names@[j]);
                    }
                    lemma_first_missing_at(sm.all_names(), input_values@, k as int);
                }
                return Err(ServiceError::MissingInput(sm.public_names[k].clone()));
            },
            Some(v) => { w.push(v); },
        }
        k += 1;
    }

    let mut k2: usize = 0;
    while k2 < npr
        invariant
            cs.wf(),
            sm.consistent_with(*cs),
            inputs_wf(input_values@),
            np == cs.num_public,
            npr == cs.num_private,
            0 <= k2 <= npr,
            w@.len() == 1 + np + k2,
            seq_wf(w@),
            w@[0].value() == 1,
            forall|j: int| 0 <= j < np ==> lookup(
                input_values@,
                (#[trigger] sm.public_names@[j])@,
            ) is Some && w@[1 + j].value() == lookup(
                input_values@,
                sm.public_names@[j]@,
            ).unwrap().value(),
            forall|j: int| 0 <= j < k2 ==> lookup(
                input_values@,
                (#[trigger] sm.private_names@[j])@,
            ) is Some && w@[1 + np + j].value() == lookup(
                input_values@,
                sm.private_names@[j]@,
            ).unwrap().value(),
        decreases npr - k2,
    {
        match find_input(input_values, &sm.private_names[k2]) {
            None => {
                proof {
                    assert(sm.all_names()[np + k2 as int] == sm.private_names@[k2 as int]);
                    assert forall|j: int| 0 <= j < np + k2 implies lookup(
                        input_values@,
                        (#[trigger] sm.all_names()[j])@,
                    ) is Some by {
                        if j < np {
                            assert(sm.all_names()[j] == sm.public_names@[j]);
                        } else {
                            assert(sm.all_names()[j] == sm.private_names@[j - np]);
                        }
                    }
                    lemma_first_missing_at(sm.all_names(), input_values@, np + k2 as int);
                }
                return Err(ServiceError::MissingInput(sm.private_names[k2].clone()));
            },
            Some(v) => { w.push(v); },
        }
        k2 += 1;
    }

    proof {
        assert forall|j: int| 0 <= j < sm.all_names().len() implies lookup(
            input_values@,
            (#[trigger] sm.all_names()[j])@,
        ) is Some by {
            if j < np {
                assert(sm.all_names()[j] == sm.public_names@[j]);
            } else {
                assert(sm.all_names()[j] == sm.private_names@[j - np]);
            }
        }
        lemma_first_missing_none(sm.all_names(), input_values@);
    }

    let mut z: usize = 0;
    while z < cs.num_aux
        invariant
            cs.wf(),
            np == cs.num_public,
            npr == cs.num_private,
            0 <= z <= cs.num_aux,
            w@.len() == 1 + np + npr + z,
            seq_wf(w@),
            w@[0].value() == 1,
            forall|j: int| 1 <= j < 1 + np + npr ==> (#[trigger] w@[j]).value()
                == initial_values(*cs, *sm, input_values@)[j],
            forall|j: int| 1 + np + npr <= j < w@.len() ==> (#[trigger] w@[j]).value() == 0,
        decreases cs.num_aux - z,
    {
        w.push(fr_zero());
        z += 1;
    }

    let ghost init = initial_values(*cs, *sm, input_values@);
    proof {
        assert(values_of(w@) =~= init) by {
            assert(w@.len() == cs.spec_num_signals());
            assert forall|i: int| 0 <= i < w@.len() implies values_of(w@)[i] == init[i] by {
                assert(values_of(w@)[i] == w@[i].value());
            }
        }
    }

    let base = 1 + np + npr;
    let mut i: usize = 0;
    while i < cs.num_aux
        invariant
            cs.wf(),
            np == cs.num_public,
            npr == cs.num_private,
            base == cs.aux_base(),
            0 <= i <= cs.num_aux,
            w@.len() == cs.spec_num_signals(),
            seq_wf(w@),
            values_of(w@) == forward_pass(*cs, init, i as int),
        decreases cs.num_aux - i,
    {
        let ghost w_before = w@;
        let a_val = eval_lc(&cs.constraints[i].a, &w);
        let b_val = eval_lc(&cs.constraints[i].b, &w);
        let prod = fr_mul(&a_val, &b_val);
        w[base + i] = prod;
        proof {
            let prev = forward_pass(*cs, init, i as int);
            let c = cs.constraints@[i as int];
            assert(a_val.value() == lc_eval(c.a.terms@, prev));
            assert(b_val.value() == lc_eval(c.b.terms@, prev));
            assert(values_of(w@) =~= prev.update(
                cs.aux_base() + i,
                (lc_eval(c.a.terms@, prev) * lc_eval(c.b.terms@, prev)) % fr_order(),
            )) by {
                assert forall|j: int| 0 <= j < w@.len() implies values_of(w@)[j] == prev.update(
                    cs.aux_base() + i,
                    (lc_eval(c.a.terms@, prev) * lc_eval(c.b.terms@, prev)) % fr_order(),
                )[j] by {
                    assert(values_of(w@)[j] == w@[j].value());
                    assert(w@ == w_before.update(base + i as int, prod));
                }
            }
            assert(values_of(w@) == forward_pass(*cs, init, i + 1int));
        }
        i += 1;
    }

    proof {
        assert(values_of(w@) == built_values(*cs, *sm, input_values@));
    }

    match find_unsatisfied(cs, &w) {
        Some(j) => Err(ServiceError::UnsatisfiedConstraint(j)),
        None => Ok(Witness { signals: w }),
    }
}

/// Cuts the public input prefix out of a witness, in signal order.
pub fn public_inputs_of(cs: &ConstraintSystem, w: &Witness) -> (r: PublicInputs)
    requires
        cs.wf(),
        w.signals@.len() == cs.spec_num_signals(),
        seq_wf(w.signals@),
    ensures
        r.values@.len() == cs.num_public,
        seq_wf(r.values@),
        values_of(r.values@) == values_of(w.signals@).subrange(1, 1 + cs.num_public as int),
{
    let mut out: Vec<Fr> = Vec::new();
    let mut i: usize = 0;
    while i < cs.num_public
        invariant
            cs.wf(),
            w.signals@.len() == cs.spec_num_signals(),
            seq_wf(w.signals@),
            0 <= i <= cs.num_public,
            out@.len() == i,
            seq_wf(out@),
            forall|j: int| 0 <= j < i ==> (#[trigger] out@[j]) == w.signals@[1 + j],
        decreases cs.num_public - i,
    {
        out.push(w.signals[1 + i]);
        i += 1;
    }
    proof {
        assert(values_of(out@) =~= values_of(w.signals@).subrange(1, 1 + cs.num_public as int));
    }
    PublicInputs { values: out }
}

} // verus!
