//! Rank-1 constraint systems over the BN254 scalar field.
//!
//! A constraint says that, for a witness vector `w`, the product of two
//! linear combinations of `w` equals a third one, all mod the field
//! order. The witness layout is fixed: index 0 is the constant-one
//! signal, the public input signals follow, then the private inputs,
//! then the auxiliary signals that the first constraints define.

use vstd::prelude::*;
use vstd::arithmetic::div_mod::{lemma_add_mod_noop_right, lemma_small_mod};
use crate::field::{Fr, fr_add, fr_eq, fr_mul, fr_order, fr_zero};

verus! {

/// One addend of a linear combination: a coefficient on a signal.
#[derive(Debug, Clone, Copy, PartialEq, Eq, Structural)]
pub struct Term {
    pub signal: usize,
    pub coeff: Fr,
}

/// A linear combination of witness signals.
#[derive(Debug, Clone)]
pub struct LinComb {
    pub terms: Vec<Term>,
}

/// One rank-1 constraint: `(a . w) * (b . w) = c . w` mod the field
/// order.
#[derive(Debug, Clone)]
pub struct Constraint {
    pub a: LinComb,
    pub b: LinComb,
    pub c: LinComb,
}

/// An ordered sequence of constraints together with the signal layout.
/// The first `num_aux` constraints each define one auxiliary signal from
/// earlier ones, so a witness can be completed by a single forward pass.
#[derive(Debug, Clone)]
pub struct ConstraintSystem {
    pub num_public: usize,
    pub num_private: usize,
    pub num_aux: usize,
    pub constraints: Vec<Constraint>,
}

/// The values a vector of scalars stands for.
pub open spec fn values_of(s: Seq<Fr>) -> Seq<nat> {
    s.map_values(|f: Fr| f.value())
}

/// Every scalar of the vector is in canonical form.
pub open spec fn seq_wf(s: Seq<Fr>) -> bool {
    forall|i: int| 0 <= i < s.len() ==> (#[trigger] s[i]).wf()
}

/// Every term points below signal bound `n` and carries a canonical
/// coefficient.
pub open spec fn lc_wf(terms: Seq<Term>, n: nat) -> bool {
    forall|i: int| 0 <= i < terms.len()
        ==> ((#[trigger] terms[i]).signal as nat) < n && terms[i].coeff.wf()
}

/// The residue a linear combination evaluates to on witness values `w`.
pub open spec fn lc_eval(terms: Seq<Term>, w: Seq<nat>) -> nat
    decreases terms.len(),
{
    if terms.len() == 0 {
        0
    } else {
        (lc_eval(terms.drop_last(), w)
            + terms.last().coeff.value() * w[terms.last().signal as int]) % fr_order()
    }
}

/// Whether a witness meets one constraint.
pub open spec fn constraint_holds(c: Constraint, w: Seq<nat>) -> bool {
    (lc_eval(c.a.terms@, w) * lc_eval(c.b.terms@, w)) % fr_order() == lc_eval(c.c.terms@, w)
}

/// All three linear combinations of a constraint stay below the signal
/// bound.
pub open spec fn constraint_wf(c: Constraint, n: nat) -> bool {
    lc_wf(c.a.terms@, n) && lc_wf(c.b.terms@, n) && lc_wf(c.c.terms@, n)
}

/// Whether a witness meets every constraint of the system.
pub open spec fn cs_satisfied(cs: ConstraintSystem, w: Seq<nat>) -> bool {
    forall|i: int| 0 <= i < cs.constraints@.len()
        ==> constraint_holds(#[trigger] cs.constraints@[i], w)
}

impl ConstraintSystem {
    /// Total signal count: the constant one, the inputs, the auxiliary
    /// signals.
    pub open spec fn spec_num_signals(self) -> nat {
        (1 + self.num_public + self.num_private + self.num_aux) as nat
    }

    /// Index of the first auxiliary signal.
    pub open spec fn aux_base(self) -> nat {
        (1 + self.num_public + self.num_private) as nat
    }

    /// Structural soundness: counts fit the machine, every constraint
    /// stays inside the signal range, and for `i < num_aux` the
    /// constraint `i` defines auxiliary signal `aux_base + i` (its right
    /// side is that one signal with coefficient one, its left sides use
    /// only earlier signals).
    pub open spec fn wf(self) -> bool {
        &&& self.spec_num_signals() <= usize::MAX
        &&& self.num_aux <= self.constraints@.len()
        &&& forall|i: int| 0 <= i < self.constraints@.len()
            ==> constraint_wf(#[trigger] self.constraints@[i], self.spec_num_signals())
        &&& forall|i: int| 0 <= i < self.num_aux ==> {
            let c = #[trigger] self.constraints@[i];
            &&& c.c.terms@.len() == 1
            &&& c.c.terms@[0].signal as nat == self.aux_base() + i
            &&& c.c.terms@[0].coeff.value() == 1
            &&& lc_wf(c.a.terms@, (self.aux_base() + i) as nat)
            &&& lc_wf(c.b.terms@, (self.aux_base() + i) as nat)
        }
    }

    /// The total signal count, as the machine integer the witness vector
    /// is sized with.
    pub fn num_signals(&self) -> (r: usize)
        requires
            self.wf(),
        ensures
            r as nat == self.spec_num_signals(),
    {
        1 + self.num_public + self.num_private + self.num_aux
    }
}

/// Evaluates a linear combination on a witness vector, accumulating mod
/// the field order.
pub fn eval_lc(lc: &LinComb, w: &Vec<Fr>) -> (r: Fr)
    requires
        lc_wf(lc.terms@, w@.len() as nat),
        seq_wf(w@),
    ensures
        r.wf(),
        r.value() == lc_eval(lc.terms@, values_of(w@)),
{
    let ghost vals = values_of(w@);
    let mut acc = fr_zero();
    let mut i: usize = 0;
    while i < lc.terms.len()
        invariant
            0 <= i <= lc.terms@.len(),
            lc_wf(lc.terms@, w@.len() as nat),
            seq_wf(w@),
            vals == values_of(w@),
            acc.wf(),
            acc.value() == lc_eval(lc.terms@.take(i as int), vals),
        decreases lc.terms@.len() - i,
    {
        let t = lc.terms[i];
        let prod = fr_mul(&t.coeff, &w[t.signal]);
        let next = fr_add(&acc, &prod);
        proof {
            let taken = lc.terms@.take(i + 1int);
            assert(taken.drop_last() =~= lc.terms@.take(i as int));
            assert(taken.last() == t);
            assert(vals[t.signal as int] == w@[t.signal as int].value());
            lemma_small_mod(acc.value(), fr_order());
            lemma_add_mod_noop_right(
                acc.value() as int,
                (t.coeff.value() * vals[t.signal as int]) as int,
                fr_order() as int,
            );
            assert(next.value() == lc_eval(taken, vals));
        }
        acc = next;
        i += 1;
    }
    proof {
        assert(lc.terms@.take(lc.terms@.len() as int) =~= lc.terms@);
    }
    acc
}

/// A linear combination reads only the signals below its bound: on two
/// witness vectors that agree below `n`, it evaluates the same.
pub proof fn lemma_lc_eval_frame(terms: Seq<Term>, n: nat, w1: Seq<nat>, w2: Seq<nat>)
    requires
        lc_wf(terms, n),
        n <= w1.len(),
        n <= w2.len(),
        forall|i: int| 0 <= i < n ==> w1[i] == w2[i],
    ensures
        lc_eval(terms, w1) == lc_eval(terms, w2),
    decreases terms.len(),
{
    if terms.len() > 0 {
        assert forall|i: int| 0 <= i < terms.drop_last().len() implies ((
        #[trigger] terms.drop_last()[i]).signal as nat) < n && terms.drop_last()[i].coeff.wf() by {
            assert(terms.drop_last()[i] == terms[i]);
        }
        lemma_lc_eval_frame(terms.drop_last(), n, w1, w2);
        assert((terms.last().signal as nat) < n);
    }
}

/// Decides whether one constraint holds of a witness vector.
pub fn constraint_satisfied(c: &Constraint, w: &Vec<Fr>) -> (r: bool)
    requires
        constraint_wf(*c, w@.len() as nat),
        seq_wf(w@),
    ensures
        r == constraint_holds(*c, values_of(w@)),
{
    let av = eval_lc(&c.a, w);
    let bv = eval_lc(&c.b, w);
    let cv = eval_lc(&c.c, w);
    let prod = fr_mul(&av, &bv);
    fr_eq(&prod, &cv)
}

/// Finds the first constraint a witness vector does not meet, if any.
pub fn find_unsatisfied(cs: &ConstraintSystem, w: &Vec<Fr>) -> (r: Option<usize>)
    requires
        cs.wf(),
        w@.len() as nat == cs.spec_num_signals(),
        seq_wf(w@),
    ensures
        r is None <==> cs_satisfied(*cs, values_of(w@)),
        r matches Some(i) ==> i < cs.constraints@.len()
            && !constraint_holds(cs.constraints@[i as int], values_of(w@))
            && forall|j: int| 0 <= j < i
                ==> constraint_holds(#[trigger] cs.constraints@[j], values_of(w@)),
{
    let mut i: usize = 0;
    while i < cs.constraints.len()
        invariant
            0 <= i <= cs.constraints@.len(),
            cs.wf(),
            w@.len() as nat == cs.spec_num_signals(),
            seq_wf(w@),
            forall|j: int| 0 <= j < i
                ==> constraint_holds(#[trigger] cs.constraints@[j], values_of(w@)),
        decreases cs.constraints@.len() - i,
    {
        if !constraint_satisfied(&cs.constraints[i], w) {
            return Some(i);
        }
        i += 1;
    }
    None
}

} // verus!
