//! Proving and verifying Groth16 proofs over BN254.
//!
//! The pairing work is done by the arkworks Groth16 prover and verifier,
//! reached through trusted wrappers; the constraints are replayed into
//! the prover by ark-circom's circuit adapter. Key material and proofs
//! cross this boundary as opaque byte strings, the form in which they
//! are stored and transmitted.

use vstd::prelude::*;
use ark_bn254::Bn254;
use ark_bn254::Fr as BnFr;
use ark_circom::CircomCircuit;
use ark_circom::circom::R1CS;
use ark_ff::BigInt;
use ark_groth16::Groth16;
use ark_groth16::Proof as ArkProof;
use ark_groth16::ProvingKey as ArkPk;
use ark_groth16::VerifyingKey as ArkVk;
use ark_serialize::CanonicalDeserialize;
use ark_serialize::CanonicalSerialize;
use ark_snark::SNARK;
use crate::errors::ServiceError;
use crate::field::{Fr, fr_order};
use crate::r1cs::{
    Constraint, ConstraintSystem, LinComb, Term, constraint_holds, constraint_wf, cs_satisfied,
    lc_eval, lc_wf, seq_wf, values_of,
};
use crate::witness::{PublicInputs, Witness, public_inputs_of};

verus! {

/// A Groth16 proof: the three curve-group elements, in their canonical
/// compressed serialization. Safe to transmit; carries no secret.
#[derive(Debug, Clone, PartialEq, Eq)]
pub struct Proof {
    pub bytes: Vec<u8>,
}

/// Circuit-specific proving key material from the one-time setup, as the
/// opaque serialized artifact it is loaded from.
#[derive(Debug, Clone)]
pub struct ProvingKey {
    pub bytes: Vec<u8>,
}

/// How many curve-group elements the serialized verification key holds
/// for the public inputs: one more than the public input count it was
/// set up for, or nothing if the bytes are not a verification key.
pub uninterp spec fn vk_element_count(vk: Seq<u8>) -> Option<nat>;

/// The verifier's pairing-equation verdict on a verification key, public
/// input values, and proof bytes: `None` if the proof bytes do not
/// deserialize, otherwise the boolean outcome. A pure function of its
/// arguments.
pub uninterp spec fn groth16_verdict(vk: Seq<u8>, inputs: Seq<nat>, proof: Seq<u8>) -> Option<
    bool,
>;

/// Circuit-specific verification key material, with the public input
/// count it expects, read off the artifact once when it is loaded.
#[derive(Debug, Clone)]
pub struct VerifyingKey {
    pub bytes: Vec<u8>,
    pub expected_inputs: usize,
}

impl VerifyingKey {
    /// The cached count agrees with the serialized key.
    pub open spec fn wf(self) -> bool {
        vk_element_count(self.bytes@) == Some((self.expected_inputs + 1) as nat)
    }
}

/// Relies on `ark_groth16::VerifyingKey::deserialize_compressed` and the
/// `gamma_abc_g1` field: deserialization of fixed bytes is deterministic,
/// and that vector holds one group element per public input plus one.
#[verifier::external_body]
fn vk_count_raw(bytes: &Vec<u8>) -> (r: Result<usize, ServiceError>)
    ensures
        r matches Ok(n) ==> vk_element_count(bytes@) == Some(n as nat),
        r matches Err(e) ==> e == ServiceError::MalformedCircuit && vk_element_count(bytes@)
            is None,
{
    match ArkVk::<Bn254>::deserialize_compressed(bytes.as_slice()) {
        Ok(vk) => Ok(vk.gamma_abc_g1.len()),
        Err(_) => Err(ServiceError::MalformedCircuit),
    }
}

/// The circuit in the prover's own representation, converted scalar by
/// scalar. Its contents are opaque to Verus and are spoken of only
/// through the two names below, which the conversion wrappers maintain.
#[verifier::external_body]
pub struct ProverCircuit {
    constraints: Vec<(Vec<(usize, BnFr)>, Vec<(usize, BnFr)>, Vec<(usize, BnFr)>)>,
    witness: Vec<BnFr>,
}

/// One constraint in model form: the three linear combinations, each a
/// run of (signal index, coefficient residue) pairs.
pub type RowModel = (Seq<(nat, nat)>, Seq<(nat, nat)>, Seq<(nat, nat)>);

/// The constraints a `ProverCircuit` holds, as (signal, residue) pairs.
pub uninterp spec fn pc_rows(pc: ProverCircuit) -> Seq<RowModel>;

/// The witness values a `ProverCircuit` holds, as residues.
pub uninterp spec fn pc_witness(pc: ProverCircuit) -> Seq<nat>;

/// Whether the prover call succeeds on these arguments: the proving-key
/// bytes deserialize, their query vectors fit the circuit, and the
/// QAP reduction goes through. A pure function of its arguments.
pub uninterp spec fn groth16_prove_ok(
    pk: Seq<u8>,
    rows: Seq<RowModel>,
    w: Seq<nat>,
    ni: nat,
    na: nat,
    nv: nat,
) -> bool;

/// The serialized verification key embedded in a serialized proving
/// key: `ark_groth16::ProvingKey` carries its `vk`, so this is a pure
/// function of the proving-key bytes.
pub uninterp spec fn vk_of(pk: Seq<u8>) -> Seq<u8>;

/// Whether the proving-key bytes are a trusted-setup output for exactly
/// this circuit shape. Groth16's completeness holds only under it; it
/// cannot be established from the bytes inside the proofs here, only
/// assumed of keys produced by the offline ceremony.
pub uninterp spec fn pk_matches(
    pk: Seq<u8>,
    rows: Seq<RowModel>,
    ni: nat,
    na: nat,
    nv: nat,
) -> bool;

/// A linear combination in model form.
pub open spec fn lc_model(terms: Seq<Term>) -> Seq<(nat, nat)> {
    terms.map_values(|t: Term| (t.signal as nat, t.coeff.value()))
}

/// A whole constraint system in model form.
pub open spec fn rows_model(cs: ConstraintSystem) -> Seq<RowModel> {
    cs.constraints@.map_values(
        |c: Constraint| (lc_model(c.a.terms@), lc_model(c.b.terms@), lc_model(c.c.terms@)),
    )
}

/// The residue a model linear combination evaluates to.
pub open spec fn pairs_eval(ps: Seq<(nat, nat)>, w: Seq<nat>) -> nat
    decreases ps.len(),
{
    if ps.len() == 0 {
        0
    } else {
        (pairs_eval(ps.drop_last(), w) + ps.last().1 * w[ps.last().0 as int]) % fr_order()
    }
}

/// Whether one model constraint holds of witness values.
pub open spec fn row_holds(row: RowModel, w: Seq<nat>) -> bool {
    (pairs_eval(row.0, w) * pairs_eval(row.1, w)) % fr_order() == pairs_eval(row.2, w)
}

/// Whether every model constraint holds of witness values.
pub open spec fn rows_satisfied(rows: Seq<RowModel>, w: Seq<nat>) -> bool {
    forall|i: int| 0 <= i < rows.len() ==> row_holds(#[trigger] rows[i], w)
}

/// Every signal of a model linear combination lies below `nv`.
pub open spec fn pairs_wf(ps: Seq<(nat, nat)>, nv: nat) -> bool {
    forall|j: int| 0 <= j < ps.len() ==> (#[trigger] ps[j]).0 < nv
}

/// Every signal of every model constraint lies below `nv`.
pub open spec fn rows_wf(rows: Seq<RowModel>, nv: nat) -> bool {
    forall|i: int| 0 <= i < rows.len() ==> {
        let r = #[trigger] rows[i];
        pairs_wf(r.0, nv) && pairs_wf(r.1, nv) && pairs_wf(r.2, nv)
    }
}

/// The model of a linear combination evaluates as the combination does.
proof fn lemma_pairs_eval_model(terms: Seq<Term>, w: Seq<nat>)
    ensures
        pairs_eval(lc_model(terms), w) == lc_eval(terms, w),
    decreases terms.len(),
{
    if terms.len() > 0 {
        assert(lc_model(terms).drop_last() =~= lc_model(terms.drop_last()));
        assert(lc_model(terms).last() == (terms.last().signal as nat, terms.last().coeff.value()));
        lemma_pairs_eval_model(terms.drop_last(), w);
    }
}

/// A satisfied system is satisfied in model form.
proof fn lemma_rows_model_satisfied(cs: ConstraintSystem, w: Seq<nat>)
    requires
        cs_satisfied(cs, w),
    ensures
        rows_satisfied(rows_model(cs), w),
{
    assert forall|i: int| 0 <= i < rows_model(cs).len() implies row_holds(
        #[trigger] rows_model(cs)[i],
        w,
    ) by {
        let c = cs.constraints@[i];
        assert(constraint_holds(c, w));
        lemma_pairs_eval_model(c.a.terms@, w);
        lemma_pairs_eval_model(c.b.terms@, w);
        lemma_pairs_eval_model(c.c.terms@, w);
    }
}

/// A well-formed system is well-formed in model form.
proof fn lemma_rows_model_wf(cs: ConstraintSystem)
    requires
        cs.wf(),
    ensures
        rows_wf(rows_model(cs), cs.spec_num_signals()),
{
    assert forall|i: int| 0 <= i < rows_model(cs).len() implies {
        let r = #[trigger] rows_model(cs)[i];
        pairs_wf(r.0, cs.spec_num_signals()) && pairs_wf(r.1, cs.spec_num_signals()) && pairs_wf(
            r.2,
            cs.spec_num_signals(),
        )
    } by {
        let c = cs.constraints@[i];
        assert(constraint_wf(c, cs.spec_num_signals()));
        assert forall|j: int| 0 <= j < lc_model(c.a.terms@).len() implies (#[trigger] lc_model(
            c.a.terms@,
        )[j]).0 < cs.spec_num_signals() by {
            assert(lc_wf(c.a.terms@, cs.spec_num_signals()));
            assert((c.a.terms@[j].signal as nat) < cs.spec_num_signals());
        }
        assert forall|j: int| 0 <= j < lc_model(c.b.terms@).len() implies (#[trigger] lc_model(
            c.b.terms@,
        )[j]).0 < cs.spec_num_signals() by {
            assert(lc_wf(c.b.terms@, cs.spec_num_signals()));
            assert((c.b.terms@[j].signal as nat) < cs.spec_num_signals());
        }
        assert forall|j: int| 0 <= j < lc_model(c.c.terms@).len() implies (#[trigger] lc_model(
            c.c.terms@,
        )[j]).0 < cs.spec_num_signals() by {
            assert(lc_wf(c.c.terms@, cs.spec_num_signals()));
            assert((c.c.terms@[j].signal as nat) < cs.spec_num_signals());
        }
    }
}

/// Relies on `Vec::new` alone: the empty prover circuit.
#[verifier::external_body]
fn circuit_new() -> (r: ProverCircuit)
    ensures
        pc_rows(r) == Seq::<RowModel>::empty(),
        pc_witness(r) == Seq::<nat>::empty(),
{
    ProverCircuit { constraints: Vec::new(), witness: Vec::new() }
}

/// Relies on `ark_ff`'s `From<BigInt>` conversion: appends one
/// constraint, each canonical coefficient becoming the arkworks scalar
/// of the same residue, signals and order kept.
#[verifier::external_body]
fn circuit_push_constraint(pc: &mut ProverCircuit, a: &LinComb, b: &LinComb, c: &LinComb)
    requires
        forall|i: int| 0 <= i < a.terms@.len() ==> (#[trigger] a.terms@[i]).coeff.wf(),
        forall|i: int| 0 <= i < b.terms@.len() ==> (#[trigger] b.terms@[i]).coeff.wf(),
        forall|i: int| 0 <= i < c.terms@.len() ==> (#[trigger] c.terms@[i]).coeff.wf(),
    ensures
        pc_rows(*final(pc)) == pc_rows(*old(pc)).push(
            (lc_model(a.terms@), lc_model(b.terms@), lc_model(c.terms@)),
        ),
        pc_witness(*final(pc)) == pc_witness(*old(pc)),
{
    let f = |t: &Term| (t.signal, BnFr::from(ark_ff::BigInt::new([t.coeff.l0, t.coeff.l1, t.coeff.l2, t.coeff.l3])));
    pc.constraints.push((a.terms.iter().map(f).collect(), b.terms.iter().map(f).collect(), c.terms.iter().map(f).collect()));
}

/// Relies on `ark_ff`'s `From<BigInt>` conversion: stores the witness
/// vector, each canonical scalar becoming the arkworks scalar of the
/// same residue, order kept.
#[verifier::external_body]
fn circuit_set_witness(pc: &mut ProverCircuit, w: &Vec<Fr>)
    requires
        seq_wf(w@),
    ensures
        pc_witness(*final(pc)) == values_of(w@),
        pc_rows(*final(pc)) == pc_rows(*old(pc)),
{
    pc.witness = w.iter().map(|x| BnFr::from(ark_ff::BigInt::new([x.l0, x.l1, x.l2, x.l3]))).collect();
}

/// Relies on `ark_groth16::Groth16::prove` over ark-circom's
/// `CircomCircuit`: the circuit replays exactly the held constraints
/// with wire 0 read as the constant one, and blinding randomness comes
/// from a fresh thread-local cryptographically secure generator.
/// Success is deterministic in the arguments; by Groth16's perfect
/// completeness, a proof made with a key from the setup ceremony for
/// this circuit passes the pairing check on the key's verification
/// half. The `requires` keep out every panic of the prover: the witness
/// covers all wires, every signal is in range, the witness satisfies
/// the constraints (the prover asserts this in debug builds), and the
/// body itself rejects a key with empty query vectors and an empty
/// constraint list before the call.
#[verifier::external_body]
fn groth16_prove_raw(ni: usize, na: usize, nv: usize, pc: ProverCircuit, pk_bytes: &Vec<u8>) -> (r:
    Option<Vec<u8>>)
    requires
        1 <= ni,
        ni + na == nv,
        pc_witness(pc).len() == nv,
        pc_witness(pc)[0] == 1,
        rows_wf(pc_rows(pc), nv as nat),
        rows_satisfied(pc_rows(pc), pc_witness(pc)),
    ensures
        r is Some <==> groth16_prove_ok(
            pk_bytes@,
            pc_rows(pc),
            pc_witness(pc),
            ni as nat,
            na as nat,
            nv as nat,
        ),
        pk_matches(pk_bytes@, pc_rows(pc), ni as nat, na as nat, nv as nat) ==> (r matches Some(p)
            ==> groth16_verdict(vk_of(pk_bytes@), pc_witness(pc).subrange(1, ni as int), p@)
            == Some(true)),
{
    if pc.constraints.is_empty() {
        return None;
    }
    let pk = ArkPk::<Bn254>::deserialize_compressed(pk_bytes.as_slice()).ok()?;
    if pk.a_query.is_empty() || pk.b_g1_query.is_empty() || pk.b_g2_query.is_empty() {
        return None;
    }
    let r1cs = R1CS { num_inputs: ni, num_aux: na, num_variables: nv, constraints: pc.constraints, wire_mapping: None };
    let circuit = CircomCircuit { r1cs, witness: Some(pc.witness) };
    let mut rng = rand::thread_rng();
    let proof = Groth16::<Bn254>::prove(&pk, circuit, &mut rng).ok()?;
    let mut out: Vec<u8> = Vec::new();
    proof.serialize_compressed(&mut out).ok()?;
    Some(out)
}

/// Relies on `ark_groth16::Groth16::verify` over BN254: for a key whose
/// element count fits the input count, the outcome is the deterministic
/// pairing-equation verdict on the key, the input values and the proof
/// bytes, and it errs exactly when the proof bytes do not deserialize.
#[verifier::external_body]
fn pairing_check_raw(vk_bytes: &Vec<u8>, inputs: &Vec<Fr>, proof_bytes: &Vec<u8>) -> (r: Result<
    bool,
    ServiceError,
>)
    requires
        seq_wf(inputs@),
        vk_element_count(vk_bytes@) == Some((inputs@.len() + 1) as nat),
    ensures
        r matches Ok(b) ==> groth16_verdict(vk_bytes@, values_of(inputs@), proof_bytes@) == Some(
            b,
        ),
        r matches Err(e) ==> e == ServiceError::MalformedCircuit && groth16_verdict(
            vk_bytes@,
            values_of(inputs@),
            proof_bytes@,
        ) is None,
{
    let vk = match ArkVk::<Bn254>::deserialize_compressed(vk_bytes.as_slice()) {
        Ok(k) => k,
        Err(_) => return Err(ServiceError::MalformedCircuit),
    };
    let ins = inputs.iter().map(|x| BnFr::from(BigInt::new([x.l0, x.l1, x.l2, x.l3]))).collect::<Vec<_>>();
    let proof = match ArkProof::<Bn254>::deserialize_compressed(proof_bytes.as_slice()) {
        Ok(p) => p,
        Err(_) => return Err(ServiceError::MalformedCircuit),
    };
    match Groth16::<Bn254>::verify(&vk, &ins, &proof) {
        Ok(b) => Ok(b),
        Err(_) => Err(ServiceError::MalformedCircuit),
    }
}

/// Reads a verification key artifact and caches the public input count
/// it expects. Succeeds exactly when the bytes deserialize to a key with
/// at least the constant-one element.
pub fn vk_from_bytes(bytes: Vec<u8>) -> (r: Result<VerifyingKey, ServiceError>)
    ensures
        match r {
            Ok(vk) => {
                &&& vk.bytes@ == bytes@
                &&& vk.wf()
                &&& vk_element_count(bytes@) == Some((vk.expected_inputs + 1) as nat)
            },
            Err(e) => {
                &&& e == ServiceError::MalformedCircuit
                &&& (vk_element_count(bytes@) is None || vk_element_count(bytes@) == Some(0nat))
            },
        },
{
    let count = match vk_count_raw(&bytes) {
        Ok(n) => n,
        Err(_) => { return Err(ServiceError::MalformedCircuit) },
    };
    if count == 0 {
        return Err(ServiceError::MalformedCircuit);
    }
    Ok(VerifyingKey { bytes, expected_inputs: count - 1 })
}

/// Produces a proof for a witness that satisfies the constraint system.
/// The blinding randomness is drawn inside, fresh per call: two calls on
/// the same witness yield different, equally valid proofs. Success
/// depends exactly on the proving-key bytes fitting the circuit; a
/// proof made with a key from the setup ceremony for this circuit
/// passes the pairing check against the key's verification half.
pub fn prove(pk: &ProvingKey, cs: &ConstraintSystem, witness: &Witness) -> (r: Result<
    Proof,
    ServiceError,
>)
    requires
        cs.wf(),
        witness.signals@.len() == cs.spec_num_signals(),
        seq_wf(witness.signals@),
        values_of(witness.signals@)[0] == 1,
        cs_satisfied(*cs, values_of(witness.signals@)),
    ensures
        r matches Err(e) ==> e == ServiceError::MalformedCircuit,
        r is Ok <==> groth16_prove_ok(
            pk.bytes@,
            rows_model(*cs),
            values_of(witness.signals@),
            (1 + cs.num_public) as nat,
            (cs.num_private + cs.num_aux) as nat,
            cs.spec_num_signals(),
        ),
        pk_matches(
            pk.bytes@,
            rows_model(*cs),
            (1 + cs.num_public) as nat,
            (cs.num_private + cs.num_aux) as nat,
            cs.spec_num_signals(),
        ) ==> (r matches Ok(p) ==> groth16_verdict(
            vk_of(pk.bytes@),
            values_of(witness.signals@).subrange(1, 1 + cs.num_public as int),
            p.bytes@,
        ) == Some(true)),
{
    let ni = 1 + cs.num_public;
    let total = cs.num_signals();
    let na = total - ni;
    let mut pc = circuit_new();
    let mut i: usize = 0;
    while i < cs.constraints.len()
        invariant
            cs.wf(),
            0 <= i <= cs.constraints@.len(),
            pc_rows(pc) == rows_model(*cs).take(i as int),
            pc_witness(pc) == Seq::<nat>::empty(),
        decreases cs.constraints@.len() - i,
    {
        let c = &cs.constraints[i];
        proof {
            assert(constraint_wf(cs.constraints@[i as int], cs.spec_num_signals()));
            assert(lc_wf(c.a.terms@, cs.spec_num_signals()));
            assert(lc_wf(c.b.terms@, cs.spec_num_signals()));
            assert(lc_wf(c.c.terms@, cs.spec_num_signals()));
        }
        circuit_push_constraint(&mut pc, &c.a, &c.b, &c.c);
        proof {
            let taken = rows_model(*cs).take(i + 1int);
            assert(taken.drop_last() =~= rows_model(*cs).take(i as int));
            assert(rows_model(*cs)[i as int] == (
                lc_model(c.a.terms@),
                lc_model(c.b.terms@),
                lc_model(c.c.terms@),
            ));
            assert(pc_rows(pc) =~= taken);
        }
        i += 1;
    }
    proof {
        assert(rows_model(*cs).take(rows_model(*cs).len() as int) =~= rows_model(*cs));
    }
    circuit_set_witness(&mut pc, &witness.signals);
    proof {
        lemma_rows_model_wf(*cs);
        lemma_rows_model_satisfied(*cs, values_of(witness.signals@));
    }
    match groth16_prove_raw(ni, na, total, pc, &pk.bytes) {
        Some(bytes) => Ok(Proof { bytes }),
        None => Err(ServiceError::MalformedCircuit),
    }
}

/// The round trip: proving and then verifying with the two halves of
/// one setup. For a well-formed circuit and a satisfying witness, if
/// the verification key is the one embedded in the proving key and the
/// proving key came from the setup ceremony for this circuit, a proof
/// that comes back verifies true — and if the key bytes are usable at
/// all, the whole round trip returns exactly `Ok(true)`.
pub fn prove_and_verify(
    pk: &ProvingKey,
    vk: &VerifyingKey,
    cs: &ConstraintSystem,
    witness: &Witness,
) -> (r: Result<bool, ServiceError>)
    requires
        cs.wf(),
        vk.wf(),
        vk.expected_inputs == cs.num_public,
        witness.signals@.len() == cs.spec_num_signals(),
        seq_wf(witness.signals@),
        values_of(witness.signals@)[0] == 1,
        cs_satisfied(*cs, values_of(witness.signals@)),
    ensures
        vk.bytes@ == vk_of(pk.bytes@) && pk_matches(
            pk.bytes@,
            rows_model(*cs),
            (1 + cs.num_public) as nat,
            (cs.num_private + cs.num_aux) as nat,
            cs.spec_num_signals(),
        ) ==> {
            &&& (r matches Ok(b) ==> b == true)
            &&& (groth16_prove_ok(
                pk.bytes@,
                rows_model(*cs),
                values_of(witness.signals@),
                (1 + cs.num_public) as nat,
                (cs.num_private + cs.num_aux) as nat,
                cs.spec_num_signals(),
            ) ==> r == Ok::<bool, ServiceError>(true))
        },
{
    let proof = match prove(pk, cs, witness) {
        Ok(p) => p,
        Err(e) => { return Err(e) },
    };
    let public_inputs = public_inputs_of(cs, witness);
    verify(vk, &public_inputs, &proof)
}

/// Checks a proof against a verification key and public inputs. The
/// input count is compared with the key before any pairing computation;
/// a failed pairing check is the normal `Ok(false)`, never an error.
pub fn verify(vk: &VerifyingKey, public_inputs: &PublicInputs, proof: &Proof) -> (r: Result<
    bool,
    ServiceError,
>)
    requires
        vk.wf(),
        seq_wf(public_inputs.values@),
    ensures
        public_inputs.values@.len() != vk.expected_inputs <==> r == Err::<bool, ServiceError>(
            ServiceError::InputLengthMismatch,
        ),
        public_inputs.values@.len() == vk.expected_inputs ==> match r {
            Ok(b) => groth16_verdict(vk.bytes@, values_of(public_inputs.values@), proof.bytes@)
                == Some(b),
            Err(e) => e == ServiceError::MalformedCircuit && groth16_verdict(
                vk.bytes@,
                values_of(public_inputs.values@),
                proof.bytes@,
            ) is None,
        },
{
    if public_inputs.values.len() != vk.expected_inputs {
        return Err(ServiceError::InputLengthMismatch);
    }
    pairing_check_raw(&vk.bytes, &public_inputs.values, &proof.bytes)
}

/// The public input count a usable verification key artifact expects,
/// if the bytes are one.
pub open spec fn key_shape(bytes: Seq<u8>) -> Option<nat> {
    match vk_element_count(bytes) {
        Option::None => Option::None,
        Option::Some(n) => if n >= 1 {
            Option::Some((n - 1) as nat)
        } else {
            Option::None
        },
    }
}

/// Checks a proof straight against a verification key artifact: reads
/// the key, then verifies. The artifact bytes carry no assumption; a
/// byte string that is no key is reported as malformed.
pub fn verify_with_key_bytes(vk_bytes: Vec<u8>, public_inputs: &PublicInputs, proof: &Proof) -> (r:
    Result<bool, ServiceError>)
    requires
        seq_wf(public_inputs.values@),
    ensures
        key_shape(vk_bytes@) is None ==> r == Err::<bool, ServiceError>(ServiceError::MalformedCircuit),
        key_shape(vk_bytes@) matches Some(e) && public_inputs.values@.len() != e ==> r == Err::<bool, ServiceError>(
            ServiceError::InputLengthMismatch,
        ),
        key_shape(vk_bytes@) matches Some(e) && public_inputs.values@.len() == e ==> match r {
            Ok(b) => groth16_verdict(vk_bytes@, values_of(public_inputs.values@), proof.bytes@)
                == Some(b),
            Err(err) => err == ServiceError::MalformedCircuit && groth16_verdict(
                vk_bytes@,
                values_of(public_inputs.values@),
                proof.bytes@,
            ) is None,
        },
{
    let vk = match vk_from_bytes(vk_bytes) {
        Ok(v) => v,
        Err(e) => { return Err(e) },
    };
    verify(&vk, public_inputs, proof)
}

} // verus!
