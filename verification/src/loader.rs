//! Loading circuit artifacts from their binary form.
//!
//! A circuit ships as two artifacts: the constraint system and the
//! signal-name map. Both begin with a four-byte tag and a version word;
//! integers are little-endian 32-bit, scalars are 32 canonical
//! little-endian bytes. The loader parses, validates the structure, and
//! accepts only the canonical encoding of a well-formed circuit: what
//! it hands back re-encodes to the very bytes it was given. For the
//! signal-map artifact the parse is proved exact in both directions;
//! for the constraint-system artifact the accepting direction is
//! proved and the converse — every canonical encoding is accepted — is
//! exercised by the round-trip tests.

use vstd::prelude::*;
use crate::errors::ServiceError;
use crate::field::{Fr, fr_order};
use vstd::arithmetic::div_mod::lemma_fundamental_div_mod_converse;
use crate::r1cs::{Constraint, ConstraintSystem, LinComb, Term, constraint_wf, lc_wf};
use crate::witness::SignalMap;

verus! {

/// The little-endian bytes of a 32-bit count.
pub open spec fn enc_u32(n: nat) -> Seq<u8> {
    seq![
        (n % 256) as u8,
        ((n / 256) % 256) as u8,
        ((n / 65536) % 256) as u8,
        ((n / 16777216) % 256) as u8,
    ]
}

/// The little-endian bytes of one 64-bit limb.
pub open spec fn enc_u64(n: nat) -> Seq<u8> {
    seq![
        (n % 256) as u8,
        ((n / 256) % 256) as u8,
        ((n / 65536) % 256) as u8,
        ((n / 16777216) % 256) as u8,
        ((n / 4294967296) % 256) as u8,
        ((n / 1099511627776) % 256) as u8,
        ((n / 281474976710656) % 256) as u8,
        ((n / 72057594037927936) % 256) as u8,
    ]
}

/// A scalar as its 32 canonical little-endian bytes.
pub open spec fn enc_fr(f: Fr) -> Seq<u8> {
    enc_u64(f.l0 as nat) + enc_u64(f.l1 as nat) + enc_u64(f.l2 as nat) + enc_u64(f.l3 as nat)
}

/// One linear-combination term: signal index, then coefficient.
pub open spec fn enc_term(t: Term) -> Seq<u8> {
    enc_u32(t.signal as nat) + enc_fr(t.coeff)
}

/// The terms of a linear combination, in order.
pub open spec fn enc_terms(ts: Seq<Term>) -> Seq<u8>
    decreases ts.len(),
{
    if ts.len() == 0 {
        Seq::empty()
    } else {
        enc_terms(ts.drop_last()) + enc_term(ts.last())
    }
}

/// A linear combination: its term count, then its terms.
pub open spec fn enc_lc(lc: LinComb) -> Seq<u8> {
    enc_u32(lc.terms@.len() as nat) + enc_terms(lc.terms@)
}

/// One constraint: its three linear combinations.
pub open spec fn enc_constraint(c: Constraint) -> Seq<u8> {
    enc_lc(c.a) + enc_lc(c.b) + enc_lc(c.c)
}

/// The constraints of a system, in order.
pub open spec fn enc_constraints(cs: Seq<Constraint>) -> Seq<u8>
    decreases cs.len(),
{
    if cs.len() == 0 {
        Seq::empty()
    } else {
        enc_constraints(cs.drop_last()) + enc_constraint(cs.last())
    }
}

/// The tag that opens a constraint-system artifact.
pub open spec fn circuit_magic() -> Seq<u8> {
    seq![82u8, 49u8, 67u8, 83u8]
}

/// The whole constraint-system artifact: tag, version one, the four
/// counts, then the constraints.
pub open spec fn enc_circuit(cs: ConstraintSystem) -> Seq<u8> {
    circuit_magic() + enc_u32(1) + enc_u32(cs.num_public as nat) + enc_u32(cs.num_private as nat)
        + enc_u32(cs.num_aux as nat) + enc_u32(cs.constraints@.len() as nat) + enc_constraints(
        cs.constraints@,
    )
}

/// One signal name: its byte length, then its UTF-8 bytes.
pub open spec fn enc_name(s: String) -> Seq<u8> {
    enc_u32(vstd::utf8::encode_utf8(s@).len() as nat) + vstd::utf8::encode_utf8(s@)
}

/// A run of signal names, in declaration order.
pub open spec fn enc_names(ns: Seq<String>) -> Seq<u8>
    decreases ns.len(),
{
    if ns.len() == 0 {
        Seq::empty()
    } else {
        enc_names(ns.drop_last()) + enc_name(ns.last())
    }
}

/// The tag that opens a signal-map artifact.
pub open spec fn map_magic() -> Seq<u8> {
    seq![83u8, 71u8, 78u8, 76u8]
}

/// The whole signal-map artifact: tag, version one, the two counts, the
/// public names, the private names.
pub open spec fn enc_signal_map(sm: SignalMap) -> Seq<u8> {
    map_magic() + enc_u32(1) + enc_u32(sm.public_names@.len() as nat) + enc_u32(
        sm.private_names@.len() as nat,
    ) + enc_names(sm.public_names@) + enc_names(sm.private_names@)
}

/// Whether a linear combination fits the artifact's 32-bit fields.
pub open spec fn lc_encodable(lc: LinComb) -> bool {
    &&& lc.terms@.len() <= u32::MAX
    &&& forall|i: int| 0 <= i < lc.terms@.len() ==> (#[trigger] lc.terms@[i]).signal <= u32::MAX
}

/// Whether every count of the system fits the artifact's 32-bit fields.
pub open spec fn circuit_encodable(cs: ConstraintSystem) -> bool {
    &&& cs.num_public <= u32::MAX
    &&& cs.num_private <= u32::MAX
    &&& cs.num_aux <= u32::MAX
    &&& cs.constraints@.len() <= u32::MAX
    &&& forall|i: int| 0 <= i < cs.constraints@.len() ==> {
        let c = #[trigger] cs.constraints@[i];
        lc_encodable(c.a) && lc_encodable(c.b) && lc_encodable(c.c)
    }
}

/// Whether every name of a run fits the 32-bit length fields.
pub open spec fn names_fit(ns: Seq<String>) -> bool {
    forall|i: int| 0 <= i < ns.len() ==> vstd::utf8::encode_utf8((#[trigger] ns[i])@).len()
        <= u32::MAX
}

/// Whether every name of the map fits the 32-bit length fields.
pub open spec fn map_encodable(sm: SignalMap) -> bool {
    &&& sm.public_names@.len() <= u32::MAX
    &&& sm.private_names@.len() <= u32::MAX
    &&& names_fit(sm.public_names@)
    &&& names_fit(sm.private_names@)
}

fn push_u32_le(out: &mut Vec<u8>, v: u32)
    ensures
        final(out)@ == old(out)@ + enc_u32(v as nat),
{
    out.push((v % 256) as u8);
    out.push(((v / 256) % 256) as u8);
    out.push(((v / 65536) % 256) as u8);
    out.push(((v / 16777216) % 256) as u8);
    proof {
        assert(out@ =~= old(out)@ + enc_u32(v as nat));
    }
}

fn push_u64_le(out: &mut Vec<u8>, v: u64)
    ensures
        final(out)@ == old(out)@ + enc_u64(v as nat),
{
    out.push((v % 256) as u8);
    out.push(((v / 256) % 256) as u8);
    out.push(((v / 65536) % 256) as u8);
    out.push(((v / 16777216) % 256) as u8);
    out.push(((v / 4294967296) % 256) as u8);
    out.push(((v / 1099511627776) % 256) as u8);
    out.push(((v / 281474976710656) % 256) as u8);
    out.push(((v / 72057594037927936) % 256) as u8);
    proof {
        assert(out@ =~= old(out)@ + enc_u64(v as nat));
    }
}

#[verifier::rlimit(50)]
fn push_fr(out: &mut Vec<u8>, f: &Fr)
    ensures
        final(out)@ == old(out)@ + enc_fr(*f),
{
    push_u64_le(out, f.l0);
    push_u64_le(out, f.l1);
    push_u64_le(out, f.l2);
    push_u64_le(out, f.l3);
    proof {
        assert(out@ =~= old(out)@ + enc_fr(*f));
    }
}

#[verifier::rlimit(50)]
fn push_lc(out: &mut Vec<u8>, lc: &LinComb) -> (ok: bool)
    ensures
        ok <==> lc_encodable(*lc),
        ok ==> final(out)@ == old(out)@ + enc_lc(*lc),
{
    if lc.terms.len() > u32::MAX as usize {
        return false;
    }
    push_u32_le(out, lc.terms.len() as u32);
    let ghost mid = out@;
    let mut i: usize = 0;
    while i < lc.terms.len()
        invariant
            0 <= i <= lc.terms@.len(),
            lc.terms@.len() <= u32::MAX,
            out@ == mid + enc_terms(lc.terms@.take(i as int)),
            forall|j: int| 0 <= j < i ==> (#[trigger] lc.terms@[j]).signal <= u32::MAX,
        decreases lc.terms@.len() - i,
    {
        let t = lc.terms[i];
        if t.signal > u32::MAX as usize {
            return false;
        }
        push_u32_le(out, t.signal as u32);
        push_fr(out, &t.coeff);
        proof {
            let taken = lc.terms@.take(i + 1int);
            assert(taken.drop_last() =~= lc.terms@.take(i as int));
            assert(taken.last() == t);
            assert(out@ =~= mid + enc_terms(taken));
        }
        i += 1;
    }
    proof {
        assert(lc.terms@.take(lc.terms@.len() as int) =~= lc.terms@);
        assert(out@ =~= old(out)@ + enc_lc(*lc));
    }
    true
}

/// Writes a constraint system in its canonical binary form, or nothing
/// if a count of it overflows the artifact's 32-bit fields.
#[verifier::rlimit(50)]
pub fn serialize_circuit(cs: &ConstraintSystem) -> (r: Option<Vec<u8>>)
    ensures
        r matches Some(v) ==> v@ == enc_circuit(*cs),
        r is Some <==> circuit_encodable(*cs),
{
    if cs.num_public > u32::MAX as usize || cs.num_private > u32::MAX as usize || cs.num_aux
        > u32::MAX as usize || cs.constraints.len() > u32::MAX as usize {
        return None;
    }
    let mut out: Vec<u8> = Vec::new();
    out.push(82);
    out.push(49);
    out.push(67);
    out.push(83);
    push_u32_le(&mut out, 1);
    push_u32_le(&mut out, cs.num_public as u32);
    push_u32_le(&mut out, cs.num_private as u32);
    push_u32_le(&mut out, cs.num_aux as u32);
    push_u32_le(&mut out, cs.constraints.len() as u32);
    let ghost header = out@;
    proof {
        assert(header =~= circuit_magic() + enc_u32(1) + enc_u32(cs.num_public as nat) + enc_u32(
            cs.num_private as nat,
        ) + enc_u32(cs.num_aux as nat) + enc_u32(cs.constraints@.len() as nat));
    }
    let mut i: usize = 0;
    while i < cs.constraints.len()
        invariant
            0 <= i <= cs.constraints@.len(),
            out@ == header + enc_constraints(cs.constraints@.take(i as int)),
            header =~= circuit_magic() + enc_u32(1) + enc_u32(cs.num_public as nat) + enc_u32(
                cs.num_private as nat,
            ) + enc_u32(cs.num_aux as nat) + enc_u32(cs.constraints@.len() as nat),
            forall|j: int| 0 <= j < i ==> {
                let c = #[trigger] cs.constraints@[j];
                lc_encodable(c.a) && lc_encodable(c.b) && lc_encodable(c.c)
            },
        decreases cs.constraints@.len() - i,
    {
        if !push_lc(&mut out, &cs.constraints[i].a) {
            return None;
        }
        if !push_lc(&mut out, &cs.constraints[i].b) {
            return None;
        }
        if !push_lc(&mut out, &cs.constraints[i].c) {
            return None;
        }
        proof {
            let taken = cs.constraints@.take(i + 1int);
            assert(taken.drop_last() =~= cs.constraints@.take(i as int));
            assert(taken.last() == cs.constraints@[i as int]);
            assert(out@ =~= header + enc_constraints(taken));
        }
        i += 1;
    }
    proof {
        assert(cs.constraints@.take(cs.constraints@.len() as int) =~= cs.constraints@);
        assert(out@ =~= enc_circuit(*cs));
    }
    Some(out)
}

#[verifier::rlimit(50)]
fn push_name(out: &mut Vec<u8>, s: &String) -> (ok: bool)
    ensures
        ok <==> vstd::utf8::encode_utf8(s@).len() <= u32::MAX,
        ok ==> final(out)@ == old(out)@ + enc_name(*s),
{
    let b = s.as_str().as_bytes();
    if b.len() > u32::MAX as usize {
        return false;
    }
    push_u32_le(out, b.len() as u32);
    let ghost mid = out@;
    let mut i: usize = 0;
    while i < b.len()
        invariant
            0 <= i <= b@.len(),
            b@ == vstd::utf8::encode_utf8(s@),
            out@ == mid + b@.take(i as int),
        decreases b@.len() - i,
    {
        out.push(b[i]);
        proof {
            assert(out@ =~= mid + b@.take(i + 1int));
        }
        i += 1;
    }
    proof {
        assert(b@.take(b@.len() as int) =~= b@);
        assert(out@ =~= old(out)@ + enc_name(*s));
    }
    true
}

#[verifier::rlimit(50)]
fn push_names(out: &mut Vec<u8>, ns: &Vec<String>) -> (ok: bool)
    ensures
        ok <==> (forall|i: int|
            0 <= i < ns@.len() ==> vstd::utf8::encode_utf8((#[trigger] ns@[i])@).len()
                <= u32::MAX),
        ok ==> final(out)@ == old(out)@ + enc_names(ns@),
{
    let ghost start = out@;
    let mut i: usize = 0;
    while i < ns.len()
        invariant
            0 <= i <= ns@.len(),
            out@ == start + enc_names(ns@.take(i as int)),
            forall|j: int|
                0 <= j < i ==> vstd::utf8::encode_utf8((#[trigger] ns@[j])@).len() <= u32::MAX,
        decreases ns@.len() - i,
    {
        if !push_name(out, &ns[i]) {
            proof {
                assert(vstd::utf8::encode_utf8(ns@[i as int]@).len() > u32::MAX);
            }
            return false;
        }
        proof {
            let taken = ns@.take(i + 1int);
            assert(taken.drop_last() =~= ns@.take(i as int));
            assert(taken.last() == ns@[i as int]);
            assert(out@ =~= start + enc_names(taken));
        }
        i += 1;
    }
    proof {
        assert(ns@.take(ns@.len() as int) =~= ns@);
    }
    true
}

/// Writes a signal map in its canonical binary form, or nothing if a
/// count or name length of it overflows the 32-bit fields.
#[verifier::rlimit(50)]
pub fn serialize_signal_map(sm: &SignalMap) -> (r: Option<Vec<u8>>)
    ensures
        r matches Some(v) ==> v@ == enc_signal_map(*sm),
        r is Some <==> map_encodable(*sm),
{
    if sm.public_names.len() > u32::MAX as usize || sm.private_names.len() > u32::MAX as usize {
        return None;
    }
    let mut out: Vec<u8> = Vec::new();
    out.push(83);
    out.push(71);
    out.push(78);
    out.push(76);
    push_u32_le(&mut out, 1);
    push_u32_le(&mut out, sm.public_names.len() as u32);
    push_u32_le(&mut out, sm.private_names.len() as u32);
    let ghost header = out@;
    proof {
        assert(header =~= map_magic() + enc_u32(1) + enc_u32(sm.public_names@.len() as nat)
            + enc_u32(sm.private_names@.len() as nat));
    }
    if !push_names(&mut out, &sm.public_names) {
        return None;
    }
    if !push_names(&mut out, &sm.private_names) {
        return None;
    }
    proof {
        assert(out@ =~= enc_signal_map(*sm));
    }
    Some(out)
}

/// The largest count any artifact field may carry: circuits beyond it
/// are rejected rather than risking machine-size overflow.
pub const MAX_COUNT: usize = 100000000;

/// Low limb of the field order.
pub const FR_M0: u64 = 0x43E1F593F0000001;

/// Second limb of the field order.
pub const FR_M1: u64 = 0x2833E84879B97091;

/// Third limb of the field order.
pub const FR_M2: u64 = 0xB85045B68181585D;

/// High limb of the field order.
pub const FR_M3: u64 = 0x30644E72E131A029;

proof fn lemma_pair_lt(u1: nat, v1: nat, u2: nat, v2: nat)
    requires
        u1 < 0x1_0000_0000_0000_0000nat,
        u2 < 0x1_0000_0000_0000_0000nat,
    ensures
        (u1 + 0x1_0000_0000_0000_0000nat * v1 < u2 + 0x1_0000_0000_0000_0000nat * v2) <==> (v1
            < v2 || (v1 == v2 && u1 < u2)),
{
    let p: nat = 0x1_0000_0000_0000_0000nat;
    if v1 < v2 {
        assert(u1 + p * v1 < p * (v1 + 1));
        assert(p * (v1 + 1) <= p * v2);
    } else if v1 > v2 {
        assert(u2 + p * v2 < p * (v2 + 1));
        assert(p * (v2 + 1) <= p * v1);
    }
}

/// The canonical-form test: limb-wise comparison against the field
/// order decides whether the encoded value is a residue.
fn fr_canonical(f: &Fr) -> (r: bool)
    ensures
        r == f.wf(),
{
    proof {
        let p: nat = 0x1_0000_0000_0000_0000nat;
        let m = Fr { l0: FR_M0, l1: FR_M1, l2: FR_M2, l3: FR_M3 };
        assert(m.value() == fr_order());
        lemma_pair_lt(
            f.l0 as nat,
            (f.l1 as nat) + p * ((f.l2 as nat) + p * (f.l3 as nat)),
            m.l0 as nat,
            (m.l1 as nat) + p * ((m.l2 as nat) + p * (m.l3 as nat)),
        );
        lemma_pair_lt(
            f.l1 as nat,
            (f.l2 as nat) + p * (f.l3 as nat),
            m.l1 as nat,
            (m.l2 as nat) + p * (m.l3 as nat),
        );
        lemma_pair_lt(f.l2 as nat, f.l3 as nat, m.l2 as nat, m.l3 as nat);
    }
    f.l3 < FR_M3 || (f.l3 == FR_M3 && (f.l2 < FR_M2 || (f.l2 == FR_M2 && (f.l1 < FR_M1 || (f.l1
        == FR_M1 && f.l0 < FR_M0)))))
}

/// The 32-bit little-endian count that starts at byte `i`.
pub open spec fn u32_at(s: Seq<u8>, i: int) -> nat {
    (s[i] as nat) + 256 * (s[i + 1] as nat) + 65536 * (s[i + 2] as nat) + 16777216 * (s[i
        + 3] as nat)
}

proof fn lemma_u32_at_enc(s: Seq<u8>, pos: int)
    requires
        0 <= pos,
        pos + 4 <= s.len(),
    ensures
        u32_at(s, pos) <= u32::MAX,
        enc_u32(u32_at(s, pos)) =~= s.subrange(pos, pos + 4),
{
    let b0 = s[pos] as int;
    let b1 = s[pos + 1] as int;
    let b2 = s[pos + 2] as int;
    let b3 = s[pos + 3] as int;
    let n = u32_at(s, pos) as int;
    lemma_fundamental_div_mod_converse(n, 256, b1 + 256 * b2 + 65536 * b3, b0);
    lemma_fundamental_div_mod_converse(b1 + 256 * b2 + 65536 * b3, 256, b2 + 256 * b3, b1);
    lemma_fundamental_div_mod_converse(b2 + 256 * b3, 256, b3, b2);
    assert((n / 256) / 256 == n / 65536) by (nonlinear_arith)
        requires n >= 0;
    assert(((n / 256) / 256) / 256 == n / 16777216) by (nonlinear_arith)
        requires n >= 0;
    vstd::arithmetic::div_mod::lemma_small_mod(b3 as nat, 256);
}

proof fn lemma_enc_u32_at(s: Seq<u8>, pos: int, m: nat)
    requires
        0 <= pos,
        pos + 4 <= s.len(),
        m <= u32::MAX,
        s.subrange(pos, pos + 4) =~= enc_u32(m),
    ensures
        u32_at(s, pos) == m,
{
    lemma_u32_at_enc(s, pos);
    let n = u32_at(s, pos) as int;
    let mi = m as int;
    assert(enc_u32(u32_at(s, pos)) =~= enc_u32(m));
    assert(n % 256 == mi % 256 && (n / 256) % 256 == (mi / 256) % 256 && (n / 65536) % 256 == (mi
        / 65536) % 256 && (n / 16777216) % 256 == (mi / 16777216) % 256) by {
        assert(enc_u32(u32_at(s, pos))[0] == enc_u32(m)[0]);
        assert(enc_u32(u32_at(s, pos))[1] == enc_u32(m)[1]);
        assert(enc_u32(u32_at(s, pos))[2] == enc_u32(m)[2]);
        assert(enc_u32(u32_at(s, pos))[3] == enc_u32(m)[3]);
    }
    lemma_decompose_u32(n);
    lemma_decompose_u32(mi);
}

proof fn lemma_decompose_u32(n: int)
    requires
        0 <= n < 4294967296,
    ensures
        n == n % 256 + 256 * ((n / 256) % 256) + 65536 * ((n / 65536) % 256) + 16777216 * ((n
            / 16777216) % 256),
{
    vstd::arithmetic::div_mod::lemma_fundamental_div_mod(n, 256);
    vstd::arithmetic::div_mod::lemma_fundamental_div_mod(n / 256, 256);
    vstd::arithmetic::div_mod::lemma_fundamental_div_mod(n / 65536, 256);
    assert((n / 256) / 256 == n / 65536) by (nonlinear_arith)
        requires n >= 0;
    assert((n / 65536) / 256 == n / 16777216) by (nonlinear_arith)
        requires n >= 0;
    assert(n / 16777216 < 256) by (nonlinear_arith)
        requires 0 <= n < 4294967296;
    vstd::arithmetic::div_mod::lemma_small_mod((n / 16777216) as nat, 256);
}

/// The encodings of the names from position `k` on.
pub open spec fn enc_names_from(ns: Seq<String>, k: int) -> Seq<u8>
    decreases ns.len() - k,
{
    if k < 0 || k >= ns.len() {
        Seq::empty()
    } else {
        enc_name(ns[k]) + enc_names_from(ns, k + 1)
    }
}

proof fn lemma_enc_names_take_succ(ns: Seq<String>, i: int)
    requires
        0 <= i < ns.len(),
    ensures
        enc_names(ns.take(i + 1)) == enc_names(ns.take(i)) + enc_name(ns[i]),
{
    assert(ns.take(i + 1).drop_last() =~= ns.take(i));
    assert(ns.take(i + 1).last() == ns[i]);
}

proof fn lemma_enc_names_decompose(ns: Seq<String>, k: int)
    requires
        0 <= k <= ns.len(),
    ensures
        enc_names(ns) == enc_names(ns.take(k)) + enc_names_from(ns, k),
    decreases ns.len() - k,
{
    if k == ns.len() {
        assert(ns.take(k) =~= ns);
        assert(enc_names(ns) =~= enc_names(ns.take(k)) + enc_names_from(ns, k));
    } else {
        lemma_enc_names_decompose(ns, k + 1);
        lemma_enc_names_take_succ(ns, k);
        assert(enc_names(ns) =~= enc_names(ns.take(k)) + enc_names_from(ns, k));
    }
}

fn read_u32(b: &Vec<u8>, pos: usize) -> (r: u32)
    requires
        pos + 4 <= b@.len(),
    ensures
        r as nat == u32_at(b@, pos as int),
{
    let n: usize = b.len();
    proof {
        assert(pos + 4 <= n);
    }
    (b[pos] as u32) + (b[pos + 1] as u32) * 256 + (b[pos + 2] as u32) * 65536 + (b[pos
        + 3] as u32) * 16777216
}

/// The 64-bit little-endian limb that starts at byte `i`.
pub open spec fn u64_at(s: Seq<u8>, i: int) -> nat {
    (s[i] as nat) + 256 * (s[i + 1] as nat) + 65536 * (s[i + 2] as nat) + 16777216 * (s[i
        + 3] as nat) + 4294967296 * (s[i + 4] as nat) + 1099511627776 * (s[i + 5] as nat)
        + 281474976710656 * (s[i + 6] as nat) + 72057594037927936 * (s[i + 7] as nat)
}

fn read_u64(b: &Vec<u8>, pos: usize) -> (r: u64)
    requires
        pos + 8 <= b@.len(),
    ensures
        r as nat == u64_at(b@, pos as int),
{
    let n: usize = b.len();
    proof {
        assert(pos + 8 <= n);
    }
    (b[pos] as u64) + (b[pos + 1] as u64) * 256 + (b[pos + 2] as u64) * 65536 + (b[pos
        + 3] as u64) * 16777216 + (b[pos + 4] as u64) * 4294967296 + (b[pos + 5] as u64)
        * 1099511627776 + (b[pos + 6] as u64) * 281474976710656 + (b[pos + 7] as u64)
        * 72057594037927936
}

fn read_fr(b: &Vec<u8>, pos: usize) -> (r: Fr)
    requires
        pos + 32 <= b@.len(),
    ensures
        r.l0 as nat == u64_at(b@, pos as int),
        r.l1 as nat == u64_at(b@, pos + 8),
        r.l2 as nat == u64_at(b@, pos + 16),
        r.l3 as nat == u64_at(b@, pos + 24),
{
    let n: usize = b.len();
    proof {
        assert(pos + 32 <= n);
    }
    Fr {
        l0: read_u64(b, pos),
        l1: read_u64(b, pos + 8),
        l2: read_u64(b, pos + 16),
        l3: read_u64(b, pos + 24),
    }
}

#[verifier::rlimit(50)]
fn parse_lc(bytes: &Vec<u8>, pos: usize, bound: usize) -> (r: Option<(LinComb, usize)>)
    requires
        pos <= bytes@.len(),
    ensures
        r matches Some((lc, newpos)) ==> {
            &&& lc_wf(lc.terms@, bound as nat)
            &&& lc_encodable(lc)
            &&& pos <= newpos <= bytes@.len()
        },
{
    if bytes.len() - pos < 4 {
        return None;
    }
    let n = read_u32(bytes, pos) as usize;
    let mut p2: usize = pos + 4;
    let mut terms: Vec<Term> = Vec::new();
    let mut j: usize = 0;
    while j < n
        invariant
            0 <= j <= n,
            terms@.len() == j,
            pos + 4 <= p2 <= bytes@.len(),
            forall|k: int| 0 <= k < j ==> ((#[trigger] terms@[k]).signal as nat) < bound
                && terms@[k].coeff.wf(),
            forall|k: int| 0 <= k < j ==> (#[trigger] terms@[k]).signal <= u32::MAX,
        decreases n - j,
    {
        if bytes.len() - p2 < 36 {
            return None;
        }
        let sig = read_u32(bytes, p2) as usize;
        if sig >= bound {
            return None;
        }
        let coeff = read_fr(bytes, p2 + 4);
        if !fr_canonical(&coeff) {
            return None;
        }
        terms.push(Term { signal: sig, coeff });
        p2 = p2 + 36;
        j += 1;
    }
    Some((LinComb { terms }, p2))
}

/// Parses and validates a constraint-system artifact: the tag and
/// version must be recognized, every signal index must stay in range,
/// every coefficient must be canonical, and the first `num_aux`
/// constraints must have the defining shape. What comes back is
/// well-formed.
#[verifier::rlimit(100)]
pub fn parse_circuit(bytes: &Vec<u8>) -> (r: Option<ConstraintSystem>)
    ensures
        r matches Some(cs) ==> cs.wf() && circuit_encodable(cs),
        bytes@.len() < 24 ==> r is None,
        bytes@.len() >= 24 && bytes@.subrange(0, 4) != circuit_magic() ==> r is None,
        bytes@.len() >= 24 && u32_at(bytes@, 4) != 1 ==> r is None,
{
    if bytes.len() < 24 {
        return None;
    }
    if !(bytes[0] == 82 && bytes[1] == 49 && bytes[2] == 67 && bytes[3] == 83) {
        return None;
    }
    proof {
        assert(bytes@.subrange(0, 4) =~= circuit_magic());
    }
    if read_u32(bytes, 4) != 1 {
        return None;
    }
    let np = read_u32(bytes, 8) as usize;
    let npr = read_u32(bytes, 12) as usize;
    let na = read_u32(bytes, 16) as usize;
    let nc = read_u32(bytes, 20) as usize;
    if np > MAX_COUNT || npr > MAX_COUNT || na > MAX_COUNT || nc > MAX_COUNT {
        return None;
    }
    if na > nc {
        return None;
    }
    let base: usize = 1 + np + npr;
    let ns: usize = base + na;
    let mut constraints: Vec<Constraint> = Vec::new();
    let mut pos: usize = 24;
    let mut i: usize = 0;
    while i < nc
        invariant
            0 <= i <= nc,
            constraints@.len() == i,
            24 <= pos <= bytes@.len(),
            np <= MAX_COUNT,
            npr <= MAX_COUNT,
            na <= MAX_COUNT,
            nc <= MAX_COUNT,
            na <= nc,
            base == 1 + np + npr,
            ns == base + na,
            forall|j: int| 0 <= j < i ==> constraint_wf(#[trigger] constraints@[j], ns as nat),
            forall|j: int| 0 <= j < i && j < na ==> {
                let c = #[trigger] constraints@[j];
                &&& c.c.terms@.len() == 1
                &&& c.c.terms@[0].signal as nat == base + j
                &&& c.c.terms@[0].coeff.value() == 1
                &&& lc_wf(c.a.terms@, (base + j) as nat)
                &&& lc_wf(c.b.terms@, (base + j) as nat)
            },
            forall|j: int| 0 <= j < i ==> {
                let c = #[trigger] constraints@[j];
                lc_encodable(c.a) && lc_encodable(c.b) && lc_encodable(c.c)
            },
        decreases nc - i,
    {
        let ab_bound: usize = if i < na { base + i } else { ns };
        let (a, pos_a) = match parse_lc(bytes, pos, ab_bound) {
            None => { return None; },
            Some(x) => x,
        };
        let (b, pos_b) = match parse_lc(bytes, pos_a, ab_bound) {
            None => { return None; },
            Some(x) => x,
        };
        let (c, pos_c) = match parse_lc(bytes, pos_b, ns) {
            None => { return None; },
            Some(x) => x,
        };
        if i < na {
            if !(c.terms.len() == 1) {
                return None;
            }
            let t0 = c.terms[0];
            if !(t0.signal == base + i && t0.coeff.l0 == 1 && t0.coeff.l1 == 0 && t0.coeff.l2 == 0
                && t0.coeff.l3 == 0) {
                return None;
            }
        }
        proof {
            if i < na {
                assert(lc_wf(a.terms@, (base + i as int) as nat));
                assert(lc_wf(b.terms@, (base + i as int) as nat));
            }
            assert forall|k: int| 0 <= k < a.terms@.len() implies ((
            #[trigger] a.terms@[k]).signal as nat) < ns as nat && a.terms@[k].coeff.wf() by {
                assert(lc_wf(a.terms@, ab_bound as nat));
            }
            assert forall|k: int| 0 <= k < b.terms@.len() implies ((
            #[trigger] b.terms@[k]).signal as nat) < ns as nat && b.terms@[k].coeff.wf() by {
                assert(lc_wf(b.terms@, ab_bound as nat));
            }
        }
        constraints.push(Constraint { a, b, c });
        pos = pos_c;
        i += 1;
    }
    if pos != bytes.len() {
        return None;
    }
    let cs = ConstraintSystem { num_public: np, num_private: npr, num_aux: na, constraints };
    proof {
        assert(cs.spec_num_signals() == ns as nat);
        assert(cs.aux_base() == base as nat);
        assert(cs.wf());
    }
    Some(cs)
}

/// Relies on `String::from_utf8`: it succeeds exactly on valid UTF-8
/// and decodes the byte string to its scalar values.
#[verifier::external_body]
fn string_from_bytes(v: Vec<u8>) -> (r: Option<String>)
    ensures
        r is Some <==> vstd::utf8::valid_utf8(v@),
        r matches Some(s) ==> s@ == vstd::utf8::decode_utf8(v@),
{
    String::from_utf8(v).ok()
}

/// Whether the bytes from `pos` on encode exactly this run of names.
pub open spec fn names_decode_here(bytes: Seq<u8>, pos: nat, count: nat, ns0: Seq<String>) -> bool {
    &&& ns0.len() == count
    &&& names_fit(ns0)
    &&& pos + enc_names(ns0).len() <= bytes.len()
    &&& bytes.subrange(pos as int, (pos + enc_names(ns0).len()) as int) == enc_names(ns0)
}

#[verifier::rlimit(100)]
fn parse_names(bytes: &Vec<u8>, pos: usize, count: usize) -> (r: Option<(Vec<String>, usize)>)
    requires
        pos <= bytes@.len(),
    ensures
        r matches Some((ns, newpos)) ==> {
            &&& ns@.len() == count
            &&& pos <= newpos <= bytes@.len()
            &&& names_fit(ns@)
            &&& enc_names(ns@) == bytes@.subrange(pos as int, newpos as int)
        },
        forall|ns0: Seq<String>| names_decode_here(bytes@, pos as nat, count as nat, ns0) ==> (
        r matches Some(p) && p.1 == pos + enc_names(ns0).len()),
{
    let blen: usize = bytes.len();
    let mut names: Vec<String> = Vec::new();
    let mut p2: usize = pos;
    let mut i: usize = 0;
    proof {
        assert(enc_names(names@) =~= bytes@.subrange(pos as int, pos as int));
    }
    while i < count
        invariant
            0 <= i <= count,
            names@.len() == i,
            pos <= p2 <= bytes@.len(),
            bytes@.len() == blen,
            names_fit(names@),
            enc_names(names@) == bytes@.subrange(pos as int, p2 as int),
            forall|ns0: Seq<String>| names_decode_here(bytes@, pos as nat, count as nat, ns0)
                ==> i <= ns0.len() && p2 == pos + enc_names(ns0.take(i as int)).len(),
        decreases count - i,
    {
        proof {
            assert forall|ns0: Seq<String>| names_decode_here(
                bytes@,
                pos as nat,
                count as nat,
                ns0,
            ) implies {
                &&& p2 + 4 + vstd::utf8::encode_utf8(ns0[i as int]@).len() <= bytes@.len()
                &&& bytes@.subrange(p2 as int, p2 + 4) =~= enc_u32(
                    vstd::utf8::encode_utf8(ns0[i as int]@).len() as nat,
                )
                &&& bytes@.subrange(
                    p2 + 4,
                    p2 + 4 + vstd::utf8::encode_utf8(ns0[i as int]@).len(),
                ) =~= vstd::utf8::encode_utf8(ns0[i as int]@)
            } by {
                lemma_enc_names_decompose(ns0, i as int);
                let ea = enc_names(ns0.take(i as int));
                let eb = enc_name(ns0[i as int]);
                let ec = enc_names_from(ns0, i + 1int);
                assert(enc_names_from(ns0, i as int) == eb + ec);
                assert(enc_names(ns0) =~= ea + (eb + ec));
                assert(ea.len() == p2 - pos);
                let lb = vstd::utf8::encode_utf8(ns0[i as int]@).len() as int;
                assert(eb.len() == 4 + lb);
                assert(pos + enc_names(ns0).len() <= bytes@.len());
                assert(p2 + 4 + lb <= bytes@.len());
                let e = enc_names(ns0);
                assert forall|j: int| 0 <= j < e.len() implies e[j] == bytes@[pos + j] by {
                    assert(bytes@.subrange(
                        pos as int,
                        (pos + enc_names(ns0).len()) as int,
                    )[j] == bytes@[pos + j]);
                }
                assert(bytes@.subrange(p2 as int, p2 + 4) =~= enc_u32(lb as nat)) by {
                    assert forall|t: int| 0 <= t < 4 implies #[trigger] bytes@.subrange(
                        p2 as int,
                        p2 + 4,
                    )[t] == enc_u32(lb as nat)[t] by {
                        assert(bytes@.subrange(p2 as int, p2 + 4)[t] == bytes@[p2 + t]);
                        assert(bytes@[p2 + t] == e[p2 - pos + t]);
                        assert(e[p2 - pos + t] == (ea + (eb + ec))[p2 - pos + t]);
                        assert((ea + (eb + ec))[p2 - pos + t] == eb[t]);
                        assert(eb[t] == enc_u32(lb as nat)[t]);
                    }
                }
                assert(bytes@.subrange(p2 + 4, p2 + 4 + lb) =~= vstd::utf8::encode_utf8(
                    ns0[i as int]@,
                )) by {
                    assert forall|t: int| 0 <= t < lb implies #[trigger] bytes@.subrange(
                        p2 + 4,
                        p2 + 4 + lb,
                    )[t] == vstd::utf8::encode_utf8(ns0[i as int]@)[t] by {
                        assert(bytes@.subrange(p2 + 4, p2 + 4 + lb)[t] == bytes@[p2 + 4 + t]);
                        assert(bytes@[p2 + 4 + t] == e[p2 - pos + 4 + t]);
                        assert(e[p2 - pos + 4 + t] == (ea + (eb + ec))[p2 - pos + 4 + t]);
                        assert((ea + (eb + ec))[p2 - pos + 4 + t] == eb[4 + t]);
                        assert(eb[4 + t] == vstd::utf8::encode_utf8(ns0[i as int]@)[t]);
                    }
                }
            }
        }
        if blen - p2 < 4 {
            proof {
                assert forall|ns0: Seq<String>| !names_decode_here(
                    bytes@,
                    pos as nat,
                    count as nat,
                    ns0,
                ) by {
                }
            }
            return None;
        }
        let n = read_u32(bytes, p2) as usize;
        let start = p2 + 4;
        proof {
            lemma_u32_at_enc(bytes@, p2 as int);
            assert forall|ns0: Seq<String>| names_decode_here(
                bytes@,
                pos as nat,
                count as nat,
                ns0,
            ) implies n == vstd::utf8::encode_utf8(ns0[i as int]@).len() by {
                lemma_enc_u32_at(
                    bytes@,
                    p2 as int,
                    vstd::utf8::encode_utf8(ns0[i as int]@).len() as nat,
                );
            }
        }
        if blen - start < n {
            proof {
                assert forall|ns0: Seq<String>| !names_decode_here(
                    bytes@,
                    pos as nat,
                    count as nat,
                    ns0,
                ) by {
                }
            }
            return None;
        }
        let mut nb: Vec<u8> = Vec::new();
        let mut k: usize = 0;
        while k < n
            invariant
                0 <= k <= n,
                start + n <= bytes@.len(),
                bytes@.len() == blen,
                nb@.len() == k,
                nb@ == bytes@.subrange(start as int, start + k),
            decreases n - k,
        {
            nb.push(bytes[start + k]);
            proof {
                assert(nb@ =~= bytes@.subrange(start as int, start + k + 1));
            }
            k += 1;
        }
        let ghost nbv = nb@;
        let s = match string_from_bytes(nb) {
            None => {
                proof {
                    assert forall|ns0: Seq<String>| !names_decode_here(
                        bytes@,
                        pos as nat,
                        count as nat,
                        ns0,
                    ) by {
                        if names_decode_here(bytes@, pos as nat, count as nat, ns0) {
                            vstd::utf8::encode_utf8_valid_utf8(ns0[i as int]@);
                            assert(nbv =~= vstd::utf8::encode_utf8(ns0[i as int]@));
                        }
                    }
                }
                return None;
            },
            Some(s) => s,
        };
        proof {
            vstd::utf8::decode_utf8_encode_utf8(nbv);
            assert(vstd::utf8::encode_utf8(s@) == nbv);
            assert(enc_name(s) =~= bytes@.subrange(p2 as int, start + n));
            assert((names@.push(s)).drop_last() =~= names@);
            assert(enc_names(names@.push(s)) =~= enc_names(names@) + enc_name(s));
            assert(enc_names(names@.push(s)) =~= bytes@.subrange(pos as int, start + n));
            assert forall|ns0: Seq<String>| names_decode_here(
                bytes@,
                pos as nat,
                count as nat,
                ns0,
            ) implies start + n == pos + enc_names(ns0.take(i + 1int)).len() by {
                lemma_enc_names_take_succ(ns0, i as int);
            }
        }
        names.push(s);
        p2 = start + n;
        i += 1;
    }
    proof {
        assert forall|ns0: Seq<String>| names_decode_here(
            bytes@,
            pos as nat,
            count as nat,
            ns0,
        ) implies p2 == pos + enc_names(ns0).len() by {
            assert(ns0.take(count as int) =~= ns0);
        }
    }
    Some((names, p2))
}

/// Whether the bytes are exactly the canonical artifact of this map.
pub open spec fn map_decodes_to(bytes: Seq<u8>, sm0: SignalMap) -> bool {
    &&& map_encodable(sm0)
    &&& bytes == enc_signal_map(sm0)
}

/// Parses and validates a signal-map artifact: the tag and version must
/// be recognized and every name must be valid UTF-8 of the declared
/// length. The parse is exact in both directions: what comes back
/// re-encodes to the input bytes, and the canonical artifact of every
/// encodable map is accepted.
#[verifier::rlimit(100)]
pub fn parse_signal_map(bytes: &Vec<u8>) -> (r: Option<SignalMap>)
    ensures
        r matches Some(sm) ==> sm.public_names@.len() == u32_at(bytes@, 8)
            && sm.private_names@.len() == u32_at(bytes@, 12),
        r matches Some(sm) ==> map_encodable(sm) && enc_signal_map(sm) == bytes@,
        forall|sm0: SignalMap| map_decodes_to(bytes@, sm0) ==> r is Some,
        bytes@.len() < 16 ==> r is None,
        bytes@.len() >= 16 && bytes@.subrange(0, 4) != map_magic() ==> r is None,
        bytes@.len() >= 16 && u32_at(bytes@, 4) != 1 ==> r is None,
{
    proof {
        assert forall|sm0: SignalMap| map_decodes_to(bytes@, sm0) implies {
            &&& bytes@.len() >= 16
            &&& bytes@.subrange(0, 4) =~= map_magic()
            &&& bytes@.subrange(4, 8) =~= enc_u32(1)
            &&& bytes@.subrange(8, 12) =~= enc_u32(sm0.public_names@.len() as nat)
            &&& bytes@.subrange(12, 16) =~= enc_u32(sm0.private_names@.len() as nat)
            &&& names_decode_here(bytes@, 16, sm0.public_names@.len(), sm0.public_names@)
            &&& names_decode_here(
                bytes@,
                (16 + enc_names(sm0.public_names@).len()) as nat,
                sm0.private_names@.len(),
                sm0.private_names@,
            )
            &&& bytes@.len() == 16 + enc_names(sm0.public_names@).len() + enc_names(
                sm0.private_names@,
            ).len()
        } by {
            assert(bytes@ =~= map_magic() + enc_u32(1) + enc_u32(sm0.public_names@.len() as nat)
                + enc_u32(sm0.private_names@.len() as nat) + enc_names(sm0.public_names@)
                + enc_names(sm0.private_names@));
            assert(bytes@.subrange(0, 4) =~= map_magic());
            assert(bytes@.subrange(4, 8) =~= enc_u32(1));
            assert(bytes@.subrange(8, 12) =~= enc_u32(sm0.public_names@.len() as nat));
            assert(bytes@.subrange(12, 16) =~= enc_u32(sm0.private_names@.len() as nat));
            assert(bytes@.subrange(16, 16 + enc_names(sm0.public_names@).len() as int) =~= enc_names(
                sm0.public_names@,
            ));
            assert(bytes@.subrange(
                16 + enc_names(sm0.public_names@).len() as int,
                16 + enc_names(sm0.public_names@).len() + enc_names(sm0.private_names@).len() as int,
            ) =~= enc_names(sm0.private_names@));
        }
    }
    if bytes.len() < 16 {
        return None;
    }
    if !(bytes[0] == 83 && bytes[1] == 71 && bytes[2] == 78 && bytes[3] == 76) {
        proof {
            assert forall|sm0: SignalMap| !map_decodes_to(bytes@, sm0) by {
                if map_decodes_to(bytes@, sm0) {
                    assert(bytes@[0] == map_magic()[0] && bytes@[1] == map_magic()[1] && bytes@[2]
                        == map_magic()[2] && bytes@[3] == map_magic()[3]);
                }
            }
        }
        return None;
    }
    proof {
        assert(bytes@.subrange(0, 4) =~= map_magic());
    }
    if read_u32(bytes, 4) != 1 {
        proof {
            assert forall|sm0: SignalMap| !map_decodes_to(bytes@, sm0) by {
                if map_decodes_to(bytes@, sm0) {
                    lemma_enc_u32_at(bytes@, 4, 1);
                }
            }
        }
        return None;
    }
    let np = read_u32(bytes, 8) as usize;
    let npr = read_u32(bytes, 12) as usize;
    proof {
        assert forall|sm0: SignalMap| map_decodes_to(bytes@, sm0) implies np
            == sm0.public_names@.len() && npr == sm0.private_names@.len() by {
            lemma_enc_u32_at(bytes@, 8, sm0.public_names@.len() as nat);
            lemma_enc_u32_at(bytes@, 12, sm0.private_names@.len() as nat);
        }
    }
    let (public_names, pos_a) = match parse_names(bytes, 16, np) {
        None => {
            proof {
                assert forall|sm0: SignalMap| !map_decodes_to(bytes@, sm0) by {
                }
            }
            return None;
        },
        Some(x) => x,
    };
    let (private_names, pos_b) = match parse_names(bytes, pos_a, npr) {
        None => {
            proof {
                assert forall|sm0: SignalMap| !map_decodes_to(bytes@, sm0) by {
                }
            }
            return None;
        },
        Some(x) => x,
    };
    if pos_b != bytes.len() {
        proof {
            assert forall|sm0: SignalMap| !map_decodes_to(bytes@, sm0) by {
            }
        }
        return None;
    }
    let sm = SignalMap { public_names, private_names };
    proof {
        lemma_u32_at_enc(bytes@, 8);
        lemma_u32_at_enc(bytes@, 12);
        assert(bytes@ =~= bytes@.subrange(0, 4) + bytes@.subrange(4, 8) + bytes@.subrange(8, 12)
            + bytes@.subrange(12, 16) + bytes@.subrange(16, pos_a as int) + bytes@.subrange(
            pos_a as int,
            pos_b as int,
        ));
        lemma_u32_at_enc(bytes@, 4);
        assert(bytes@.subrange(4, 8) =~= enc_u32(1));
        assert(bytes@.subrange(8, 12) =~= enc_u32(sm.public_names@.len() as nat));
        assert(bytes@.subrange(12, 16) =~= enc_u32(sm.private_names@.len() as nat));
        assert(enc_signal_map(sm) == bytes@);
    }
    Some(sm)
}

/// Byte-for-byte comparison of two vectors.
fn bytes_equal(a: &Vec<u8>, b: &Vec<u8>) -> (r: bool)
    ensures
        r == (a@ == b@),
{
    if a.len() != b.len() {
        return false;
    }
    let mut i: usize = 0;
    while i < a.len()
        invariant
            0 <= i <= a@.len(),
            a@.len() == b@.len(),
            forall|j: int| 0 <= j < i ==> a@[j] == b@[j],
        decreases a@.len() - i,
    {
        if a[i] != b[i] {
            return false;
        }
        i += 1;
    }
    proof {
        assert(a@ =~= b@);
    }
    true
}

/// Loads a circuit from its two artifacts. Succeeds only on the
/// canonical encoding of a well-formed circuit whose signal-map counts
/// agree with the constraint system: whatever it hands back re-encodes
/// to exactly the bytes it was given. An unrecognized tag or version,
/// a structural fault, or a non-canonical encoding is malformed. The
/// converse — that the canonical encoding of every well-formed circuit
/// is loaded back — holds of the code and is checked by the round-trip
/// tests, but is not among the proved clauses below.
pub fn load(circuit_bytes: &Vec<u8>, signal_bytes: &Vec<u8>) -> (r: Result<
    (ConstraintSystem, SignalMap),
    ServiceError,
>)
    ensures
        match r {
            Ok((cs, sm)) => {
                &&& cs.wf()
                &&& sm.consistent_with(cs)
                &&& circuit_bytes@ == enc_circuit(cs)
                &&& signal_bytes@ == enc_signal_map(sm)
            },
            Err(e) => e == ServiceError::MalformedCircuit,
        },
        circuit_bytes@.len() < 24 ==> r is Err,
        circuit_bytes@.len() >= 24 && circuit_bytes@.subrange(0, 4) != circuit_magic() ==> r
            is Err,
        circuit_bytes@.len() >= 24 && u32_at(circuit_bytes@, 4) != 1 ==> r is Err,
        signal_bytes@.len() < 16 ==> r is Err,
        signal_bytes@.len() >= 16 && signal_bytes@.subrange(0, 4) != map_magic() ==> r is Err,
        signal_bytes@.len() >= 16 && u32_at(signal_bytes@, 4) != 1 ==> r is Err,
{
    let cs = match parse_circuit(circuit_bytes) {
        None => { return Err(ServiceError::MalformedCircuit) },
        Some(c) => c,
    };
    let sm = match parse_signal_map(signal_bytes) {
        None => { return Err(ServiceError::MalformedCircuit) },
        Some(s) => s,
    };
    if sm.public_names.len() != cs.num_public || sm.private_names.len() != cs.num_private {
        return Err(ServiceError::MalformedCircuit);
    }
    let ser_c = match serialize_circuit(&cs) {
        None => { return Err(ServiceError::MalformedCircuit) },
        Some(v) => v,
    };
    let ser_s = match serialize_signal_map(&sm) {
        None => { return Err(ServiceError::MalformedCircuit) },
        Some(v) => v,
    };
    if !bytes_equal(circuit_bytes, &ser_c) {
        return Err(ServiceError::MalformedCircuit);
    }
    if !bytes_equal(signal_bytes, &ser_s) {
        return Err(ServiceError::MalformedCircuit);
    }
    Ok((cs, sm))
}

} // verus!
