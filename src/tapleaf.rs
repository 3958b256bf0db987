use crate::circuit::GateKind;
use crate::commitment::BitCommitmentHashes;
use crate::script::{
    assemble, builder_bytes, items_bytes, push_items, script_bytes, ScriptItem, OP_0, OP_1, OP_10,
    OP_BOOLAND, OP_BOOLOR, OP_CHECKSIG, OP_CHECKSIGVERIFY, OP_CSV, OP_DROP, OP_DUP, OP_EQUAL,
    OP_EQUALVERIFY, OP_FROMALTSTACK, OP_NOT, OP_NUMNOTEQUAL, OP_SHA256, OP_SWAP, OP_TOALTSTACK,
    OP_VERIFY,
};
use crate::commitment::sha256_of;
use crate::script_eval::{
    accepts, bool_item, exec_op, lemma_bool_item_num, lemma_eval_items, lemma_run_append,
    plain_items, push, run_items, step_item, Stacks, MAX_ELEMENT_SIZE,
};
use bitcoin::script::Builder;
use bitcoin::ScriptBuf;
use vstd::prelude::*;

verus! {

/// The digest that reveals `bit`.
pub open spec fn bit_hash(h: BitCommitmentHashes, bit: bool) -> [u8; 32] {
    if bit {
        h.1
    } else {
        h.0
    }
}

/// The opcode that pushes `bit` (`OP_1` or `OP_0`).
pub open spec fn bit_op(bit: bool) -> u8 {
    if bit {
        OP_1
    } else {
        OP_0
    }
}

/// The truth table of each kind of gate (`b` unused for `Inv`).
pub open spec fn gate_output(kind: GateKind, a: bool, b: bool) -> bool {
    match kind {
        GateKind::And => a && b,
        GateKind::Nand => !(a && b),
        GateKind::Xor => a != b,
        GateKind::Inv => !a,
    }
}

/// The opcodes that compute a gate's output from its input bits on the stack.
pub open spec fn gate_ops(kind: GateKind) -> Seq<ScriptItem> {
    match kind {
        GateKind::And => seq![ScriptItem::Op(OP_BOOLAND)],
        GateKind::Nand => seq![ScriptItem::Op(OP_BOOLAND), ScriptItem::Op(OP_NOT)],
        GateKind::Xor => seq![ScriptItem::Op(OP_NUMNOTEQUAL)],
        GateKind::Inv => seq![ScriptItem::Op(OP_NOT)],
    }
}

/// Checks that the top of the stack is a preimage of `hash`, consuming it.
pub open spec fn reveal_items(hash: [u8; 32]) -> Seq<ScriptItem> {
    seq![ScriptItem::Op(OP_SHA256), ScriptItem::Data(hash), ScriptItem::Op(OP_EQUALVERIFY)]
}

/// Takes the output preimage aside, checks the first input's preimage
/// against the digest of bit `a` and pushes `a`.
pub open spec fn first_input_items(ha: BitCommitmentHashes, a: bool) -> Seq<ScriptItem> {
    seq![ScriptItem::Op(OP_TOALTSTACK)] + reveal_items(bit_hash(ha, a)) + seq![ScriptItem::Op(bit_op(a))]
}

/// Brings the second input's preimage up, checks it against the digest of
/// bit `b` and pushes `b`.
pub open spec fn second_input_items(hb: BitCommitmentHashes, b: bool) -> Seq<ScriptItem> {
    seq![ScriptItem::Op(OP_SWAP)] + reveal_items(bit_hash(hb, b)) + seq![ScriptItem::Op(bit_op(b))]
}

/// Brings the output preimage back, checks it against the digest of bit
/// `o`, and succeeds only if the computed bit differs from `o`.
pub open spec fn output_items(ho: BitCommitmentHashes, o: bool) -> Seq<ScriptItem> {
    seq![ScriptItem::Op(OP_FROMALTSTACK)] + reveal_items(bit_hash(ho, o)) + seq![
        ScriptItem::Op(bit_op(o)),
        ScriptItem::Op(OP_NUMNOTEQUAL),
        ScriptItem::Op(OP_VERIFY),
        ScriptItem::Op(OP_1),
    ]
}

/// The contradiction script of one branch: it takes the output preimage
/// aside, checks the first input's preimage against the digest of bit `a`
/// and pushes `a`, likewise the second input's against bit `b` (two-input
/// gates), computes this gate's function, checks the output preimage against the digest
/// of bit `o` and pushes `o`, and succeeds only if the computed bit differs
/// from `o`. The witness stack holds, from the top: the output preimage,
/// then the first input's, then the second input's.
pub open spec fn contradiction_items(
    kind: GateKind,
    ha: BitCommitmentHashes,
    hb: BitCommitmentHashes,
    ho: BitCommitmentHashes,
    a: bool,
    b: bool,
    o: bool,
) -> Seq<ScriptItem> {
    let second = if kind == GateKind::Inv {
        Seq::empty()
    } else {
        second_input_items(hb, b)
    };
    first_input_items(ha, a) + second + gate_ops(kind) + output_items(ho, o)
}

/// The branches of each kind of gate: every input and output combination
/// that contradicts its truth table, as `(a, b, o)` (`b` is false for `Inv`).
pub open spec fn contradiction_branches(kind: GateKind) -> Seq<(bool, bool, bool)> {
    match kind {
        GateKind::Inv => seq![(false, false, false), (true, false, true)],
        GateKind::And => seq![(true, true, false), (false, true, true), (true, false, true), (false, false, true)],
        GateKind::Xor => seq![(true, false, false), (false, true, false), (true, true, true), (false, false, true)],
        GateKind::Nand => seq![(true, true, true), (false, true, false), (true, false, false), (false, false, false)],
    }
}

/// Whether `scripts` are the contradiction scripts of a gate of kind `kind`,
/// one per branch and in the order of the branches.
pub open spec fn are_contradiction_scripts(
    scripts: Seq<ScriptBuf>,
    kind: GateKind,
    ha: BitCommitmentHashes,
    hb: BitCommitmentHashes,
    ho: BitCommitmentHashes,
) -> bool {
    &&& scripts.len() == contradiction_branches(kind).len()
    &&& forall|i: int|
        0 <= i < scripts.len() ==> script_bytes(#[trigger] scripts[i]) == items_bytes(
            contradiction_items(
                kind,
                ha,
                hb,
                ho,
                contradiction_branches(kind)[i].0,
                contradiction_branches(kind)[i].1,
                contradiction_branches(kind)[i].2,
            ),
        )
}

fn push_op(v: &mut Vec<ScriptItem>, op: u8)
    ensures
        final(v)@ == old(v)@.push(ScriptItem::Op(op)),
{
    v.push(ScriptItem::Op(op));
}

fn push_reveal(v: &mut Vec<ScriptItem>, hash: [u8; 32])
    ensures
        final(v)@ == old(v)@ + reveal_items(hash),
{
    v.push(ScriptItem::Op(OP_SHA256));
    v.push(ScriptItem::Data(hash));
    v.push(ScriptItem::Op(OP_EQUALVERIFY));
    assert(final(v)@ =~= old(v)@ + reveal_items(hash));
}

fn pick_hash(h: &BitCommitmentHashes, bit: bool) -> (r: [u8; 32])
    ensures
        r == bit_hash(*h, bit),
{
    if bit {
        h.1
    } else {
        h.0
    }
}

fn pick_op(bit: bool) -> (r: u8)
    ensures
        r == bit_op(bit),
{
    if bit {
        OP_1
    } else {
        OP_0
    }
}

fn push_first_input(v: &mut Vec<ScriptItem>, ha: &BitCommitmentHashes, a: bool)
    ensures
        final(v)@ == old(v)@ + first_input_items(*ha, a),
{
    push_op(v, OP_TOALTSTACK);
    push_reveal(v, pick_hash(ha, a));
    push_op(v, pick_op(a));
    assert(final(v)@ =~= old(v)@ + first_input_items(*ha, a));
}

fn push_second_input(v: &mut Vec<ScriptItem>, hb: &BitCommitmentHashes, b: bool)
    ensures
        final(v)@ == old(v)@ + second_input_items(*hb, b),
{
    push_op(v, OP_SWAP);
    push_reveal(v, pick_hash(hb, b));
    push_op(v, pick_op(b));
    assert(final(v)@ =~= old(v)@ + second_input_items(*hb, b));
}

fn push_gate_ops(v: &mut Vec<ScriptItem>, kind: GateKind)
    ensures
        final(v)@ == old(v)@ + gate_ops(kind),
{
    match kind {
        GateKind::And => push_op(v, OP_BOOLAND),
        GateKind::Nand => {
            push_op(v, OP_BOOLAND);
            push_op(v, OP_NOT);
        },
        GateKind::Xor => push_op(v, OP_NUMNOTEQUAL),
        GateKind::Inv => push_op(v, OP_NOT),
    }
    assert(final(v)@ =~= old(v)@ + gate_ops(kind));
}

fn push_output(v: &mut Vec<ScriptItem>, ho: &BitCommitmentHashes, o: bool)
    ensures
        final(v)@ == old(v)@ + output_items(*ho, o),
{
    push_op(v, OP_FROMALTSTACK);
    push_reveal(v, pick_hash(ho, o));
    push_op(v, pick_op(o));
    push_op(v, OP_NUMNOTEQUAL);
    push_op(v, OP_VERIFY);
    push_op(v, OP_1);
    assert(final(v)@ =~= old(v)@ + output_items(*ho, o));
}

/// The contradiction script of one branch of a gate.
pub fn contradiction_script(
    kind: GateKind,
    ha: &BitCommitmentHashes,
    hb: &BitCommitmentHashes,
    ho: &BitCommitmentHashes,
    a: bool,
    b: bool,
    o: bool,
) -> (r: ScriptBuf)
    ensures
        script_bytes(r) == items_bytes(contradiction_items(kind, *ha, *hb, *ho, a, b, o)),
{
    let mut v: Vec<ScriptItem> = Vec::new();
    push_first_input(&mut v, ha, a);
    if kind != GateKind::Inv {
        push_second_input(&mut v, hb, b);
    }
    let ghost second = if kind == GateKind::Inv {
        Seq::<ScriptItem>::empty()
    } else {
        second_input_items(*hb, b)
    };
    assert(v@ =~= first_input_items(*ha, a) + second);
    push_gate_ops(&mut v, kind);
    push_output(&mut v, ho, o);
    assert(v@ =~= contradiction_items(kind, *ha, *hb, *ho, a, b, o));
    assemble(&v)
}

/// The contradiction scripts of a gate of kind `kind`, one per branch of
/// `contradiction_branches(kind)`, in that order.
pub fn build_tap_scripts_for_defectuous_gate(
    kind: GateKind,
    input_a: &BitCommitmentHashes,
    input_b: &BitCommitmentHashes,
    output: &BitCommitmentHashes,
) -> (r: Vec<ScriptBuf>)
    ensures
        are_contradiction_scripts(r@, kind, *input_a, *input_b, *output),
{
    let mut out: Vec<ScriptBuf> = Vec::new();
    let branches: Vec<(bool, bool, bool)> = match kind {
        GateKind::Inv => vec![(false, false, false), (true, false, true)],
        GateKind::And => vec![(true, true, false), (false, true, true), (true, false, true), (false, false, true)],
        GateKind::Xor => vec![(true, false, false), (false, true, false), (true, true, true), (false, false, true)],
        GateKind::Nand => vec![(true, true, true), (false, true, false), (true, false, false), (false, false, false)],
    };
    assert(branches@ =~= contradiction_branches(kind));
    let mut i: usize = 0;
    while i < branches.len()
        invariant
            i <= branches.len(),
            branches@ == contradiction_branches(kind),
            out@.len() == i,
            forall|j: int|
                0 <= j < i ==> script_bytes(#[trigger] out@[j]) == items_bytes(
                    contradiction_items(
                        kind,
                        *input_a,
                        *input_b,
                        *output,
                        branches@[j].0,
                        branches@[j].1,
                        branches@[j].2,
                    ),
                ),
        decreases branches.len() - i,
    {
        let (a, b, o) = branches[i];
        out.push(contradiction_script(kind, input_a, input_b, output, a, b, o));
        i = i + 1;
    }
    out
}

/// The two contradiction scripts of an inverter.
pub fn build_tap_scripts_for_defectuous_inv_gate(
    input: &BitCommitmentHashes,
    output: &BitCommitmentHashes,
) -> (r: Vec<ScriptBuf>)
    ensures
        are_contradiction_scripts(r@, GateKind::Inv, *input, *input, *output),
{
    build_tap_scripts_for_defectuous_gate(GateKind::Inv, input, input, output)
}

/// The four contradiction scripts of an AND gate.
pub fn build_tap_scripts_for_defectuous_and_gate(
    input_a: &BitCommitmentHashes,
    input_b: &BitCommitmentHashes,
    output: &BitCommitmentHashes,
) -> (r: Vec<ScriptBuf>)
    ensures
        are_contradiction_scripts(r@, GateKind::And, *input_a, *input_b, *output),
{
    build_tap_scripts_for_defectuous_gate(GateKind::And, input_a, input_b, output)
}

/// The four contradiction scripts of a NAND gate.
pub fn build_tap_scripts_for_defectuous_nand_gate(
    input_a: &BitCommitmentHashes,
    input_b: &BitCommitmentHashes,
    output: &BitCommitmentHashes,
) -> (r: Vec<ScriptBuf>)
    ensures
        are_contradiction_scripts(r@, GateKind::Nand, *input_a, *input_b, *output),
{
    build_tap_scripts_for_defectuous_gate(GateKind::Nand, input_a, input_b, output)
}

/// The four contradiction scripts of an XOR gate.
pub fn build_tap_scripts_for_defectuous_xor_gate(
    input_a: &BitCommitmentHashes,
    input_b: &BitCommitmentHashes,
    output: &BitCommitmentHashes,
) -> (r: Vec<ScriptBuf>)
    ensures
        are_contradiction_scripts(r@, GateKind::Xor, *input_a, *input_b, *output),
{
    build_tap_scripts_for_defectuous_gate(GateKind::Xor, input_a, input_b, output)
}

/// Checks that the top of the stack is a preimage of either digest of `h`,
/// consuming it.
pub open spec fn commitment_check_items(h: BitCommitmentHashes) -> Seq<ScriptItem> {
    seq![
        ScriptItem::Op(OP_DUP),
        ScriptItem::Op(OP_SHA256),
        ScriptItem::Data(h.0),
        ScriptItem::Op(OP_EQUAL),
        ScriptItem::Op(OP_SWAP),
        ScriptItem::Op(OP_SHA256),
        ScriptItem::Data(h.1),
        ScriptItem::Op(OP_EQUAL),
        ScriptItem::Op(OP_BOOLOR),
        ScriptItem::Op(OP_VERIFY),
    ]
}

/// The commitment leaf of a wire: it succeeds when the one witness item is a
/// preimage of either of the wire's digests.
pub open spec fn commitment_leaf_items(h: BitCommitmentHashes) -> Seq<ScriptItem> {
    commitment_check_items(h).push(ScriptItem::Op(OP_1))
}

fn commitment_check_vec(h: &BitCommitmentHashes) -> (r: Vec<ScriptItem>)
    ensures
        r@ == commitment_check_items(*h),
{
    let mut v: Vec<ScriptItem> = Vec::new();
    push_op(&mut v, OP_DUP);
    push_op(&mut v, OP_SHA256);
    v.push(ScriptItem::Data(h.0));
    push_op(&mut v, OP_EQUAL);
    push_op(&mut v, OP_SWAP);
    push_op(&mut v, OP_SHA256);
    v.push(ScriptItem::Data(h.1));
    push_op(&mut v, OP_EQUAL);
    push_op(&mut v, OP_BOOLOR);
    push_op(&mut v, OP_VERIFY);
    assert(v@ =~= commitment_check_items(*h));
    v
}

/// Appends to `builder` the check that the top of the stack is a preimage
/// of either digest of `bit_commitment`.
pub fn augment_with_bit_commitment_leaf(builder: Builder, bit_commitment: &BitCommitmentHashes) -> (r:
    Builder)
    ensures
        builder_bytes(r) == builder_bytes(builder) + items_bytes(commitment_check_items(*bit_commitment)),
{
    let v = commitment_check_vec(bit_commitment);
    push_items(builder, &v)
}

/// The commitment leaf of a wire with digests `bit_commitment`.
pub fn build_commitment_leaf(bit_commitment: &BitCommitmentHashes) -> (r: ScriptBuf)
    ensures
        script_bytes(r) == items_bytes(commitment_leaf_items(*bit_commitment)),
{
    let mut v = commitment_check_vec(bit_commitment);
    push_op(&mut v, OP_1);
    assemble(&v)
}

/// The equivocation leaf of a wire: it succeeds when the witness reveals
/// both preimages, that of the bit 0 on top.
pub open spec fn anti_contradiction_items(h: BitCommitmentHashes) -> Seq<ScriptItem> {
    reveal_items(h.0) + reveal_items(h.1) + seq![ScriptItem::Op(OP_1)]
}

/// The equivocation leaf of a wire with digests `bit_commitment`. The
/// challenger's key is not yet part of the script.
pub fn build_anti_contradiciton_leaf(_public_key: &[u8; 32], bit_commitment: &BitCommitmentHashes) -> (r:
    ScriptBuf)
    ensures
        script_bytes(r) == items_bytes(anti_contradiction_items(*bit_commitment)),
{
    let mut v: Vec<ScriptItem> = Vec::new();
    push_reveal(&mut v, bit_commitment.0);
    push_reveal(&mut v, bit_commitment.1);
    push_op(&mut v, OP_1);
    assert(v@ =~= anti_contradiction_items(*bit_commitment));
    assemble(&v)
}

/// The timeout leaf: after ten blocks of relative lock time, a signature of
/// the x-only key `public_key` spends.
pub open spec fn slashing_items(public_key: [u8; 32]) -> Seq<ScriptItem> {
    seq![
        ScriptItem::Op(OP_10),
        ScriptItem::Op(OP_CSV),
        ScriptItem::Op(OP_DROP),
        ScriptItem::Data(public_key),
        ScriptItem::Op(OP_CHECKSIG),
    ]
}

/// The cooperative-close leaf: signatures of both x-only keys spend at any
/// time (the first key's signature on top of the witness, the second's
/// below it).
pub open spec fn cooperative_items(public_key: [u8; 32], other_public_key: [u8; 32]) -> Seq<ScriptItem> {
    seq![
        ScriptItem::Data(public_key),
        ScriptItem::Op(OP_CHECKSIGVERIFY),
        ScriptItem::Data(other_public_key),
        ScriptItem::Op(OP_CHECKSIG),
    ]
}

/// The timeout leaf for the x-only key `public_key`.
pub fn build_slashing_leave(public_key: &[u8; 32]) -> (r: ScriptBuf)
    ensures
        script_bytes(r) == items_bytes(slashing_items(*public_key)),
{
    let mut v: Vec<ScriptItem> = Vec::new();
    push_op(&mut v, OP_10);
    push_op(&mut v, OP_CSV);
    push_op(&mut v, OP_DROP);
    v.push(ScriptItem::Data(*public_key));
    push_op(&mut v, OP_CHECKSIG);
    assert(v@ =~= slashing_items(*public_key));
    assemble(&v)
}

/// The timeout leaf of a commitment address, for the x-only key `public_key`.
pub fn build_leaf_1(public_key: &[u8; 32]) -> (r: ScriptBuf)
    ensures
        script_bytes(r) == items_bytes(slashing_items(*public_key)),
{
    build_slashing_leave(public_key)
}

/// The cooperative-close leaf for the x-only keys of both parties.
pub fn build_leaf_2(public_key: &[u8; 32], other_public_key: &[u8; 32]) -> (r: ScriptBuf)
    ensures
        script_bytes(r) == items_bytes(cooperative_items(*public_key, *other_public_key)),
{
    let mut v: Vec<ScriptItem> = Vec::new();
    v.push(ScriptItem::Data(*public_key));
    push_op(&mut v, OP_CHECKSIGVERIFY);
    v.push(ScriptItem::Data(*other_public_key));
    push_op(&mut v, OP_CHECKSIG);
    assert(v@ =~= cooperative_items(*public_key, *other_public_key));
    assemble(&v)
}

/// Whether preimage `p` reveals `bit` under the digests `h`.
pub open spec fn reveals(p: Seq<u8>, h: BitCommitmentHashes, bit: bool) -> bool {
    sha256_of(p) == bit_hash(h, bit)@
}

/// The witness stack of a contradiction script, top last: the second
/// input's preimage (two-input gates), the first input's, the output's.
pub open spec fn contradiction_witness(kind: GateKind, pa: Seq<u8>, pb: Seq<u8>, po: Seq<u8>) -> Seq<
    Seq<u8>,
> {
    if kind == GateKind::Inv {
        seq![pa, po]
    } else {
        seq![pb, pa, po]
    }
}

proof fn lemma_plain_append(a: Seq<ScriptItem>, b: Seq<ScriptItem>)
    requires
        plain_items(a),
        plain_items(b),
    ensures
        plain_items(a + b),
{
    assert forall|k: int| 0 <= k < (a + b).len() implies match #[trigger] (a + b)[k] {
        ScriptItem::Op(o) => !(1 <= o <= 75),
        ScriptItem::Data(_) => true,
    } by {
        if k < a.len() {
            assert((a + b)[k] == a[k]);
        } else {
            assert((a + b)[k] == b[k - a.len()]);
        }
    }
}

proof fn lemma_run_one(i: ScriptItem, st: Stacks)
    ensures
        run_items(seq![i], st) == step_item(i, st),
{
    let one = seq![i];
    assert(one.drop_first() =~= Seq::<ScriptItem>::empty());
    match step_item(i, st) {
        Some(s) => {
            assert(run_items(one.drop_first(), s) == Some(s));
        },
        None => {},
    }
}

proof fn lemma_run_cons(i: ScriptItem, rest: Seq<ScriptItem>, st: Stacks)
    ensures
        run_items(seq![i] + rest, st) == match step_item(i, st) {
            Some(s) => run_items(rest, s),
            None => None,
        },
{
    assert((seq![i] + rest)[0] == i);
    assert((seq![i] + rest).drop_first() =~= rest);
}

proof fn lemma_bit_op(bit: bool, st: Stacks)
    ensures
        exec_op(bit_op(bit), st) == Some(push(st, bool_item(bit))),
{
    if bit {
        assert(seq![(OP_1 - 0x50) as u8] =~= seq![1u8]);
    }
}

proof fn lemma_run_reveal(h: [u8; 32], m: Seq<Seq<u8>>, x: Seq<u8>, alt: Seq<Seq<u8>>)
    ensures
        plain_items(reveal_items(h)),
        run_items(reveal_items(h), Stacks { main: m.push(x), alt }) == (if sha256_of(x) == h@ {
            Some(Stacks { main: m, alt })
        } else {
            None
        }),
{
    let is = reveal_items(h);
    assert(plain_items(is)) by {
        assert forall|k: int| 0 <= k < is.len() implies match #[trigger] is[k] {
            ScriptItem::Op(o) => !(1 <= o <= 75),
            ScriptItem::Data(_) => true,
        } by {}
    }
    let st = Stacks { main: m.push(x), alt };
    let s1 = Stacks { main: m.push(sha256_of(x)), alt };
    let s2 = push(s1, h@);
    assert(m.push(x).drop_last() =~= m);
    assert(step_item(ScriptItem::Op(OP_SHA256), st) == Some(s1));
    assert(is =~= seq![ScriptItem::Op(OP_SHA256)] + (seq![ScriptItem::Data(h)] + seq![
        ScriptItem::Op(OP_EQUALVERIFY),
    ]));
    lemma_run_cons(ScriptItem::Op(OP_SHA256), seq![ScriptItem::Data(h)] + seq![ScriptItem::Op(OP_EQUALVERIFY)], st);
    lemma_run_cons(ScriptItem::Data(h), seq![ScriptItem::Op(OP_EQUALVERIFY)], s1);
    lemma_run_one(ScriptItem::Op(OP_EQUALVERIFY), s2);
    assert(s2.main.drop_last().drop_last() =~= m);
}

proof fn lemma_run_first_input(
    ha: BitCommitmentHashes,
    a: bool,
    m: Seq<Seq<u8>>,
    pa: Seq<u8>,
    po: Seq<u8>,
    alt: Seq<Seq<u8>>,
)
    ensures
        plain_items(first_input_items(ha, a)),
        run_items(first_input_items(ha, a), Stacks { main: m.push(pa).push(po), alt }) == (if reveals(
            pa,
            ha,
            a,
        ) {
            Some(Stacks { main: m.push(bool_item(a)), alt: alt.push(po) })
        } else {
            None
        }),
{
    let st = Stacks { main: m.push(pa).push(po), alt };
    let head = seq![ScriptItem::Op(OP_TOALTSTACK)];
    let rev = reveal_items(bit_hash(ha, a));
    let tail = seq![ScriptItem::Op(bit_op(a))];
    assert(first_input_items(ha, a) == head + rev + tail);
    lemma_run_append(head + rev, tail, st);
    lemma_run_append(head, rev, st);
    lemma_run_one(ScriptItem::Op(OP_TOALTSTACK), st);
    assert(m.push(pa).push(po).drop_last() =~= m.push(pa));
    let s1 = Stacks { main: m.push(pa), alt: alt.push(po) };
    lemma_run_reveal(bit_hash(ha, a), m, pa, alt.push(po));
    let s2 = Stacks { main: m, alt: alt.push(po) };
    lemma_run_one(ScriptItem::Op(bit_op(a)), s2);
    lemma_bit_op(a, s2);
    assert(plain_items(head)) by {
        assert forall|k: int| 0 <= k < head.len() implies match #[trigger] head[k] {
            ScriptItem::Op(o) => !(1 <= o <= 75),
            ScriptItem::Data(_) => true,
        } by {}
    }
    assert(plain_items(tail)) by {
        assert forall|k: int| 0 <= k < tail.len() implies match #[trigger] tail[k] {
            ScriptItem::Op(o) => !(1 <= o <= 75),
            ScriptItem::Data(_) => true,
        } by {}
    }
    lemma_plain_append(head, rev);
    lemma_plain_append(head + rev, tail);
}

proof fn lemma_run_second_input(
    hb: BitCommitmentHashes,
    b: bool,
    m: Seq<Seq<u8>>,
    pb: Seq<u8>,
    x: Seq<u8>,
    alt: Seq<Seq<u8>>,
)
    ensures
        plain_items(second_input_items(hb, b)),
        run_items(second_input_items(hb, b), Stacks { main: m.push(pb).push(x), alt }) == (if reveals(
            pb,
            hb,
            b,
        ) {
            Some(Stacks { main: m.push(x).push(bool_item(b)), alt })
        } else {
            None
        }),
{
    let st = Stacks { main: m.push(pb).push(x), alt };
    let head = seq![ScriptItem::Op(OP_SWAP)];
    let rev = reveal_items(bit_hash(hb, b));
    let tail = seq![ScriptItem::Op(bit_op(b))];
    assert(second_input_items(hb, b) == head + rev + tail);
    lemma_run_append(head + rev, tail, st);
    lemma_run_append(head, rev, st);
    lemma_run_one(ScriptItem::Op(OP_SWAP), st);
    assert(st.main.drop_last().drop_last().push(st.main[m.len() + 1 as int]).push(st.main[m.len() as int])
        =~= m.push(x).push(pb));
    lemma_run_reveal(bit_hash(hb, b), m.push(x), pb, alt);
    let s2 = Stacks { main: m.push(x), alt };
    lemma_run_one(ScriptItem::Op(bit_op(b)), s2);
    lemma_bit_op(b, s2);
    assert(plain_items(head)) by {
        assert forall|k: int| 0 <= k < head.len() implies match #[trigger] head[k] {
            ScriptItem::Op(o) => !(1 <= o <= 75),
            ScriptItem::Data(_) => true,
        } by {}
    }
    assert(plain_items(tail)) by {
        assert forall|k: int| 0 <= k < tail.len() implies match #[trigger] tail[k] {
            ScriptItem::Op(o) => !(1 <= o <= 75),
            ScriptItem::Data(_) => true,
        } by {}
    }
    lemma_plain_append(head, rev);
    lemma_plain_append(head + rev, tail);
}

proof fn lemma_run_gate_ops(kind: GateKind, m: Seq<Seq<u8>>, a: bool, b: bool, alt: Seq<Seq<u8>>)
    ensures
        plain_items(gate_ops(kind)),
        kind != GateKind::Inv ==> run_items(
            gate_ops(kind),
            Stacks { main: m.push(bool_item(a)).push(bool_item(b)), alt },
        ) == Some(Stacks { main: m.push(bool_item(gate_output(kind, a, b))), alt }),
        kind == GateKind::Inv ==> run_items(gate_ops(kind), Stacks { main: m.push(bool_item(a)), alt })
            == Some(Stacks { main: m.push(bool_item(gate_output(kind, a, b))), alt }),
{
    let is = gate_ops(kind);
    assert(plain_items(is)) by {
        assert forall|k: int| 0 <= k < is.len() implies match #[trigger] is[k] {
            ScriptItem::Op(o) => !(1 <= o <= 75),
            ScriptItem::Data(_) => true,
        } by {}
    }
    lemma_bool_item_num(a);
    lemma_bool_item_num(b);
    lemma_bool_item_num(a && b);
    let two = Stacks { main: m.push(bool_item(a)).push(bool_item(b)), alt };
    assert(two.main.drop_last().drop_last() =~= m);
    let one = Stacks { main: m.push(bool_item(a)), alt };
    assert(one.main.drop_last() =~= m);
    match kind {
        GateKind::And => {
            lemma_run_one(ScriptItem::Op(OP_BOOLAND), two);
        },
        GateKind::Xor => {
            lemma_run_one(ScriptItem::Op(OP_NUMNOTEQUAL), two);
        },
        GateKind::Inv => {
            lemma_run_one(ScriptItem::Op(OP_NOT), one);
        },
        GateKind::Nand => {
            let s1 = Stacks { main: m.push(bool_item(a && b)), alt };
            assert(is == seq![ScriptItem::Op(OP_BOOLAND)] + seq![ScriptItem::Op(OP_NOT)]);
            lemma_run_append(seq![ScriptItem::Op(OP_BOOLAND)], seq![ScriptItem::Op(OP_NOT)], two);
            lemma_run_one(ScriptItem::Op(OP_BOOLAND), two);
            lemma_run_one(ScriptItem::Op(OP_NOT), s1);
            assert(s1.main.drop_last() =~= m);
        },
    }
}

proof fn lemma_run_output(ho: BitCommitmentHashes, o: bool, m: Seq<Seq<u8>>, e: bool, po: Seq<u8>, alt: Seq<Seq<u8>>)
    ensures
        plain_items(output_items(ho, o)),
        run_items(output_items(ho, o), Stacks { main: m.push(bool_item(e)), alt: alt.push(po) }) == (if reveals(
            po,
            ho,
            o,
        ) && e != o {
            Some(Stacks { main: m.push(bool_item(true)), alt })
        } else {
            None
        }),
{
    let st = Stacks { main: m.push(bool_item(e)), alt: alt.push(po) };
    let head = seq![ScriptItem::Op(OP_FROMALTSTACK)];
    let rev = reveal_items(bit_hash(ho, o));
    let tail = seq![
        ScriptItem::Op(bit_op(o)),
        ScriptItem::Op(OP_NUMNOTEQUAL),
        ScriptItem::Op(OP_VERIFY),
        ScriptItem::Op(OP_1),
    ];
    assert(output_items(ho, o) == head + rev + tail);
    lemma_run_append(head + rev, tail, st);
    lemma_run_append(head, rev, st);
    lemma_run_one(ScriptItem::Op(OP_FROMALTSTACK), st);
    assert(alt.push(po).drop_last() =~= alt);
    let s1 = Stacks { main: m.push(bool_item(e)).push(po), alt };
    lemma_run_reveal(bit_hash(ho, o), m.push(bool_item(e)), po, alt);
    let s2 = Stacks { main: m.push(bool_item(e)), alt };
    lemma_bool_item_num(e);
    lemma_bool_item_num(o);
    lemma_bool_item_num(e != o);
    lemma_bool_item_num(true);
    lemma_bit_op(o, s2);
    let s3 = push(s2, bool_item(o));
    assert(s3.main.drop_last().drop_last() =~= m);
    let s4 = Stacks { main: m.push(bool_item(e != o)), alt };
    assert(s4.main.drop_last() =~= m);
    let s5 = Stacks { main: m, alt };
    let t3 = seq![ScriptItem::Op(OP_1)];
    let t2 = seq![ScriptItem::Op(OP_VERIFY)] + t3;
    let t1 = seq![ScriptItem::Op(OP_NUMNOTEQUAL)] + t2;
    assert(tail =~= seq![ScriptItem::Op(bit_op(o))] + t1);
    lemma_run_cons(ScriptItem::Op(bit_op(o)), t1, s2);
    lemma_run_cons(ScriptItem::Op(OP_NUMNOTEQUAL), t2, s3);
    assert(exec_op(OP_NUMNOTEQUAL, s3) == Some(s4));
    lemma_run_cons(ScriptItem::Op(OP_VERIFY), t3, s4);
    lemma_run_one(ScriptItem::Op(OP_1), s5);
    lemma_bit_op(true, s5);
    assert(plain_items(head)) by {
        assert forall|k: int| 0 <= k < head.len() implies match #[trigger] head[k] {
            ScriptItem::Op(o) => !(1 <= o <= 75),
            ScriptItem::Data(_) => true,
        } by {}
    }
    assert(plain_items(tail)) by {
        assert forall|k: int| 0 <= k < tail.len() implies match #[trigger] tail[k] {
            ScriptItem::Op(o) => !(1 <= o <= 75),
            ScriptItem::Data(_) => true,
        } by {}
    }
    lemma_plain_append(head, rev);
    lemma_plain_append(head + rev, tail);
}

/// What one contradiction script decides: it accepts a witness of
/// preimages exactly when they reveal the branch's bits and those bits
/// contradict its gate's truth table.
pub proof fn lemma_contradiction_script_accepts(
    kind: GateKind,
    ha: BitCommitmentHashes,
    hb: BitCommitmentHashes,
    ho: BitCommitmentHashes,
    a: bool,
    b: bool,
    o: bool,
    pa: Seq<u8>,
    pb: Seq<u8>,
    po: Seq<u8>,
)
    requires
        pa.len() <= MAX_ELEMENT_SIZE,
        pb.len() <= MAX_ELEMENT_SIZE,
        po.len() <= MAX_ELEMENT_SIZE,
    ensures
        accepts(
            items_bytes(contradiction_items(kind, ha, hb, ho, a, b, o)),
            contradiction_witness(kind, pa, pb, po),
        ) <==> (reveals(pa, ha, a) && (kind != GateKind::Inv ==> reveals(pb, hb, b)) && reveals(po, ho, o)
            && gate_output(kind, a, b) != o),
{
    let empty = Seq::<Seq<u8>>::empty();
    let w = contradiction_witness(kind, pa, pb, po);
    let st0 = Stacks { main: w, alt: empty };
    let first = first_input_items(ha, a);
    let second = if kind == GateKind::Inv {
        Seq::<ScriptItem>::empty()
    } else {
        second_input_items(hb, b)
    };
    let ops = gate_ops(kind);
    let out = output_items(ho, o);
    let is = contradiction_items(kind, ha, hb, ho, a, b, o);
    assert(is == first + second + ops + out);
    let m0 = if kind == GateKind::Inv { empty } else { empty.push(pb) };
    assert(w =~= m0.push(pa).push(po));
    lemma_run_first_input(ha, a, m0, pa, po, empty);
    let s1 = Stacks { main: m0.push(bool_item(a)), alt: empty.push(po) };
    let bits = if kind == GateKind::Inv {
        empty.push(bool_item(a))
    } else {
        empty.push(bool_item(a)).push(bool_item(b))
    };
    let s2 = Stacks { main: bits, alt: empty.push(po) };
    if kind == GateKind::Inv {
        assert(second =~= Seq::<ScriptItem>::empty());
        assert(run_items(second, s1) == Some(s1));
        assert(s1 == s2);
        assert(plain_items(second));
    } else {
        lemma_run_second_input(hb, b, empty, pb, bool_item(a), empty.push(po));
    }
    lemma_run_gate_ops(kind, empty, a, b, empty.push(po));
    let e = gate_output(kind, a, b);
    let s3 = Stacks { main: empty.push(bool_item(e)), alt: empty.push(po) };
    lemma_run_output(ho, o, empty, e, po, empty);
    let s4 = Stacks { main: empty.push(bool_item(true)), alt: empty };
    lemma_run_append(first + second + ops, out, st0);
    lemma_run_append(first + second, ops, st0);
    lemma_run_append(first, second, st0);
    lemma_plain_append(first, second);
    lemma_plain_append(first + second, ops);
    lemma_plain_append(first + second + ops, out);
    lemma_eval_items(is, st0);
    lemma_bool_item_num(true);
    assert forall|k: int| 0 <= k < w.len() implies (#[trigger] w[k]).len() <= MAX_ELEMENT_SIZE by {}
}

/// Every branch of a gate contradicts its truth table, and inverter
/// branches leave the unused second bit false.
pub proof fn lemma_branches_contradict(kind: GateKind, i: int)
    requires
        0 <= i < contradiction_branches(kind).len(),
    ensures
        ({
            let (a, b, o) = contradiction_branches(kind)[i];
            gate_output(kind, a, b) != o && (kind == GateKind::Inv ==> !b)
        }),
{
}

/// Two different digests cannot both be revealed by one preimage.
proof fn lemma_reveals_unique(p: Seq<u8>, h: BitCommitmentHashes, x: bool, y: bool)
    requires
        h.0@ != h.1@,
        reveals(p, h, x),
        reveals(p, h, y),
    ensures
        x == y,
{
}

/// Whether some contradiction script of a gate accepts the witness.
pub open spec fn some_branch_accepts(
    kind: GateKind,
    ha: BitCommitmentHashes,
    hb: BitCommitmentHashes,
    ho: BitCommitmentHashes,
    w: Seq<Seq<u8>>,
) -> bool {
    exists|i: int|
        0 <= i < contradiction_branches(kind).len() && #[trigger] accepts(
            items_bytes(
                contradiction_items(
                    kind,
                    ha,
                    hb,
                    ho,
                    contradiction_branches(kind)[i].0,
                    contradiction_branches(kind)[i].1,
                    contradiction_branches(kind)[i].2,
                ),
            ),
            w,
        )
}

/// The contradiction scripts of a gate are sound and complete: when the
/// preimages of a gate's wires reveal input bits `a`, `b` (the latter
/// unused by an inverter) and output bit `o`, and each wire's two digests
/// differ, some script of that gate accepts the witness exactly when `o`
/// is not its output on `a` and `b`. So every contradiction has a
/// script that accepts it, and no script accepts a consistent disclosure.
pub proof fn lemma_contradiction_scripts_sound_and_complete(
    kind: GateKind,
    ha: BitCommitmentHashes,
    hb: BitCommitmentHashes,
    ho: BitCommitmentHashes,
    a: bool,
    b: bool,
    o: bool,
    pa: Seq<u8>,
    pb: Seq<u8>,
    po: Seq<u8>,
)
    requires
        ha.0@ != ha.1@,
        kind != GateKind::Inv ==> hb.0@ != hb.1@,
        ho.0@ != ho.1@,
        pa.len() <= MAX_ELEMENT_SIZE,
        pb.len() <= MAX_ELEMENT_SIZE,
        po.len() <= MAX_ELEMENT_SIZE,
        reveals(pa, ha, a),
        kind != GateKind::Inv ==> reveals(pb, hb, b),
        reveals(po, ho, o),
    ensures
        some_branch_accepts(kind, ha, hb, ho, contradiction_witness(kind, pa, pb, po)) <==> gate_output(
            kind,
            a,
            b,
        ) != o,
{
    let w = contradiction_witness(kind, pa, pb, po);
    let br = contradiction_branches(kind);
    if some_branch_accepts(kind, ha, hb, ho, w) {
        let i = choose|i: int|
            0 <= i < br.len() && #[trigger] accepts(
                items_bytes(contradiction_items(kind, ha, hb, ho, br[i].0, br[i].1, br[i].2)),
                w,
            );
        let (x, y, z) = br[i];
        lemma_contradiction_script_accepts(kind, ha, hb, ho, x, y, z, pa, pb, po);
        lemma_branches_contradict(kind, i);
        lemma_reveals_unique(pa, ha, a, x);
        lemma_reveals_unique(po, ho, o, z);
        if kind != GateKind::Inv {
            lemma_reveals_unique(pb, hb, b, y);
        }
    }
    if gate_output(kind, a, b) != o {
        let bb = if kind == GateKind::Inv { false } else { b };
        let i: int = match kind {
            GateKind::Inv => if a { 1 } else { 0 },
            GateKind::And => if a && b { 0 } else if !a && b { 1 } else if a && !b { 2 } else { 3 },
            GateKind::Xor => if a && !b { 0 } else if !a && b { 1 } else if a && b { 2 } else { 3 },
            GateKind::Nand => if a && b { 0 } else if !a && b { 1 } else if a && !b { 2 } else { 3 },
        };
        assert(br[i] == (a, bb, o));
        lemma_contradiction_script_accepts(kind, ha, hb, ho, a, bb, o, pa, pb, po);
        assert(gate_output(kind, a, bb) == gate_output(kind, a, b));
        assert(accepts(items_bytes(contradiction_items(kind, ha, hb, ho, br[i].0, br[i].1, br[i].2)), w));
    }
}

/// The commitment leaf of a wire accepts a one-element witness exactly when
/// it is a preimage of one of the wire's two digests.
pub proof fn lemma_commitment_leaf_accepts(h: BitCommitmentHashes, w: Seq<u8>)
    requires
        w.len() <= MAX_ELEMENT_SIZE,
    ensures
        accepts(items_bytes(commitment_leaf_items(h)), seq![w]) <==> (sha256_of(w) == h.0@ || sha256_of(
            w,
        ) == h.1@),
{
    let empty = Seq::<Seq<u8>>::empty();
    let is = commitment_leaf_items(h);
    let st0 = Stacks { main: seq![w], alt: empty };
    assert(plain_items(is)) by {
        assert forall|k: int| 0 <= k < is.len() implies match #[trigger] is[k] {
            ScriptItem::Op(o) => !(1 <= o <= 75),
            ScriptItem::Data(_) => true,
        } by {}
    }
    lemma_eval_items(is, st0);
    let e0 = sha256_of(w) == h.0@;
    let e1 = sha256_of(w) == h.1@;
    lemma_bool_item_num(e0);
    lemma_bool_item_num(e1);
    lemma_bool_item_num(e0 || e1);
    lemma_bool_item_num(true);
    let t = is.drop_first();
    let s1 = Stacks { main: seq![w, w], alt: empty };
    let s2 = Stacks { main: seq![w, sha256_of(w)], alt: empty };
    let s3 = Stacks { main: seq![w, sha256_of(w), h.0@], alt: empty };
    let s4 = Stacks { main: seq![w, bool_item(e0)], alt: empty };
    let s5 = Stacks { main: seq![bool_item(e0), w], alt: empty };
    let s6 = Stacks { main: seq![bool_item(e0), sha256_of(w)], alt: empty };
    let s7 = Stacks { main: seq![bool_item(e0), sha256_of(w), h.1@], alt: empty };
    let s8 = Stacks { main: seq![bool_item(e0), bool_item(e1)], alt: empty };
    let s9 = Stacks { main: seq![bool_item(e0 || e1)], alt: empty };
    let s10 = Stacks { main: empty, alt: empty };
    let s11 = Stacks { main: seq![bool_item(true)], alt: empty };
    assert(exec_op(OP_DUP, st0) == Some(s1)) by {
        assert(st0.main.push(w) =~= s1.main);
    }
    assert(exec_op(OP_SHA256, s1) == Some(s2)) by {
        assert(s1.main.drop_last().push(sha256_of(w)) =~= s2.main);
    }
    assert(step_item(ScriptItem::Data(h.0), s2) == Some(s3)) by {
        assert(s2.main.push(h.0@) =~= s3.main);
    }
    assert(exec_op(OP_EQUAL, s3) == Some(s4)) by {
        assert(s3.main.drop_last().drop_last().push(bool_item(e0)) =~= s4.main);
    }
    assert(exec_op(OP_SWAP, s4) == Some(s5)) by {
        assert(s4.main.drop_last().drop_last().push(s4.main[1]).push(s4.main[0]) =~= s5.main);
    }
    assert(exec_op(OP_SHA256, s5) == Some(s6)) by {
        assert(s5.main.drop_last().push(sha256_of(w)) =~= s6.main);
    }
    assert(step_item(ScriptItem::Data(h.1), s6) == Some(s7)) by {
        assert(s6.main.push(h.1@) =~= s7.main);
    }
    assert(exec_op(OP_EQUAL, s7) == Some(s8)) by {
        assert(s7.main.drop_last().drop_last().push(bool_item(e1)) =~= s8.main);
    }
    assert(exec_op(OP_BOOLOR, s8) == Some(s9)) by {
        assert(s8.main.drop_last().drop_last().push(bool_item(e0 || e1)) =~= s9.main);
    }
    assert((e0 || e1) ==> exec_op(OP_VERIFY, s9) == Some(s10)) by {
        assert(s9.main.drop_last() =~= s10.main);
    }
    assert(exec_op(OP_1, s10) == Some(s11)) by {
        assert(seq![(OP_1 - 0x50) as u8] =~= seq![1u8]);
        assert(s10.main.push(seq![1u8]) =~= s11.main);
    }
    let r10 = seq![ScriptItem::Op(OP_1)];
    let r9 = seq![ScriptItem::Op(OP_VERIFY)] + r10;
    let r8 = seq![ScriptItem::Op(OP_BOOLOR)] + r9;
    let r7 = seq![ScriptItem::Op(OP_EQUAL)] + r8;
    let r6 = seq![ScriptItem::Data(h.1)] + r7;
    let r5 = seq![ScriptItem::Op(OP_SHA256)] + r6;
    let r4 = seq![ScriptItem::Op(OP_SWAP)] + r5;
    let r3 = seq![ScriptItem::Op(OP_EQUAL)] + r4;
    let r2 = seq![ScriptItem::Data(h.0)] + r3;
    let r1 = seq![ScriptItem::Op(OP_SHA256)] + r2;
    assert(is =~= seq![ScriptItem::Op(OP_DUP)] + r1);
    lemma_run_cons(ScriptItem::Op(OP_DUP), r1, st0);
    lemma_run_cons(ScriptItem::Op(OP_SHA256), r2, s1);
    lemma_run_cons(ScriptItem::Data(h.0), r3, s2);
    lemma_run_cons(ScriptItem::Op(OP_EQUAL), r4, s3);
    lemma_run_cons(ScriptItem::Op(OP_SWAP), r5, s4);
    lemma_run_cons(ScriptItem::Op(OP_SHA256), r6, s5);
    lemma_run_cons(ScriptItem::Data(h.1), r7, s6);
    lemma_run_cons(ScriptItem::Op(OP_EQUAL), r8, s7);
    lemma_run_cons(ScriptItem::Op(OP_BOOLOR), r9, s8);
    lemma_run_cons(ScriptItem::Op(OP_VERIFY), r10, s9);
    lemma_run_one(ScriptItem::Op(OP_1), s10);
    assert forall|k: int| 0 <= k < seq![w].len() implies (#[trigger] seq![w][k]).len() <= MAX_ELEMENT_SIZE by {}
}

/// The equivocation leaf of a wire accepts a two-element witness exactly
/// when its top reveals the bit 0 and the element below reveals the bit 1:
/// both values of the wire disclosed at once.
pub proof fn lemma_anti_contradiction_leaf_accepts(h: BitCommitmentHashes, w1: Seq<u8>, w0: Seq<u8>)
    requires
        w0.len() <= MAX_ELEMENT_SIZE,
        w1.len() <= MAX_ELEMENT_SIZE,
    ensures
        accepts(items_bytes(anti_contradiction_items(h)), seq![w1, w0]) <==> (sha256_of(w0) == h.0@
            && sha256_of(w1) == h.1@),
{
    let empty = Seq::<Seq<u8>>::empty();
    let r0 = reveal_items(h.0);
    let r1 = reveal_items(h.1);
    let tail = seq![ScriptItem::Op(OP_1)];
    let is = anti_contradiction_items(h);
    let st0 = Stacks { main: seq![w1, w0], alt: empty };
    assert(seq![w1, w0] =~= empty.push(w1).push(w0));
    lemma_run_reveal(h.0, empty.push(w1), w0, empty);
    lemma_run_reveal(h.1, empty, w1, empty);
    let s2 = Stacks { main: empty, alt: empty };
    lemma_run_one(ScriptItem::Op(OP_1), s2);
    lemma_bit_op(true, s2);
    lemma_run_append(r0 + r1, tail, st0);
    lemma_run_append(r0, r1, st0);
    assert(plain_items(tail)) by {
        assert forall|k: int| 0 <= k < tail.len() implies match #[trigger] tail[k] {
            ScriptItem::Op(o) => !(1 <= o <= 75),
            ScriptItem::Data(_) => true,
        } by {}
    }
    lemma_plain_append(r0, r1);
    lemma_plain_append(r0 + r1, tail);
    lemma_eval_items(is, st0);
    lemma_bool_item_num(true);
    let w = seq![w1, w0];
    assert forall|k: int| 0 <= k < w.len() implies (#[trigger] w[k]).len() <= MAX_ELEMENT_SIZE by {}
}

} // verus!
