use crate::circuit::{
    commits_to, strictly_increasing, top_level_wires, Circuit, Gate,
};
use crate::commitment::{BitCommitmentHashes, BitCommitmentPreimages};
use crate::error::BitvmError;
use crate::script::{items_bytes, script_bytes};
use crate::tapleaf::{
    anti_contradiction_items, build_anti_contradiciton_leaf, build_commitment_leaf, build_leaf_1,
    build_leaf_2, build_slashing_leave, build_tap_scripts_for_defectuous_gate,
    commitment_leaf_items, contradiction_branches, contradiction_items, cooperative_items,
    slashing_items,
};
use crate::taptree::{
    all_proofs_verify, assemble_commitment_tree, bytes_of, taproot_output_key, tree_commits,
    tree_depth, tree_of, CommitmentTree,
};
use bitcoin::ScriptBuf;
use vstd::prelude::*;

verus! {

/// The ascending sequence of the elements of `s`.
pub open spec fn sorted_of(s: Set<u64>) -> Seq<u64> {
    choose|q: Seq<u64>| strictly_increasing(q) && q.to_set() == s
}

/// Two ascending sequences with the same elements are equal.
pub proof fn lemma_sorted_unique(a: Seq<u64>, b: Seq<u64>)
    requires
        strictly_increasing(a),
        strictly_increasing(b),
        a.to_set() == b.to_set(),
    ensures
        a == b,
    decreases a.len(),
{
    if a.len() == 0 {
        if b.len() > 0 {
            assert(b.to_set().contains(b[0]));
        }
        assert(b.len() == 0);
        assert(a =~= b);
    } else {
        assert(a.to_set().contains(a[0]));
        assert(b.len() > 0);
        assert(b.to_set().contains(b[0]));
        let i = choose|i: int| 0 <= i < a.len() && a[i] == b[0];
        let j = choose|j: int| 0 <= j < b.len() && b[j] == a[0];
        assert(a[0] == b[0]) by {
            if a[0] < b[0] {
                assert(j > 0 ==> b[0] < b[j]);
            } else if a[0] > b[0] {
                assert(i > 0 ==> a[0] < a[i]);
            }
        }
        let a1 = a.drop_first();
        let b1 = b.drop_first();
        assert(a1.to_set() =~= b1.to_set()) by {
            assert forall|x: u64| a1.to_set().contains(x) implies b1.to_set().contains(x) by {
                let k = choose|k: int| 0 <= k < a1.len() && a1[k] == x;
                assert(a[k + 1] == x && a[0] < x);
                assert(b.to_set().contains(x));
                let m = choose|m: int| 0 <= m < b.len() && b[m] == x;
                assert(m != 0);
                assert(b1[m - 1] == x);
            }
            assert forall|x: u64| b1.to_set().contains(x) implies a1.to_set().contains(x) by {
                let k = choose|k: int| 0 <= k < b1.len() && b1[k] == x;
                assert(b[k + 1] == x && b[0] < x);
                assert(a.to_set().contains(x));
                let m = choose|m: int| 0 <= m < a.len() && a[m] == x;
                assert(m != 0);
                assert(a1[m - 1] == x);
            }
        }
        lemma_sorted_unique(a1, b1);
        assert(a =~= seq![a[0]] + a1);
        assert(b =~= seq![b[0]] + b1);
    }
}

/// An ascending vector is the ascending sequence of its elements.
proof fn lemma_is_sorted_of(v: Seq<u64>)
    requires
        strictly_increasing(v),
    ensures
        v == sorted_of(v.to_set()),
{
    let s = v.to_set();
    assert(strictly_increasing(v) && v.to_set() == s);
    let q = sorted_of(s);
    lemma_sorted_unique(v, q);
}

/// The digests that commit to `p` (there is exactly one such pair).
pub open spec fn hashes_of(p: BitCommitmentPreimages) -> BitCommitmentHashes {
    choose|h: BitCommitmentHashes| commits_to(h, p)
}

/// Digests that commit to `p` are `hashes_of(p)`.
pub proof fn lemma_hashes_of(h: BitCommitmentHashes, p: BitCommitmentPreimages)
    requires
        commits_to(h, p),
    ensures
        hashes_of(p) == h,
{
    let g = hashes_of(p);
    assert(commits_to(g, p));
    assert(g.0 =~= h.0) by {
        assert forall|i: int| 0 <= i < 32 implies g.0[i] == h.0[i] by {
            assert(g.0@[i] == h.0@[i]);
        }
    }
    assert(g.1 =~= h.1) by {
        assert forall|i: int| 0 <= i < 32 implies g.1[i] == h.1[i] by {
            assert(g.1@[i] == h.1@[i]);
        }
    }
}

/// The wires whose commitments a circuit's commitment address holds: its
/// input (top-level) wires, ascending.
pub open spec fn committed_wires(c: Circuit) -> Seq<u64> {
    sorted_of(top_level_wires(c.gate_map()))
}

/// The commitment leaf of wire `w`.
pub open spec fn commitment_leaf_of(c: Circuit, w: u64) -> Seq<u8> {
    items_bytes(commitment_leaf_items(hashes_of(c.commitments()[w])))
}

/// The equivocation leaf of wire `w`.
pub open spec fn anti_contradiction_leaf_of(c: Circuit, w: u64) -> Seq<u8> {
    items_bytes(anti_contradiction_items(hashes_of(c.commitments()[w])))
}

/// The scripts of a circuit's commitment address: a commitment leaf per
/// input wire, then the timeout and cooperative-close leaves.
pub open spec fn commitment_address_scripts(c: Circuit, public_key: [u8; 32], other_public_key: [u8; 32]) -> Seq<
    Seq<u8>,
> {
    committed_wires(c).map_values(|w: u64| commitment_leaf_of(c, w)) + seq![
        items_bytes(slashing_items(public_key)),
        items_bytes(cooperative_items(public_key, other_public_key)),
    ]
}

/// The scripts of a circuit's equivocation address: an equivocation leaf
/// per input wire, then the timeout leaf.
pub open spec fn anti_contradiction_address_scripts(c: Circuit, public_key: [u8; 32]) -> Seq<Seq<u8>> {
    committed_wires(c).map_values(|w: u64| anti_contradiction_leaf_of(c, w)) + seq![
        items_bytes(slashing_items(public_key)),
    ]
}

/// The contradiction scripts of gate `g`, one per branch, in branch order,
/// under the digests of that gate's wires.
pub open spec fn gate_scripts(c: Circuit, g: u64) -> Seq<Seq<u8>> {
    let gate = c.gate_map()[g];
    let kind = gate.kind();
    contradiction_branches(kind).map_values(
        |br: (bool, bool, bool)|
            items_bytes(
                contradiction_items(
                    kind,
                    hashes_of(c.commitments()[gate.first_input()]),
                    hashes_of(c.commitments()[gate.second_input()]),
                    hashes_of(c.commitments()[g]),
                    br.0,
                    br.1,
                    br.2,
                ),
            ),
    )
}

/// The contradiction scripts of all gates, by ascending identifier.
pub open spec fn challenge_scripts(c: Circuit) -> Seq<Seq<u8>> {
    sorted_of(c.gate_map().dom()).map_values(|g: u64| gate_scripts(c, g)).flatten()
}

/// The scripts of a circuit's challenge address: its contradiction scripts,
/// then the timeout and cooperative-close leaves.
pub open spec fn challenge_address_scripts(c: Circuit, public_key: [u8; 32], other_public_key: [u8; 32]) -> Seq<
    Seq<u8>,
> {
    challenge_scripts(c) + seq![
        items_bytes(slashing_items(public_key)),
        items_bytes(cooperative_items(public_key, other_public_key)),
    ]
}

/// What an address function promises: success exactly when the tree of
/// `scripts` at the depth of its first `main` scripts commits under `key`,
/// and then a tree of exactly those scripts under that output key.
pub open spec fn address_result(
    r: Result<CommitmentTree, BitvmError>,
    scripts: Seq<Seq<u8>>,
    main: nat,
    key: [u8; 32],
) -> bool {
    let d = tree_depth(main);
    &&& (r is Ok) <==> tree_commits(scripts, d, key@)
    &&& match r {
        Ok(t) => {
            &&& t.depth == d
            &&& bytes_of(t.leaves@) == scripts
            &&& t.output_key@ == taproot_output_key(tree_of(scripts, d), key@)
            &&& forall|i: int| 0 <= i < t.proofs@.len() ==> (#[trigger] t.proofs@[i])@.len() == 33 + 32 * d
            &&& all_proofs_verify(t)
        },
        Err(e) => e is TreeConstructionError,
    }
}

/// The ordered wires of a circuit's addresses, with a commitment for each.
fn address_wires(circuit: &Circuit) -> (r: Vec<u64>)
    requires
        circuit.wf(),
    ensures
        r@ == committed_wires(*circuit),
        forall|i: int| 0 <= i < r@.len() ==> circuit.commitments().contains_key(#[trigger] r@[i]),
{
    let wires = circuit.collect_top_level_gates_ids();
    proof {
        lemma_is_sorted_of(wires@);
    }
    assert forall|i: int| 0 <= i < wires@.len() implies circuit.commitments().contains_key(#[trigger] wires@[i]) by {
        let w = wires@[i];
        assert(wires@.to_set().contains(w));
        assert(top_level_wires(circuit.gate_map()).contains(w));
        let g = choose|g: u64| circuit.gate_map().contains_key(g) && #[trigger] circuit.gate_map()[g].reads(w);
        assert(crate::circuit::is_wire(circuit.gate_map(), w));
        assert(crate::circuit::wires(circuit.gate_map()).contains(w));
    }
    wires
}

/// The commitment leaf of wire `w`, or with `equivocation` its
/// equivocation leaf.
pub open spec fn wire_leaf_of(c: Circuit, w: u64, equivocation: bool) -> Seq<u8> {
    if equivocation {
        anti_contradiction_leaf_of(c, w)
    } else {
        commitment_leaf_of(c, w)
    }
}

/// The commitment leaves (or, with `equivocation`, the equivocation
/// leaves) of wires that all have commitments.
fn wire_leaves(circuit: &Circuit, wires: &Vec<u64>, public_key: &[u8; 32], equivocation: bool) -> (r: Vec<
    ScriptBuf,
>)
    requires
        forall|i: int| 0 <= i < wires@.len() ==> circuit.commitments().contains_key(#[trigger] wires@[i]),
    ensures
        bytes_of(r@) == wires@.map_values(|w: u64| wire_leaf_of(*circuit, w, equivocation)),
{
    let mut out: Vec<ScriptBuf> = Vec::new();
    let mut i: usize = 0;
    while i < wires.len()
        invariant
            i <= wires.len(),
            forall|i: int| 0 <= i < wires@.len() ==> circuit.commitments().contains_key(#[trigger] wires@[i]),
            out@.len() == i,
            forall|k: int| 0 <= k < i ==> script_bytes(#[trigger] out@[k]) == wire_leaf_of(*circuit, wires@[k], equivocation),
        decreases wires.len() - i,
    {
        let p = circuit.commitment(wires[i]);
        match p {
            Some(p) => {
                let h = p.compute_bit_commitment_hashes();
                proof {
                    lemma_hashes_of(h, p);
                }
                let leaf = if equivocation {
                    build_anti_contradiciton_leaf(public_key, &h)
                } else {
                    build_commitment_leaf(&h)
                };
                assert(p == circuit.commitments()[wires@[i as int]]);
                assert(script_bytes(leaf) == wire_leaf_of(*circuit, wires@[i as int], equivocation));
                out.push(leaf);
            },
            None => {
                assert(circuit.commitments().contains_key(wires@[i as int]));
            },
        }
        i = i + 1;
    }
    assert(bytes_of(out@) =~= wires@.map_values(|w: u64| wire_leaf_of(*circuit, w, equivocation)));
    out
}

/// The commitment address of a circuit: a commitment leaf for each input
/// wire, then the timeout leaf of `public_key` and the cooperative-close
/// leaf of both keys, all at the depth the commitment leaves call for,
/// under `internal_key`. With that uniform depth the tree is complete, and
/// the address exists, only for 0, 2, 6, 14, ... input wires.
pub fn compute_commitment_address(
    circuit: &Circuit,
    public_key: &[u8; 32],
    other_public_key: &[u8; 32],
    internal_key: &[u8; 32],
) -> (r: Result<CommitmentTree, BitvmError>)
    requires
        circuit.wf(),
    ensures
        address_result(
            r,
            commitment_address_scripts(*circuit, *public_key, *other_public_key),
            committed_wires(*circuit).len(),
            *internal_key,
        ),
{
    let wires = address_wires(circuit);
    let leaves = wire_leaves(circuit, &wires, public_key, false);
    let ghost main = leaves@;
    let mut auxiliary: Vec<ScriptBuf> = Vec::new();
    auxiliary.push(build_leaf_1(public_key));
    auxiliary.push(build_leaf_2(public_key, other_public_key));
    let ghost scripts = commitment_address_scripts(*circuit, *public_key, *other_public_key);
    assert(bytes_of(main + auxiliary@) =~= scripts) by {
        assert(bytes_of(main) =~= committed_wires(*circuit).map_values(|w: u64| commitment_leaf_of(*circuit, w)));
        assert(bytes_of(main + auxiliary@) =~= bytes_of(main) + bytes_of(auxiliary@));
    }
    assemble_commitment_tree(leaves, auxiliary, internal_key)
}

/// The equivocation address of a circuit: an equivocation leaf for each
/// input wire, then the timeout leaf of `public_key`, all at the depth the
/// equivocation leaves call for, under `internal_key`. With that uniform
/// depth the address exists only for 1, 3, 7, ... input wires.
pub fn compute_anti_contradiction_address(
    circuit: &Circuit,
    public_key: &[u8; 32],
    internal_key: &[u8; 32],
) -> (r: Result<CommitmentTree, BitvmError>)
    requires
        circuit.wf(),
    ensures
        address_result(
            r,
            anti_contradiction_address_scripts(*circuit, *public_key),
            committed_wires(*circuit).len(),
            *internal_key,
        ),
{
    let wires = address_wires(circuit);
    let leaves = wire_leaves(circuit, &wires, public_key, true);
    let ghost main = leaves@;
    let mut auxiliary: Vec<ScriptBuf> = Vec::new();
    auxiliary.push(build_slashing_leave(public_key));
    let ghost scripts = anti_contradiction_address_scripts(*circuit, *public_key);
    assert(bytes_of(main + auxiliary@) =~= scripts) by {
        assert(bytes_of(main) =~= committed_wires(*circuit).map_values(|w: u64| anti_contradiction_leaf_of(*circuit, w)));
        assert(bytes_of(main + auxiliary@) =~= bytes_of(main) + bytes_of(auxiliary@));
    }
    assemble_commitment_tree(leaves, auxiliary, internal_key)
}

/// The contradiction scripts of gate `g`, one per branch.
fn gate_leaves(circuit: &Circuit, g: u64) -> (r: Vec<ScriptBuf>)
    requires
        circuit.wf(),
        circuit.gate_map().contains_key(g),
    ensures
        bytes_of(r@) == gate_scripts(*circuit, g),
{
    let gate = match circuit.gate(g) {
        Some(gate) => gate,
        None => {
            assert(false);
            Gate::Inv(0)
        },
    };
    let (a, b) = gate.inputs();
    let b = match b {
        Some(b) => b,
        None => a,
    };
    assert(gate == circuit.gate_map()[g]);
    assert(circuit.gate_map()[g].reads(a));
    assert(crate::circuit::wires(circuit.gate_map()).contains(a));
    assert(circuit.gate_map()[g].reads(b));
    assert(crate::circuit::wires(circuit.gate_map()).contains(b));
    assert(crate::circuit::wires(circuit.gate_map()).contains(g));
    let (pa, pb, po) = match (circuit.commitment(a), circuit.commitment(b), circuit.commitment(g)) {
        (Some(pa), Some(pb), Some(po)) => (pa, pb, po),
        _ => {
            assert(false);
            return Vec::new();
        },
    };
    let ha = pa.compute_bit_commitment_hashes();
    let hb = pb.compute_bit_commitment_hashes();
    let ho = po.compute_bit_commitment_hashes();
    proof {
        lemma_hashes_of(ha, pa);
        lemma_hashes_of(hb, pb);
        lemma_hashes_of(ho, po);
    }
    let r = build_tap_scripts_for_defectuous_gate(gate.kind(), &ha, &hb, &ho);
    assert(bytes_of(r@) =~= gate_scripts(*circuit, g));
    r
}

/// The challenge address of a circuit: the contradiction scripts of every
/// gate (by ascending identifier, each in the order of its branches), then
/// the timeout leaf of `public_key` and the cooperative-close leaf of both
/// keys, all at the depth the contradiction scripts call for, under
/// `internal_key`.
pub fn compute_challenge_address(
    circuit: &Circuit,
    public_key: &[u8; 32],
    other_public_key: &[u8; 32],
    internal_key: &[u8; 32],
) -> (r: Result<CommitmentTree, BitvmError>)
    requires
        circuit.wf(),
    ensures
        address_result(
            r,
            challenge_address_scripts(*circuit, *public_key, *other_public_key),
            challenge_scripts(*circuit).len(),
            *internal_key,
        ),
{
    let ids = circuit.gate_ids();
    proof {
        lemma_is_sorted_of(ids@);
    }
    let mut leaves: Vec<ScriptBuf> = Vec::new();
    let mut k: usize = 0;
    while k < ids.len()
        invariant
            circuit.wf(),
            k <= ids.len(),
            ids@.to_set() == circuit.gate_map().dom(),
            bytes_of(leaves@) == ids@.take(k as int).map_values(|g: u64| gate_scripts(*circuit, g)).flatten(),
        decreases ids.len() - k,
    {
        let g = ids[k];
        assert(ids@.to_set().contains(g));
        let mut group = gate_leaves(circuit, g);
        let ghost old_leaves = leaves@;
        let ghost grp = group@;
        leaves.append(&mut group);
        proof {
            let before = ids@.take(k as int).map_values(|g: u64| gate_scripts(*circuit, g));
            assert(ids@.take(k + 1).map_values(|g: u64| gate_scripts(*circuit, g)) =~= before.push(
                gate_scripts(*circuit, g),
            ));
            before.lemma_flatten_push(gate_scripts(*circuit, g));
            assert(bytes_of(leaves@) =~= bytes_of(old_leaves) + bytes_of(grp));
        }
        k = k + 1;
    }
    assert(ids@.take(k as int) =~= ids@);
    let ghost main = leaves@;
    let mut auxiliary: Vec<ScriptBuf> = Vec::new();
    auxiliary.push(build_leaf_1(public_key));
    auxiliary.push(build_leaf_2(public_key, other_public_key));
    assert(bytes_of(main + auxiliary@) =~= challenge_address_scripts(*circuit, *public_key, *other_public_key));
    assemble_commitment_tree(leaves, auxiliary, internal_key)
}

} // verus!
