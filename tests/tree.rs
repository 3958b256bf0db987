use bitcoin::secp256k1::{Secp256k1, XOnlyPublicKey};
use bitcoin::taproot::ControlBlock;
use bitvm::address::{
    compute_anti_contradiction_address, compute_challenge_address, compute_commitment_address,
};
use bitvm::bristol::read_circuit;
use bitvm::error::BitvmError;
use bitvm::tapleaf::{
    build_commitment_leaf, build_leaf_1, build_leaf_2, build_slashing_leave,
    build_tap_scripts_for_defectuous_inv_gate,
};
use bitvm::taptree::{
    assemble_commitment_tree, finish_commitment_tree, internal_key_from_seed, leaf_depth,
};

const FOUR_GATES: &str = "2 1 0 1 2 AND\n2 1 0 1 3 NAND\n2 1 2 3 4 XOR\n1 1 4 5 INV\n";

fn key(index: u32) -> [u8; 32] {
    internal_key_from_seed(&[0], &[101, 1, 0, 0, index]).unwrap()
}

fn proof_verifies(proof: &[u8], output_key: &[u8; 32], script: &bitcoin::ScriptBuf) -> bool {
    let cb = ControlBlock::decode(proof).unwrap();
    let key = XOnlyPublicKey::from_slice(output_key).unwrap();
    cb.verify_taproot_commitment(&Secp256k1::verification_only(), key, script)
}

#[test]
fn depth_selection() {
    assert_eq!(leaf_depth(0), 1);
    assert_eq!(leaf_depth(1), 1);
    assert_eq!(leaf_depth(2), 2);
    assert_eq!(leaf_depth(3), 2);
    assert_eq!(leaf_depth(4), 3);
    assert_eq!(leaf_depth(7), 3);
    assert_eq!(leaf_depth(8), 4);
    assert_eq!(leaf_depth(15), 4);
    assert_eq!(leaf_depth(16), 5);
    assert_eq!(leaf_depth(usize::MAX), 64);
}

#[test]
fn internal_key_is_deterministic() {
    assert_eq!(key(1), key(1));
    assert_ne!(key(1), key(2));
    assert_ne!(key(1), [0u8; 32]);
}

#[test]
fn end_to_end_two_wires_and_auxiliary_leaves() {
    let circuit = read_circuit(FOUR_GATES).unwrap();
    assert_eq!(circuit.summary(), "<Circuit id=0 and=1 inv=1 nand=1 xor=1>");
    let ids = circuit.collect_top_level_gates_ids();
    assert_eq!(ids, vec![0, 1]);
    let pre = circuit.collect_gates_bit_commitments_preimages(&ids);
    let hashes = circuit.compute_bit_commitments_hashes(&pre);
    let leaves: Vec<_> = ids.iter().map(|id| build_commitment_leaf(&hashes[id])).collect();
    let (paul, vicky) = (key(2), key(3));
    let aux = vec![build_leaf_1(&vicky), build_leaf_2(&paul, &vicky)];
    let tree = assemble_commitment_tree(leaves.clone(), aux.clone(), &key(1)).unwrap();
    assert_eq!(tree.depth, 2);
    assert_eq!(tree.leaves.len(), 4);
    assert_eq!(tree.proofs.len(), 4);
    for proof in &tree.proofs {
        assert_eq!(proof.len(), 33 + 32 * 2);
    }
    assert_eq!(tree.leaves[0], leaves[0]);
    assert_eq!(tree.leaves[3], aux[1]);
    for (leaf, proof) in tree.leaves.iter().zip(tree.proofs.iter()) {
        assert!(proof_verifies(proof, &tree.output_key, leaf));
    }
    assert!(!proof_verifies(&tree.proofs[0], &tree.output_key, &tree.leaves[1]));
    assert_ne!(tree.output_key, key(1));
}

#[test]
fn incomplete_tree_is_refused() {
    let circuit = read_circuit(FOUR_GATES).unwrap();
    let p = circuit.commitment(0).unwrap().compute_bit_commitment_hashes();
    let leaves = vec![build_commitment_leaf(&p), build_commitment_leaf(&p)];
    let aux = vec![build_leaf_1(&key(3))];
    assert!(matches!(
        assemble_commitment_tree(leaves, aux, &key(1)),
        Err(BitvmError::TreeConstructionError)
    ));
}

#[test]
fn over_capacity_is_refused() {
    let circuit = read_circuit(FOUR_GATES).unwrap();
    let p = circuit.commitment(0).unwrap().compute_bit_commitment_hashes();
    let leaves = vec![build_commitment_leaf(&p)];
    let aux = vec![build_leaf_1(&key(3)), build_leaf_1(&key(4))];
    assert!(matches!(
        assemble_commitment_tree(leaves, aux, &key(1)),
        Err(BitvmError::TreeConstructionError)
    ));
}

#[test]
fn commitment_address_of_three_inputs_is_incomplete() {
    // Three input wires: three leaves plus two cannot fill depth two.
    let circuit = read_circuit("2 1 0 1 3 AND\n2 1 1 2 4 XOR\n1 1 2 5 INV\n").unwrap();
    match compute_commitment_address(&circuit, &key(2), &key(3), &key(1)) {
        Err(e) => assert!(matches!(e, BitvmError::TreeConstructionError)),
        Ok(t) => panic!("five leaves at depth two cannot be complete: {}", t.leaves.len()),
    }
    // Three equivocation leaves plus the timeout leaf do fill depth two.
    let anti = compute_anti_contradiction_address(&circuit, &key(3), &key(1)).unwrap();
    assert_eq!(anti.depth, 2);
    assert_eq!(anti.leaves.len(), 4);
}

#[test]
fn anti_contradiction_address_of_one_input() {
    // One input wire: its equivocation leaf and the timeout leaf at depth one.
    let circuit = read_circuit("1 1 0 1 INV\n1 1 0 2 INV\n").unwrap();
    let t = compute_anti_contradiction_address(&circuit, &key(3), &key(1)).unwrap();
    assert_eq!(t.depth, 1);
    assert_eq!(t.leaves.len(), 2);
    assert_eq!(t.leaves[1], build_slashing_leave(&key(3)));
    for (leaf, proof) in t.leaves.iter().zip(t.proofs.iter()) {
        assert_eq!(proof.len(), 33 + 32);
        assert!(proof_verifies(proof, &t.output_key, leaf));
    }
}

#[test]
fn commitment_address_of_four_gate_scenario() {
    // Two input wires: two commitment leaves plus two auxiliary ones.
    let circuit = read_circuit(FOUR_GATES).unwrap();
    let t = compute_commitment_address(&circuit, &key(2), &key(3), &key(1)).unwrap();
    assert_eq!(t.depth, 2);
    assert_eq!(t.leaves.len(), 4);
    let h0 = circuit.commitment(0).unwrap().compute_bit_commitment_hashes();
    let h1 = circuit.commitment(1).unwrap().compute_bit_commitment_hashes();
    assert_eq!(t.leaves[0], build_commitment_leaf(&h0));
    assert_eq!(t.leaves[1], build_commitment_leaf(&h1));
    assert_eq!(t.leaves[2], build_leaf_1(&key(2)));
    assert_eq!(t.leaves[3], build_leaf_2(&key(2), &key(3)));
    for (leaf, proof) in t.leaves.iter().zip(t.proofs.iter()) {
        assert!(proof_verifies(proof, &t.output_key, leaf));
    }
    let again = compute_commitment_address(&circuit, &key(2), &key(3), &key(1)).unwrap();
    assert_eq!(again.output_key, t.output_key);
    let other = compute_commitment_address(&circuit, &key(2), &key(3), &key(4)).unwrap();
    assert_ne!(other.output_key, t.output_key);
}

#[test]
fn challenge_address_of_one_inverter() {
    let circuit = read_circuit("1 1 0 1 INV\n").unwrap();
    let t = compute_challenge_address(&circuit, &key(2), &key(3), &key(1)).unwrap();
    assert_eq!(t.depth, 2);
    assert_eq!(t.leaves.len(), 4);
    let hi = circuit.commitment(0).unwrap().compute_bit_commitment_hashes();
    let ho = circuit.commitment(1).unwrap().compute_bit_commitment_hashes();
    let expected = build_tap_scripts_for_defectuous_inv_gate(&hi, &ho);
    assert_eq!(t.leaves[..2], expected[..]);
    for (leaf, proof) in t.leaves.iter().zip(t.proofs.iter()) {
        assert!(proof_verifies(proof, &t.output_key, leaf));
    }
    let and = read_circuit("2 1 0 1 2 AND\n").unwrap();
    assert!(matches!(
        compute_challenge_address(&and, &key(2), &key(3), &key(1)),
        Err(BitvmError::TreeConstructionError)
    ));
}

#[test]
fn finishing_checks_every_proof() {
    let circuit = read_circuit(FOUR_GATES).unwrap();
    let p = circuit.commitment(0).unwrap().compute_bit_commitment_hashes();
    let q = circuit.commitment(1).unwrap().compute_bit_commitment_hashes();
    let leaves = vec![build_commitment_leaf(&p), build_commitment_leaf(&q)];
    let aux = vec![build_leaf_1(&key(2)), build_leaf_2(&key(2), &key(3))];
    let t = assemble_commitment_tree(leaves, aux, &key(1)).unwrap();
    let good: Vec<_> = t.proofs.iter().cloned().map(Some).collect();
    let again = finish_commitment_tree(t.output_key, t.depth, t.leaves.clone(), good.clone()).unwrap();
    assert_eq!(again.proofs, t.proofs);
    let mut swapped = good.clone();
    swapped.swap(0, 1);
    assert!(matches!(
        finish_commitment_tree(t.output_key, t.depth, t.leaves.clone(), swapped),
        Err(BitvmError::TreeConstructionError)
    ));
    let mut missing = good;
    missing[3] = None;
    assert!(matches!(
        finish_commitment_tree(t.output_key, t.depth, t.leaves.clone(), missing),
        Err(BitvmError::TreeConstructionError)
    ));
}

#[test]
fn commitment_address_of_six_inputs() {
    // Six input wires: six leaves plus two fill depth three.
    let circuit = read_circuit("2 1 0 1 6 AND\n2 1 2 3 7 XOR\n2 1 4 5 8 NAND\n").unwrap();
    let t = compute_commitment_address(&circuit, &key(2), &key(3), &key(1)).unwrap();
    assert_eq!(t.depth, 3);
    assert_eq!(t.leaves.len(), 8);
    for (leaf, proof) in t.leaves.iter().zip(t.proofs.iter()) {
        assert_eq!(proof.len(), 33 + 32 * 3);
        assert!(proof_verifies(proof, &t.output_key, leaf));
    }
}

#[test]
fn over_long_derivation_path_is_refused() {
    let path = vec![0u32; 256];
    assert!(matches!(internal_key_from_seed(&[0], &path), Err(BitvmError::KeyDerivationError)));
    let path = vec![0u32; 255];
    assert!(internal_key_from_seed(&[0], &path).is_ok());
}
