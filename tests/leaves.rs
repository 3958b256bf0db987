use bitvm::circuit::GateKind;
use bitvm::commitment::BitCommitmentHashes;
use bitvm::tapleaf::{
    build_anti_contradiciton_leaf, build_commitment_leaf, build_leaf_1, build_leaf_2,
    build_slashing_leave, build_tap_scripts_for_defectuous_and_gate,
    build_tap_scripts_for_defectuous_gate, build_tap_scripts_for_defectuous_inv_gate,
    build_tap_scripts_for_defectuous_nand_gate, build_tap_scripts_for_defectuous_xor_gate,
    augment_with_bit_commitment_leaf,
};

fn hashes(tag: u8) -> BitCommitmentHashes {
    BitCommitmentHashes([tag; 32], [tag + 1; 32])
}

fn push32(v: &mut Vec<u8>, d: [u8; 32]) {
    v.push(32);
    v.extend_from_slice(&d);
}

#[test]
fn inverter_branches_bytes() {
    let (i, o) = (hashes(10), hashes(20));
    let scripts = build_tap_scripts_for_defectuous_inv_gate(&i, &o);
    assert_eq!(scripts.len(), 2);
    let mut expected = vec![0x6b, 0xa8];
    push32(&mut expected, i.0);
    expected.extend_from_slice(&[0x88, 0x00, 0x91, 0x6c, 0xa8]);
    push32(&mut expected, o.0);
    expected.extend_from_slice(&[0x88, 0x00, 0x9e, 0x69, 0x51]);
    assert_eq!(scripts[0].as_bytes(), &expected[..]);
    let mut second = vec![0x6b, 0xa8];
    push32(&mut second, i.1);
    second.extend_from_slice(&[0x88, 0x51, 0x91, 0x6c, 0xa8]);
    push32(&mut second, o.1);
    second.extend_from_slice(&[0x88, 0x51, 0x9e, 0x69, 0x51]);
    assert_eq!(scripts[1].as_bytes(), &second[..]);
}

#[test]
fn and_first_branch_bytes() {
    let (a, b, o) = (hashes(1), hashes(3), hashes(5));
    let scripts = build_tap_scripts_for_defectuous_and_gate(&a, &b, &o);
    assert_eq!(scripts.len(), 4);
    let mut expected = vec![0x6b, 0xa8];
    push32(&mut expected, a.1);
    expected.extend_from_slice(&[0x88, 0x51, 0x7c, 0xa8]);
    push32(&mut expected, b.1);
    expected.extend_from_slice(&[0x88, 0x51, 0x9a, 0x6c, 0xa8]);
    push32(&mut expected, o.0);
    expected.extend_from_slice(&[0x88, 0x00, 0x9e, 0x69, 0x51]);
    assert_eq!(scripts[0].as_bytes(), &expected[..]);
}

#[test]
fn nand_and_xor_differ_in_the_gate_opcodes() {
    let (a, b, o) = (hashes(1), hashes(3), hashes(5));
    let nand = build_tap_scripts_for_defectuous_nand_gate(&a, &b, &o);
    let xor = build_tap_scripts_for_defectuous_xor_gate(&a, &b, &o);
    assert_eq!(nand.len(), 4);
    assert_eq!(xor.len(), 4);
    // NAND branch (1, 1) -> 1: BOOLAND then NOT after the second input.
    let n = nand[0].as_bytes();
    assert_eq!(n[2 + 33..2 + 33 + 1], [0x88]);
    assert_eq!(&n[72..77], &[0x88, 0x51, 0x9a, 0x91, 0x6c]);
    // XOR branch (1, 0) -> 0: NUMNOTEQUAL after the second input.
    let x = xor[0].as_bytes();
    assert_eq!(&x[72..76], &[0x88, 0x00, 0x9e, 0x6c]);
    let same = build_tap_scripts_for_defectuous_gate(GateKind::Xor, &a, &b, &o);
    assert_eq!(same, xor);
}

#[test]
fn commitment_leaf_bytes() {
    let h = hashes(7);
    let leaf = build_commitment_leaf(&h);
    let mut expected = vec![0x76, 0xa8];
    push32(&mut expected, h.0);
    expected.extend_from_slice(&[0x87, 0x7c, 0xa8]);
    push32(&mut expected, h.1);
    expected.extend_from_slice(&[0x87, 0x9b, 0x69, 0x51]);
    assert_eq!(leaf.as_bytes(), &expected[..]);
    let b = augment_with_bit_commitment_leaf(bitcoin::script::Builder::new(), &h);
    assert_eq!(b.as_bytes(), &expected[..expected.len() - 1]);
}

#[test]
fn anti_contradiction_leaf_bytes() {
    let h = hashes(9);
    let leaf = build_anti_contradiciton_leaf(&[1; 32], &h);
    let mut expected = vec![0xa8];
    push32(&mut expected, h.0);
    expected.extend_from_slice(&[0x88, 0xa8]);
    push32(&mut expected, h.1);
    expected.extend_from_slice(&[0x88, 0x51]);
    assert_eq!(leaf.as_bytes(), &expected[..]);
}

#[test]
fn auxiliary_leaves_bytes() {
    let k1 = [0x11; 32];
    let k2 = [0x22; 32];
    let mut timeout = vec![0x5a, 0xb2, 0x75];
    push32(&mut timeout, k1);
    timeout.push(0xac);
    assert_eq!(build_slashing_leave(&k1).as_bytes(), &timeout[..]);
    assert_eq!(build_leaf_1(&k1), build_slashing_leave(&k1));
    let mut coop = vec![];
    push32(&mut coop, k1);
    coop.push(0xad);
    push32(&mut coop, k2);
    coop.push(0xac);
    assert_eq!(build_leaf_2(&k1, &k2).as_bytes(), &coop[..]);
}
