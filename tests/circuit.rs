use bitvm::bristol::{
    parse_1_input_1_output, parse_2_inputs_1_output, read_and_check_circuit, read_circuit,
    SerializedCircuit,
};
use bitvm::circuit::{Circuit, Gate, GateKind};
use bitvm::commitment::BitCommitmentPreimages;
use bitvm::error::BitvmError;
use sha2::{Digest, Sha256};

const FOUR_GATES: &str = "4 6\n2 1 1\n1 1\n\n2 1 0 1 2 AND\n2 1 0 1 3 NAND\n2 1 2 3 4 XOR\n1 1 4 5 INV\n";

fn fixture_test_vector_1() -> String {
    let mut s = String::from("13 15\n2 1 1\n1 1\n\n");
    s.push_str("2 1 0 1 2 AND\n");
    s.push_str("1 1 2 3 INV\n");
    s.push_str("2 1 3 1 4 AND\n");
    s.push_str("1 1 4 5 INV\n");
    s.push_str("2 1 5 0 6 AND\n");
    s.push_str("1 1 6 7 INV\n");
    s.push_str("2 1 7 2 8 AND\n");
    s.push_str("1 1 8 9 INV\n");
    s.push_str("2 1 9 3 10 AND\n");
    s.push_str("1 1 10 11 INV\n");
    s.push_str("2 1 11 4 12 NAND\n");
    s.push_str("1 1 12 13 INV\n");
    s.push_str("2 1 13 0 14 XOR\n");
    s
}

#[test]
fn test_bristol_parse() {
    let circuit = read_circuit(&fixture_test_vector_1()).expect("unable to parse bristol");
    assert_eq!(circuit.summary(), "<Circuit id=0 and=5 inv=6 nand=1 xor=1>".to_string())
}

#[test]
fn four_gate_summary() {
    let circuit = read_circuit(FOUR_GATES).unwrap();
    assert_eq!(circuit.summary(), "<Circuit id=0 and=1 inv=1 nand=1 xor=1>");
    assert_eq!(circuit.gate_count(), 4);
    assert_eq!(circuit.gate(2), Some(Gate::And(0, 1)));
    assert_eq!(circuit.gate(3), Some(Gate::Nand(0, 1)));
    assert_eq!(circuit.gate(4), Some(Gate::Xor(2, 3)));
    assert_eq!(circuit.gate(5), Some(Gate::Inv(4)));
    assert_eq!(circuit.gate(0), None);
}

#[test]
fn read_and_check_matches_read() {
    let circuit = read_and_check_circuit(&SerializedCircuit::Bristol(FOUR_GATES)).unwrap();
    assert_eq!(circuit.summary(), "<Circuit id=0 and=1 inv=1 nand=1 xor=1>");
}

#[test]
fn lower_case_operators_are_read() {
    let circuit = read_circuit("2 1 0 1 2 and\n1 1 2 3 inv\n").unwrap();
    assert_eq!(circuit.count_gates(GateKind::And), 1);
    assert_eq!(circuit.count_gates(GateKind::Inv), 1);
}

#[test]
fn xnor_is_malformed() {
    match read_circuit("2 1 0 1 2 AND\n2 1 0 1 3 xnor\n") {
        Err(BitvmError::MalformedDescription { line, text }) => {
            assert_eq!(line, 2);
            assert_eq!(text, "xnor");
        }
        other => panic!("unexpected {:?}", other),
    }
}

#[test]
fn bad_number_reports_field() {
    match read_circuit("2 1 0 x1 2 AND\n") {
        Err(BitvmError::MalformedDescription { line, text }) => {
            assert_eq!(line, 1);
            assert_eq!(text, "x1");
        }
        other => panic!("unexpected {:?}", other),
    }
}

#[test]
fn number_over_u64_is_malformed() {
    match read_circuit("\n2 1 0 18446744073709551616 2 XOR") {
        Err(BitvmError::MalformedDescription { line, text }) => {
            assert_eq!(line, 2);
            assert_eq!(text, "18446744073709551616");
        }
        other => panic!("unexpected {:?}", other),
    }
    let c = read_circuit("2 1 0 18446744073709551615 2 XOR").unwrap();
    assert_eq!(c.gate(2), Some(Gate::Xor(0, u64::MAX)));
}

#[test]
fn missing_field_reports_record() {
    match read_circuit("2 1 0 2 AND") {
        Err(BitvmError::MalformedDescription { line, text }) => {
            assert_eq!(line, 1);
            assert_eq!(text, "2 1 0 2 AND");
        }
        other => panic!("unexpected {:?}", other),
    }
}

#[test]
fn self_loop_is_malformed() {
    assert!(matches!(
        read_circuit("1 1 3 3 INV"),
        Err(BitvmError::MalformedDescription { line: 1, .. })
    ));
}

#[test]
fn empty_description_gives_empty_circuit() {
    let c = read_circuit("").unwrap();
    assert_eq!(c.summary(), "<Circuit id=0 and=0 inv=0 nand=0 xor=0>");
    assert!(c.collect_top_level_gates_ids().is_empty());
}

#[test]
fn top_level_wires_sorted_unique() {
    let circuit = read_circuit("2 1 9 4 2 AND\n2 1 4 9 3 XOR\n1 1 7 5 INV\n2 1 2 3 6 NAND\n").unwrap();
    let ids = circuit.collect_top_level_gates_ids();
    assert_eq!(ids, vec![4, 7, 9]);
    for id in &ids {
        assert!(circuit.gate(*id).is_none());
    }
}

#[test]
fn every_wire_has_one_commitment() {
    let mut circuit = read_circuit(FOUR_GATES).unwrap();
    for w in 0..=5u64 {
        let p = circuit.commitment(w).expect("wire without commitment");
        assert_ne!(p.0, p.1);
    }
    assert!(circuit.commitment(6).is_none());
    let before: Vec<_> = (0..=5u64).map(|w| circuit.commitment(w).unwrap()).collect();
    circuit.insert_gate(6, Gate::And(5, 0));
    for w in 0..=5u64 {
        assert_eq!(circuit.commitment(w).unwrap(), before[w as usize]);
    }
    assert!(circuit.commitment(6).is_some());
}

#[test]
fn commitment_hashes_are_sha256_of_preimages() {
    let circuit = read_circuit(FOUR_GATES).unwrap();
    let p = circuit.commitment(2).unwrap();
    let h = p.compute_bit_commitment_hashes();
    let h0: [u8; 32] = Sha256::digest(p.0).into();
    let h1: [u8; 32] = Sha256::digest(p.1).into();
    assert_eq!(h.0, h0);
    assert_eq!(h.1, h1);
    assert_ne!(h.0, p.0);
    assert_ne!(h.0, h.1);
    assert_eq!(p.preimage(false), p.0);
    assert_eq!(p.preimage(true), p.1);
}

#[test]
fn consumer_index_follows_insertions() {
    let mut c = Circuit::new();
    c.insert_gate(2, Gate::And(0, 1));
    c.insert_gate(3, Gate::Xor(0, 2));
    c.insert_gate(4, Gate::Inv(1));
    assert_eq!(c.consumers(0), vec![2, 3]);
    assert_eq!(c.consumers(1), vec![2, 4]);
    assert_eq!(c.consumers(2), vec![3]);
    assert!(c.consumers(4).is_empty());
    assert_eq!(c.circuit_id(), 0);
}

#[test]
fn repeated_gate_id_is_malformed() {
    match read_circuit("2 1 0 1 2 AND\n1 1 5 2 INV\n") {
        Err(BitvmError::MalformedDescription { line, text }) => {
            assert_eq!(line, 2);
            assert_eq!(text, "1 1 5 2 INV");
        }
        other => panic!("unexpected {:?}", other),
    }
}

#[test]
fn commitments_are_exactly_the_wires() {
    let c = read_circuit("2 1 0 1 2 AND\n1 1 2 3 INV\n").unwrap();
    for w in 0..=3u64 {
        assert!(c.commitment(w).is_some());
    }
    for w in 4..10u64 {
        assert!(c.commitment(w).is_none());
    }
}

#[test]
fn preimages_from_draws() {
    let a = [7u8; 32];
    let b = [9u8; 32];
    let p = BitCommitmentPreimages::from_draws(a, b);
    assert_eq!(p.0, a);
    assert_eq!(p.1, b);
    let q = BitCommitmentPreimages::from_draws(a, a);
    assert_eq!(q.0, a);
    let mut changed = a;
    changed[0] = 0;
    assert_eq!(q.1, changed);
    let z = BitCommitmentPreimages::from_draws([0; 32], [0; 32]);
    assert_eq!(z.1[0], 1);
    assert_eq!(&z.1[1..], &[0u8; 31][..]);
}

#[test]
fn collected_preimages_and_hashes() {
    let circuit = read_circuit(FOUR_GATES).unwrap();
    let ids = circuit.collect_top_level_gates_ids();
    assert_eq!(ids, vec![0, 1]);
    let pre = circuit.collect_gates_bit_commitments_preimages(&ids);
    assert_eq!(pre.keys().copied().collect::<Vec<_>>(), vec![0, 1]);
    let sub = circuit.collect_subsequent_gates_bit_commitments_preimages(&ids);
    assert_eq!(sub.keys().copied().collect::<Vec<_>>(), vec![2, 3]);
    assert_eq!(circuit.collect_subsequent_gates_ids(&ids), vec![2, 3]);
    let hashes = circuit.compute_bit_commitments_hashes(&pre);
    assert_eq!(hashes.len(), 2);
    let h0: [u8; 32] = Sha256::digest(pre[&0].0).into();
    assert_eq!(hashes[&0].0, h0);
}

#[test]
fn single_record_parsers() {
    assert_eq!(parse_2_inputs_1_output("2 1 7 8 9 XOR"), Some((9, 7, 8)));
    assert_eq!(parse_2_inputs_1_output("2 1 7 8 9 nand"), Some((9, 7, 8)));
    assert_eq!(parse_2_inputs_1_output("1 1 7 9 INV"), None);
    assert_eq!(parse_1_input_1_output("1 1 7 9 INV"), Some((9, 7)));
    assert_eq!(parse_1_input_1_output("2 1 7 8 9 AND"), None);
    assert_eq!(parse_1_input_1_output("1 1 7 INV"), None);
}

#[test]
fn header_after_record_is_malformed() {
    match read_circuit("4 6\n2 1 1\n2 1 0 1 2 AND\n4 6\n") {
        Err(BitvmError::MalformedDescription { line, text }) => {
            assert_eq!(line, 4);
            assert_eq!(text, "4 6");
        }
        other => panic!("unexpected {:?}", other),
    }
}
