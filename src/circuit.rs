use crate::commitment::{BitCommitmentHashes, BitCommitmentPreimages, sha256_of};
use std::collections::{BTreeMap, HashMap, HashSet};
use vstd::prelude::*;

verus! {

broadcast use {vstd::std_specs::hash::group_hash_axioms, vstd::std_specs::btree::group_btree_axioms};

/// A logic gate, named by the wires it reads. The wire it drives carries
/// its own identifier.
#[derive(Clone, Copy, Debug, PartialEq, Eq, Structural)]
pub enum Gate {
    Nand(u64, u64),
    Inv(u64),
    And(u64, u64),
    Xor(u64, u64),
}

impl Gate {
    /// Whether this gate reads wire `w`.
    pub open spec fn reads(self, w: u64) -> bool {
        match self {
            Gate::Inv(a) => a == w,
            Gate::Nand(a, b) | Gate::And(a, b) | Gate::Xor(a, b) => a == w || b == w,
        }
    }

    /// The first wire this gate reads.
    pub open spec fn first_input(self) -> u64 {
        match self {
            Gate::Inv(a) | Gate::Nand(a, _) | Gate::And(a, _) | Gate::Xor(a, _) => a,
        }
    }

    /// The second wire this gate reads; an inverter's only one.
    pub open spec fn second_input(self) -> u64 {
        match self {
            Gate::Inv(a) => a,
            Gate::Nand(_, b) | Gate::And(_, b) | Gate::Xor(_, b) => b,
        }
    }

    /// The wires this gate reads: the first one, and the second one if any.
    pub fn inputs(&self) -> (r: (u64, Option<u64>))
        ensures
            forall|w: u64| self.reads(w) <==> (w == r.0 || r.1 == Some(w)),
            (r.1 is None) <==> (*self is Inv),
            r.0 == self.first_input(),
            r.1 is Some ==> r.1->Some_0 == self.second_input(),
    {
        match *self {
            Gate::Inv(a) => (a, None),
            Gate::Nand(a, b) | Gate::And(a, b) | Gate::Xor(a, b) => (a, Some(b)),
        }
    }
}

/// The four kinds of gate.
#[derive(Clone, Copy, Debug, PartialEq, Eq, Structural)]
pub enum GateKind {
    And,
    Inv,
    Nand,
    Xor,
}

impl Gate {
    /// This gate's kind.
    pub open spec fn kind_spec(&self) -> GateKind {
        match *self {
            Gate::Nand(_, _) => GateKind::Nand,
            Gate::Inv(_) => GateKind::Inv,
            Gate::And(_, _) => GateKind::And,
            Gate::Xor(_, _) => GateKind::Xor,
        }
    }

    /// This gate's kind.
    #[verifier::when_used_as_spec(kind_spec)]
    pub fn kind(&self) -> (r: GateKind)
        ensures
            r == self.kind_spec(),
    {
        match *self {
            Gate::Nand(_, _) => GateKind::Nand,
            Gate::Inv(_) => GateKind::Inv,
            Gate::And(_, _) => GateKind::And,
            Gate::Xor(_, _) => GateKind::Xor,
        }
    }
}

/// The gates of kind `kind`.
pub open spec fn gates_of_kind(gates: Map<u64, Gate>, kind: GateKind) -> Set<u64> {
    gates.dom().filter(|g: u64| gates[g].kind() == kind)
}

/// The number of gates of kind `kind`.
pub open spec fn kind_count(gates: Map<u64, Gate>, kind: GateKind) -> nat {
    gates_of_kind(gates, kind).len()
}

/// The gates of `gates` that read wire `w`.
pub open spec fn consumers(gates: Map<u64, Gate>, w: u64) -> Set<u64> {
    gates.dom().filter(|g: u64| gates[g].reads(w))
}

/// Whether `w` is a wire of the circuit: driven by a gate or read by one.
pub open spec fn is_wire(gates: Map<u64, Gate>, w: u64) -> bool {
    gates.contains_key(w) || exists|g: u64| gates.contains_key(g) && #[trigger] gates[g].reads(w)
}

/// All wires of the circuit.
pub open spec fn wires(gates: Map<u64, Gate>) -> Set<u64> {
    Set::new(|w: u64| is_wire(gates, w))
}

/// The wires that some gate reads and no gate drives: the circuit's inputs.
pub open spec fn top_level_wires(gates: Map<u64, Gate>) -> Set<u64> {
    Set::new(
        |w: u64|
            !gates.contains_key(w) && exists|g: u64| gates.contains_key(g) && #[trigger] gates[g].reads(w),
    )
}

/// The decimal digit `d` as a character.
pub open spec fn digit_char(d: nat) -> char {
    if d == 0 { '0' }
    else if d == 1 { '1' }
    else if d == 2 { '2' }
    else if d == 3 { '3' }
    else if d == 4 { '4' }
    else if d == 5 { '5' }
    else if d == 6 { '6' }
    else if d == 7 { '7' }
    else if d == 8 { '8' }
    else { '9' }
}

/// The decimal notation of `n`, without leading zeros.
pub open spec fn decimal(n: nat) -> Seq<char>
    decreases n,
{
    if n < 10 {
        seq![digit_char(n)]
    } else {
        decimal(n / 10).push(digit_char(n % 10))
    }
}

/// The one-line summary of a circuit: its identifier and its number of
/// gates of each kind.
pub open spec fn summary_text(id: nat, and: nat, inv: nat, nand: nat, xor: nat) -> Seq<char> {
    "<Circuit id="@ + decimal(id) + " and="@ + decimal(and) + " inv="@ + decimal(inv) + " nand="@
        + decimal(nand) + " xor="@ + decimal(xor) + ">"@
}

/// The digit `d` as a one-character string.
fn digit_str(d: u64) -> (r: &'static str)
    requires
        d < 10,
    ensures
        r@ == seq![digit_char(d as nat)],
{
    proof {
        reveal_strlit("0");
        reveal_strlit("1");
        reveal_strlit("2");
        reveal_strlit("3");
        reveal_strlit("4");
        reveal_strlit("5");
        reveal_strlit("6");
        reveal_strlit("7");
        reveal_strlit("8");
        reveal_strlit("9");
    }
    if d == 0 { "0" }
    else if d == 1 { "1" }
    else if d == 2 { "2" }
    else if d == 3 { "3" }
    else if d == 4 { "4" }
    else if d == 5 { "5" }
    else if d == 6 { "6" }
    else if d == 7 { "7" }
    else if d == 8 { "8" }
    else { "9" }
}

/// Appends the decimal notation of `n` to `s`.
fn push_decimal(s: &mut String, n: u64)
    ensures
        final(s)@ == old(s)@ + decimal(n as nat),
    decreases n,
{
    if n >= 10 {
        push_decimal(s, n / 10);
    }
    s.append(digit_str(n % 10));
    assert(decimal(n as nat) == (if n < 10 { seq![digit_char(n as nat)] } else { decimal((n / 10) as nat).push(digit_char((n % 10) as nat)) }));
    assert(final(s)@ =~= old(s)@ + decimal(n as nat));
}

/// The gates that read some wire of `wires`.
pub open spec fn subsequent_gates(gates: Map<u64, Gate>, wires: Seq<u64>) -> Set<u64> {
    Set::new(|g: u64| exists|w: u64| wires.contains(w) && #[trigger] consumers(gates, w).contains(g))
}

/// Whether `h` holds the SHA-256 digests of the two preimages of `p`.
pub open spec fn commits_to(h: BitCommitmentHashes, p: BitCommitmentPreimages) -> bool {
    h.0@ == sha256_of(p.0@) && h.1@ == sha256_of(p.1@)
}

/// In a well-formed circuit an identifier has a commitment exactly when it
/// is a wire (driven or read by a gate): one pair per wire, none for any
/// other identifier, and the pair's two preimages differ.
pub proof fn lemma_every_wire_committed(c: Circuit, w: u64)
    requires
        c.wf(),
    ensures
        c.commitments().contains_key(w) <==> is_wire(c.gate_map(), w),
        c.commitments().contains_key(w) ==> c.commitments()[w].wf(),
{
    assert(wires(c.gate_map()).contains(w) == is_wire(c.gate_map(), w));
}

/// Whether the sequence is sorted ascending without repetition.
pub open spec fn strictly_increasing(s: Seq<u64>) -> bool {
    forall|i: int, j: int| 0 <= i < j < s.len() ==> s[i] < s[j]
}

/// Inserts `x` into a strictly increasing vector, unless it is there already.
fn insert_sorted(v: &mut Vec<u64>, x: u64)
    requires
        strictly_increasing(old(v)@),
    ensures
        strictly_increasing(final(v)@),
        final(v)@.to_set() == old(v)@.to_set().insert(x),
{
    let mut i: usize = 0;
    while i < v.len() && v[i] < x
        invariant
            i <= v.len(),
            strictly_increasing(v@),
            forall|j: int| 0 <= j < i ==> v@[j] < x,
        decreases v.len() - i,
    {
        i = i + 1;
    }
    if i < v.len() && v[i] == x {
        assert(v@.to_set() =~= v@.to_set().insert(x)) by {
            assert(v@.contains(x)) by { assert(v@[i as int] == x); }
        }
        return;
    }
    let ghost before = v@;
    v.insert(i, x);
    assert(v@ =~= before.subrange(0, i as int).push(x) + before.subrange(i as int, before.len() as int));
    assert(v@.to_set() =~= before.to_set().insert(x)) by {
        assert forall|y: u64| v@.contains(y) <==> before.to_set().insert(x).contains(y) by {
            if v@.contains(y) {
                let k = choose|k: int| 0 <= k < v@.len() && v@[k] == y;
                if k < i {
                    assert(before[k] == y);
                } else if k > i {
                    assert(before[k - 1] == y);
                }
            }
            if before.contains(y) {
                let k = choose|k: int| 0 <= k < before.len() && before[k] == y;
                if k < i {
                    assert(v@[k] == y);
                } else {
                    assert(v@[k + 1] == y);
                }
            }
            if y == x {
                assert(v@[i as int] == x);
            }
        }
    }
}

/// A boolean circuit: its gates, a bit commitment for each of its wires, and
/// for each wire the gates that read it.
#[derive(Debug)]
pub struct Circuit {
    circuit_id: u64,
    gates: HashMap<u64, Gate>,
    gates_bit_commitments_preimages: HashMap<u64, BitCommitmentPreimages>,
    reverse_lookup: HashMap<u64, HashSet<u64>>,
}

impl Circuit {
    /// The circuit's identifier.
    pub closed spec fn id(&self) -> u64 {
        self.circuit_id
    }

    /// The gates, by identifier.
    pub closed spec fn gate_map(&self) -> Map<u64, Gate> {
        self.gates@
    }

    /// The commitment preimages, by wire.
    pub closed spec fn commitments(&self) -> Map<u64, BitCommitmentPreimages> {
        self.gates_bit_commitments_preimages@
    }

    /// The consumer index: the gates recorded as reading wire `w`.
    pub closed spec fn consumers_of(&self, w: u64) -> Set<u64> {
        if self.reverse_lookup@.contains_key(w) {
            self.reverse_lookup@[w]@
        } else {
            Set::empty()
        }
    }

    /// No gate reads its own wire, the wires are exactly the identifiers
    /// with a commitment (one pair each, with two distinct preimages), and
    /// the consumer index is exact.
    pub open spec fn wf(&self) -> bool {
        &&& forall|g: u64| #[trigger]
            self.gate_map().contains_key(g) ==> !self.gate_map()[g].reads(g)
        &&& self.commitments().dom() == wires(self.gate_map())
        &&& forall|w: u64| #[trigger]
            self.commitments().contains_key(w) ==> self.commitments()[w].wf()
        &&& forall|w: u64| #[trigger] self.consumers_of(w) == consumers(self.gate_map(), w)
    }

    /// An empty circuit with identifier 0.
    pub fn new() -> (r: Circuit)
        ensures
            r.wf(),
            r.id() == 0,
            r.gate_map() == Map::<u64, Gate>::empty(),
            r.commitments() == Map::<u64, BitCommitmentPreimages>::empty(),
    {
        let r = Circuit {
            circuit_id: 0,
            gates: HashMap::new(),
            gates_bit_commitments_preimages: HashMap::new(),
            reverse_lookup: HashMap::new(),
        };
        assert forall|w: u64| #[trigger] r.consumers_of(w) == consumers(r.gate_map(), w) by {
            assert(consumers(r.gate_map(), w) =~= Set::empty());
        }
        assert(r.commitments().dom() =~= wires(r.gate_map()));
        r
    }

    /// The circuit's identifier.
    pub fn circuit_id(&self) -> (r: u64)
        ensures
            r == self.id(),
    {
        self.circuit_id
    }

    /// Gate number `id`, if there is one.
    pub fn gate(&self, id: u64) -> (r: Option<Gate>)
        ensures
            r == (if self.gate_map().contains_key(id) {
                Some(self.gate_map()[id])
            } else {
                None
            }),
    {
        match self.gates.get(&id) {
            Some(g) => Some(*g),
            None => None,
        }
    }

    /// The number of gates.
    pub fn gate_count(&self) -> (r: usize)
        ensures
            r == self.gate_map().len(),
    {
        self.gates.len()
    }

    /// The commitment preimages of wire `w`, if it has any.
    pub fn commitment(&self, w: u64) -> (r: Option<BitCommitmentPreimages>)
        ensures
            r == (if self.commitments().contains_key(w) {
                Some(self.commitments()[w])
            } else {
                None
            }),
    {
        match self.gates_bit_commitments_preimages.get(&w) {
            Some(p) => Some(p.clone()),
            None => None,
        }
    }

    /// The gates that read wire `w`, ascending.
    pub fn consumers(&self, w: u64) -> (r: Vec<u64>)
        requires
            self.wf(),
        ensures
            strictly_increasing(r@),
            r@.to_set() == consumers(self.gate_map(), w),
    {
        let mut out: Vec<u64> = Vec::new();
        match self.reverse_lookup.get(&w) {
            Some(set) => {
                for g in it: set.iter()
                    invariant
                        strictly_increasing(out@),
                        out@.to_set() == Set::new(|x: u64| exists|j: int| 0 <= j < it.index() && *it.seq()[j] == x),
                        out@.to_set().subset_of(set@),
                        it.seq().unref().to_set() == set@,
                        it.index() == it.seq().len() ==> set@.subset_of(out@.to_set()),
                {
                    let ghost before = out@.to_set();
                    insert_sorted(&mut out, *g);
                    assert(out@.to_set() =~= Set::new(|x: u64| exists|j: int| 0 <= j < it.index() + 1 && *it.seq()[j] == x)) by {
                        assert forall|x: u64| out@.to_set().contains(x) implies (exists|j: int| 0 <= j < it.index() + 1 && *it.seq()[j] == x) by {
                            if x == *g {
                                assert(*it.seq()[it.index() as int] == x);
                            } else {
                                assert(before.contains(x));
                            }
                        }
                        assert forall|x: u64| (exists|j: int| 0 <= j < it.index() + 1 && *it.seq()[j] == x) implies out@.to_set().contains(x) by {
                            let j = choose|j: int| 0 <= j < it.index() + 1 && *it.seq()[j] == x;
                            if j < it.index() {
                                assert(before.contains(x));
                            }
                        }
                    }
                    assert forall|x: u64|
                        it.index() + 1 == it.seq().len() && set@.contains(x) implies out@.to_set().contains(x) by {
                        assert(it.seq().unref().contains(x));
                        let j = choose|j: int| 0 <= j < it.seq().len() && it.seq().unref()[j] == x;
                        assert(*it.seq()[j] == x);
                    }
                    assert forall|x: u64| out@.to_set().contains(x) implies set@.contains(x) by {
                        let j = choose|j: int| 0 <= j < it.index() + 1 && *it.seq()[j] == x;
                        assert(it.seq().unref()[j] == x);
                        assert(it.seq().unref().contains(x));
                    }
                }
                assert(out@.to_set() =~= set@);
            },
            None => {
                assert(out@.to_set() =~= Set::empty());
            },
        }
        assert(self.consumers_of(w) == consumers(self.gate_map(), w));
        out
    }

    /// Gives wire `w` a fresh commitment unless it has one already.
    fn commit_wire(&mut self, w: u64)
        ensures
            final(self).gates == old(self).gates,
            final(self).reverse_lookup == old(self).reverse_lookup,
            final(self).circuit_id == old(self).circuit_id,
            old(self).commitments().contains_key(w) ==> final(self).commitments() == old(self).commitments(),
            !old(self).commitments().contains_key(w) ==> exists|p: BitCommitmentPreimages|
                p.wf() && final(self).commitments() == old(self).commitments().insert(w, p),
    {
        if !self.gates_bit_commitments_preimages.contains_key(&w) {
            let p = BitCommitmentPreimages::new();
            self.gates_bit_commitments_preimages.insert(w, p);
        }
    }

    /// Records gate `g` as a reader of wire `w`.
    fn add_consumer(&mut self, w: u64, g: u64)
        ensures
            final(self).gates == old(self).gates,
            final(self).gates_bit_commitments_preimages == old(self).gates_bit_commitments_preimages,
            final(self).circuit_id == old(self).circuit_id,
            final(self).consumers_of(w) == old(self).consumers_of(w).insert(g),
            forall|v: u64| v != w ==> final(self).consumers_of(v) == old(self).consumers_of(v),
    {
        let mut set = match self.reverse_lookup.remove(&w) {
            Some(s) => s,
            None => HashSet::new(),
        };
        set.insert(g);
        self.reverse_lookup.insert(w, set);
    }

    /// Inserts gate `gate` under the fresh identifier `gate_id`. Every wire
    /// it touches that has no commitment yet gets one; commitments already
    /// made are kept as they are.
    pub fn insert_gate(&mut self, gate_id: u64, gate: Gate)
        requires
            old(self).wf(),
            !old(self).gate_map().contains_key(gate_id),
            !gate.reads(gate_id),
        ensures
            final(self).wf(),
            final(self).id() == old(self).id(),
            final(self).gate_map() == old(self).gate_map().insert(gate_id, gate),
            forall|w: u64|
                #![trigger final(self).commitments().contains_key(w)]
                final(self).commitments().contains_key(w) <==> (old(self).commitments().contains_key(w)
                    || w == gate_id || gate.reads(w)),
            forall|w: u64| #[trigger]
                old(self).commitments().contains_key(w) ==> final(self).commitments()[w]
                    == old(self).commitments()[w],
    {
        let ghost old_self = *self;
        let ghost mid_self = *self;
        assert forall|w: u64| #[trigger] mid_self.consumers_of(w) == old_self.consumers_of(w).remove(gate_id) by {
            assert(!old_self.consumers_of(w).contains(gate_id));
            assert(mid_self.consumers_of(w) =~= old_self.consumers_of(w).remove(gate_id));
        }
        let (a, b) = gate.inputs();
        self.commit_wire(a);
        assert(self.reverse_lookup == mid_self.reverse_lookup);
        assert(forall|w: u64| #[trigger] self.consumers_of(w) == mid_self.consumers_of(w));
        self.add_consumer(a, gate_id);
        let ghost after_a = *self;
        assert(after_a.consumers_of(a) == mid_self.consumers_of(a).insert(gate_id));
        assert(forall|w: u64| w != a ==> #[trigger] after_a.consumers_of(w) == mid_self.consumers_of(w));
        match b {
            Some(bb) => {
                self.commit_wire(bb);
                let ghost after_commit_b = *self;
                assert(after_commit_b.reverse_lookup == after_a.reverse_lookup);
                assert(forall|w: u64| #[trigger] after_commit_b.consumers_of(w) == after_a.consumers_of(w));
                self.add_consumer(bb, gate_id);
                assert forall|w: u64| #[trigger] self.consumers_of(w) == (if w == a || w == bb {
                    mid_self.consumers_of(w).insert(gate_id)
                } else {
                    mid_self.consumers_of(w)
                }) by {
                    if w == bb {
                        assert(self.consumers_of(w) == after_commit_b.consumers_of(w).insert(gate_id));
                        assert(self.consumers_of(w) =~= mid_self.consumers_of(w).insert(gate_id));
                    } else {
                        assert(self.consumers_of(w) == after_commit_b.consumers_of(w));
                    }
                }
            },
            None => {},
        }
        assert forall|w: u64| #[trigger] self.consumers_of(w) == (if gate.reads(w) {
            mid_self.consumers_of(w).insert(gate_id)
        } else {
            mid_self.consumers_of(w)
        }) by {
            if b is None {
                assert(gate.reads(w) <==> w == a);
            } else {
                assert(gate.reads(w) <==> (w == a || w == b->0));
            }
        }
        let ghost pre = *self;
        self.commit_wire(gate_id);
        self.gates.insert(gate_id, gate);
        let ghost gm = self.gate_map();
        assert(self.reverse_lookup == pre.reverse_lookup);
        assert(forall|w: u64| #[trigger] self.consumers_of(w) == pre.consumers_of(w));
        assert forall|w: u64| #[trigger] self.consumers_of(w) == consumers(gm, w) by {
            let expected = if gate.reads(w) {
                mid_self.consumers_of(w).insert(gate_id)
            } else {
                mid_self.consumers_of(w)
            };
            assert(self.consumers_of(w) =~= expected);
            assert(mid_self.consumers_of(w) == consumers(old_self.gate_map(), w).remove(gate_id));
            assert(consumers(gm, w) =~= expected);
        }
        assert forall|w: u64| #[trigger] is_wire(gm, w) implies self.commitments().contains_key(w) by {
            if !gm.contains_key(w) {
                let g = choose|g: u64| gm.contains_key(g) && #[trigger] gm[g].reads(w);
                if g != gate_id {
                    assert(is_wire(old_self.gate_map(), w));
                }
            } else if w != gate_id {
                assert(is_wire(old_self.gate_map(), w));
            }
        }
        assert forall|w: u64| #[trigger] self.commitments().contains_key(w) implies is_wire(gm, w) by {
            if old_self.commitments().contains_key(w) {
                assert(wires(old_self.gate_map()).contains(w));
                if !old_self.gate_map().contains_key(w) {
                    let g = choose|g: u64| old_self.gate_map().contains_key(g) && #[trigger] old_self.gate_map()[g].reads(w);
                    assert(gm.contains_key(g) && gm[g].reads(w));
                }
            } else if w != gate_id {
                assert(gm[gate_id].reads(w));
            }
        }
        assert(self.commitments().dom() =~= wires(gm));
        assert forall|g: u64| #[trigger] gm.contains_key(g) implies !gm[g].reads(g) by {
            if g != gate_id {
                assert(old_self.gate_map().contains_key(g));
            }
        }
        assert forall|w: u64| #[trigger] self.commitments().contains_key(w) implies self.commitments()[w].wf() by {
            if old_self.commitments().contains_key(w) {
                assert(self.commitments()[w] == old_self.commitments()[w]);
            }
        }
    }

    /// The number of gates of kind `kind`.
    pub fn count_gates(&self, kind: GateKind) -> (r: usize)
        ensures
            r == kind_count(self.gate_map(), kind),
    {
        let total = self.gates.len();
        let mut n: usize = 0;
        let ghost mut seen: Set<u64> = Set::empty();
        for kv in it: self.gates.iter()
            invariant
                total == self.gates@.len(),
                it.seq().len() == total,
                it.seq().no_duplicates(),
                seen.finite(),
                n == seen.len(),
                n <= it.index(),
                seen == Set::new(
                    |k: u64|
                        exists|j: int|
                            0 <= j < it.index() && *it.seq()[j].0 == k && (*it.seq()[j].1).kind() == kind,
                ),
                forall|j: int|
                    0 <= j < it.seq().len() ==> self.gates@.contains_key(*it.seq()[j].0)
                        && self.gates@[*it.seq()[j].0] == *it.seq()[j].1,
                forall|k: u64| self.gates@.contains_key(k) ==> it.seq().contains((&k, &self.gates@[k])),
                it.index() == it.seq().len() ==> seen == gates_of_kind(self.gates@, kind),
        {
            let ghost i = it.index();
            if kv.1.kind() == kind {
                proof {
                    assert(!seen.contains(*kv.0)) by {
                        if seen.contains(*kv.0) {
                            let j = choose|j: int|
                                0 <= j < i && *it.seq()[j].0 == *kv.0 && (*it.seq()[j].1).kind() == kind;
                            assert(it.seq()[j] == it.seq()[i]);
                        }
                    }
                    seen = seen.insert(*kv.0);
                }
                n = n + 1;
            }
            assert(seen =~= Set::new(
                |k: u64|
                    exists|j: int|
                        0 <= j < i + 1 && *it.seq()[j].0 == k && (*it.seq()[j].1).kind() == kind,
            )) by {
                assert forall|k: u64|
                    (exists|j: int|
                        0 <= j < i + 1 && *it.seq()[j].0 == k && (*it.seq()[j].1).kind() == kind)
                    implies seen.contains(k) by {
                    let j = choose|j: int|
                        0 <= j < i + 1 && *it.seq()[j].0 == k && (*it.seq()[j].1).kind() == kind;
                    if j == i {
                        assert(it.seq()[j] == kv);
                    }
                }
            }
            assert forall|g: u64|
                i + 1 == it.seq().len() && #[trigger] gates_of_kind(self.gates@, kind).contains(g) implies seen.contains(g) by {
                assert(it.seq().contains((&g, &self.gates@[g])));
                let j = choose|j: int| 0 <= j < it.seq().len() && it.seq()[j] == (&g, &self.gates@[g]);
                assert(*it.seq()[j].0 == g);
            }
            assert(i + 1 == it.seq().len() ==> seen =~= gates_of_kind(self.gates@, kind));
        }
        n
    }

    /// The wires that some gate reads and no gate drives, ascending.
    pub fn collect_top_level_gates_ids(&self) -> (r: Vec<u64>)
        ensures
            strictly_increasing(r@),
            r@.to_set() == top_level_wires(self.gate_map()),
    {
        let mut ids: Vec<u64> = Vec::new();
        for kv in it: self.gates.iter()
            invariant
                strictly_increasing(ids@),
                ids@.to_set() == Set::new(
                    |w: u64|
                        !self.gates@.contains_key(w) && exists|j: int|
                            0 <= j < it.index() && (*it.seq()[j].1).reads(w),
                ),
                forall|j: int|
                    0 <= j < it.seq().len() ==> self.gates@.contains_key(*it.seq()[j].0)
                        && self.gates@[*it.seq()[j].0] == *it.seq()[j].1,
                forall|k: u64| self.gates@.contains_key(k) ==> it.seq().contains((&k, &self.gates@[k])),
                it.index() == it.seq().len() ==> ids@.to_set() == top_level_wires(self.gates@),
        {
            let ghost i = it.index();
            let ghost before = ids@.to_set();
            let (a, b) = kv.1.inputs();
            if !self.gates.contains_key(&a) {
                insert_sorted(&mut ids, a);
            }
            match b {
                Some(b) => {
                    if !self.gates.contains_key(&b) {
                        insert_sorted(&mut ids, b);
                    }
                },
                None => {},
            }
            let ghost now = Set::new(
                |w: u64|
                    !self.gates@.contains_key(w) && exists|j: int| 0 <= j < i + 1 && (*it.seq()[j].1).reads(w),
            );
            assert(ids@.to_set() =~= now) by {
                assert forall|w: u64| now.contains(w) implies ids@.to_set().contains(w) by {
                    let j = choose|j: int| 0 <= j < i + 1 && (*it.seq()[j].1).reads(w);
                    if j == i {
                        assert(it.seq()[j] == kv);
                    } else {
                        assert(before.contains(w));
                    }
                }
                assert forall|w: u64| ids@.to_set().contains(w) implies now.contains(w) by {
                    if !before.contains(w) {
                        assert(it.seq()[i] == kv);
                    }
                }
            }
            assert forall|w: u64|
                i + 1 == it.seq().len() && #[trigger] top_level_wires(self.gates@).contains(w)
                implies ids@.to_set().contains(w) by {
                let g = choose|g: u64| self.gates@.contains_key(g) && #[trigger] self.gates@[g].reads(w);
                assert(it.seq().contains((&g, &self.gates@[g])));
                let j = choose|j: int| 0 <= j < it.seq().len() && it.seq()[j] == (&g, &self.gates@[g]);
                assert((*it.seq()[j].1).reads(w));
            }
            assert forall|w: u64|
                i + 1 == it.seq().len() && ids@.to_set().contains(w)
                implies #[trigger] top_level_wires(self.gates@).contains(w) by {
                let j = choose|j: int| 0 <= j < i + 1 && (*it.seq()[j].1).reads(w);
                let g = *it.seq()[j].0;
                assert(self.gates@.contains_key(g) && self.gates@[g].reads(w));
            }
            assert(i + 1 == it.seq().len() ==> ids@.to_set() =~= top_level_wires(self.gates@));
        }
        ids
    }

    /// The circuit's one-line summary, such as
    /// `<Circuit id=0 and=1 inv=1 nand=1 xor=1>`.
    pub fn summary(&self) -> (r: String)
        ensures
            r@ == summary_text(
                self.id() as nat,
                kind_count(self.gate_map(), GateKind::And),
                kind_count(self.gate_map(), GateKind::Inv),
                kind_count(self.gate_map(), GateKind::Nand),
                kind_count(self.gate_map(), GateKind::Xor),
            ),
    {
        let and = self.count_gates(GateKind::And);
        let inv = self.count_gates(GateKind::Inv);
        let nand = self.count_gates(GateKind::Nand);
        let xor = self.count_gates(GateKind::Xor);
        let mut s = String::new();
        s.append("<Circuit id=");
        push_decimal(&mut s, self.circuit_id);
        s.append(" and=");
        push_decimal(&mut s, and as u64);
        s.append(" inv=");
        push_decimal(&mut s, inv as u64);
        s.append(" nand=");
        push_decimal(&mut s, nand as u64);
        s.append(" xor=");
        push_decimal(&mut s, xor as u64);
        s.append(">");
        s
    }

    /// The commitment preimages of those wires of `gates_ids` that have one,
    /// by wire.
    pub fn collect_gates_bit_commitments_preimages(&self, gates_ids: &Vec<u64>) -> (r: BTreeMap<
        u64,
        BitCommitmentPreimages,
    >)
        ensures
            r@ == self.commitments().restrict(gates_ids@.to_set()),
    {
        let mut collected: BTreeMap<u64, BitCommitmentPreimages> = BTreeMap::new();
        let mut i: usize = 0;
        while i < gates_ids.len()
            invariant
                i <= gates_ids.len(),
                collected@ == self.commitments().restrict(gates_ids@.subrange(0, i as int).to_set()),
            decreases gates_ids.len() - i,
        {
            let id = gates_ids[i];
            let ghost before = collected@;
            match self.gates_bit_commitments_preimages.get(&id) {
                Some(p) => {
                    collected.insert(id, p.clone());
                },
                None => {},
            }
            assert(gates_ids@.subrange(0, i + 1) == gates_ids@.subrange(0, i as int).push(id));
            proof { gates_ids@.subrange(0, i as int).lemma_push_to_set_commute(id); }
            assert(collected@ =~= self.commitments().restrict(gates_ids@.subrange(0, i + 1).to_set()));
            i = i + 1;
        }
        assert(gates_ids@.subrange(0, i as int) == gates_ids@);
        collected
    }

    /// The commitment preimages of the gates that read some wire of
    /// `gates_ids`, by gate.
    pub fn collect_subsequent_gates_bit_commitments_preimages(&self, gates_ids: &Vec<u64>) -> (r:
        BTreeMap<u64, BitCommitmentPreimages>)
        requires
            self.wf(),
        ensures
            r@ == self.commitments().restrict(subsequent_gates(self.gate_map(), gates_ids@)),
    {
        let mut collected: BTreeMap<u64, BitCommitmentPreimages> = BTreeMap::new();
        let mut i: usize = 0;
        while i < gates_ids.len()
            invariant
                self.wf(),
                i <= gates_ids.len(),
                collected@ == self.commitments().restrict(
                    subsequent_gates(self.gate_map(), gates_ids@.subrange(0, i as int)),
                ),
            decreases gates_ids.len() - i,
        {
            let id = gates_ids[i];
            let readers = self.consumers(id);
            let ghost start = collected@;
            let mut j: usize = 0;
            while j < readers.len()
                invariant
                    self.wf(),
                    j <= readers.len(),
                    start == self.commitments().restrict(
                        subsequent_gates(self.gate_map(), gates_ids@.subrange(0, i as int)),
                    ),
                    collected@ == self.commitments().restrict(
                        subsequent_gates(self.gate_map(), gates_ids@.subrange(0, i as int)).union(
                            readers@.subrange(0, j as int).to_set(),
                        ),
                    ),
                decreases readers.len() - j,
            {
                let g = readers[j];
                match self.gates_bit_commitments_preimages.get(&g) {
                    Some(p) => {
                        collected.insert(g, p.clone());
                    },
                    None => {},
                }
                assert(readers@.subrange(0, j + 1) == readers@.subrange(0, j as int).push(g));
                proof { readers@.subrange(0, j as int).lemma_push_to_set_commute(g); }
                assert(collected@ =~= self.commitments().restrict(
                    subsequent_gates(self.gate_map(), gates_ids@.subrange(0, i as int)).union(
                        readers@.subrange(0, j + 1).to_set(),
                    ),
                ));
                j = j + 1;
            }
            assert(readers@.subrange(0, j as int) == readers@);
            assert(gates_ids@.subrange(0, i + 1) == gates_ids@.subrange(0, i as int).push(id));
            assert(subsequent_gates(self.gate_map(), gates_ids@.subrange(0, i + 1)) =~= subsequent_gates(
                self.gate_map(),
                gates_ids@.subrange(0, i as int),
            ).union(readers@.to_set())) by {
                assert(readers@.to_set() == consumers(self.gate_map(), id));
                let next = gates_ids@.subrange(0, i + 1);
                let prev = gates_ids@.subrange(0, i as int);
                assert forall|g: u64| #[trigger]
                    subsequent_gates(self.gate_map(), next).contains(g) implies subsequent_gates(
                    self.gate_map(),
                    prev,
                ).union(readers@.to_set()).contains(g) by {
                    let w = choose|w: u64| next.contains(w) && #[trigger] consumers(self.gate_map(), w).contains(g);
                    if w != id {
                        let k = choose|k: int| 0 <= k < next.len() && next[k] == w;
                        assert(prev[k] == w);
                    }
                }
                assert forall|g: u64| #[trigger]
                    subsequent_gates(self.gate_map(), prev).contains(g) implies subsequent_gates(
                    self.gate_map(),
                    next,
                ).contains(g) by {
                    let w = choose|w: u64| prev.contains(w) && #[trigger] consumers(self.gate_map(), w).contains(g);
                    let k = choose|k: int| 0 <= k < prev.len() && prev[k] == w;
                    assert(next[k] == w);
                }
                assert(next[i as int] == id);
            }
            i = i + 1;
        }
        assert(gates_ids@.subrange(0, i as int) == gates_ids@);
        collected
    }

    /// The commitment digests of the given preimages, by the same keys.
    pub fn compute_bit_commitments_hashes(
        &self,
        preimages: &BTreeMap<u64, BitCommitmentPreimages>,
    ) -> (r: BTreeMap<u64, BitCommitmentHashes>)
        ensures
            r@.dom() == preimages@.dom(),
            forall|k: u64| #[trigger] r@.contains_key(k) ==> commits_to(r@[k], preimages@[k]),
    {
        let mut hashes: BTreeMap<u64, BitCommitmentHashes> = BTreeMap::new();
        for kv in it: preimages.iter()
            invariant
                hashes@.dom() == Set::new(|k: u64| exists|j: int| 0 <= j < it.index() && *it.seq()[j].0 == k),
                forall|k: u64| #[trigger] hashes@.contains_key(k) ==> commits_to(hashes@[k], preimages@[k]),
                forall|j: int|
                    0 <= j < it.seq().len() ==> preimages@.contains_key(*it.seq()[j].0)
                        && preimages@[*it.seq()[j].0] == *it.seq()[j].1,
                forall|k: u64| preimages@.contains_key(k) ==> it.seq().contains((&k, &preimages@[k])),
                it.index() == it.seq().len() ==> hashes@.dom() == preimages@.dom(),
        {
            let ghost i = it.index();
            let h = kv.1.compute_bit_commitment_hashes();
            hashes.insert(*kv.0, h);
            assert(it.seq()[i] == kv);
            assert(hashes@.dom() =~= Set::new(|k: u64| exists|j: int| 0 <= j < i + 1 && *it.seq()[j].0 == k)) by {
                assert forall|k: u64| (exists|j: int| 0 <= j < i + 1 && *it.seq()[j].0 == k) implies hashes@.contains_key(k) by {
                    let j = choose|j: int| 0 <= j < i + 1 && *it.seq()[j].0 == k;
                    if j < i {
                        assert(exists|j: int| 0 <= j < i && *it.seq()[j].0 == k);
                    }
                }
            }
            assert forall|k: u64| i + 1 == it.seq().len() && #[trigger] preimages@.contains_key(k) implies hashes@.contains_key(k) by {
                assert(it.seq().contains((&k, &preimages@[k])));
                let j = choose|j: int| 0 <= j < it.seq().len() && it.seq()[j] == (&k, &preimages@[k]);
                assert(*it.seq()[j].0 == k);
            }
            assert(i + 1 == it.seq().len() ==> hashes@.dom() =~= preimages@.dom());
        }
        hashes
    }

    /// The gates that read some wire of `gates_ids`, ascending.
    pub fn collect_subsequent_gates_ids(&self, gates_ids: &Vec<u64>) -> (r: Vec<u64>)
        requires
            self.wf(),
        ensures
            strictly_increasing(r@),
            r@.to_set() == subsequent_gates(self.gate_map(), gates_ids@),
    {
        let mut out: Vec<u64> = Vec::new();
        let mut i: usize = 0;
        while i < gates_ids.len()
            invariant
                self.wf(),
                i <= gates_ids.len(),
                strictly_increasing(out@),
                out@.to_set() == subsequent_gates(self.gate_map(), gates_ids@.subrange(0, i as int)),
            decreases gates_ids.len() - i,
        {
            let id = gates_ids[i];
            let readers = self.consumers(id);
            let ghost start = out@.to_set();
            let mut j: usize = 0;
            while j < readers.len()
                invariant
                    j <= readers.len(),
                    strictly_increasing(out@),
                    out@.to_set() == start.union(readers@.subrange(0, j as int).to_set()),
                decreases readers.len() - j,
            {
                insert_sorted(&mut out, readers[j]);
                proof {
                    readers@.subrange(0, j as int).lemma_push_to_set_commute(readers@[j as int]);
                }
                assert(readers@.subrange(0, j + 1) == readers@.subrange(0, j as int).push(readers@[j as int]));
                assert(out@.to_set() =~= start.union(readers@.subrange(0, j + 1).to_set()));
                j = j + 1;
            }
            assert(readers@.subrange(0, j as int) == readers@);
            let ghost next = gates_ids@.subrange(0, i + 1);
            let ghost prev = gates_ids@.subrange(0, i as int);
            assert(next == prev.push(id));
            assert(subsequent_gates(self.gate_map(), next) =~= subsequent_gates(self.gate_map(), prev).union(
                readers@.to_set(),
            )) by {
                assert(readers@.to_set() == consumers(self.gate_map(), id));
                assert forall|g: u64| #[trigger]
                    subsequent_gates(self.gate_map(), next).contains(g) implies subsequent_gates(
                    self.gate_map(),
                    prev,
                ).union(readers@.to_set()).contains(g) by {
                    let w = choose|w: u64| next.contains(w) && #[trigger] consumers(self.gate_map(), w).contains(g);
                    if w != id {
                        let k = choose|k: int| 0 <= k < next.len() && next[k] == w;
                        assert(prev[k] == w);
                    }
                }
                assert forall|g: u64| #[trigger]
                    subsequent_gates(self.gate_map(), prev).contains(g) implies subsequent_gates(
                    self.gate_map(),
                    next,
                ).contains(g) by {
                    let w = choose|w: u64| prev.contains(w) && #[trigger] consumers(self.gate_map(), w).contains(g);
                    let k = choose|k: int| 0 <= k < prev.len() && prev[k] == w;
                    assert(next[k] == w);
                }
                assert(next[i as int] == id);
            }
            i = i + 1;
        }
        assert(gates_ids@.subrange(0, i as int) == gates_ids@);
        out
    }

    /// The identifiers of all gates, ascending.
    pub fn gate_ids(&self) -> (r: Vec<u64>)
        ensures
            strictly_increasing(r@),
            r@.to_set() == self.gate_map().dom(),
    {
        let mut ids: Vec<u64> = Vec::new();
        for kv in it: self.gates.iter()
            invariant
                strictly_increasing(ids@),
                ids@.to_set() == Set::new(|k: u64| exists|j: int| 0 <= j < it.index() && *it.seq()[j].0 == k),
                forall|j: int| 0 <= j < it.seq().len() ==> self.gates@.contains_key(*it.seq()[j].0),
                forall|k: u64| self.gates@.contains_key(k) ==> it.seq().contains((&k, &self.gates@[k])),
                it.index() == it.seq().len() ==> ids@.to_set() == self.gates@.dom(),
        {
            let ghost i = it.index();
            let ghost before = ids@.to_set();
            insert_sorted(&mut ids, *kv.0);
            assert(it.seq()[i] == kv);
            assert(ids@.to_set() =~= Set::new(|k: u64| exists|j: int| 0 <= j < i + 1 && *it.seq()[j].0 == k)) by {
                assert forall|k: u64| (exists|j: int| 0 <= j < i + 1 && *it.seq()[j].0 == k) implies ids@.to_set().contains(k) by {
                    let j = choose|j: int| 0 <= j < i + 1 && *it.seq()[j].0 == k;
                    if j < i {
                        assert(before.contains(k));
                    }
                }
            }
            assert forall|k: u64| i + 1 == it.seq().len() && #[trigger] self.gates@.contains_key(k) implies ids@.to_set().contains(k) by {
                assert(it.seq().contains((&k, &self.gates@[k])));
                let j = choose|j: int| 0 <= j < it.seq().len() && it.seq()[j] == (&k, &self.gates@[k]);
                assert(*it.seq()[j].0 == k);
            }
            assert forall|k: u64| i + 1 == it.seq().len() && ids@.to_set().contains(k) implies #[trigger] self.gates@.contains_key(k) by {
                let j = choose|j: int| 0 <= j < i + 1 && *it.seq()[j].0 == k;
            }
            assert(i + 1 == it.seq().len() ==> ids@.to_set() =~= self.gates@.dom());
        }
        ids
    }
}

} // verus!
