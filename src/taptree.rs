use crate::error::BitvmError;
use crate::script::script_bytes;
use bitcoin::bip32::{ChildNumber, ExtendedPrivKey};
use bitcoin::secp256k1::{Secp256k1, XOnlyPublicKey};
use bitcoin::taproot::{ControlBlock, LeafVersion, TaprootBuilder, TaprootSpendInfo};
use bitcoin::ScriptBuf;
use vstd::arithmetic::power2::pow2;
use vstd::multiset::Multiset;
use vstd::prelude::*;

verus! {

#[verifier::external_type_specification]
#[verifier::external_body]
pub struct ExTaprootBuilder(TaprootBuilder);

#[verifier::external_type_specification]
#[verifier::external_body]
pub struct ExTaprootSpendInfo(TaprootSpendInfo);

/// Whether `proof`, a serialized control block, proves that the tapscript
/// leaf `script` is committed to by the x-only output key `output_key`.
pub uninterp spec fn taproot_commitment_holds(proof: Seq<u8>, output_key: Seq<u8>, script: Seq<u8>) -> bool;

/// The x-only public key derived by BIP 32 from `seed` along `path`
/// (indices from 2^31 on are hardened).
pub uninterp spec fn bip32_xonly_key(seed: Seq<u8>, path: Seq<u32>) -> Seq<u8>;

/// Relies on `Clone` for bitcoin's `ScriptBuf`: the copy holds the same bytes.
#[verifier::external_body]
fn clone_script(s: &ScriptBuf) -> (r: ScriptBuf)
    ensures
        script_bytes(r) == script_bytes(*s),
{
    s.clone()
}

/// The leaves a taproot builder holds, each with its depth, as a multiset:
/// the builder orders sibling nodes by hash, not by insertion.
pub uninterp spec fn tap_builder_leaves(b: TaprootBuilder) -> Multiset<(u8, Seq<u8>)>;

/// The tree a taproot builder holds, as an abstract value (its nodes).
pub uninterp spec fn tap_tree(b: TaprootBuilder) -> Seq<u8>;

/// The tree `t` after inserting the tapscript leaf `script` at `depth`.
/// Nothing is said of how the leaves are ordered in it.
pub uninterp spec fn tap_tree_inserted(t: Seq<u8>, depth: u8, script: Seq<u8>) -> Seq<u8>;

/// The leaves of a finalized taproot tree, each with its depth.
pub uninterp spec fn spend_info_leaves(info: TaprootSpendInfo) -> Multiset<(u8, Seq<u8>)>;

/// The tree a finalized taproot tree was built from, as `tap_tree` gives it.
pub uninterp spec fn spend_info_tree(info: TaprootSpendInfo) -> Seq<u8>;

/// The internal key a taproot tree was finalized under.
pub uninterp spec fn spend_info_internal_key(info: TaprootSpendInfo) -> Seq<u8>;

/// Whether `k` parses as an x-only public key.
pub uninterp spec fn xonly_key_valid(k: Seq<u8>) -> bool;

/// The x-only output key of the tree `tree` under internal key `key`.
pub uninterp spec fn taproot_output_key(tree: Seq<u8>, key: Seq<u8>) -> Seq<u8>;

/// The serialized control block of the tapscript leaf `script` in the tree
/// `tree` under internal key `key`.
pub uninterp spec fn taproot_proof(tree: Seq<u8>, key: Seq<u8>, script: Seq<u8>) -> Seq<u8>;

/// Whether every leaf lies at depth `d`.
pub open spec fn at_depth(leaves: Multiset<(u8, Seq<u8>)>, d: u8) -> bool {
    forall|x: (u8, Seq<u8>)| #[trigger] leaves.contains(x) ==> x.0 == d
}

/// Relies on bitcoin's `TaprootBuilder::new`: a builder with no leaves.
#[verifier::external_body]
fn new_tap_builder() -> (r: TaprootBuilder)
    ensures
        tap_builder_leaves(r) == Multiset::<(u8, Seq<u8>)>::empty(),
        tap_tree(r) == Seq::<u8>::empty(),
{
    TaprootBuilder::new()
}

/// Relies on bitcoin's `TaprootBuilder::add_leaf` (`insert`): a depth over
/// 128 is refused; with every leaf so far at `depth`, a leaf at `depth` is
/// accepted while fewer than 2^depth leaves were added (the tree is not
/// yet complete); an accepted leaf joins the builder's leaves.
#[verifier::external_body]
fn tap_add_leaf(b: TaprootBuilder, depth: u8, script: ScriptBuf) -> (r: Option<TaprootBuilder>)
    ensures
        depth > 128 ==> r is None,
        depth <= 128 && at_depth(tap_builder_leaves(b), depth) && tap_builder_leaves(b).len() < pow2(
            depth as nat,
        ) ==> r is Some,
        r matches Some(nb) ==> tap_builder_leaves(nb) == tap_builder_leaves(b).insert(
            (depth, script_bytes(script)),
        ) && tap_tree(nb) == tap_tree_inserted(tap_tree(b), depth, script_bytes(script)),
{
    b.add_leaf(depth, script).ok()
}

/// Relies on bitcoin's `XOnlyPublicKey::from_slice` and
/// `TaprootBuilder::finalize`: a complete tree (2^d leaves all at depth d)
/// finalizes exactly when the internal key parses. `finalize` panics only
/// if tweaking the key fails, which takes a hash collision with the curve
/// order (negligible).
#[verifier::external_body]
fn tap_finalize(b: TaprootBuilder, internal_key: &[u8; 32]) -> (r: Option<TaprootSpendInfo>)
    ensures
        forall|d: u8|
            #![trigger at_depth(tap_builder_leaves(b), d)]
            tap_builder_leaves(b).len() > 0 && at_depth(tap_builder_leaves(b), d)
                && tap_builder_leaves(b).len() == pow2(d as nat) ==> (r is Some <==> xonly_key_valid(
                internal_key@,
            )),
        r matches Some(info) ==> spend_info_leaves(info) == tap_builder_leaves(b) && spend_info_tree(
            info,
        ) == tap_tree(b) && spend_info_internal_key(info) == internal_key@,
{
    let key = XOnlyPublicKey::from_slice(internal_key).ok()?;
    b.finalize(&Secp256k1::verification_only(), key).ok()
}

/// Relies on bitcoin's `TaprootSpendInfo::output_key`: its x-only bytes.
#[verifier::external_body]
fn tap_output_key(info: &TaprootSpendInfo) -> (r: [u8; 32])
    ensures
        r@ == taproot_output_key(spend_info_tree(*info), spend_info_internal_key(*info)),
{
    info.output_key().serialize()
}

/// Relies on bitcoin's `TaprootSpendInfo::control_block` (tapscript leaf
/// version) and `ControlBlock::serialize`: every script of the tree has one,
/// of 33 bytes plus 32 per merkle-path hash, one hash per level when all
/// leaves lie at one depth.
#[verifier::external_body]
fn tap_control_block(info: &TaprootSpendInfo, script: &ScriptBuf) -> (r: Option<Vec<u8>>)
    ensures
        forall|d: u8|
            #![trigger spend_info_leaves(*info).contains((d, script_bytes(*script)))]
            spend_info_leaves(*info).contains((d, script_bytes(*script))) ==> r is Some,
        forall|d: u8|
            #![trigger at_depth(spend_info_leaves(*info), d)]
            at_depth(spend_info_leaves(*info), d) && r is Some ==> r->Some_0@.len() == 33 + 32 * d,
        r matches Some(p) ==> p@ == taproot_proof(
            spend_info_tree(*info),
            spend_info_internal_key(*info),
            script_bytes(*script),
        ),
{
    info.control_block(&(script.clone(), LeafVersion::TapScript)).map(|cb| cb.serialize())
}

/// Relies on bitcoin's `ControlBlock::decode`, `XOnlyPublicKey::from_slice`
/// and `ControlBlock::verify_taproot_commitment`.
#[verifier::external_body]
fn tap_verify(proof: &Vec<u8>, output_key: &[u8; 32], script: &ScriptBuf) -> (r: bool)
    ensures
        r == taproot_commitment_holds(proof@, output_key@, script_bytes(*script)),
{
    match (ControlBlock::decode(proof), XOnlyPublicKey::from_slice(output_key)) {
        (Ok(cb), Ok(key)) => cb.verify_taproot_commitment(&Secp256k1::verification_only(), key, script),
        _ => false,
    }
}

/// Whether BIP 32 accepts `seed` as a master seed: the first half of its
/// HMAC-SHA512 is a valid secret key.
pub uninterp spec fn bip32_seed_valid(seed: Seq<u8>) -> bool;

/// Relies on bitcoin's `ExtendedPrivKey::new_master` (which fails exactly
/// when the seed gives no valid secret key), `derive_priv` (which never
/// fails; each step adds one to a `u8` depth, hence at most 255 steps),
/// `ChildNumber::from`, and the x-only public key of the derived key pair.
#[verifier::external_body]
fn derive_xonly(seed: &[u8], path: &[u32]) -> (r: Option<[u8; 32]>)
    requires
        path@.len() <= 255,
    ensures
        r is Some <==> bip32_seed_valid(seed@),
        r matches Some(k) ==> k@ == bip32_xonly_key(seed@, path@),
{
    let secp = Secp256k1::new();
    let master = ExtendedPrivKey::new_master(bitcoin::Network::Regtest, seed).ok()?;
    let path: Vec<ChildNumber> = path.iter().map(|i| ChildNumber::from(*i)).collect();
    let child = master.derive_priv(&secp, &path).ok()?;
    Some(child.to_keypair(&secp).x_only_public_key().0.serialize())
}

/// The internal key of a commitment tree, derived from `seed` along `path`
/// (at most 255 steps).
pub fn internal_key_from_seed(seed: &[u8], path: &[u32]) -> (r: Result<[u8; 32], BitvmError>)
    ensures
        (r is Ok) <==> (path@.len() <= 255 && bip32_seed_valid(seed@)),
        match r {
            Ok(k) => k@ == bip32_xonly_key(seed@, path@),
            Err(e) => e is KeyDerivationError,
        },
{
    if path.len() > 255 {
        return Err(BitvmError::KeyDerivationError);
    }
    match derive_xonly(seed, path) {
        Some(k) => Ok(k),
        None => Err(BitvmError::KeyDerivationError),
    }
}

/// The depth given to every leaf of a tree of `n` leaves: 1, plus one for
/// each halving of `n` down to 1.
pub open spec fn tree_depth(n: nat) -> nat
    decreases n,
{
    if n <= 1 {
        1
    } else {
        1 + tree_depth(n / 2)
    }
}

/// The depth of a tree of `leaf_count` leaves.
pub fn leaf_depth(leaf_count: usize) -> (r: u8)
    ensures
        r == tree_depth(leaf_count as nat),
{
    let mut depth: u8 = 1;
    let mut breadth: usize = leaf_count;
    proof {
        lemma_tree_depth_bound(leaf_count as nat);
    }
    while breadth > 1
        invariant
            1 <= depth,
            depth + tree_depth(breadth as nat) == 1 + tree_depth(leaf_count as nat),
            tree_depth(breadth as nat) + depth <= 66,
        decreases breadth,
    {
        proof {
            lemma_tree_depth_bound(leaf_count as nat);
        }
        breadth = breadth / 2;
        depth = depth + 1;
    }
    depth
}

/// The depth of a tree of `n` leaves is at most 65 (for `n` below 2^64).
proof fn lemma_tree_depth_bound(n: nat)
    requires
        n <= usize::MAX,
    ensures
        tree_depth(n) <= 65,
{
    lemma_tree_depth_bounds(n);
    if n >= 1 && tree_depth(n) > 65 {
        vstd::arithmetic::power2::lemma_pow2_strictly_increases(64, (tree_depth(n) - 1) as nat);
        vstd::arithmetic::power2::lemma2_to64();
    }
}

/// The depth-selection rule: `n` leaves, `n >= 1`, get the depth `d` with
/// `2^(d-1) <= n < 2^d`, so 1 gives 1, 2 and 3 give 2, 4 to 7 give 3 and 8
/// to 15 give 4.
pub proof fn lemma_tree_depth_bounds(n: nat)
    ensures
        n >= 1 ==> pow2((tree_depth(n) - 1) as nat) <= n < pow2(tree_depth(n)),
    decreases n,
{
    vstd::arithmetic::power2::lemma2_to64();
    if n > 1 {
        lemma_tree_depth_bounds(n / 2);
        let d = tree_depth(n / 2);
        assert(d >= 1);
        vstd::arithmetic::power2::lemma_pow2_unfold(d);
        vstd::arithmetic::power2::lemma_pow2_unfold(d + 1);
        assert(tree_depth(n) == d + 1);
    }
}

/// An assembled commitment tree: its output key, the depth of its leaves,
/// its leaves and, for each leaf, its inclusion proof (a serialized control
/// block).
#[derive(Debug)]
pub struct CommitmentTree {
    pub output_key: [u8; 32],
    pub depth: u8,
    pub leaves: Vec<ScriptBuf>,
    pub proofs: Vec<Vec<u8>>,
}

/// Whether every leaf of `t` has a proof that verifies against its output key.
pub open spec fn all_proofs_verify(t: CommitmentTree) -> bool {
    &&& t.proofs@.len() == t.leaves@.len()
    &&& forall|i: int|
        0 <= i < t.leaves@.len() ==> taproot_commitment_holds(
            (#[trigger] t.proofs@[i])@,
            t.output_key@,
            script_bytes(t.leaves@[i]),
        )
}

/// The tree a builder holds after `scripts` were inserted in order, all
/// at depth `d`.
pub open spec fn tree_of(scripts: Seq<Seq<u8>>, d: nat) -> Seq<u8>
    decreases scripts.len(),
{
    if scripts.len() == 0 {
        Seq::empty()
    } else {
        tap_tree_inserted(tree_of(scripts.drop_last(), d), d as u8, scripts.last())
    }
}

/// The leaves of `scripts`, all at depth `d`, as a multiset.
pub open spec fn leaves_of(scripts: Seq<Seq<u8>>, d: nat) -> Multiset<(u8, Seq<u8>)>
    decreases scripts.len(),
{
    if scripts.len() == 0 {
        Multiset::empty()
    } else {
        leaves_of(scripts.drop_last(), d).insert((d as u8, scripts.last()))
    }
}

/// The leaves of `scripts` are `scripts.len()` leaves at depth `d`, among
/// them each script.
proof fn lemma_leaves_of(scripts: Seq<Seq<u8>>, d: nat)
    ensures
        leaves_of(scripts, d).len() == scripts.len(),
        at_depth(leaves_of(scripts, d), d as u8),
        forall|i: int| 0 <= i < scripts.len() ==> leaves_of(scripts, d).contains((d as u8, #[trigger] scripts[i])),
    decreases scripts.len(),
{
    broadcast use vstd::multiset::group_multiset_axioms;

    if scripts.len() > 0 {
        let prev = scripts.drop_last();
        lemma_leaves_of(prev, d);
        let m = leaves_of(prev, d);
        assert forall|x: (u8, Seq<u8>)| #[trigger] leaves_of(scripts, d).contains(x) implies x.0 == d as u8 by {
            if x != (d as u8, scripts.last()) {
                assert(m.contains(x));
            }
        }
        assert forall|i: int| 0 <= i < scripts.len() implies leaves_of(scripts, d).contains(
            (d as u8, #[trigger] scripts[i]),
        ) by {
            if i < scripts.len() - 1 {
                assert(scripts[i] == prev[i]);
                assert(m.contains((d as u8, prev[i])));
            }
        }
    }
}

/// Whether the tree of `scripts` at depth `d` under `key` can be built and
/// proven: exactly 2^d scripts, a valid internal key, and every script's
/// control block verifying against the output key.
pub open spec fn tree_commits(scripts: Seq<Seq<u8>>, d: nat, key: Seq<u8>) -> bool {
    &&& scripts.len() == pow2(d)
    &&& xonly_key_valid(key)
    &&& forall|i: int|
        0 <= i < scripts.len() ==> taproot_commitment_holds(
            taproot_proof(tree_of(scripts, d), key, #[trigger] scripts[i]),
            taproot_output_key(tree_of(scripts, d), key),
            scripts[i],
        )
}

/// The bytes of each script.
pub open spec fn bytes_of(scripts: Seq<ScriptBuf>) -> Seq<Seq<u8>> {
    scripts.map_values(|s: ScriptBuf| script_bytes(s))
}

/// Commits to `leaves` followed by `auxiliary`, all at the depth that
/// `leaves` alone call for, under `internal_key`, then proves each leaf's
/// inclusion and checks every proof against the output key. It succeeds
/// exactly when the leaves fill that depth (2^d of them), the key is valid
/// and every proof verifies; the output key and proofs are then those of
/// that tree.
pub fn assemble_commitment_tree(
    leaves: Vec<ScriptBuf>,
    auxiliary: Vec<ScriptBuf>,
    internal_key: &[u8; 32],
) -> (r: Result<CommitmentTree, BitvmError>)
    ensures
        ({
            let scripts = bytes_of(leaves@ + auxiliary@);
            let d = tree_depth(leaves@.len());
            &&& (r is Ok) <==> tree_commits(scripts, d, internal_key@)
            &&& match r {
                Ok(t) => {
                    &&& t.depth == d
                    &&& t.leaves@ == leaves@ + auxiliary@
                    &&& t.output_key@ == taproot_output_key(tree_of(scripts, d), internal_key@)
                    &&& forall|i: int|
                        0 <= i < scripts.len() ==> (#[trigger] t.proofs@[i])@ == taproot_proof(
                            tree_of(scripts, d),
                            internal_key@,
                            scripts[i],
                        ) && t.proofs@[i]@.len() == 33 + 32 * d
                    &&& all_proofs_verify(t)
                },
                Err(e) => e is TreeConstructionError,
            }
        }),
{
    let depth = leaf_depth(leaves.len());
    let mut all: Vec<ScriptBuf> = leaves;
    let mut aux = auxiliary;
    let ghost first = all@;
    let ghost second = aux@;
    all.append(&mut aux);
    let ghost scripts = bytes_of(all@);
    let ghost tree = tree_of(scripts, depth as nat);
    proof {
        lemma_tree_depth_bound(first.len());
        vstd::arithmetic::power2::lemma2_to64();
    }
    let mut capacity: u128 = 1;
    let mut k: u8 = 0;
    while k < depth
        invariant
            k <= depth,
            capacity == pow2(k as nat),
            depth == tree_depth(first.len()),
            depth <= 65,
        decreases depth - k,
    {
        proof {
            vstd::arithmetic::power2::lemma_pow2_unfold((k + 1) as nat);
            vstd::arithmetic::power2::lemma2_to64();
            if k < 64 {
                vstd::arithmetic::power2::lemma_pow2_strictly_increases(k as nat, 64);
            }
        }
        assert(capacity <= 0x1_0000_0000_0000_0000);
        capacity = capacity * 2;
        k = k + 1;
    }
    assert(scripts.len() == all@.len());
    if capacity != all.len() as u128 {
        return Err(BitvmError::TreeConstructionError);
    }
    let mut builder = new_tap_builder();
    let mut i: usize = 0;
    while i < all.len()
        invariant
            i <= all.len(),
            all.len() == pow2(depth as nat),
            depth <= 65,
            scripts == bytes_of(all@),
            tree == tree_of(scripts, depth as nat),
            tap_tree(builder) == tree_of(scripts.take(i as int), depth as nat),
            tap_builder_leaves(builder) == leaves_of(scripts.take(i as int), depth as nat),
        decreases all.len() - i,
    {
        let script = clone_script(&all[i]);
        proof {
            lemma_leaves_of(scripts.take(i as int), depth as nat);
        }
        builder = match tap_add_leaf(builder, depth, script) {
            Some(b) => b,
            None => {
                return Err(BitvmError::TreeConstructionError);
            },
        };
        assert(scripts.take(i + 1).drop_last() =~= scripts.take(i as int));
        assert(scripts.take(i + 1).last() == scripts[i as int]);
        i = i + 1;
    }
    assert(scripts.take(i as int) =~= scripts);
    proof {
        vstd::arithmetic::power2::lemma_pow2_pos(depth as nat);
        lemma_leaves_of(scripts, depth as nat);
    }
    let info = match tap_finalize(builder, internal_key) {
        Some(info) => info,
        None => {
            assert(at_depth(tap_builder_leaves(builder), depth));
            return Err(BitvmError::TreeConstructionError);
        },
    };
    assert(at_depth(tap_builder_leaves(builder), depth));
    assert(xonly_key_valid(internal_key@));
    let output_key = tap_output_key(&info);
    let mut proofs: Vec<Option<Vec<u8>>> = Vec::new();
    let mut j: usize = 0;
    while j < all.len()
        invariant
            j <= all.len(),
            proofs@.len() == j,
            scripts == bytes_of(all@),
            tree == tree_of(scripts, depth as nat),
            spend_info_tree(info) == tree,
            spend_info_leaves(info) == leaves_of(scripts, depth as nat),
            spend_info_internal_key(info) == internal_key@,
            at_depth(spend_info_leaves(info), depth),
            forall|m: int| 0 <= m < scripts.len() ==> spend_info_leaves(info).contains((depth, #[trigger] scripts[m])),
            forall|m: int|
                0 <= m < j ==> (#[trigger] proofs@[m]) is Some && proofs@[m]->Some_0@ == taproot_proof(
                    tree,
                    internal_key@,
                    scripts[m],
                ) && proofs@[m]->Some_0@.len() == 33 + 32 * depth,
        decreases all.len() - j,
    {
        assert(spend_info_leaves(info).contains((depth, scripts[j as int])));
        let p = tap_control_block(&info, &all[j]);
        proofs.push(p);
        j = j + 1;
    }
    let ghost leaves_all = all@;
    let r = finish_commitment_tree(output_key, depth, all, proofs);
    assert(proofs_hold(output_key, leaves_all, proofs@) <==> tree_commits(scripts, depth as nat, internal_key@)) by {
        assert forall|i: int| 0 <= i < leaves_all.len() implies script_bytes(leaves_all[i]) == scripts[i] by {}
        if proofs_hold(output_key, leaves_all, proofs@) {
            assert forall|i: int| 0 <= i < scripts.len() implies taproot_commitment_holds(
                taproot_proof(tree_of(scripts, depth as nat), internal_key@, #[trigger] scripts[i]),
                taproot_output_key(tree_of(scripts, depth as nat), internal_key@),
                scripts[i],
            ) by {
                assert(proofs@[i] is Some);
            }
        }
        if tree_commits(scripts, depth as nat, internal_key@) {
            assert forall|i: int| 0 <= i < leaves_all.len() implies (#[trigger] proofs@[i]) is Some
                && taproot_commitment_holds(proofs@[i]->Some_0@, output_key@, script_bytes(leaves_all[i])) by {
                assert(taproot_commitment_holds(
                    taproot_proof(tree_of(scripts, depth as nat), internal_key@, scripts[i]),
                    taproot_output_key(tree_of(scripts, depth as nat), internal_key@),
                    scripts[i],
                ));
            }
        }
    }
    r
}

/// Whether every leaf has a proof, and each verifies against `output_key`.
pub open spec fn proofs_hold(output_key: [u8; 32], leaves: Seq<ScriptBuf>, proofs: Seq<Option<Vec<u8>>>) -> bool {
    forall|i: int|
        0 <= i < leaves.len() ==> (#[trigger] proofs[i]) is Some && taproot_commitment_holds(
            proofs[i]->Some_0@,
            output_key@,
            script_bytes(leaves[i]),
        )
}

/// Checks the inclusion proof of every leaf against the output key and
/// gives the tree if all of them verify.
pub fn finish_commitment_tree(
    output_key: [u8; 32],
    depth: u8,
    leaves: Vec<ScriptBuf>,
    proofs: Vec<Option<Vec<u8>>>,
) -> (r: Result<CommitmentTree, BitvmError>)
    requires
        proofs@.len() == leaves@.len(),
    ensures
        (r is Ok) <==> proofs_hold(output_key, leaves@, proofs@),
        match r {
            Ok(t) => {
                &&& t.output_key == output_key
                &&& t.depth == depth
                &&& t.leaves@ == leaves@
                &&& forall|i: int|
                    0 <= i < leaves@.len() ==> (#[trigger] t.proofs@[i])@ == proofs@[i]->Some_0@
                &&& all_proofs_verify(t)
            },
            Err(e) => e is TreeConstructionError,
        },
{
    let mut checked: Vec<Vec<u8>> = Vec::new();
    let mut j: usize = 0;
    while j < leaves.len()
        invariant
            j <= leaves.len(),
            proofs@.len() == leaves@.len(),
            checked@.len() == j,
            forall|m: int| 0 <= m < j ==> (#[trigger] checked@[m])@ == proofs@[m]->Some_0@,
            proofs_hold(output_key, leaves@.take(j as int), proofs@),
        decreases leaves.len() - j,
    {
        let proof = match &proofs[j] {
            Some(p) => p.clone(),
            None => {
                return Err(BitvmError::TreeConstructionError);
            },
        };
        assert(proof@ == proofs@[j as int]->Some_0@);
        if !tap_verify(&proof, &output_key, &leaves[j]) {
            return Err(BitvmError::TreeConstructionError);
        }
        checked.push(proof);
        assert(proofs_hold(output_key, leaves@.take(j + 1), proofs@)) by {
            assert forall|i: int| 0 <= i < j + 1 implies leaves@.take(j + 1)[i] == leaves@[i] by {}
            assert forall|i: int| 0 <= i < j implies leaves@.take(j as int)[i] == leaves@[i] by {}
        }
        j = j + 1;
    }
    assert(leaves@.take(j as int) =~= leaves@);
    let t = CommitmentTree { output_key, depth, leaves, proofs: checked };
    assert forall|i: int| 0 <= i < t.leaves@.len() implies taproot_commitment_holds(
        (#[trigger] t.proofs@[i])@,
        t.output_key@,
        script_bytes(t.leaves@[i]),
    ) by {
        assert(t.proofs@[i]@ == proofs@[i]->Some_0@);
    }
    Ok(t)
}

} // verus!
