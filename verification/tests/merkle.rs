use merkle_proof::Digest;
use merkle_proof::VerifierContract;
use merkle_proof::combine;
use merkle_proof::merkle::verify;
use merkle_proof::merkle::verify_multi_proof;

/// A digest whose 32 bytes all hold `i`.
fn d(i: u8) -> Digest {
    Digest([i; 32])
}

/// The root of the four-leaf tree over `[L0, L1, L2, L3]`.
fn four_leaf_root(l0: Digest, l1: Digest, l2: Digest, l3: Digest) -> Digest {
    combine(combine(l0, l1), combine(l2, l3))
}

#[test]
fn combine_is_commutative() {
    let a = d(1);
    let b = d(2);
    assert!(combine(a, b).eq_bytes(&combine(b, a)));
    let x = d(0xff);
    let y = d(0);
    assert!(combine(x, y).eq_bytes(&combine(y, x)));
}

#[test]
fn combine_changes_its_input() {
    let z = d(0);
    let c = combine(z, z);
    assert!(!c.eq_bytes(&z));
    let a = d(7);
    let b = d(9);
    assert!(!combine(a, b).eq_bytes(&a));
    assert!(!combine(a, b).eq_bytes(&b));
}

#[test]
fn empty_proof_verifies_leaf_equals_root() {
    let leaf = d(5);
    assert!(verify(&vec![], leaf, leaf));
    assert!(!verify(&vec![], d(6), leaf));
}

#[test]
fn four_leaf_tree_single_proof() {
    let (l0, l1, l2, l3) = (d(0), d(1), d(2), d(3));
    let root = four_leaf_root(l0, l1, l2, l3);
    let h23 = combine(l2, l3);
    assert!(verify(&vec![l1, h23], root, l0));
    assert!(verify(&vec![l0, h23], root, l1));
    let h01 = combine(l0, l1);
    assert!(verify(&vec![l3, h01], root, l2));
    assert!(verify(&vec![l2, h01], root, l3));
}

#[test]
fn tampered_proof_is_rejected() {
    let (l0, l1, l2, l3) = (d(0), d(1), d(2), d(3));
    let root = four_leaf_root(l0, l1, l2, l3);
    let h23 = combine(l2, l3);
    assert!(verify(&vec![l1, h23], root, l0));
    // Replace the first sibling with another digest.
    assert!(!verify(&vec![d(9), h23], root, l0));
    // Mutate one byte of the second sibling.
    let mut bad = h23;
    bad.0[13] ^= 1;
    assert!(!verify(&vec![l1, bad], root, l0));
}

#[test]
fn accepted_proof_rejects_every_other_root() {
    let (l0, l1, l2, l3) = (d(0), d(1), d(2), d(3));
    let root = four_leaf_root(l0, l1, l2, l3);
    let proof = vec![l1, combine(l2, l3)];
    assert!(verify(&proof, root, l0));
    let mut other = root;
    other.0[0] ^= 0x80;
    assert!(!verify(&proof, other, l0));
}

#[test]
fn wrong_length_proof_returns_false_not_error() {
    let (l0, l1, l2, l3) = (d(0), d(1), d(2), d(3));
    let root = four_leaf_root(l0, l1, l2, l3);
    // Under-long and over-long proofs simply fail to reconstruct the root.
    assert!(!verify(&vec![l1], root, l0));
    assert!(!verify(&vec![l1, combine(l2, l3), d(8)], root, l0));
}

#[test]
fn multi_proof_degenerate_single_leaf() {
    let leaf = d(4);
    assert_eq!(verify_multi_proof(&vec![], &vec![], leaf, &vec![leaf]), Ok(true));
    assert_eq!(verify_multi_proof(&vec![], &vec![], d(5), &vec![leaf]), Ok(false));
}

#[test]
fn multi_proof_degenerate_single_entry() {
    let entry = d(4);
    assert_eq!(verify_multi_proof(&vec![entry], &vec![], entry, &vec![]), Ok(true));
    assert_eq!(verify_multi_proof(&vec![entry], &vec![], d(5), &vec![]), Ok(false));
}

#[test]
fn multi_proof_two_leaves() {
    let (l0, l1, l2, l3) = (d(0), d(1), d(2), d(3));
    let root = four_leaf_root(l0, l1, l2, l3);
    let h23 = combine(l2, l3);
    // Each leaf of the batch is provable on its own...
    assert!(verify(&vec![l1, h23], root, l0));
    assert!(verify(&vec![l0, h23], root, l1));
    // ...and the multi-proof combining them verifies too: combine the two
    // leaves with each other, then the result with the proof entry.
    let r = verify_multi_proof(&vec![h23], &vec![true, false], root, &vec![l0, l1]);
    assert_eq!(r, Ok(true));
}

#[test]
fn multi_proof_non_adjacent_leaves() {
    let (l0, l1, l2, l3) = (d(0), d(1), d(2), d(3));
    let root = four_leaf_root(l0, l1, l2, l3);
    // Prove {L0, L2}: combine L0 with L1 from the proof, L2 with L3 from
    // the proof, then the two results with each other.
    let r = verify_multi_proof(&vec![l1, l3], &vec![false, false, true], root, &vec![l0, l2]);
    assert_eq!(r, Ok(true));
    // The same multi-proof against a different root verifies false.
    let r = verify_multi_proof(&vec![l1, l3], &vec![false, false, true], d(9), &vec![l0, l2]);
    assert_eq!(r, Ok(false));
}

#[test]
fn multi_proof_matches_repeated_single_proof() {
    let (l0, l1, l2, l3) = (d(0), d(1), d(2), d(3));
    let root = four_leaf_root(l0, l1, l2, l3);
    let h23 = combine(l2, l3);
    // A one-leaf batch whose flags all take from the proof walks the same
    // sibling path as single-proof mode.
    let single = verify(&vec![l1, h23], root, l0);
    let multi = verify_multi_proof(&vec![l1, h23], &vec![false, false], root, &vec![l0]);
    assert_eq!(multi, Ok(single));
    assert!(single);
}

#[test]
fn multi_proof_bad_flag_count_is_malformed() {
    let (l0, l1) = (d(0), d(1));
    let root = combine(l0, l1);
    // One leaf and one proof entry need exactly one flag, not zero.
    assert!(verify_multi_proof(&vec![l1], &vec![], root, &vec![l0]).is_err());
    // Nor two.
    assert!(verify_multi_proof(&vec![l1], &vec![false, false], root, &vec![l0]).is_err());
    // Zero leaves and zero entries leave nothing to resolve.
    assert!(verify_multi_proof(&vec![], &vec![], root, &vec![]).is_err());
}

#[test]
fn multi_proof_queue_underflow_is_malformed() {
    let root = d(9);
    // Length invariant holds (0 + 2 == 1 + 1) but the single flag pops
    // from an empty queue.
    assert!(verify_multi_proof(&vec![d(1), d(2)], &vec![true], root, &vec![]).is_err());
}

#[test]
fn contract_entry_points() {
    let (l0, l1, l2, l3) = (d(0), d(1), d(2), d(3));
    let root = four_leaf_root(l0, l1, l2, l3);
    let h23 = combine(l2, l3);
    let contract = VerifierContract;
    assert!(contract.verify(vec![l1, h23], root, l0));
    assert!(!contract.verify(vec![l0, h23], root, l0));
    let r = contract.verify_multi_proof(vec![l1, l3], vec![false, false, true], root, vec![l0, l2]);
    assert_eq!(r, Ok(true));
    assert!(contract.verify_multi_proof(vec![], vec![true], root, vec![]).is_err());
}
