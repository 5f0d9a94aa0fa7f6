//! Proof verification against a committed root.

use vstd::prelude::*;

use crate::digest::Digest;
use crate::hash::combine;
use crate::hash::spec_combine;

verus! {

/// The byte-sequence views of a sequence of digests.
pub open spec fn digests_view(ds: Seq<Digest>) -> Seq<Seq<u8>> {
    ds.map_values(|d: Digest| d@)
}

/// The digest reconstructed from a leaf by folding the sibling path over it,
/// bottom-up: position `i` of the path is the sibling at depth `i` counting
/// from the leaf.
pub open spec fn process_proof(leaf: Seq<u8>, path: Seq<Seq<u8>>) -> Seq<u8>
    decreases path.len(),
{
    if path.len() == 0 {
        leaf
    } else {
        process_proof(spec_combine(leaf, path[0]), path.skip(1))
    }
}

/// Decide whether `leaf` is a member of the tree committed to by `root`,
/// given the sibling path `proof` from the leaf up to the root.
///
/// An empty proof verifies `leaf == root`, the single-node tree. The
/// operation is total: any input yields a boolean.
pub fn verify(proof: &Vec<Digest>, root: Digest, leaf: Digest) -> (r: bool)
    ensures
        r == (process_proof(leaf@, digests_view(proof@)) == root@),
{
    let ghost path = digests_view(proof@);
    let mut current = leaf;
    let mut i: usize = 0;
    proof {
        assert(path.skip(0) =~= path);
    }
    while i < proof.len()
        invariant
            i <= proof.len(),
            path == digests_view(proof@),
            process_proof(current@, path.skip(i as int)) == process_proof(leaf@, path),
        decreases proof.len() - i,
    {
        proof {
            assert(path.skip(i as int)[0] == path[i as int]);
            assert(path.skip(i as int).skip(1) =~= path.skip(i as int + 1));
        }
        current = combine(current, proof[i]);
        i += 1;
    }
    proof {
        assert(path.skip(proof.len() as int) =~= Seq::<Seq<u8>>::empty());
    }
    current.eq_bytes(&root)
}

/// Soundness of single-proof verification: a leaf and a sibling path
/// reconstruct exactly one digest, so a proof accepted against one root is
/// rejected when replayed against any other root.
pub proof fn lemma_verify_sound(
    leaf: Seq<u8>,
    path: Seq<Seq<u8>>,
    accepted: Seq<u8>,
    other: Seq<u8>,
)
    requires
        process_proof(leaf, path) == accepted,
        other != accepted,
    ensures
        process_proof(leaf, path) != other,
{
}

/// A multi-proof whose structure does not fit the reconstruction algorithm:
/// its flag sequence disagrees with the number of leaves and proof entries,
/// or replaying it would pop from an exhausted queue.
#[derive(Clone, Copy, Debug, PartialEq, Eq, Structural)]
pub struct MalformedProofError;

/// Replay the reconstruction steps of a multi-proof. The queue `q` is read
/// at `qpos` and grows at the back; `proof` is read at `ppos`. Each flag
/// pops `a` from the queue, pops `b` from the queue (flag true) or takes it
/// from `proof` (flag false), and pushes `combine(a, b)`. `None` means a
/// pop found nothing to take.
pub open spec fn multi_step(
    q: Seq<Seq<u8>>,
    qpos: int,
    proof: Seq<Seq<u8>>,
    ppos: int,
    flags: Seq<bool>,
) -> Option<(Seq<Seq<u8>>, int, int)>
    decreases flags.len(),
{
    if flags.len() == 0 {
        Some((q, qpos, ppos))
    } else if qpos >= q.len() {
        None
    } else if flags[0] {
        if qpos + 1 >= q.len() {
            None
        } else {
            multi_step(
                q.push(spec_combine(q[qpos], q[qpos + 1])),
                qpos + 2,
                proof,
                ppos,
                flags.skip(1),
            )
        }
    } else {
        if ppos >= proof.len() {
            None
        } else {
            multi_step(
                q.push(spec_combine(q[qpos], proof[ppos])),
                qpos + 1,
                proof,
                ppos + 1,
                flags.skip(1),
            )
        }
    }
}

/// The candidate root a well-formed multi-proof reconstructs, or `None`
/// where the multi-proof is malformed: the flag count must be exactly one
/// less than leaves and proof entries together, every step must find its
/// operands, and exactly one unconsumed value must remain to stand as the
/// candidate.
pub open spec fn multi_proof_candidate(
    leaves: Seq<Seq<u8>>,
    proof: Seq<Seq<u8>>,
    flags: Seq<bool>,
) -> Option<Seq<u8>> {
    if leaves.len() + proof.len() != flags.len() + 1 {
        None
    } else {
        match multi_step(leaves, 0, proof, 0, flags) {
            Some((q, qpos, ppos)) => if qpos < q.len() {
                Some(q[qpos])
            } else if ppos < proof.len() {
                Some(proof[ppos])
            } else {
                None
            },
            None => None,
        }
    }
}

/// The degenerate multi-proof of one leaf and nothing else reconstructs
/// that leaf itself, so verifying it amounts to `leaf == root`.
pub proof fn lemma_multi_proof_one_leaf(leaf: Seq<u8>)
    ensures
        multi_proof_candidate(seq![leaf], Seq::<Seq<u8>>::empty(), Seq::<bool>::empty())
            == Some(leaf),
{
}

/// The degenerate multi-proof of one proof entry and no leaves
/// reconstructs that entry itself, so verifying it amounts to
/// `entry == root`.
pub proof fn lemma_multi_proof_one_entry(entry: Seq<u8>)
    ensures
        multi_proof_candidate(Seq::<Seq<u8>>::empty(), seq![entry], Seq::<bool>::empty())
            == Some(entry),
{
}

/// A flag sequence whose length does not leave exactly one value
/// unconsumed makes the multi-proof malformed: no candidate root is
/// reconstructed from it.
pub proof fn lemma_malformed_flags_rejected(
    leaves: Seq<Seq<u8>>,
    proof: Seq<Seq<u8>>,
    flags: Seq<bool>,
)
    requires
        leaves.len() + proof.len() != flags.len() + 1,
    ensures
        multi_proof_candidate(leaves, proof, flags) is None,
{
}

/// Each reconstruction step consumes two values and produces one, so a
/// replay that finds all its operands uses up one value per flag.
proof fn lemma_multi_step_remaining(
    q: Seq<Seq<u8>>,
    qpos: int,
    proof: Seq<Seq<u8>>,
    ppos: int,
    flags: Seq<bool>,
)
    requires
        0 <= qpos <= q.len(),
        0 <= ppos <= proof.len(),
    ensures
        multi_step(q, qpos, proof, ppos, flags) matches Some((q2, qp2, pp2)) ==> qp2 <= q2.len()
            && pp2 <= proof.len() && (q2.len() - qp2) + (proof.len() - pp2) == (q.len() - qpos) + (
        proof.len() - ppos) - flags.len(),
    decreases flags.len(),
{
    if flags.len() > 0 && qpos < q.len() {
        if flags[0] {
            if qpos + 1 < q.len() {
                lemma_multi_step_remaining(
                    q.push(spec_combine(q[qpos], q[qpos + 1])),
                    qpos + 2,
                    proof,
                    ppos,
                    flags.skip(1),
                );
            }
        } else {
            if ppos < proof.len() {
                lemma_multi_step_remaining(
                    q.push(spec_combine(q[qpos], proof[ppos])),
                    qpos + 1,
                    proof,
                    ppos + 1,
                    flags.skip(1),
                );
            }
        }
    }
}

/// A multi-proof that meets the length invariant and replays without a
/// queue underflow always leaves exactly one value unconsumed, the
/// candidate root: rejection can only come from the flag count or from an
/// exhausted queue, never from the final resolution.
pub proof fn lemma_one_value_remains(leaves: Seq<Seq<u8>>, proof: Seq<Seq<u8>>, flags: Seq<bool>)
    requires
        leaves.len() + proof.len() == flags.len() + 1,
        multi_step(leaves, 0, proof, 0, flags) is Some,
    ensures
        multi_proof_candidate(leaves, proof, flags) is Some,
{
    lemma_multi_step_remaining(leaves, 0, proof, 0, flags);
}

/// Replaying reconstruction steps that all take their second operand from
/// `proof` chains the queue's single pending digest through each entry in
/// turn: exactly the fold that single-proof verification performs.
proof fn lemma_multi_step_chain(
    q: Seq<Seq<u8>>,
    qpos: int,
    proof: Seq<Seq<u8>>,
    ppos: int,
    flags: Seq<bool>,
)
    requires
        0 <= qpos,
        q.len() == qpos + 1,
        0 <= ppos <= proof.len(),
        proof.len() - ppos == flags.len(),
        forall|j: int| 0 <= j < flags.len() ==> !flags[j],
    ensures
        multi_step(q, qpos, proof, ppos, flags) matches Some((q2, qp2, pp2)) && q2.len() == qp2
            + 1 && pp2 == proof.len() && q2[qp2] == process_proof(q[qpos], proof.skip(ppos)),
    decreases flags.len(),
{
    if flags.len() == 0 {
        assert(proof.skip(ppos) =~= Seq::<Seq<u8>>::empty());
    } else {
        assert(!flags[0]);
        let q2 = q.push(spec_combine(q[qpos], proof[ppos]));
        assert(forall|j: int| 0 <= j < flags.skip(1).len() ==> flags.skip(1)[j] == flags[j + 1]);
        lemma_multi_step_chain(q2, qpos + 1, proof, ppos + 1, flags.skip(1));
        assert(proof.skip(ppos)[0] == proof[ppos]);
        assert(proof.skip(ppos).skip(1) =~= proof.skip(ppos + 1));
    }
}

/// Single-proof and multi-proof mode agree on one leaf: a multi-proof for
/// a single leaf whose flags all take from `proof` reconstructs exactly
/// the digest that single-proof verification folds out of the same
/// entries.
pub proof fn lemma_multi_proof_matches_single(leaf: Seq<u8>, proof: Seq<Seq<u8>>, flags: Seq<bool>)
    requires
        flags.len() == proof.len(),
        forall|j: int| 0 <= j < flags.len() ==> !flags[j],
    ensures
        multi_proof_candidate(seq![leaf], proof, flags) == Some(process_proof(leaf, proof)),
{
    lemma_multi_step_chain(seq![leaf], 0, proof, 0, flags);
    assert(proof.skip(0) =~= proof);
}

/// Single-proof and multi-proof mode agree on a batch of two sibling
/// leaves: a multi-proof whose first flag combines the pair and whose
/// remaining flags take from `proof` reconstructs exactly the digest that
/// either leaf's individual sibling path folds out, so where each leaf is
/// provable on its own against a root, the batch verifies against it too.
pub proof fn lemma_multi_proof_matches_single_pair(
    a: Seq<u8>,
    b: Seq<u8>,
    proof: Seq<Seq<u8>>,
    flags: Seq<bool>,
)
    requires
        flags.len() == proof.len() + 1,
        flags[0],
        forall|j: int| 1 <= j < flags.len() ==> !flags[j],
    ensures
        multi_proof_candidate(seq![a, b], proof, flags) == Some(
            process_proof(a, seq![b] + proof),
        ),
        multi_proof_candidate(seq![a, b], proof, flags) == Some(
            process_proof(b, seq![a] + proof),
        ),
{
    let q2 = seq![a, b].push(spec_combine(a, b));
    assert(forall|j: int| 0 <= j < flags.skip(1).len() ==> !flags.skip(1)[j]);
    lemma_multi_step_chain(q2, 2, proof, 0, flags.skip(1));
    assert(proof.skip(0) =~= proof);
    assert((seq![b] + proof)[0] == b);
    assert((seq![b] + proof).skip(1) =~= proof);
    assert((seq![a] + proof)[0] == a);
    assert((seq![a] + proof).skip(1) =~= proof);
    crate::hash::lemma_combine_commutes(a, b);
}

/// Decide whether the batch `leaves` is included in the tree committed to
/// by `root`, given the shared sibling entries `proof` and the flag
/// sequence `proof_flags` that says, for each reconstruction step, whether
/// the second operand comes from the running queue or from `proof`.
///
/// Returns `Ok` exactly where the multi-proof is well formed, carrying the
/// comparison of the reconstructed candidate with `root`; a malformed
/// multi-proof is rejected with an error, never coerced to a boolean.
pub fn verify_multi_proof(
    proof: &Vec<Digest>,
    proof_flags: &Vec<bool>,
    root: Digest,
    leaves: &Vec<Digest>,
) -> (r: Result<bool, MalformedProofError>)
    ensures
        match r {
            Ok(b) => multi_proof_candidate(
                digests_view(leaves@),
                digests_view(proof@),
                proof_flags@,
            ) matches Some(c) && b == (c == root@),
            Err(_) => multi_proof_candidate(
                digests_view(leaves@),
                digests_view(proof@),
                proof_flags@,
            ) is None,
        },
{
    let ghost pviews = digests_view(proof@);
    let ghost lviews = digests_view(leaves@);
    let ghost flags = proof_flags@;
    let n_flags = proof_flags.len();
    if (leaves.len() as u128) + (proof.len() as u128) != (n_flags as u128) + 1 {
        return Err(MalformedProofError);
    }
    let mut hashes: Vec<Digest> = Vec::new();
    let mut k: usize = 0;
    while k < leaves.len()
        invariant
            k <= leaves.len(),
            hashes@.len() == k,
            forall|j: int| 0 <= j < k ==> hashes@[j] == leaves@[j],
        decreases leaves.len() - k,
    {
        hashes.push(leaves[k]);
        k += 1;
    }
    proof {
        assert(hashes@ =~= leaves@);
        assert(flags.skip(0) =~= flags);
    }
    let mut qpos: usize = 0;
    let mut ppos: usize = 0;
    let mut i: usize = 0;
    while i < n_flags
        invariant
            i <= n_flags,
            n_flags == flags.len(),
            pviews == digests_view(proof@),
            lviews == digests_view(leaves@),
            flags == proof_flags@,
            lviews.len() + pviews.len() == flags.len() + 1,
            qpos <= hashes.len(),
            ppos <= proof.len(),
            multi_step(digests_view(hashes@), qpos as int, pviews, ppos as int, flags.skip(i as int))
                == multi_step(lviews, 0, pviews, 0, flags),
        decreases n_flags - i,
    {
        let ghost q0 = digests_view(hashes@);
        let ghost qp0 = qpos as int;
        let ghost pp0 = ppos as int;
        let ghost rest = flags.skip(i as int);
        proof {
            assert(rest[0] == flags[i as int]);
            assert(rest.skip(1) =~= flags.skip(i as int + 1));
        }
        if qpos >= hashes.len() {
            proof {
                assert(multi_step(q0, qp0, pviews, pp0, rest) is None);
            }
            return Err(MalformedProofError);
        }
        let a = hashes[qpos];
        proof {
            assert(q0[qp0] == a@);
        }
        if proof_flags[i] {
            if qpos + 1 >= hashes.len() {
                proof {
                    assert(multi_step(q0, qp0, pviews, pp0, rest) is None);
                }
                return Err(MalformedProofError);
            }
            let b = hashes[qpos + 1];
            proof {
                assert(q0[qp0 + 1] == b@);
            }
            let c = combine(a, b);
            proof {
                assert(multi_step(q0, qp0, pviews, pp0, rest) == multi_step(
                    q0.push(c@),
                    qp0 + 2,
                    pviews,
                    pp0,
                    rest.skip(1),
                ));
            }
            qpos += 2;
            hashes.push(c);
            i += 1;
            proof {
                assert(digests_view(hashes@) =~= q0.push(c@));
                assert(multi_step(
                    digests_view(hashes@),
                    qpos as int,
                    pviews,
                    ppos as int,
                    flags.skip(i as int),
                ) == multi_step(lviews, 0, pviews, 0, flags));
            }
        } else {
            if ppos >= proof.len() {
                proof {
                    assert(multi_step(q0, qp0, pviews, pp0, rest) is None);
                }
                return Err(MalformedProofError);
            }
            let b = proof[ppos];
            proof {
                assert(pviews[pp0] == b@);
            }
            let c = combine(a, b);
            proof {
                assert(multi_step(q0, qp0, pviews, pp0, rest) == multi_step(
                    q0.push(c@),
                    qp0 + 1,
                    pviews,
                    pp0 + 1,
                    rest.skip(1),
                ));
            }
            qpos += 1;
            ppos += 1;
            hashes.push(c);
            i += 1;
            proof {
                assert(digests_view(hashes@) =~= q0.push(c@));
                assert(multi_step(
                    digests_view(hashes@),
                    qpos as int,
                    pviews,
                    ppos as int,
                    flags.skip(i as int),
                ) == multi_step(lviews, 0, pviews, 0, flags));
            }
        }
    }
    proof {
        assert(flags.skip(n_flags as int) =~= Seq::<bool>::empty());
        assert(multi_step(
            digests_view(hashes@),
            qpos as int,
            pviews,
            ppos as int,
            Seq::<bool>::empty(),
        ) == Some((digests_view(hashes@), qpos as int, ppos as int)));
    }
    if qpos < hashes.len() {
        let r = hashes[qpos].eq_bytes(&root);
        proof {
            assert(digests_view(hashes@)[qpos as int] == hashes@[qpos as int]@);
        }
        Ok(r)
    } else if ppos < proof.len() {
        let r = proof[ppos].eq_bytes(&root);
        proof {
            assert(pviews[ppos as int] == proof@[ppos as int]@);
        }
        Ok(r)
    } else {
        Err(MalformedProofError)
    }
}

} // verus!
