//! A ghost model of Merkle trees, used to state what the verifier is
//! complete for: a leaf that really stands in a tree, together with its
//! sibling path, verifies against that tree's root.

use vstd::prelude::*;

use crate::hash::lemma_combine_commutes;
use crate::hash::spec_combine;
use crate::merkle::process_proof;

verus! {

/// A binary hash tree: a digest at each leaf, every inner node the
/// combination of its two children.
pub enum MerkleTree {
    Leaf(Seq<u8>),
    Node(Box<MerkleTree>, Box<MerkleTree>),
}

/// The digest a tree commits to.
pub open spec fn root_of(t: MerkleTree) -> Seq<u8>
    decreases t,
{
    match t {
        MerkleTree::Leaf(d) => d,
        MerkleTree::Node(l, r) => spec_combine(root_of(*l), root_of(*r)),
    }
}

/// `path` is the sibling path of `leaf` in `t`: position `i` holds the
/// sibling subtree's root at depth `i`, counting from the leaf, so the
/// sibling nearest the tree's root comes last.
pub open spec fn is_sibling_path(t: MerkleTree, leaf: Seq<u8>, path: Seq<Seq<u8>>) -> bool
    decreases t,
{
    match t {
        MerkleTree::Leaf(d) => path.len() == 0 && leaf == d,
        MerkleTree::Node(l, r) => path.len() > 0 && ((is_sibling_path(
            *l,
            leaf,
            path.drop_last(),
        ) && path.last() == root_of(*r)) || (is_sibling_path(*r, leaf, path.drop_last())
            && path.last() == root_of(*l))),
    }
}

/// Folding one more sibling onto a processed path combines it with the
/// digest reconstructed so far.
pub proof fn lemma_process_proof_push(leaf: Seq<u8>, path: Seq<Seq<u8>>, s: Seq<u8>)
    ensures
        process_proof(leaf, path.push(s)) == spec_combine(process_proof(leaf, path), s),
    decreases path.len(),
{
    if path.len() == 0 {
        assert(path.push(s)[0] == s);
        assert(path.push(s).skip(1) =~= Seq::<Seq<u8>>::empty());
        assert(process_proof(leaf, path.push(s)) == process_proof(
            spec_combine(leaf, s),
            Seq::<Seq<u8>>::empty(),
        ));
        assert(process_proof(spec_combine(leaf, s), Seq::<Seq<u8>>::empty()) == spec_combine(
            leaf,
            s,
        ));
        assert(process_proof(leaf, path) == leaf);
    } else {
        assert(path.push(s)[0] == path[0]);
        assert(path.push(s).skip(1) =~= path.skip(1).push(s));
        lemma_process_proof_push(spec_combine(leaf, path[0]), path.skip(1), s);
    }
}

/// Completeness of single-proof verification: a leaf that stands in a tree
/// reconstructs the tree's root from its correct sibling path, so `verify`
/// accepts it against that root.
pub proof fn lemma_verify_complete(t: MerkleTree, leaf: Seq<u8>, path: Seq<Seq<u8>>)
    requires
        is_sibling_path(t, leaf, path),
    ensures
        process_proof(leaf, path) == root_of(t),
    decreases t,
{
    match t {
        MerkleTree::Leaf(d) => {},
        MerkleTree::Node(l, r) => {
            assert(path =~= path.drop_last().push(path.last()));
            lemma_process_proof_push(leaf, path.drop_last(), path.last());
            if is_sibling_path(*l, leaf, path.drop_last()) && path.last() == root_of(*r) {
                lemma_verify_complete(*l, leaf, path.drop_last());
            } else {
                lemma_verify_complete(*r, leaf, path.drop_last());
                lemma_combine_commutes(root_of(*r), root_of(*l));
            }
        },
    }
}

} // verus!
