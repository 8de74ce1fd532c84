//! Structural deduplication statistics for a map: which subtries repeat one met before.
//!
//! One in-memory pass hashes every subtrie bottom-up and keeps a temporary memo of the hashes
//! seen; the memo is dropped before returning.
use vstd::prelude::*;
use crate::pathmap::PathMap;
use crate::trie::TrieNode;
use std::collections::HashSet;

verus! {

broadcast use vstd::std_specs::hash::group_hash_axioms;

/// Statistics created after merkleization
#[derive(Debug, Default, Clone, Copy)]
pub struct MerkleizeResult {
    /// The hash of the entire trie beneath the root
    pub hash: u128,
    /// The number of subtries found identical to one met before, which a shared one replaces
    pub reused: usize,
    /// The number of nodes cloned so that child links below them could be replaced: the nodes
    /// with at least one replaced child link
    pub cloned: usize,
    /// The number of child links rewritten, each leading to a subtrie met before or to one with a
    /// replaced link below it
    pub replaced: usize,
}

/// `BuildHasher::hash_one` with the default hasher: a hash of `t`.
#[verifier::external_body]
fn hash_one<T: core::hash::Hash>(t: &T) -> u64 {
    core::hash::BuildHasher::hash_one(&core::hash::BuildHasherDefault::<std::collections::hash_map::DefaultHasher>::default(), t)
}

/// The number of nodes of the subtrie at `n`, `n` included.
pub open spec fn subtrie_count<V>(n: TrieNode<V>) -> nat
    decreases n, 257nat,
{
    1 + children_subtrie_count(n, 256)
}

/// The number of nodes of the subtries below the children of `n` whose byte is under `k`.
pub open spec fn children_subtrie_count<V>(n: TrieNode<V>, k: nat) -> nat
    decreases n, k,
{
    if k == 0 {
        0
    } else {
        children_subtrie_count(n, (k - 1) as nat) + if 0 <= k - 1 < n.children@.len() {
            match n.children@[k - 1] {
                Some(c) => subtrie_count(*c),
                None => 0,
            }
        } else {
            0
        }
    }
}

/// A node without child slots has nothing below it.
proof fn lemma_no_slots_count<V>(n: TrieNode<V>, k: nat)
    requires
        n.children@.len() == 0,
    ensures
        children_subtrie_count(n, k) == 0,
    decreases k,
{
    if k > 0 {
        lemma_no_slots_count(n, (k - 1) as nat);
    }
}

/// Hashes the subtrie at `node`, counting into `counters` the subtries met before; returns the
/// hash and whether the subtrie would be replaced: it was met before, or a link below it was.
///
/// Every node of the subtrie is either met before, and counted as reused, or new, and its hash
/// added to the set `memo`; the subtrie's own hash ends up there.
fn merkleize_node<V: Copy + core::hash::Hash>(node: &TrieNode<V>, memo: &mut HashSet<u64>, counters: &mut MerkleizeResult) -> (r: (u64, bool))
    requires
        node.wf(),
        old(memo)@.finite(),
        old(counters).reused + subtrie_count(*node) <= usize::MAX,
        old(counters).cloned + subtrie_count(*node) <= usize::MAX,
        old(counters).replaced + subtrie_count(*node) <= usize::MAX,
    ensures
        final(memo)@.finite(),
        final(memo)@.len() >= old(memo)@.len(),
        old(memo)@.subset_of(final(memo)@),
        final(memo)@.contains(r.0),
        old(memo)@.contains(r.0) ==> r.1,
        old(memo)@.len() == 0 ==> final(memo)@.len() >= 1,
        final(counters).hash == old(counters).hash,
        final(counters).reused >= old(counters).reused,
        final(counters).cloned >= old(counters).cloned,
        final(counters).replaced >= old(counters).replaced,
        (final(counters).reused - old(counters).reused) + (final(memo)@.len() - old(memo)@.len()) == subtrie_count(*node),
        final(counters).cloned - old(counters).cloned <= final(counters).replaced - old(counters).replaced,
        final(counters).replaced - old(counters).replaced < subtrie_count(*node),
        r.1 <==> final(counters).reused > old(counters).reused,
        final(counters).reused == old(counters).reused ==> final(counters).replaced == old(counters).replaced
            && final(counters).cloned == old(counters).cloned,
        final(counters).replaced == old(counters).replaced ==> final(counters).reused <= old(counters).reused + 1,
    decreases node,
{
    let ghost memo0 = memo@;
    let ghost c0 = *counters;
    let mut parts: Vec<(u16, u64)> = Vec::new();
    let mut changed = false;
    if node.children.len() > 0 {
        let mut i: usize = 0;
        while i < 256
            invariant
                i <= 256,
                node.wf(),
                node.children@.len() == 256,
                c0.reused + subtrie_count(*node) <= usize::MAX,
                c0.cloned + subtrie_count(*node) <= usize::MAX,
                c0.replaced + subtrie_count(*node) <= usize::MAX,
                subtrie_count(*node) == 1 + children_subtrie_count(*node, 256),
                children_subtrie_count(*node, i as nat) <= children_subtrie_count(*node, 256),
                memo@.finite(),
                memo@.len() >= memo0.len(),
                memo0.subset_of(memo@),
                counters.hash == c0.hash,
                counters.reused >= c0.reused,
                counters.cloned >= c0.cloned,
                counters.replaced >= c0.replaced,
                (counters.reused - c0.reused) + (memo@.len() - memo0.len()) == children_subtrie_count(*node, i as nat),
                counters.cloned - c0.cloned <= counters.replaced - c0.replaced,
                counters.replaced - c0.replaced <= children_subtrie_count(*node, i as nat),
                changed <==> counters.reused > c0.reused,
                counters.reused == c0.reused ==> counters.replaced == c0.replaced && counters.cloned == c0.cloned,
                counters.replaced == c0.replaced ==> counters.reused == c0.reused,
            decreases 256 - i,
        {
            let ghost c1 = *counters;
            proof {
                lemma_children_count_mono(*node, (i + 1) as nat, 256);
            }
            match &node.children[i] {
                Some(c) => {
                    proof {
                        assert(node.children@[i as int] matches Some(cc) && cc.wf());
                        assert(children_subtrie_count(*node, (i + 1) as nat) == children_subtrie_count(*node, i as nat)
                            + subtrie_count(**c));
                    }
                    let (ch, rep) = merkleize_node(c, memo, counters);
                    if rep {
                        if !changed {
                            counters.cloned = counters.cloned + 1;
                            changed = true;
                        }
                        counters.replaced = counters.replaced + 1;
                    }
                    parts.push((i as u16, ch));
                },
                None => {
                    proof {
                        assert(children_subtrie_count(*node, (i + 1) as nat) == children_subtrie_count(*node, i as nat));
                    }
                },
            }
            i = i + 1;
        }
    } else {
        proof {
            lemma_no_slots_count(*node, 256);
        }
    }
    let h = hash_one(&(node.val, parts));
    let ghost memo2 = memo@;
    proof {
        if memo0.contains(h) {
            assert(memo2.contains(h));
        }
        if memo0.len() == 0 && memo2.contains(h) {
            assert(memo2.len() != 0);
        }
    }
    if memo.insert(h) {
        proof {
            assert(memo@ == memo2.insert(h) && !memo2.contains(h));
            assert(memo@.len() == memo2.len() + 1);
        }
        (h, changed)
    } else {
        proof {
            assert(memo@ =~= memo2);
        }
        counters.reused = counters.reused + 1;
        (h, true)
    }
}

/// Counting the children below a larger byte counts at least as many nodes.
proof fn lemma_children_count_mono<V>(n: TrieNode<V>, k: nat, l: nat)
    requires
        k <= l,
    ensures
        children_subtrie_count(n, k) <= children_subtrie_count(n, l),
    decreases l,
{
    if k < l {
        lemma_children_count_mono(n, k, (l - 1) as nat);
    }
}

impl<V: Copy + core::hash::Hash> PathMap<V> {
    /// Finds the subtries identical to one met before, by hashing them bottom-up, and reports how
    /// many there are; the map's paths and values are left as they were. The hash of the whole
    /// trie is a 64-bit one. The first node hashed is always new, so fewer subtries are reused
    /// than there are nodes; every cloned node has a replaced link, fewer links are replaced
    /// than there are nodes, and where nothing is reused nothing is replaced or cloned
    pub fn merkleize(&mut self) -> (r: MerkleizeResult)
        requires
            old(self).wf(),
            subtrie_count(old(self).root) <= usize::MAX,
        ensures
            final(self).wf(),
            *final(self) == *old(self),
            r.hash <= u64::MAX,
            r.reused < subtrie_count(old(self).root),
            r.cloned <= r.replaced,
            r.replaced < subtrie_count(old(self).root),
            r.reused == 0 ==> r.replaced == 0 && r.cloned == 0,
            r.replaced == 0 ==> r.reused <= 1,
    {
        let mut counters = MerkleizeResult { hash: 0, reused: 0, cloned: 0, replaced: 0 };
        let mut memo: HashSet<u64> = HashSet::new();
        let (h, _) = merkleize_node(&self.root, &mut memo, &mut counters);
        counters.hash = h as u128;
        counters
    }
}

} // verus!
