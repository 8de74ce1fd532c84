//! The map from byte paths to values, built on the trie, with its whole-map algebra.
use vstd::prelude::*;
use crate::zipper_algebra::{nodes_same, same_nodes, same_value};
use crate::ring::{join_values, meet_values, DistributiveLattice, Lattice};
use crate::trie::TrieNode;
use crate::trie_ops::{guard_active, join_node, meet_at, meet_node, meet_reaches, restrict_node, subtract_at, subtract_node, subtract_reaches};

verus! {

/// A map from byte paths to values. Besides the paths that hold a value, the map holds every
/// prefix of them, and may hold paths that lead to no value at all.
pub struct PathMap<V> {
    pub root: TrieNode<V>,
}

/// The value the last pair for `q` in `s` gives.
pub open spec fn pairs_get<V>(s: Seq<(&[u8], V)>, q: Seq<u8>) -> Option<V>
    decreases s.len(),
{
    if s.len() == 0 {
        None
    } else if s.last().0@ == q {
        Some(s.last().1)
    } else {
        pairs_get(s.drop_last(), q)
    }
}

/// Whether `q` is a prefix of one of the paths of `s`.
pub open spec fn pairs_has<V>(s: Seq<(&[u8], V)>, q: Seq<u8>) -> bool {
    q.len() == 0 || exists|i: int| 0 <= i < s.len() && q.is_prefix_of(#[trigger] s[i].0@)
}

impl<V> PathMap<V> {
    /// The shape invariant of the trie.
    pub open spec fn wf(self) -> bool {
        self.root.wf()
    }

    /// The value at path `p`.
    pub open spec fn get(self, p: Seq<u8>) -> Option<V> {
        self.root.get(p)
    }

    /// Whether the path `p` exists.
    pub open spec fn has_path(self, p: Seq<u8>) -> bool {
        self.root.has_path(p)
    }
}

impl<V: Copy> PathMap<V> {
    /// An empty map
    pub fn new() -> (m: PathMap<V>)
        ensures
            m.wf(),
            forall|q: Seq<u8>| #[trigger] m.get(q) is None,
            forall|q: Seq<u8>| #[trigger] m.has_path(q) <==> q.len() == 0,
    {
        let m = PathMap { root: TrieNode::new() };
        proof {
            assert forall|q: Seq<u8>| #[trigger] m.has_path(q) <==> q.len() == 0 by {
                crate::trie::lemma_bare_paths(m.root, q);
            }
            assert forall|q: Seq<u8>| #[trigger] m.get(q) is None by {
                crate::trie::lemma_bare_paths(m.root, q);
            }
        }
        m
    }

    /// A map holding the given pairs; where a path occurs twice the later value wins
    pub fn from_iter(items: &[(&[u8], V)]) -> (m: PathMap<V>)
        ensures
            m.wf(),
            forall|q: Seq<u8>| #[trigger] m.get(q) == pairs_get(items@, q),
            forall|q: Seq<u8>| #[trigger] m.has_path(q) == pairs_has(items@, q),
    {
        let mut m = PathMap::new();
        let mut i: usize = 0;
        while i < items.len()
            invariant
                i <= items@.len(),
                m.wf(),
                forall|q: Seq<u8>| #[trigger] m.get(q) == pairs_get(items@.take(i as int), q),
                forall|q: Seq<u8>| #[trigger] m.has_path(q) == pairs_has(items@.take(i as int), q),
            decreases items@.len() - i,
        {
            let (p, v) = items[i];
            let ghost before = m;
            m.set_val_at(p, v);
            proof {
                let s = items@.take(i + 1);
                assert(s.drop_last() =~= items@.take(i as int));
                assert(s.last() == (p, v));
                assert forall|q: Seq<u8>| #[trigger] m.has_path(q) == pairs_has(s, q) by {
                    if m.has_path(q) && q.len() > 0 {
                        if q.is_prefix_of(p@) {
                            assert(q.is_prefix_of(s[i as int].0@));
                        } else {
                            assert(before.has_path(q));
                            let k = choose|k: int| 0 <= k < i && q.is_prefix_of(#[trigger] items@.take(i as int)[k].0@);
                            assert(q.is_prefix_of(s[k].0@));
                        }
                    }
                    if pairs_has(s, q) && q.len() > 0 {
                        let k = choose|k: int| 0 <= k < s.len() && q.is_prefix_of(#[trigger] s[k].0@);
                        if k < i {
                            assert(q.is_prefix_of(items@.take(i as int)[k].0@));
                        }
                    }
                }
            }
            i = i + 1;
        }
        proof {
            assert(items@.take(items@.len() as int) =~= items@);
        }
        m
    }

    /// Sets the value at `path`, creating the path, and returns the value it replaced
    pub fn set_val_at(&mut self, path: &[u8], v: V) -> (old_val: Option<V>)
        requires
            old(self).wf(),
        ensures
            final(self).wf(),
            old_val == old(self).get(path@),
            forall|q: Seq<u8>| #[trigger] final(self).get(q) == if q == path@ {
                Some(v)
            } else {
                old(self).get(q)
            },
            forall|q: Seq<u8>| #[trigger] final(self).has_path(q) == (old(self).has_path(q) || q.is_prefix_of(path@)),
    {
        let r = self.root.set_val_rec(path, 0, v);
        proof {
            assert(path@.subrange(0, path@.len() as int) =~= path@);
            assert forall|q: Seq<u8>| #[trigger] self.get(q) == if q == path@ {
                Some(v)
            } else {
                old(self).get(q)
            } by {
                assert(self.root.node_at(q) == self.root.node_at(q));
            }
            assert forall|q: Seq<u8>| #[trigger] self.has_path(q) == (old(self).has_path(q) || q.is_prefix_of(path@)) by {
                assert(self.root.node_at(q) == self.root.node_at(q));
            }
        }
        r
    }

    /// Inserts `v` at `path`; the same as `set_val_at`
    pub fn insert(&mut self, path: &[u8], v: V) -> (old_val: Option<V>)
        requires
            old(self).wf(),
        ensures
            final(self).wf(),
            old_val == old(self).get(path@),
            forall|q: Seq<u8>| #[trigger] final(self).get(q) == if q == path@ {
                Some(v)
            } else {
                old(self).get(q)
            },
            forall|q: Seq<u8>| #[trigger] final(self).has_path(q) == (old(self).has_path(q) || q.is_prefix_of(path@)),
    {
        self.set_val_at(path, v)
    }

    /// Creates `path` without setting a value; returns `true` if the path did not exist
    pub fn create_path(&mut self, path: &[u8]) -> (created: bool)
        requires
            old(self).wf(),
        ensures
            final(self).wf(),
            created == !old(self).has_path(path@),
            forall|q: Seq<u8>| #[trigger] final(self).get(q) == old(self).get(q),
            forall|q: Seq<u8>| #[trigger] final(self).has_path(q) == (old(self).has_path(q) || q.is_prefix_of(path@)),
    {
        let r = self.root.create_path_rec(path, 0);
        proof {
            assert(path@.subrange(0, path@.len() as int) =~= path@);
            assert forall|q: Seq<u8>| #[trigger] self.get(q) == old(self).get(q) by {
                assert(self.root.node_at(q) == self.root.node_at(q));
            }
            assert forall|q: Seq<u8>| #[trigger] self.has_path(q) == (old(self).has_path(q) || q.is_prefix_of(path@)) by {
                assert(self.root.node_at(q) == self.root.node_at(q));
            }
        }
        r
    }

    /// The value at `path`
    pub fn get_val_at(&self, path: &[u8]) -> (r: Option<&V>)
        requires
            self.wf(),
        ensures
            crate::ring::opt_value(r) == self.get(path@),
    {
        match self.root.node_at_path(path) {
            Some(n) => n.node_val(),
            None => None,
        }
    }

    /// Whether `path` exists in the map
    pub fn path_exists_at(&self, path: &[u8]) -> (r: bool)
        requires
            self.wf(),
        ensures
            r == self.has_path(path@),
    {
        self.root.node_at_path(path).is_some()
    }

    /// Removes the value at `path` and returns it; with `prune`, the nodes along the path that
    /// are left without a value or a child are removed as well
    pub fn remove_val_at(&mut self, path: &[u8], prune: bool) -> (removed: Option<V>)
        requires
            old(self).wf(),
        ensures
            final(self).wf(),
            removed == old(self).get(path@),
            forall|q: Seq<u8>| #[trigger] final(self).get(q) == if q == path@ {
                None
            } else {
                old(self).get(q)
            },
            forall|q: Seq<u8>| #[trigger] final(self).has_path(q) == (old(self).has_path(q) && (!prune
                || q.len() == 0 || !q.is_prefix_of(path@) || crate::trie::survives(old(self).root, path@, q))),
    {
        let r = self.root.remove_val_rec(path, 0, prune);
        proof {
            assert(path@.subrange(0, path@.len() as int) =~= path@);
            assert forall|q: Seq<u8>| #[trigger] self.get(q) == if q == path@ {
                None
            } else {
                old(self).get(q)
            } by {
                assert(self.root.node_at(q) == self.root.node_at(q));
            }
            assert forall|q: Seq<u8>| #[trigger] self.has_path(q) == (old(self).has_path(q) && (!prune
                || q.len() == 0 || !q.is_prefix_of(path@) || crate::trie::survives(old(self).root, path@, q))) by {
                assert(self.root.node_at(q) == self.root.node_at(q));
            }
        }
        r
    }

    /// Removes the value at `path` and returns it, pruning the nodes along the path that are
    /// left without a value or a child
    pub fn remove(&mut self, path: &[u8]) -> (removed: Option<V>)
        requires
            old(self).wf(),
        ensures
            final(self).wf(),
            removed == old(self).get(path@),
            forall|q: Seq<u8>| #[trigger] final(self).get(q) == if q == path@ {
                None
            } else {
                old(self).get(q)
            },
            forall|q: Seq<u8>| #[trigger] final(self).has_path(q) == (old(self).has_path(q) && (q.len() == 0
                || !q.is_prefix_of(path@) || crate::trie::survives(old(self).root, path@, q))),
    {
        self.remove_val_at(path, true)
    }

    /// The values of the map, each with its path, in depth-first order of the paths
    pub fn iter(&self) -> (r: Vec<(Vec<u8>, V)>)
        requires
            self.wf(),
        ensures
            forall|k: int| 0 <= k < r@.len() ==> self.get(#[trigger] r@[k].0@) == Some(r@[k].1),
            forall|q: Seq<u8>| #[trigger] self.get(q) is Some ==> exists|k: int| 0 <= k < r@.len() && #[trigger] r@[k].0@ == q,
            crate::trie::sorted_paths(r@),
    {
        let mut prefix: Vec<u8> = Vec::new();
        let mut out: Vec<(Vec<u8>, V)> = Vec::new();
        self.root.collect_vals(&mut prefix, &mut out);
        proof {
            let e = Seq::<u8>::empty();
            assert(out@.skip(0) =~= out@);
            assert forall|k: int| 0 <= k < out@.len() implies self.get(#[trigger] out@[k].0@) == Some(out@[k].1) by {
                assert(out@.skip(0)[k] == out@[k]);
                assert(out@[k].0@.skip(0) =~= out@[k].0@);
            }
            assert forall|q: Seq<u8>| #[trigger] self.get(q) is Some implies exists|k: int| 0 <= k < out@.len() && #[trigger] out@[k].0@ == q by {
                assert(q.len() == 0 || q[0] < 256);
                assert(e + q =~= q);
                let k = choose|k: int| #![trigger out@.skip(0)[k]] 0 <= k < out@.skip(0).len() && out@.skip(0)[k].0@ == e + q;
                assert(out@.skip(0)[k] == out@[k]);
            }
        }
        out
    }

    /// Whether the map holds no value and no path but the empty one
    pub fn is_empty(&self) -> (r: bool)
        requires
            self.wf(),
        ensures
            r == (forall|q: Seq<u8>| #[trigger] self.has_path(q) ==> q.len() == 0 && self.get(q) is None),
    {
        let r = self.root.node_is_bare();
        proof {
            if r {
                assert forall|q: Seq<u8>| #[trigger] self.has_path(q) implies q.len() == 0 && self.get(q) is None by {
                    crate::trie::lemma_bare_paths(self.root, q);
                }
            } else {
                if self.root.val is Some {
                    assert(self.has_path(Seq::<u8>::empty()));
                } else {
                    let b = choose|b: int| #[trigger] self.root.child(b) is Some;
                    assert(0 <= b < 256);
                    let q = seq![b as u8];
                    assert(q.drop_first() =~= Seq::<u8>::empty());
                    assert(self.root.node_at(q) == self.root.child(b).unwrap().node_at(q.drop_first()));
                    assert(self.has_path(q));
                }
            }
        }
        r
    }

    /// The number of values in the map
    pub fn val_count(&self) -> (r: usize)
        requires
            self.wf(),
            crate::trie::node_val_count(self.root) <= usize::MAX,
        ensures
            r == crate::trie::node_val_count(self.root),
    {
        self.root.count_vals()
    }

    /// A copy of the map
    pub fn clone_map(&self) -> (r: PathMap<V>)
        requires
            self.wf(),
        ensures
            r.wf(),
            forall|q: Seq<u8>| #[trigger] r.get(q) == self.get(q),
            forall|q: Seq<u8>| #[trigger] r.has_path(q) == self.has_path(q),
    {
        let r = PathMap { root: self.root.clone_node() };
        proof {
            assert forall|q: Seq<u8>| #[trigger] r.get(q) == self.get(q) && r.has_path(q) == self.has_path(q) by {
                assert(r.root.node_at(q) == r.root.node_at(q));
                assert(self.root.node_at(q) == self.root.node_at(q));
            }
        }
        r
    }
}

impl<V: Lattice + Copy> PathMap<V> {
    /// The join of two maps: every path of either, with the values joined where both have one
    pub fn join(&self, other: &PathMap<V>) -> (r: PathMap<V>)
        requires
            self.wf(),
            other.wf(),
        ensures
            r.wf(),
            forall|q: Seq<u8>| #[trigger] r.get(q) == join_values(self.get(q), other.get(q)),
            forall|q: Seq<u8>| #[trigger] r.has_path(q) == (self.has_path(q) || other.has_path(q)),
    {
        let r = PathMap { root: join_node(&self.root, &other.root) };
        proof {
            assert forall|q: Seq<u8>| #[trigger] r.get(q) == join_values(self.get(q), other.get(q)) && r.has_path(q) == (self.has_path(q) || other.has_path(q)) by {
                assert(r.root.node_at(q) == r.root.node_at(q));
            }
        }
        r
    }

    /// The meet of two maps: the values both have and the lattice meet keeps, with the paths that
    /// lead to them; a map met with one that holds the same paths and the same values is kept
    /// whole, as a map met with itself. Values are the same where their meet reports itself
    /// identical to both, as equal plain values do
    pub fn meet(&self, other: &PathMap<V>) -> (r: PathMap<V>)
        requires
            self.wf(),
            other.wf(),
        ensures
            r.wf(),
            forall|q: Seq<u8>| #[trigger] r.get(q) == meet_values(self.get(q), other.get(q)),
            forall|q: Seq<u8>| #[trigger] r.has_path(q) == if same_nodes(self.root, other.root) {
                self.has_path(q)
            } else {
                q.len() == 0 || meet_reaches(self.root, other.root, q)
            },
    {
        if nodes_same(&self.root, &other.root) {
            let r = PathMap { root: self.root.clone_node() };
            proof {
                assert forall|q: Seq<u8>| #[trigger] r.get(q) == meet_values(self.get(q), other.get(q)) && r.has_path(q) == self.has_path(q) by {
                    assert(r.root.node_at(q) == r.root.node_at(q));
                    assert(self.root.node_at(q) == self.root.node_at(q));
                    assert(same_value(self.get(q), other.get(q)));
                }
            }
            return r;
        }
        let r = PathMap { root: meet_node(&self.root, &other.root) };
        proof {
            assert forall|q: Seq<u8>| #[trigger] r.get(q) == meet_values(self.get(q), other.get(q)) && r.has_path(q) == (q.len() == 0 || meet_reaches(self.root, other.root, q)) by {
                assert(r.root.node_at(q) == r.root.node_at(q));
                assert(meet_at(self.root, other.root, q) == meet_values(self.get(q), other.get(q)));
            }
        }
        r
    }
}

impl<V: DistributiveLattice + Copy> PathMap<V> {
    /// `self` with `other` taken away: values are subtracted where both have one, and a path is
    /// kept where it leaves `other` or leads to a value that is left
    pub fn subtract(&self, other: &PathMap<V>) -> (r: PathMap<V>)
        requires
            self.wf(),
            other.wf(),
        ensures
            r.wf(),
            forall|q: Seq<u8>| #[trigger] r.get(q) == subtract_at(self.root, Some(other.root), q),
            forall|q: Seq<u8>| #[trigger] r.has_path(q) == (q.len() == 0 || subtract_reaches(self.root, Some(other.root), q)),
    {
        let r = PathMap { root: subtract_node(&self.root, Some(&other.root)) };
        proof {
            assert forall|q: Seq<u8>| #[trigger] r.get(q) == subtract_at(self.root, Some(other.root), q) && r.has_path(q) == (q.len() == 0 || subtract_reaches(self.root, Some(other.root), q)) by {
                assert(r.root.node_at(q) == r.root.node_at(q));
            }
        }
        r
    }
}

impl<V: Copy> PathMap<V> {
    /// The part of the map the guard lets through: everything at or below a path where the guard
    /// holds a value, and elsewhere the paths the guard has too
    pub fn restrict(&self, guard: &PathMap<V>) -> (r: PathMap<V>)
        requires
            self.wf(),
            guard.wf(),
        ensures
            r.wf(),
            forall|q: Seq<u8>| #[trigger] r.get(q) == (if guard_active(guard.root, q) {
                self.get(q)
            } else {
                None
            }),
            forall|q: Seq<u8>| #[trigger] r.has_path(q) == (q.len() == 0 || (self.has_path(q) && (
                guard.has_path(q) || guard_active(guard.root, q)))),
    {
        self.restrict_by_paths(guard)
    }

    /// The same as `restrict`, with a guard whose values may be of another type: only where the
    /// guard has values matters, not what they are
    pub fn restrict_by_paths<W: Copy>(&self, guard: &PathMap<W>) -> (r: PathMap<V>)
        requires
            self.wf(),
            guard.wf(),
        ensures
            r.wf(),
            forall|q: Seq<u8>| #[trigger] r.get(q) == (if guard_active(guard.root, q) {
                self.get(q)
            } else {
                None
            }),
            forall|q: Seq<u8>| #[trigger] r.has_path(q) == (q.len() == 0 || (self.has_path(q) && (
                guard.has_path(q) || guard_active(guard.root, q)))),
    {
        let r = PathMap { root: restrict_node(&self.root, &guard.root) };
        proof {
            assert forall|q: Seq<u8>| #[trigger] r.get(q) == (if guard_active(guard.root, q) {
                self.get(q)
            } else {
                None
            }) && r.has_path(q) == (q.len() == 0 || (self.has_path(q) && (guard.has_path(q)
                || guard_active(guard.root, q)))) by {
                assert(r.root.node_at(q) == r.root.node_at(q));
            }
        }
        r
    }
}

} // verus!
