//! Zippers: cursors that move over the paths of a map, reading it or writing into it.
use vstd::prelude::*;
use crate::pathmap::PathMap;
use crate::ring::opt_value;
use crate::trie::{lemma_node_at_append, lemma_node_at_wf, opt_exists, opt_get, opt_node_at, TrieNode};
use crate::utils::{bytes_count_below, BitMask, ByteMask};

verus! {

/// The value at `q` below an optional subtrie, where a missing subtrie is an empty one.
pub open spec fn src_get<V>(n: Option<TrieNode<V>>, q: Seq<u8>) -> Option<V> {
    opt_get(n, q)
}

/// Whether `q` exists below an optional subtrie, where a missing subtrie is an empty one that
/// holds the empty path only.
pub open spec fn src_has<V>(n: Option<TrieNode<V>>, q: Seq<u8>) -> bool {
    q.len() == 0 || opt_exists(n, q)
}

/// Whether `node` has the paths and values that `src` stands for.
pub open spec fn stands_for<V>(node: TrieNode<V>, src: Option<TrieNode<V>>) -> bool {
    forall|q: Seq<u8>|
        #![trigger node.node_at(q)]
        node.get(q) == src_get(src, q) && node.has_path(q) == src_has(src, q)
}

/// Whether `new` is `old` with the subtrie at `at` replaced by one whose values and paths are
/// given by `get` and `has`, the path `at` itself being created.
pub open spec fn grafted<V>(
    old: TrieNode<V>,
    new: TrieNode<V>,
    at: Seq<u8>,
    get: spec_fn(Seq<u8>) -> Option<V>,
    has: spec_fn(Seq<u8>) -> bool,
) -> bool {
    &&& forall|q: Seq<u8>|
        #![trigger new.node_at(q)]
        at.is_prefix_of(q) ==> new.get(q) == get(q.skip(at.len() as int)) && new.has_path(q) == has(
            q.skip(at.len() as int),
        )
    &&& forall|q: Seq<u8>|
        #![trigger new.node_at(q)]
        !at.is_prefix_of(q) ==> new.get(q) == old.get(q) && new.has_path(q) == (old.has_path(q)
            || q.is_prefix_of(at))
}

/// A node that stands for a missing subtrie.
pub fn empty_node<V: Copy>() -> (n: TrieNode<V>)
    ensures
        n.wf(),
        n.is_bare(),
        stands_for(n, None),
{
    let n = TrieNode::new();
    proof {
        assert forall|q: Seq<u8>| #![trigger n.node_at(q)] n.get(q) == src_get(None::<TrieNode<V>>, q) && n.has_path(q) == src_has(None::<TrieNode<V>>, q) by {
            crate::trie::lemma_bare_paths(n, q);
        }
    }
    n
}

/// A node stands for itself.
pub proof fn lemma_stands_for_self<V>(n: TrieNode<V>)
    ensures
        stands_for(n, Some(n)),
{
    assert forall|q: Seq<u8>| #![trigger n.node_at(q)] n.get(q) == src_get(Some(n), q) && n.has_path(q) == src_has(Some(n), q) by {
        if q.len() == 0 {
            assert(n.node_at(q) == Some(n));
        }
    }
}

/// A cursor over a trie that reads it: `root` is the subtrie at the zipper's origin, absent when
/// the origin path does not exist, and `path` is the focus below the origin.
pub struct ReadZipper<'a, V> {
    pub root: Option<&'a TrieNode<V>>,
    pub origin: Vec<u8>,
    pub path: Vec<u8>,
}

impl<'a, V> ReadZipper<'a, V> {
    /// The zipper's invariant: the trie it reads is well formed.
    pub open spec fn inv(self) -> bool {
        self.root matches Some(r) ==> r.wf()
    }

    /// The subtrie at the origin.
    pub open spec fn root_node(self) -> Option<TrieNode<V>> {
        match self.root {
            Some(r) => Some(*r),
            None => None,
        }
    }

    /// The subtrie at the focus.
    pub open spec fn focus_node(self) -> Option<TrieNode<V>> {
        opt_node_at(self.root_node(), self.path@)
    }

    /// Whether the focus path exists.
    pub open spec fn focus_exists(self) -> bool {
        self.focus_node() is Some
    }

    /// The value at the focus.
    pub open spec fn focus_val(self) -> Option<V> {
        opt_get(self.focus_node(), Seq::<u8>::empty())
    }

    /// The number of children below the focus.
    pub open spec fn child_count_spec(self) -> nat {
        bytes_count_below(|b: int| self.focus_node() matches Some(n) && n.child(b) is Some, 256)
    }

    /// Whether the zipper reads the same subtrie from the same origin as `other`.
    pub open spec fn same_source(self, other: ReadZipper<'a, V>) -> bool {
        self.root == other.root && self.origin@ == other.origin@
    }
}

impl<'a, V: Copy> ReadZipper<'a, V> {
    /// A zipper reading `root` from its own root
    pub fn new(root: Option<&'a TrieNode<V>>, origin: Vec<u8>) -> (z: ReadZipper<'a, V>)
        ensures
            z.root == root,
            z.origin@ == origin@,
            z.path@ == Seq::<u8>::empty(),
    {
        ReadZipper { root, origin, path: Vec::new() }
    }

    /// The focus path, relative to the origin
    pub fn path(&self) -> (r: &[u8])
        ensures
            r@ == self.path@,
    {
        self.path.as_slice()
    }

    /// The path from the root of the map to the origin
    pub fn root_prefix_path(&self) -> (r: &[u8])
        ensures
            r@ == self.origin@,
    {
        self.origin.as_slice()
    }

    /// The path from the root of the map to the focus
    pub fn origin_path(&self) -> (r: Vec<u8>)
        ensures
            r@ == self.origin@ + self.path@,
    {
        let mut r = self.origin.clone();
        let mut i: usize = 0;
        while i < self.path.len()
            invariant
                i <= self.path@.len(),
                r@ == self.origin@ + self.path@.take(i as int),
            decreases self.path@.len() - i,
        {
            r.push(self.path[i]);
            proof {
                assert(self.path@.take(i + 1) =~= self.path@.take(i as int).push(self.path@[i as int]));
            }
            i = i + 1;
        }
        proof {
            assert(self.path@.take(self.path@.len() as int) =~= self.path@);
        }
        r
    }

    /// Whether the focus is at the origin
    pub fn at_root(&self) -> (r: bool)
        ensures
            r == (self.path@.len() == 0),
    {
        self.path.len() == 0
    }

    /// Moves the focus back to the origin
    pub fn reset(&mut self)
        ensures
            final(self).same_source(*old(self)),
            final(self).path@ == Seq::<u8>::empty(),
    {
        self.path.clear();
    }

    /// Moves the focus down along `k`
    pub fn descend_to(&mut self, k: &[u8])
        ensures
            final(self).same_source(*old(self)),
            final(self).path@ == old(self).path@ + k@,
    {
        let mut i: usize = 0;
        while i < k.len()
            invariant
                i <= k@.len(),
                self.same_source(*old(self)),
                self.path@ == old(self).path@ + k@.take(i as int),
            decreases k@.len() - i,
        {
            self.path.push(k[i]);
            proof {
                assert(k@.take(i + 1) =~= k@.take(i as int).push(k@[i as int]));
            }
            i = i + 1;
        }
        proof {
            assert(k@.take(k@.len() as int) =~= k@);
        }
    }

    /// Moves the focus down by one byte
    pub fn descend_to_byte(&mut self, b: u8)
        ensures
            final(self).same_source(*old(self)),
            final(self).path@ == old(self).path@.push(b),
    {
        self.path.push(b);
    }

    /// Moves the focus up by `steps` bytes; when the focus is less deep than that, it stops at
    /// the origin and `false` is returned
    pub fn ascend(&mut self, steps: usize) -> (r: bool)
        ensures
            final(self).same_source(*old(self)),
            r == (steps <= old(self).path@.len()),
            final(self).path@ == if r {
                old(self).path@.take(old(self).path@.len() - steps)
            } else {
                Seq::<u8>::empty()
            },
    {
        if steps <= self.path.len() {
            let n = self.path.len() - steps;
            self.path.truncate(n);
            true
        } else {
            self.path.clear();
            false
        }
    }

    /// Moves the focus up by one byte; `false` at the origin
    pub fn ascend_byte(&mut self) -> (r: bool)
        ensures
            final(self).same_source(*old(self)),
            r == (old(self).path@.len() > 0),
            final(self).path@ == if r {
                old(self).path@.drop_last()
            } else {
                old(self).path@
            },
    {
        if self.path.len() == 0 {
            false
        } else {
            self.path.pop();
            true
        }
    }

    /// The subtrie at the focus
    pub fn focus(&self) -> (r: Option<&'a TrieNode<V>>)
        requires
            self.inv(),
        ensures
            opt_value(r) == self.focus_node(),
            r matches Some(n) ==> n.wf(),
    {
        match self.root {
            Some(n) => n.node_at_path(self.path.as_slice()),
            None => None,
        }
    }

    /// Whether the focus path exists
    pub fn path_exists(&self) -> (r: bool)
        requires
            self.inv(),
        ensures
            r == self.focus_exists(),
    {
        self.focus().is_some()
    }

    /// The value at the focus
    pub fn val(&self) -> (r: Option<&'a V>)
        requires
            self.inv(),
        ensures
            opt_value(r) == self.focus_val(),
    {
        match self.focus() {
            Some(n) => n.node_val(),
            None => None,
        }
    }

    /// Whether there is a value at the focus
    pub fn is_val(&self) -> (r: bool)
        requires
            self.inv(),
        ensures
            r == (self.focus_val() is Some),
    {
        self.val().is_some()
    }

    /// The bytes below which the focus has a child
    pub fn child_mask(&self) -> (m: ByteMask)
        requires
            self.inv(),
        ensures
            forall|b: int| #[trigger] m.has(b) <==> (self.focus_node() matches Some(n) && n.child(b) is Some),
    {
        match self.focus() {
            Some(n) => n.child_mask(),
            None => ByteMask::new(),
        }
    }

    /// The number of children below the focus
    pub fn child_count(&self) -> (r: usize)
        requires
            self.inv(),
        ensures
            r == self.child_count_spec(),
    {
        let m = self.child_mask();
        proof {
            crate::utils::lemma_mask_count(m, |b: int| self.focus_node() matches Some(n) && n.child(b) is Some, 256);
        }
        m.count_bits()
    }

    /// A map holding a copy of the subtrie at the focus, with the focus as its root
    pub fn make_map(&self) -> (m: PathMap<V>)
        requires
            self.inv(),
        ensures
            m.wf(),
            stands_for(m.root, self.focus_node()),
    {
        match self.focus() {
            Some(n) => {
                let m = PathMap { root: n.clone_node() };
                proof {
                    lemma_stands_for_self(*n);
                    assert forall|q: Seq<u8>| #![trigger m.root.node_at(q)] m.root.get(q) == src_get(self.focus_node(), q) && m.root.has_path(q) == src_has(self.focus_node(), q) by {
                        assert(n.node_at(q) == n.node_at(q));
                    }
                }
                m
            },
            None => PathMap { root: empty_node() },
        }
    }
}

/// The concatenation of two byte strings.
pub fn concat_bytes(a: &[u8], b: &[u8]) -> (r: Vec<u8>)
    ensures
        r@ == a@ + b@,
{
    let mut r = vstd::slice::slice_to_vec(a);
    let mut i: usize = 0;
    while i < b.len()
        invariant
            i <= b@.len(),
            r@ == a@ + b@.take(i as int),
        decreases b@.len() - i,
    {
        r.push(b[i]);
        proof {
            assert(b@.take(i + 1) =~= b@.take(i as int).push(b@[i as int]));
        }
        i = i + 1;
    }
    proof {
        assert(b@.take(b@.len() as int) =~= b@);
    }
    r
}

/// A cursor that writes into a map: `origin` is where it was made, and `path` is its focus below
/// the origin.
pub struct WriteZipper<'a, V> {
    pub map: &'a mut PathMap<V>,
    pub origin: Vec<u8>,
    pub path: Vec<u8>,
}

impl<'a, V> WriteZipper<'a, V> {
    /// The zipper's invariant: the map it writes is well formed.
    pub open spec fn inv(self) -> bool {
        self.map.wf()
    }

    /// The path from the root of the map to the focus.
    pub open spec fn focus_path(self) -> Seq<u8> {
        self.origin@ + self.path@
    }

    /// The trie of the map being written.
    pub open spec fn trie(self) -> TrieNode<V> {
        self.map.root
    }

    /// Whether the zipper stays where `other` is.
    pub open spec fn same_place(self, other: WriteZipper<'a, V>) -> bool {
        self.origin@ == other.origin@ && self.path@ == other.path@
    }
}

impl<'a, V: Copy> WriteZipper<'a, V> {
    /// The focus path, relative to the origin
    pub fn path(&self) -> (r: &[u8])
        ensures
            r@ == self.path@,
    {
        self.path.as_slice()
    }

    /// The path from the root of the map to the origin
    pub fn root_prefix_path(&self) -> (r: &[u8])
        ensures
            r@ == self.origin@,
    {
        self.origin.as_slice()
    }

    /// The path from the root of the map to the focus
    pub fn origin_path(&self) -> (r: Vec<u8>)
        ensures
            r@ == self.focus_path(),
    {
        concat_bytes(self.origin.as_slice(), self.path.as_slice())
    }

    /// Moves the focus back to the origin
    pub fn reset(&mut self)
        ensures
            final(self).origin@ == old(self).origin@,
            final(self).path@ == Seq::<u8>::empty(),
            *final(self).map == *old(self).map,
    {
        self.path.clear();
    }

    /// Moves the focus down along `k`
    pub fn descend_to(&mut self, k: &[u8])
        ensures
            final(self).origin@ == old(self).origin@,
            final(self).path@ == old(self).path@ + k@,
            *final(self).map == *old(self).map,
    {
        let mut i: usize = 0;
        while i < k.len()
            invariant
                i <= k@.len(),
                self.origin@ == old(self).origin@,
                *self.map == *old(self).map,
                self.path@ == old(self).path@ + k@.take(i as int),
            decreases k@.len() - i,
        {
            self.path.push(k[i]);
            proof {
                assert(k@.take(i + 1) =~= k@.take(i as int).push(k@[i as int]));
            }
            i = i + 1;
        }
        proof {
            assert(k@.take(k@.len() as int) =~= k@);
        }
    }

    /// Moves the focus down by one byte
    pub fn descend_to_byte(&mut self, b: u8)
        ensures
            final(self).origin@ == old(self).origin@,
            final(self).path@ == old(self).path@.push(b),
            *final(self).map == *old(self).map,
    {
        self.path.push(b);
    }

    /// Moves the focus up by `steps` bytes; when the focus is less deep than that, it stops at
    /// the origin and `false` is returned
    pub fn ascend(&mut self, steps: usize) -> (r: bool)
        ensures
            final(self).origin@ == old(self).origin@,
            *final(self).map == *old(self).map,
            r == (steps <= old(self).path@.len()),
            final(self).path@ == if r {
                old(self).path@.take(old(self).path@.len() - steps)
            } else {
                Seq::<u8>::empty()
            },
    {
        if steps <= self.path.len() {
            let n = self.path.len() - steps;
            self.path.truncate(n);
            true
        } else {
            self.path.clear();
            false
        }
    }

    /// The value at the focus
    pub fn val(&self) -> (r: Option<&V>)
        requires
            self.inv(),
        ensures
            opt_value(r) == self.trie().get(self.focus_path()),
    {
        let p = self.origin_path();
        self.map.get_val_at(p.as_slice())
    }

    /// Whether the focus path exists
    pub fn path_exists(&self) -> (r: bool)
        requires
            self.inv(),
        ensures
            r == self.trie().has_path(self.focus_path()),
    {
        let p = self.origin_path();
        self.map.path_exists_at(p.as_slice())
    }

    /// Sets the value at the focus, returning the one it replaced
    pub fn set_val(&mut self, v: V) -> (old_val: Option<V>)
        requires
            old(self).inv(),
        ensures
            final(self).inv(),
            final(self).same_place(*old(self)),
            old_val == old(self).trie().get(old(self).focus_path()),
            forall|q: Seq<u8>| #[trigger] final(self).map.get(q) == if q == old(self).focus_path() {
                Some(v)
            } else {
                old(self).map.get(q)
            },
            forall|q: Seq<u8>| #[trigger] final(self).map.has_path(q) == (old(self).map.has_path(q)
                || q.is_prefix_of(old(self).focus_path())),
    {
        let p = self.origin_path();
        self.map.set_val_at(p.as_slice(), v)
    }

    /// Removes the value at the focus and returns it; with `prune`, the nodes along the focus
    /// path that are left without a value or a child are removed as well
    pub fn remove_val(&mut self, prune: bool) -> (removed: Option<V>)
        requires
            old(self).inv(),
        ensures
            final(self).inv(),
            final(self).same_place(*old(self)),
            removed == old(self).trie().get(old(self).focus_path()),
            forall|q: Seq<u8>| #[trigger] final(self).map.get(q) == if q == old(self).focus_path() {
                None
            } else {
                old(self).map.get(q)
            },
            forall|q: Seq<u8>| #[trigger] final(self).map.has_path(q) == (old(self).map.has_path(q) && (
                !prune || q.len() == 0 || !q.is_prefix_of(old(self).focus_path())
                || crate::trie::survives(old(self).trie(), old(self).focus_path(), q))),
    {
        let p = self.origin_path();
        self.map.remove_val_at(p.as_slice(), prune)
    }

    /// Replaces the focus, its value and everything below it, by `node`
    pub fn graft_node(&mut self, node: TrieNode<V>)
        requires
            old(self).inv(),
            node.wf(),
        ensures
            final(self).inv(),
            final(self).same_place(*old(self)),
            grafted(old(self).trie(), final(self).trie(), old(self).focus_path(), |q: Seq<u8>| node.get(q), |q: Seq<u8>| node.has_path(q)),
    {
        let p = self.origin_path();
        let ghost fp = p@;
        self.map.root.graft_rec(p.as_slice(), 0, node);
        proof {
            assert(fp.subrange(0, fp.len() as int) =~= fp);
            let new = self.trie();
            assert forall|q: Seq<u8>| #![trigger new.node_at(q)] fp.is_prefix_of(q) implies new.get(q) == node.get(q.skip(fp.len() as int)) && new.has_path(q) == node.has_path(q.skip(fp.len() as int)) by {
                assert(new.node_at(q) == node.node_at(q.skip(fp.len() - 0)));
            }
        }
    }

    /// Replaces everything below the focus by what is below the focus of `src`; the value at the
    /// focus itself is kept
    pub fn graft(&mut self, src: &ReadZipper<V>)
        requires
            old(self).inv(),
            src.inv(),
        ensures
            final(self).inv(),
            final(self).same_place(*old(self)),
            grafted(old(self).trie(), final(self).trie(), old(self).focus_path(), |q: Seq<u8>| if q.len() == 0 {
                old(self).trie().get(old(self).focus_path())
            } else {
                src_get(src.focus_node(), q)
            }, |q: Seq<u8>| src_has(src.focus_node(), q)),
    {
        let keep = match self.val() {
            Some(v) => Some(*v),
            None => None,
        };
        let mut n = match src.focus() {
            Some(f) => {
                let c = f.clone_node();
                proof {
                    lemma_stands_for_self(*f);
                    assert forall|q: Seq<u8>| #![trigger c.node_at(q)] c.get(q) == src_get(src.focus_node(), q) && c.has_path(q) == src_has(src.focus_node(), q) by {
                        assert(f.node_at(q) == f.node_at(q));
                    }
                }
                c
            },
            None => empty_node(),
        };
        let ghost before = n;
        n.val = keep;
        proof {
            assert forall|q: Seq<u8>| #![trigger n.node_at(q)] n.get(q) == (if q.len() == 0 {
                old(self).trie().get(old(self).focus_path())
            } else {
                src_get(src.focus_node(), q)
            }) && n.has_path(q) == src_has(src.focus_node(), q) by {
                if q.len() > 0 {
                    crate::trie::lemma_same_children(n, before, q);
                    assert(before.node_at(q) == before.node_at(q));
                }
            }
        }
        self.graft_node(n);
    }
}

impl<'a, V: Copy> WriteZipper<'a, V> {
    /// Moves everything at the focus, its value included, down below `prefix`, the paths of
    /// `prefix` being created; returns whether there was anything at the focus
    pub fn insert_prefix(&mut self, prefix: &[u8]) -> (r: bool)
        requires
            old(self).inv(),
        ensures
            final(self).inv(),
            final(self).same_place(*old(self)),
            r == (old(self).trie().node_at(old(self).focus_path()) matches Some(n) && !n.is_bare()),
            grafted(old(self).trie(), final(self).trie(), old(self).focus_path(),
                |q: Seq<u8>| if prefix@.is_prefix_of(q) {
                    src_get(old(self).trie().node_at(old(self).focus_path()), q.skip(prefix@.len() as int))
                } else {
                    None
                },
                |q: Seq<u8>| if prefix@.is_prefix_of(q) {
                    src_has(old(self).trie().node_at(old(self).focus_path()), q.skip(prefix@.len() as int))
                } else {
                    q.is_prefix_of(prefix@)
                }),
    {
        let fp = self.origin_path();
        let ghost focus = self.trie().node_at(fp@);
        let moved = match self.map.root.node_at_path(fp.as_slice()) {
            Some(n) => {
                let c = n.clone_node();
                proof {
                    lemma_stands_for_self(*n);
                    assert forall|q: Seq<u8>| #![trigger c.node_at(q)] c.get(q) == src_get(focus, q) && c.has_path(q) == src_has(focus, q) by {
                        assert(n.node_at(q) == n.node_at(q));
                    }
                }
                c
            },
            None => empty_node(),
        };
        let nonempty = !moved.node_is_bare();
        proof {
            assert(stands_for(moved, focus));
            if let Some(n) = focus {
                crate::trie::lemma_node_at_wf(self.trie(), fp@);
                assert(n.wf());
                assert(n.is_bare() == moved.is_bare()) by {
                    if n.is_bare() && !moved.is_bare() {
                        if moved.val is Some {
                            assert(moved.node_at(Seq::<u8>::empty()) == Some(moved));
                            assert(moved.get(Seq::<u8>::empty()) is Some);
                            assert(n.node_at(Seq::<u8>::empty()) == Some(n));
                            assert(src_get(focus, Seq::<u8>::empty()) == n.val);
                            assert(false);
                        } else {
                            let b = choose|b: int| #[trigger] moved.child(b) is Some;
                            assert(0 <= b < 256);
                            let q = seq![b as u8];
                            assert(q.drop_first() =~= Seq::<u8>::empty());
                            assert(moved.node_at(q) == moved.child(b).unwrap().node_at(q.drop_first()));
                            assert(moved.has_path(q));
                            assert(src_has(focus, q));
                            assert(n.has_path(q));
                            crate::trie::lemma_bare_paths(n, q);
                            assert(false);
                        }
                    }
                    if !n.is_bare() && moved.is_bare() {
                        if n.val is Some {
                            assert(n.node_at(Seq::<u8>::empty()) == Some(n));
                            assert(moved.node_at(Seq::<u8>::empty()) == Some(moved));
                            assert(moved.get(Seq::<u8>::empty()) == src_get(focus, Seq::<u8>::empty()));
                            assert(false);
                        } else {
                            let b = choose|b: int| #[trigger] n.child(b) is Some;
                            assert(0 <= b < 256);
                            let q = seq![b as u8];
                            assert(q.drop_first() =~= Seq::<u8>::empty());
                            assert(n.node_at(q) == n.child(b).unwrap().node_at(q.drop_first()));
                            assert(n.has_path(q));
                            assert(moved.node_at(q) == moved.node_at(q));
                            assert(moved.has_path(q));
                            crate::trie::lemma_bare_paths(moved, q);
                            assert(false);
                        }
                    }
                }
            }
        }
        let mut t = TrieNode::new();
        let ghost t0 = t;
        t.graft_rec(prefix, 0, moved);
        proof {
            assert(prefix@.subrange(0, prefix@.len() as int) =~= prefix@);
            assert forall|q: Seq<u8>| #![trigger t.node_at(q)] t.get(q) == (if prefix@.is_prefix_of(q) {
                src_get(focus, q.skip(prefix@.len() as int))
            } else {
                None
            }) && t.has_path(q) == (if prefix@.is_prefix_of(q) {
                src_has(focus, q.skip(prefix@.len() as int))
            } else {
                q.is_prefix_of(prefix@)
            }) by {
                crate::trie::lemma_bare_paths(t0, q);
                if prefix@.is_prefix_of(q) {
                    assert(t.node_at(q) == moved.node_at(q.skip(prefix@.len() - 0)));
                    assert(moved.node_at(q.skip(prefix@.len() as int)) == moved.node_at(q.skip(prefix@.len() as int)));
                }
            }
        }
        self.graft_node(t);
        nonempty
    }
}

impl<V: Copy> PathMap<V> {
    /// A zipper reading the map from its root
    pub fn read_zipper(&self) -> (z: ReadZipper<'_, V>)
        requires
            self.wf(),
        ensures
            z.inv(),
            z.root_node() == Some(self.root),
            z.origin@ == Seq::<u8>::empty(),
            z.path@ == Seq::<u8>::empty(),
    {
        ReadZipper::new(Some(&self.root), Vec::new())
    }

    /// A zipper reading the map from `path`
    pub fn read_zipper_at_path(&self, path: &[u8]) -> (z: ReadZipper<'_, V>)
        requires
            self.wf(),
        ensures
            z.inv(),
            z.root_node() == self.root.node_at(path@),
            z.origin@ == path@,
            z.path@ == Seq::<u8>::empty(),
    {
        ReadZipper::new(self.root.node_at_path(path), vstd::slice::slice_to_vec(path))
    }

    /// A zipper writing into the map from its root
    pub fn write_zipper(&mut self) -> (z: WriteZipper<'_, V>)
        requires
            old(self).wf(),
        ensures
            z.inv(),
            *z.map == *old(self),
            z.origin@ == Seq::<u8>::empty(),
            z.path@ == Seq::<u8>::empty(),
    {
        WriteZipper { map: self, origin: Vec::new(), path: Vec::new() }
    }

    /// A zipper writing into the map from `path`
    pub fn write_zipper_at_path(&mut self, path: &[u8]) -> (z: WriteZipper<'_, V>)
        requires
            old(self).wf(),
        ensures
            z.inv(),
            *z.map == *old(self),
            z.origin@ == path@,
            z.path@ == Seq::<u8>::empty(),
    {
        WriteZipper { map: self, origin: vstd::slice::slice_to_vec(path), path: Vec::new() }
    }
}

} // verus!
