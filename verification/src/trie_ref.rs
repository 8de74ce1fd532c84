//! Read-only references to a location in a trie, borrowed from a map or owning a copy of the
//! subtrie there.
use vstd::prelude::*;
use crate::pathmap::PathMap;
use crate::ring::opt_value;
use crate::trie::{lemma_node_at_append, lemma_node_at_wf, opt_get, opt_node_at, TrieNode};
use crate::utils::ByteMask;
use crate::zipper::{empty_node, grafted, lemma_stands_for_self, src_get, src_has, stands_for, ReadZipper, WriteZipper};

verus! {

/// Something that holds a subtrie that can be read at a path below it.
pub trait SubtrieSource<V> {
    /// The subtrie held, absent where the location does not exist.
    spec fn source_node(&self) -> Option<TrieNode<V>>;

    /// Whether the subtrie held is well formed.
    spec fn source_inv(&self) -> bool;

    /// The subtrie at `path` below the one held
    fn subtrie_at(&self, path: &[u8]) -> (r: Option<&TrieNode<V>>)
        requires
            self.source_inv(),
        ensures
            opt_value(r) == opt_node_at(self.source_node(), path@),
            r matches Some(n) ==> n.wf(),
    ;
}

/// A borrowed read-only reference to a location in a trie
pub struct TrieRefBorrowed<'a, V> {
    pub node: Option<&'a TrieNode<V>>,
}

/// An owned read-only reference to a location in a trie: a copy of the subtrie there
pub struct TrieRefOwned<V> {
    pub node: Option<TrieNode<V>>,
}

/// A witness that keeps a value of a [TrieRefOwned] alive
pub struct TrieRefWitness<V>(pub TrieRefOwned<V>);

/// A trie reference that is either borrowed or owned
pub enum TrieRef<'a, V> {
    Borrowed(TrieRefBorrowed<'a, V>),
    Owned(TrieRefOwned<V>),
}

impl<'a, V> SubtrieSource<V> for TrieRefBorrowed<'a, V> {
    open spec fn source_node(&self) -> Option<TrieNode<V>> {
        opt_value(self.node)
    }

    open spec fn source_inv(&self) -> bool {
        self.node matches Some(n) ==> n.wf()
    }

    fn subtrie_at(&self, path: &[u8]) -> (r: Option<&TrieNode<V>>) {
        match self.node {
            Some(n) => n.node_at_path_any(path),
            None => None,
        }
    }
}

impl<V> SubtrieSource<V> for TrieRefOwned<V> {
    open spec fn source_node(&self) -> Option<TrieNode<V>> {
        self.node
    }

    open spec fn source_inv(&self) -> bool {
        self.node matches Some(n) ==> n.wf()
    }

    fn subtrie_at(&self, path: &[u8]) -> (r: Option<&TrieNode<V>>) {
        match &self.node {
            Some(n) => n.node_at_path_any(path),
            None => None,
        }
    }
}

impl<'a, V> SubtrieSource<V> for ReadZipper<'a, V> {
    open spec fn source_node(&self) -> Option<TrieNode<V>> {
        self.focus_node()
    }

    open spec fn source_inv(&self) -> bool {
        self.inv()
    }

    fn subtrie_at(&self, path: &[u8]) -> (r: Option<&TrieNode<V>>)
        ensures
            opt_value(r) == opt_node_at(self.root_node(), self.path@ + path@),
    {
        match self.root {
            Some(n) => {
                let full = crate::zipper::concat_bytes(self.path.as_slice(), path);
                let r = n.node_at_path_any(full.as_slice());
                proof {
                    lemma_node_at_append(*n, self.path@, path@);
                }
                r
            },
            None => None,
        }
    }
}

impl<V> TrieNode<V> {
    /// The node at `path` below this one
    pub fn node_at_path_any(&self, path: &[u8]) -> (r: Option<&TrieNode<V>>)
        requires
            self.wf(),
        ensures
            opt_value(r) == self.node_at(path@),
            r matches Some(m) ==> m.wf(),
    {
        let mut cur: &TrieNode<V> = self;
        let mut i: usize = 0;
        while i < path.len()
            invariant
                i <= path@.len(),
                cur.wf(),
                self.node_at(path@.subrange(0, i as int)) == Some(*cur),
            decreases path@.len() - i,
        {
            proof {
                crate::trie::lemma_node_at_push(*self, path@.subrange(0, i as int), path@[i as int]);
                assert(path@.subrange(0, i as int).push(path@[i as int]) =~= path@.subrange(0, i + 1));
            }
            if cur.children.len() == 0 {
                proof {
                    assert(cur.child(path@[i as int] as int) is None);
                    lemma_node_at_append(*self, path@.subrange(0, i + 1), path@.subrange(i + 1, path@.len() as int));
                    assert(path@.subrange(0, i + 1) + path@.subrange(i + 1, path@.len() as int) =~= path@);
                }
                return None;
            }
            match &cur.children[path[i] as usize] {
                Some(c) => {
                    proof {
                        assert(cur.children@[path@[i as int] as int] matches Some(cc) && cc.wf());
                    }
                    cur = &**c;
                },
                None => {
                    proof {
                        lemma_node_at_append(*self, path@.subrange(0, i + 1), path@.subrange(i + 1, path@.len() as int));
                        assert(path@.subrange(0, i + 1) + path@.subrange(i + 1, path@.len() as int) =~= path@);
                    }
                    return None;
                },
            }
            i = i + 1;
        }
        proof {
            assert(path@.subrange(0, i as int) =~= path@);
        }
        Some(cur)
    }
}

/// The bytes below which `n` has a child, none where it is absent
fn opt_child_mask<V: Copy>(n: Option<&TrieNode<V>>) -> (m: ByteMask)
    requires
        n matches Some(x) ==> x.wf(),
    ensures
        forall|b: int| #[trigger] m.has(b) <==> (opt_value(n) matches Some(x) && x.child(b) is Some),
{
    match n {
        Some(x) => x.child_mask(),
        None => ByteMask::new(),
    }
}

/// Whether an optional node has a child below byte `b`.
pub open spec fn child_pred<V>(n: Option<TrieNode<V>>) -> spec_fn(int) -> bool {
    |b: int| n matches Some(x) && x.child(b) is Some
}

/// The number of children of an optional node.
pub open spec fn children_of<V>(n: Option<TrieNode<V>>) -> nat {
    crate::utils::bytes_count_below(child_pred(n), 256)
}

impl<'a, V: Copy> TrieRefBorrowed<'a, V> {
    /// The value at the referenced location
    pub fn val(&self) -> (r: Option<&'a V>)
        requires
            self.source_inv(),
        ensures
            opt_value(r) == opt_get(self.source_node(), Seq::<u8>::empty()),
    {
        match self.node {
            Some(n) => n.node_val(),
            None => None,
        }
    }

    /// The value at `path` below the referenced location
    pub fn val_at(&self, path: &[u8]) -> (r: Option<&'a V>)
        requires
            self.source_inv(),
        ensures
            opt_value(r) == opt_get(self.source_node(), path@),
    {
        match self.node {
            Some(n) => match n.node_at_path_any(path) {
                Some(m) => m.node_val(),
                None => None,
            },
            None => None,
        }
    }

    /// Whether the referenced location exists
    pub fn path_exists(&self) -> (r: bool)
        ensures
            r == (self.source_node() is Some),
    {
        self.node.is_some()
    }

    /// The bytes below which the referenced location has a child
    pub fn child_mask(&self) -> (m: ByteMask)
        requires
            self.source_inv(),
        ensures
            forall|b: int| #[trigger] m.has(b) <==> (self.source_node() matches Some(x) && x.child(b) is Some),
    {
        opt_child_mask(self.node)
    }

    /// The number of children of the referenced location
    pub fn child_count(&self) -> (r: usize)
        requires
            self.source_inv(),
        ensures
            r == children_of(self.source_node()),
    {
        let m = self.child_mask();
        proof {
            crate::utils::lemma_mask_count(m, child_pred(self.source_node()), 256);
        }
        m.len()
    }

    /// A reference to the location at `path` below this one
    pub fn trie_ref_at_path(&self, path: &[u8]) -> (r: TrieRefBorrowed<'a, V>)
        requires
            self.source_inv(),
        ensures
            r.source_inv(),
            r.source_node() == opt_node_at(self.source_node(), path@),
    {
        match self.node {
            Some(n) => TrieRefBorrowed { node: n.node_at_path_any(path) },
            None => TrieRefBorrowed { node: None },
        }
    }

    /// A zipper reading the referenced subtrie from its root
    pub fn fork_read_zipper(&self) -> (z: ReadZipper<'a, V>)
        requires
            self.source_inv(),
        ensures
            z.inv(),
            z.root_node() == self.source_node(),
            z.origin@ == Seq::<u8>::empty(),
            z.path@ == Seq::<u8>::empty(),
    {
        ReadZipper::new(self.node, Vec::new())
    }

    /// A map holding a copy of the referenced subtrie
    pub fn make_map(&self) -> (m: PathMap<V>)
        requires
            self.source_inv(),
        ensures
            m.wf(),
            stands_for(m.root, self.source_node()),
    {
        self.fork_read_zipper().make_map()
    }
}

impl<V: Copy> TrieRefOwned<V> {
    /// The value at the referenced location
    pub fn val(&self) -> (r: Option<&V>)
        requires
            self.source_inv(),
        ensures
            opt_value(r) == opt_get(self.source_node(), Seq::<u8>::empty()),
    {
        match &self.node {
            Some(n) => n.node_val(),
            None => None,
        }
    }

    /// The value at `path` below the referenced location
    pub fn val_at(&self, path: &[u8]) -> (r: Option<&V>)
        requires
            self.source_inv(),
        ensures
            opt_value(r) == opt_get(self.source_node(), path@),
    {
        match &self.node {
            Some(n) => match n.node_at_path_any(path) {
                Some(m) => m.node_val(),
                None => None,
            },
            None => None,
        }
    }

    /// Whether the referenced location exists
    pub fn path_exists(&self) -> (r: bool)
        ensures
            r == (self.source_node() is Some),
    {
        self.node.is_some()
    }

    /// The number of children of the referenced location
    pub fn child_count(&self) -> (r: usize)
        requires
            self.source_inv(),
        ensures
            r == children_of(self.source_node()),
    {
        let m = opt_child_mask(self.node.as_ref());
        proof {
            crate::utils::lemma_mask_count(m, child_pred(self.source_node()), 256);
        }
        m.len()
    }

    /// A reference owning a copy of the location at `path` below this one
    pub fn trie_ref_at_path(&self, path: &[u8]) -> (r: TrieRefOwned<V>)
        requires
            self.source_inv(),
        ensures
            r.source_inv(),
            r.source_node() matches Some(n) ==> opt_node_at(self.source_node(), path@) matches Some(m) && n.same_space(m),
            r.source_node() is None <==> opt_node_at(self.source_node(), path@) is None,
    {
        match self.subtrie_at(path) {
            Some(n) => {
                let c = n.clone_node();
                TrieRefOwned { node: Some(c) }
            },
            None => TrieRefOwned { node: None },
        }
    }

    /// A zipper reading the referenced subtrie from its root
    pub fn fork_read_zipper(&self) -> (z: ReadZipper<'_, V>)
        requires
            self.source_inv(),
        ensures
            z.inv(),
            z.root_node() == self.source_node(),
            z.origin@ == Seq::<u8>::empty(),
            z.path@ == Seq::<u8>::empty(),
    {
        ReadZipper::new(self.node.as_ref(), Vec::new())
    }

    /// A map holding a copy of the referenced subtrie
    pub fn make_map(&self) -> (m: PathMap<V>)
        requires
            self.source_inv(),
        ensures
            m.wf(),
            stands_for(m.root, self.source_node()),
    {
        self.fork_read_zipper().make_map()
    }

    /// A witness holding a copy of this reference
    pub fn witness(&self) -> (w: TrieRefWitness<V>)
        requires
            self.source_inv(),
        ensures
            w.0.source_inv(),
            w.0.source_node() matches Some(n) ==> self.source_node() matches Some(m) && n.same_space(m),
            w.0.source_node() is None <==> self.source_node() is None,
    {
        let r = self.trie_ref_at_path(&[]);
        proof {
            if let Some(n) = self.source_node() {
                assert(n.node_at(Seq::<u8>::empty()) == Some(n));
            }
        }
        TrieRefWitness(r)
    }

    /// The value at the referenced location, borrowed from `witness`
    pub fn get_val_with_witness<'w>(&self, witness: &'w TrieRefWitness<V>) -> (r: Option<&'w V>)
        requires
            witness.0.source_inv(),
        ensures
            opt_value(r) == opt_get(witness.0.source_node(), Seq::<u8>::empty()),
    {
        witness.0.val()
    }
}

impl<'a, V: Copy> From<PathMap<V>> for TrieRef<'a, V> {
    fn from(map: PathMap<V>) -> (r: TrieRef<'a, V>) {
        TrieRef::Owned(TrieRefOwned { node: Some(map.root) })
    }
}

impl<'a, V: Copy> vstd::std_specs::convert::FromSpecImpl<PathMap<V>> for TrieRef<'a, V> {
    open spec fn obeys_from_spec() -> bool {
        true
    }

    open spec fn from_spec(map: PathMap<V>) -> Self {
        TrieRef::Owned(TrieRefOwned { node: Some(map.root) })
    }
}

impl<'a, V: Copy> TrieRef<'a, V> {
    /// The subtrie referenced.
    pub open spec fn source(self) -> Option<TrieNode<V>> {
        match self {
            TrieRef::Borrowed(b) => b.source_node(),
            TrieRef::Owned(o) => o.source_node(),
        }
    }

    /// Whether the subtrie referenced is well formed.
    pub open spec fn ref_inv(self) -> bool {
        match self {
            TrieRef::Borrowed(b) => b.source_inv(),
            TrieRef::Owned(o) => o.source_inv(),
        }
    }

    /// The value at the referenced location
    pub fn val(&self) -> (r: Option<&V>)
        requires
            self.ref_inv(),
        ensures
            opt_value(r) == opt_get(self.source(), Seq::<u8>::empty()),
    {
        match self {
            TrieRef::Borrowed(b) => b.val(),
            TrieRef::Owned(o) => o.val(),
        }
    }

    /// The value at `path` below the referenced location
    pub fn val_at(&self, path: &[u8]) -> (r: Option<&V>)
        requires
            self.ref_inv(),
        ensures
            opt_value(r) == opt_get(self.source(), path@),
    {
        match self {
            TrieRef::Borrowed(b) => b.val_at(path),
            TrieRef::Owned(o) => o.val_at(path),
        }
    }

    /// Whether the referenced location exists
    pub fn path_exists(&self) -> (r: bool)
        ensures
            r == (self.source() is Some),
    {
        match self {
            TrieRef::Borrowed(b) => b.path_exists(),
            TrieRef::Owned(o) => o.path_exists(),
        }
    }

    /// The number of children of the referenced location
    pub fn child_count(&self) -> (r: usize)
        requires
            self.ref_inv(),
        ensures
            r == children_of(self.source()),
    {
        match self {
            TrieRef::Borrowed(b) => b.child_count(),
            TrieRef::Owned(o) => o.child_count(),
        }
    }
}

impl<'a, V: Copy> PathMap<V> {
    /// A reference to the location at `path`
    pub fn trie_ref_at_path(&'a self, path: &[u8]) -> (r: TrieRefBorrowed<'a, V>)
        requires
            self.wf(),
        ensures
            r.source_inv(),
            r.source_node() == self.root.node_at(path@),
    {
        TrieRefBorrowed { node: self.root.node_at_path_any(path) }
    }
}

impl<'a, V: Copy> WriteZipper<'a, V> {
    /// Replaces everything below the focus by what is below `path` in the subtrie `src` holds;
    /// the value at the focus itself is kept. The subtrie is taken exactly at the end of `path`,
    /// so no byte of `path`, its last one included, is grafted: a source at `a` with the path `:`
    /// and a source at `a:` with the empty path graft the same paths
    pub fn graft_src_at<S: SubtrieSource<V>>(&mut self, src: &S, path: &[u8])
        requires
            old(self).inv(),
            src.source_inv(),
        ensures
            final(self).inv(),
            final(self).same_place(*old(self)),
            grafted(old(self).trie(), final(self).trie(), old(self).focus_path(), |q: Seq<u8>| if q.len() == 0 {
                old(self).trie().get(old(self).focus_path())
            } else {
                src_get(opt_node_at(src.source_node(), path@), q)
            }, |q: Seq<u8>| src_has(opt_node_at(src.source_node(), path@), q)),
    {
        let ghost target = opt_node_at(src.source_node(), path@);
        let keep = match self.val() {
            Some(v) => Some(*v),
            None => None,
        };
        let mut n = match src.subtrie_at(path) {
            Some(f) => {
                let c = f.clone_node();
                proof {
                    lemma_stands_for_self(*f);
                    assert forall|q: Seq<u8>| #![trigger c.node_at(q)] c.get(q) == src_get(target, q) && c.has_path(q) == src_has(target, q) by {
                        assert(f.node_at(q) == f.node_at(q));
                    }
                }
                c
            },
            None => empty_node(),
        };
        let ghost before = n;
        n.val = keep;
        proof {
            assert forall|q: Seq<u8>| #![trigger n.node_at(q)] n.get(q) == (if q.len() == 0 {
                old(self).trie().get(old(self).focus_path())
            } else {
                src_get(target, q)
            }) && n.has_path(q) == src_has(target, q) by {
                if q.len() > 0 {
                    crate::trie::lemma_same_children(n, before, q);
                    assert(before.node_at(q) == before.node_at(q));
                }
            }
        }
        self.graft_node(n);
    }
}

} // verus!
