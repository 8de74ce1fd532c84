//! The interface every zipper offers, concrete or virtual: a space of paths and values seen from
//! a root, and a focus that moves over it.
use vstd::prelude::*;
use crate::pathmap::PathMap;
use crate::ring::opt_value;
use crate::trie::{
    diverges, empty_slots, lemma_exists_prefix, lemma_height, lemma_path_before_asym, lemma_path_before_below,
    lemma_path_before_convex, lemma_path_before_siblings, lemma_path_before_trans, height, opt_exists, opt_get, path_before, TrieNode,
};
use crate::utils::{bytes_count_below, BitMask, ByteMask};
use crate::zipper::{empty_node, ReadZipper};

verus! {

/// Whether two zippers see the same space of paths and values.
pub open spec fn keeps_space<V: Copy, Z: ZipperMoving<Val = V>>(a: Z, b: Z) -> bool {
    &&& a.sheight() == b.sheight()
    &&& forall|p: Seq<u8>| #[trigger] a.sget(p) == b.sget(p)
    &&& forall|p: Seq<u8>| #[trigger] a.shas(p) == b.shas(p)
}

/// Whether `child` extends the focus `p` by one byte and exists.
pub open spec fn has_child<V: Copy, Z: ZipperMoving<Val = V>>(z: Z, p: Seq<u8>, b: int) -> bool {
    0 <= b < 256 && z.shas(p.push(b as u8))
}

/// The number of children below the focus.
pub open spec fn child_count_of<V: Copy, Z: ZipperMoving<Val = V>>(z: Z) -> nat {
    bytes_count_below(|b: int| has_child(z, z.spath(), b), 256)
}

/// A cursor over a space of paths and values, seen from the zipper's root.
pub trait ZipperMoving: Sized {
    /// The values the zipper sees.
    type Val: Copy;

    /// The zipper's invariant.
    spec fn zinv(&self) -> bool;

    /// The value at path `p` below the root.
    spec fn sget(&self, p: Seq<u8>) -> Option<Self::Val>;

    /// Whether path `p` below the root exists.
    spec fn shas(&self, p: Seq<u8>) -> bool;

    /// The focus, as a path below the root.
    spec fn spath(&self) -> Seq<u8>;

    /// A bound on the length of the paths of the space.
    spec fn sheight(&self) -> nat;

    /// The space is closed under prefixes, holds values only on its paths, and is bounded.
    proof fn lemma_space(&self)
        requires
            self.zinv(),
        ensures
            forall|p: Seq<u8>, q: Seq<u8>|
                #![trigger self.shas(p), self.shas(q)]
                self.shas(p) && q.is_prefix_of(p) ==> self.shas(q),
            forall|p: Seq<u8>| #[trigger] self.sget(p) is Some ==> self.shas(p),
            forall|p: Seq<u8>| #[trigger] self.shas(p) ==> p.len() <= self.sheight(),
    ;

    /// Whether the zipper reads a trie held in memory, rather than a space made up from others.
    spec fn native(&self) -> bool;

    /// Whether the zipper reads a trie held in memory, rather than a space made up from others
    fn native_subtries(&self) -> (r: bool)
        ensures
            r == self.native(),
    ;

    /// A copy of the zipper
    fn fork(&self) -> (r: Self)
        requires
            self.zinv(),
        ensures
            r.zinv(),
            r.sheight() == self.sheight(),
            forall|p: Seq<u8>| #[trigger] r.sget(p) == self.sget(p),
            forall|p: Seq<u8>| #[trigger] r.shas(p) == self.shas(p),
            r.spath() == self.spath(),
    ;

    /// Whether the focus path exists
    fn path_exists(&self) -> (r: bool)
        requires
            self.zinv(),
        ensures
            r == self.shas(self.spath()),
    ;

    /// The value at the focus
    fn val(&self) -> (r: Option<&Self::Val>)
        requires
            self.zinv(),
        ensures
            opt_value(r) == self.sget(self.spath()),
    ;

    /// The bytes below which the focus has a child
    fn child_mask(&self) -> (m: ByteMask)
        requires
            self.zinv(),
        ensures
            forall|b: int| #[trigger] m.has(b) <==> (0 <= b < 256 && self.shas(self.spath().push(b as u8))),
    ;

    /// The focus, as a path below the root
    fn path(&self) -> (r: &[u8])
        requires
            self.zinv(),
        ensures
            r@ == self.spath(),
    ;

    /// Moves the focus back to the root
    fn reset(&mut self)
        requires
            old(self).zinv(),
        ensures
            final(self).zinv(),
            final(self).sheight() == old(self).sheight(),
            forall|p: Seq<u8>| #[trigger] final(self).sget(p) == old(self).sget(p),
            forall|p: Seq<u8>| #[trigger] final(self).shas(p) == old(self).shas(p),
            final(self).spath() == Seq::<u8>::empty(),
    ;

    /// Moves the focus down by one byte
    fn descend_to_byte(&mut self, b: u8)
        requires
            old(self).zinv(),
        ensures
            final(self).zinv(),
            final(self).sheight() == old(self).sheight(),
            forall|p: Seq<u8>| #[trigger] final(self).sget(p) == old(self).sget(p),
            forall|p: Seq<u8>| #[trigger] final(self).shas(p) == old(self).shas(p),
            final(self).spath() == old(self).spath().push(b),
    ;

    /// Moves the focus up by one byte; `false` at the root
    fn ascend_byte(&mut self) -> (r: bool)
        requires
            old(self).zinv(),
        ensures
            final(self).zinv(),
            final(self).sheight() == old(self).sheight(),
            forall|p: Seq<u8>| #[trigger] final(self).sget(p) == old(self).sget(p),
            forall|p: Seq<u8>| #[trigger] final(self).shas(p) == old(self).shas(p),
            r == (old(self).spath().len() > 0),
            final(self).spath() == if r {
                old(self).spath().drop_last()
            } else {
                old(self).spath()
            },
    ;

    /// Whether the focus is at the root
    fn at_root(&self) -> (r: bool)
        requires
            self.zinv(),
        ensures
            r == (self.spath().len() == 0),
    {
        self.path().len() == 0
    }

    /// Whether there is a value at the focus
    fn is_val(&self) -> (r: bool)
        requires
            self.zinv(),
        ensures
            r == (self.sget(self.spath()) is Some),
    {
        self.val().is_some()
    }

    /// Moves the focus down along `k`
    fn descend_to(&mut self, k: &[u8])
        requires
            old(self).zinv(),
        ensures
            final(self).zinv(),
            final(self).sheight() == old(self).sheight(),
            forall|p: Seq<u8>| #[trigger] final(self).sget(p) == old(self).sget(p),
            forall|p: Seq<u8>| #[trigger] final(self).shas(p) == old(self).shas(p),
            final(self).spath() == old(self).spath() + k@,
    {
        let mut i: usize = 0;
        while i < k.len()
            invariant
                i <= k@.len(),
                self.zinv(),
                self.sheight() == old(self).sheight(),
            forall|p: Seq<u8>| #[trigger] self.sget(p) == old(self).sget(p),
            forall|p: Seq<u8>| #[trigger] self.shas(p) == old(self).shas(p),
                self.spath() == old(self).spath() + k@.take(i as int),
            decreases k@.len() - i,
        {
            self.descend_to_byte(k[i]);
            proof {
                assert(k@.take(i + 1) =~= k@.take(i as int).push(k@[i as int]));
            }
            i = i + 1;
        }
        proof {
            assert(k@.take(k@.len() as int) =~= k@);
        }
    }

    /// Moves the focus up by `steps` bytes; when the focus is less deep than that, it stops at
    /// the root and `false` is returned
    fn ascend(&mut self, steps: usize) -> (r: bool)
        requires
            old(self).zinv(),
        ensures
            final(self).zinv(),
            final(self).sheight() == old(self).sheight(),
            forall|p: Seq<u8>| #[trigger] final(self).sget(p) == old(self).sget(p),
            forall|p: Seq<u8>| #[trigger] final(self).shas(p) == old(self).shas(p),
            r == (steps <= old(self).spath().len()),
            final(self).spath() == if r {
                old(self).spath().take(old(self).spath().len() - steps)
            } else {
                Seq::<u8>::empty()
            },
    {
        let mut i: usize = 0;
        while i < steps
            invariant
                i <= steps,
                self.zinv(),
                self.sheight() == old(self).sheight(),
            forall|p: Seq<u8>| #[trigger] self.sget(p) == old(self).sget(p),
            forall|p: Seq<u8>| #[trigger] self.shas(p) == old(self).shas(p),
                i <= old(self).spath().len(),
                self.spath() == old(self).spath().take(old(self).spath().len() - i),
            decreases steps - i,
        {
            let moved = self.ascend_byte();
            if !moved {
                proof {
                    assert(self.spath().len() == 0);
                    assert(i == old(self).spath().len());
                }
                return false;
            }
            proof {
                let o = old(self).spath();
                assert(o.take(o.len() - i).drop_last() =~= o.take(o.len() - (i + 1)));
            }
            i = i + 1;
        }
        proof {
            assert(steps <= old(self).spath().len());
        }
        true
    }

    /// Moves the focus down to its `idx`-th child in byte order; `false`, without moving, when it
    /// has fewer children than that
    fn descend_indexed_byte(&mut self, idx: usize) -> (r: bool)
        requires
            old(self).zinv(),
        ensures
            final(self).zinv(),
            final(self).sheight() == old(self).sheight(),
            forall|p: Seq<u8>| #[trigger] final(self).sget(p) == old(self).sget(p),
            forall|p: Seq<u8>| #[trigger] final(self).shas(p) == old(self).shas(p),
            r == (idx < bytes_count_below(|b: int| 0 <= b < 256 && old(self).shas(old(self).spath().push(b as u8)), 256)),
            !r ==> final(self).spath() == old(self).spath(),
            r ==> exists|b: u8| #![trigger old(self).spath().push(b)]
                final(self).spath() == old(self).spath().push(b) && old(self).shas(old(self).spath().push(b))
                && bytes_count_below(|c: int| 0 <= c < 256 && old(self).shas(old(self).spath().push(c as u8)), b as nat) == idx,
    {
        let m = self.child_mask();
        proof {
            crate::utils::lemma_mask_count(m, |b: int| (0 <= b < 256 && self.shas(self.spath().push(b as u8))), 256);
        }
        match m.indexed_bit::<true>(idx) {
            Some(b) => {
                proof {
                    crate::utils::lemma_mask_count(m, |c: int| 0 <= c < 256 && self.shas(self.spath().push(c as u8)), b as nat);
                }
                self.descend_to_byte(b);
                true
            },
            None => false,
        }
    }
}

/// Builds the trie of the space below the focus of `z`, by visiting it
fn build_node<V: Copy, Z: ZipperMoving<Val = V>>(z: &mut Z) -> (r: TrieNode<V>)
    requires
        old(z).zinv(),
        old(z).shas(old(z).spath()),
    ensures
        final(z).zinv(),
        keeps_space(*final(z), *old(z)),
        final(z).spath() == old(z).spath(),
        r.wf(),
        forall|q: Seq<u8>|
            #![trigger r.node_at(q)]
            r.get(q) == old(z).sget(old(z).spath() + q) && r.has_path(q) == old(z).shas(old(z).spath() + q),
    decreases old(z).sheight() - old(z).spath().len(),
{
    proof {
        z.lemma_space();
    }
    let ghost z0 = *z;
    let ghost p = z.spath();
    let val = match z.val() {
        Some(v) => Some(*v),
        None => None,
    };
    let m = z.child_mask();
    let mut children: Vec<Option<Box<TrieNode<V>>>> = empty_slots();
    let mut i: usize = 0;
    while i < 256
        invariant
            i <= 256,
            z.zinv(),
            keeps_space(*z, z0),
            z.spath() == p,
            p == z0.spath(),
            z0 == *old(z),
            z0.zinv(),
            z0.shas(p),
            forall|b: int| #[trigger] m.has(b) <==> has_child(z0, p, b),
            children@.len() == 256,
            forall|x: int|
                0 <= x < 256 ==> match #[trigger] children@[x] {
                    Some(c) => x < i && c.wf() && has_child(z0, p, x) && forall|q: Seq<u8>|
                        #![trigger c.node_at(q)]
                        c.get(q) == z0.sget(p.push(x as u8) + q) && c.has_path(q) == z0.shas(p.push(x as u8) + q),
                    None => x >= i || !has_child(z0, p, x),
                },
        decreases 256 - i,
    {
        if m.test_bit(i as u8) {
            proof {
                assert(m.has(i as int));
                z0.lemma_space();
                assert(z0.shas(p.push(i as u8)));
                assert(p.push(i as u8).len() <= z0.sheight());
            }
            z.descend_to_byte(i as u8);
            proof {
                assert(z.sheight() == z0.sheight());
                assert(z.spath().len() == p.len() + 1);
                assert(z.spath().len() <= z.sheight());
            }
            let c = build_node(z);
            z.ascend_byte();
            proof {
                assert(z.spath() == p.push(i as u8).drop_last());
                assert(p.push(i as u8).drop_last() =~= p);
            }
            children.set(i, Some(Box::new(c)));
        }
        i = i + 1;
    }
    let r = TrieNode { val, children };
    proof {
        assert forall|x: int| 0 <= x < r.children@.len() implies (#[trigger] r.children@[x] matches Some(c) ==> c.wf()) by {}
        assert forall|q: Seq<u8>| #![trigger r.node_at(q)] r.get(q) == z0.sget(p + q) && r.has_path(q) == z0.shas(p + q) by {
            if q.len() == 0 {
                assert(p + q =~= p);
            } else {
                let x = q[0] as int;
                let qr = q.drop_first();
                assert(p + q =~= p.push(q[0]) + qr);
                match r.child(x) {
                    Some(c) => {
                        assert(c.get(qr) == z0.sget(p.push(x as u8) + qr));
                        assert(c.has_path(qr) == z0.shas(p.push(x as u8) + qr));
                    },
                    None => {
                        assert(!has_child(z0, p, x));
                        assert(!z0.shas(p.push(q[0])));
                        assert(p.push(q[0]).is_prefix_of(p + q));
                        if z0.shas(p + q) {
                            assert(z0.shas(p.push(q[0])));
                        }
                    },
                }
            }
        }
    }
    r
}

/// Making a map out of what a zipper sees below its focus.
pub trait ZipperSubtries<V: Copy>: ZipperMoving<Val = V> {
    /// A trie holding the space below the focus, the focus being its root; where the focus path
    /// does not exist the trie is empty
    fn make_node(&self) -> (r: TrieNode<V>)
        requires
            self.zinv(),
        ensures
            r.wf(),
            forall|q: Seq<u8>|
                #![trigger r.node_at(q)]
                r.get(q) == self.sget(self.spath() + q) && r.has_path(q) == (q.len() == 0
                    || self.shas(self.spath() + q)),
    ;

    /// A map holding the space below the focus, the focus being its root
    fn make_map(&self) -> (m: PathMap<V>)
        requires
            self.zinv(),
        ensures
            m.wf(),
            forall|q: Seq<u8>|
                #![trigger m.root.node_at(q)]
                m.get(q) == self.sget(self.spath() + q) && m.has_path(q) == (q.len() == 0
                    || self.shas(self.spath() + q)),
    ;

    /// A map holding the space below the focus, the focus being its root
    fn try_make_map(&self) -> (r: Option<PathMap<V>>)
        requires
            self.zinv(),
        ensures
            r matches Some(m) && m.wf() && forall|q: Seq<u8>|
                #![trigger m.root.node_at(q)]
                m.get(q) == self.sget(self.spath() + q) && m.has_path(q) == (q.len() == 0
                    || self.shas(self.spath() + q)),
    ;
}

/// The number of values of the space at `p` or below it, looking at most `d` bytes deeper.
pub open spec fn space_count<V: Copy, Z: ZipperMoving<Val = V>>(z: Z, p: Seq<u8>, d: nat) -> nat
    decreases d, 257nat,
{
    (if z.sget(p) is Some {
        1nat
    } else {
        0nat
    }) + space_children_count(z, p, d, 256)
}

/// The number of values of the space below the children of `p` whose byte is under `k`.
pub open spec fn space_children_count<V: Copy, Z: ZipperMoving<Val = V>>(z: Z, p: Seq<u8>, d: nat, k: nat) -> nat
    decreases d, k,
{
    if d == 0 || k == 0 {
        0
    } else {
        space_children_count(z, p, d, (k - 1) as nat) + space_count(z, p.push((k - 1) as u8), (d - 1) as nat)
    }
}

/// Zippers with the same values count the same.
proof fn lemma_space_count_same<V: Copy, Z: ZipperMoving<Val = V>>(z1: Z, z2: Z, p: Seq<u8>, d: nat)
    requires
        forall|q: Seq<u8>| #[trigger] z1.sget(q) == z2.sget(q),
    ensures
        space_count(z1, p, d) == space_count(z2, p, d),
    decreases d, 257nat,
{
    lemma_children_count_same(z1, z2, p, d, 256);
    assert(z1.sget(p) == z2.sget(p));
}

proof fn lemma_children_count_same<V: Copy, Z: ZipperMoving<Val = V>>(z1: Z, z2: Z, p: Seq<u8>, d: nat, k: nat)
    requires
        forall|q: Seq<u8>| #[trigger] z1.sget(q) == z2.sget(q),
    ensures
        space_children_count(z1, p, d, k) == space_children_count(z2, p, d, k),
    decreases d, k,
{
    if d > 0 && k > 0 {
        lemma_children_count_same(z1, z2, p, d, (k - 1) as nat);
        lemma_space_count_same(z1, z2, p.push((k - 1) as u8), (d - 1) as nat);
    }
}

/// Nothing is counted below a path that does not exist.
proof fn lemma_space_count_absent<V: Copy, Z: ZipperMoving<Val = V>>(z: Z, p: Seq<u8>, d: nat)
    requires
        z.zinv(),
        !z.shas(p),
    ensures
        space_count(z, p, d) == 0,
    decreases d, 257nat,
{
    z.lemma_space();
    lemma_children_count_absent(z, p, d, 256);
}

proof fn lemma_children_count_absent<V: Copy, Z: ZipperMoving<Val = V>>(z: Z, p: Seq<u8>, d: nat, k: nat)
    requires
        z.zinv(),
        !z.shas(p),
    ensures
        space_children_count(z, p, d, k) == 0,
    decreases d, k,
{
    if d > 0 && k > 0 {
        z.lemma_space();
        lemma_children_count_absent(z, p, d, (k - 1) as nat);
        let c = p.push((k - 1) as u8);
        assert(p.is_prefix_of(c));
        if z.shas(c) {
            assert(z.shas(p));
        }
        lemma_space_count_absent(z, c, (d - 1) as nat);
    }
}

/// Partial sums of the children's counts only grow.
proof fn lemma_children_count_monotone<V: Copy, Z: ZipperMoving<Val = V>>(z: Z, p: Seq<u8>, d: nat, i: nat, k: nat)
    requires
        i <= k,
    ensures
        space_children_count(z, p, d, i) <= space_children_count(z, p, d, k),
    decreases k,
{
    if i < k {
        lemma_children_count_monotone(z, p, d, i, (k - 1) as nat);
    }
}

/// Counts the values at the focus of `z` and below it
fn count_vals<V: Copy, Z: ZipperMoving<Val = V>>(z: &mut Z) -> (r: usize)
    requires
        old(z).zinv(),
        old(z).spath().len() <= old(z).sheight(),
        space_count(*old(z), old(z).spath(), (old(z).sheight() - old(z).spath().len()) as nat) <= usize::MAX,
    ensures
        final(z).zinv(),
        final(z).sheight() == old(z).sheight(),
        forall|p: Seq<u8>| #[trigger] final(z).sget(p) == old(z).sget(p),
        forall|p: Seq<u8>| #[trigger] final(z).shas(p) == old(z).shas(p),
        final(z).spath() == old(z).spath(),
        r == space_count(*old(z), old(z).spath(), (old(z).sheight() - old(z).spath().len()) as nat),
    decreases old(z).sheight() - old(z).spath().len(),
{
    let ghost z0 = *z;
    let ghost p = z.spath();
    let ghost d: nat = (z.sheight() - p.len()) as nat;
    proof {
        z.lemma_space();
        lemma_children_count_monotone(z0, p, d, 0, 256);
    }
    let mut total: usize = if z.is_val() {
        1
    } else {
        0
    };
    let m = z.child_mask();
    let mut i: usize = 0;
    while i < 256
        invariant
            i <= 256,
            z0 == *old(z),
            z0.zinv(),
            z.zinv(),
            p == z0.spath(),
            d == z0.sheight() - p.len(),
            p.len() <= z0.sheight(),
            z.spath() == p,
            z.sheight() == z0.sheight(),
            forall|q: Seq<u8>| #[trigger] z.sget(q) == z0.sget(q),
            forall|q: Seq<u8>| #[trigger] z.shas(q) == z0.shas(q),
            forall|b: int| #[trigger] m.has(b) <==> (0 <= b < 256 && z0.shas(p.push(b as u8))),
            space_count(z0, p, d) <= usize::MAX,
            total == (if z0.sget(p) is Some {
                1nat
            } else {
                0nat
            }) + space_children_count(z0, p, d, i as nat),
        decreases 256 - i,
    {
        proof {
            lemma_children_count_monotone(z0, p, d, (i + 1) as nat, 256);
        }
        if m.test_bit(i as u8) {
            proof {
                assert(m.has(i as int));
                z0.lemma_space();
                assert(p.push(i as u8).len() <= z0.sheight());
                assert(d > 0);
            }
            z.descend_to_byte(i as u8);
            let ghost z1 = *z;
            proof {
                lemma_space_count_same(z1, z0, p.push(i as u8), (d - 1) as nat);
            }
            let c = count_vals(z);
            z.ascend_byte();
            proof {
                assert(p.push(i as u8).drop_last() =~= p);
            }
            total = total + c;
        } else {
            proof {
                if d > 0 {
                    assert(!m.has(i as int));
                    lemma_space_count_absent(z0, p.push(i as u8), (d - 1) as nat);
                }
            }
        }
        i = i + 1;
    }
    total
}

/// Moves the focus of `z` down along the first path of `k` bytes below it in depth-first
/// order, and reports whether there was one; the focus stays put where there was none
fn descend_first_k<V: Copy, Z: ZipperMoving<Val = V>>(z: &mut Z, k: usize) -> (r: bool)
    requires
        old(z).zinv(),
    ensures
        final(z).zinv(),
        final(z).sheight() == old(z).sheight(),
        forall|p: Seq<u8>| #[trigger] final(z).sget(p) == old(z).sget(p),
        forall|p: Seq<u8>| #[trigger] final(z).shas(p) == old(z).shas(p),
        r ==> final(z).spath().len() == old(z).spath().len() + k && old(z).spath().is_prefix_of(final(z).spath())
            && final(z).shas(final(z).spath()),
        r ==> forall|q: Seq<u8>| q.len() == old(z).spath().len() + k && old(z).spath().is_prefix_of(q) && path_before(q, final(z).spath())
            ==> !#[trigger] old(z).shas(q),
        !r ==> final(z).spath() == old(z).spath(),
        !r ==> forall|q: Seq<u8>| q.len() == old(z).spath().len() + k && old(z).spath().is_prefix_of(q) ==> !#[trigger] old(z).shas(q),
    decreases k,
{
    let ghost z0 = *z;
    let ghost p = z.spath();
    if k == 0 {
        let e = z.path_exists();
        proof {
            assert(z.spath().is_prefix_of(z.spath()));
            assert forall|q: Seq<u8>| q.len() == p.len() && p.is_prefix_of(q) implies q == p by {
                assert(q =~= p);
            }
            lemma_path_before_asym(p, p);
        }
        return e;
    }
    proof {
        z0.lemma_space();
    }
    let m = z.child_mask();
    let mut i: usize = 0;
    while i < 256
        invariant
            i <= 256,
            k > 0,
            z0 == *old(z),
            z0.zinv(),
            z.zinv(),
            p == z0.spath(),
            z.spath() == p,
            z.sheight() == z0.sheight(),
            forall|q: Seq<u8>| #[trigger] z.sget(q) == z0.sget(q),
            forall|q: Seq<u8>| #[trigger] z.shas(q) == z0.shas(q),
            forall|b: int| #[trigger] m.has(b) <==> (0 <= b < 256 && z0.shas(p.push(b as u8))),
            forall|q: Seq<u8>| q.len() == p.len() + k && p.is_prefix_of(q) && q[p.len() as int] < i ==> !#[trigger] z0.shas(q),
        decreases 256 - i,
    {
        let ghost c = p.push(i as u8);
        if m.test_bit(i as u8) {
            z.descend_to_byte(i as u8);
            let ghost zc = *z;
            if descend_first_k(z, k - 1) {
                proof {
                    let f = z.spath();
                    assert(p.is_prefix_of(p.push(i as u8)));
                    assert(p.is_prefix_of(f)) by {
                        assert forall|j: int| 0 <= j < p.len() implies p[j] == f[j] by {
                            assert(p.push(i as u8)[j] == p[j]);
                        }
                    }
                    assert forall|q: Seq<u8>| q.len() == p.len() + k && p.is_prefix_of(q) && path_before(q, f) implies !#[trigger] z0.shas(q) by {
                        let x = q[p.len() as int];
                        if x > i {
                            assert(p.push(x).is_prefix_of(q)) by {
                                assert forall|j: int| 0 <= j < p.len() + 1 implies p.push(x)[j] == q[j] by {
                                    if j < p.len() {
                                        assert(p[j] == q[j]);
                                    }
                                }
                            }
                            lemma_path_before_siblings(p, i as u8, x, f, q);
                            lemma_path_before_asym(q, f);
                        } else if x == i {
                            lemma_child_prefix(p, i as u8, q);
                            assert(!zc.shas(q));
                        }
                    }
                }
                return true;
            }
            z.ascend_byte();
            proof {
                assert(p.push(i as u8).drop_last() =~= p);
                assert forall|q: Seq<u8>| q.len() == p.len() + k && p.is_prefix_of(q) && q[p.len() as int] < i + 1 implies !#[trigger] z0.shas(q) by {
                    if q[p.len() as int] == i {
                        lemma_child_prefix(p, i as u8, q);
                        assert(!zc.shas(q));
                    }
                }
            }
        } else {
            proof {
                assert(!m.has(i as int));
                assert forall|q: Seq<u8>| q.len() == p.len() + k && p.is_prefix_of(q) && q[p.len() as int] < i + 1 implies !#[trigger] z0.shas(q) by {
                    if q[p.len() as int] == i && z0.shas(q) {
                        lemma_below_child_exists(z0, p, q);
                    }
                }
            }
        }
        i = i + 1;
    }
    false
}

/// Moves the focus of `z` to the next, or the previous, child of its parent; `false`, without
/// moving, where there is none
fn to_sibling<V: Copy, Z: ZipperMoving<Val = V>>(z: &mut Z, next: bool) -> (r: bool)
    requires
        old(z).zinv(),
    ensures
        final(z).zinv(),
        final(z).sheight() == old(z).sheight(),
        forall|p: Seq<u8>| #[trigger] final(z).sget(p) == old(z).sget(p),
        forall|p: Seq<u8>| #[trigger] final(z).shas(p) == old(z).shas(p),
        r ==> old(z).spath().len() > 0 && final(z).spath().len() == old(z).spath().len() && final(z).spath().drop_last()
            == old(z).spath().drop_last() && final(z).shas(final(z).spath()),
        r && next ==> old(z).spath().last() < final(z).spath().last() && forall|c: int| old(z).spath().last() < c
            < final(z).spath().last() ==> !#[trigger] old(z).shas(old(z).spath().drop_last().push(c as u8)),
        r && !next ==> final(z).spath().last() < old(z).spath().last() && forall|c: int| final(z).spath().last() < c
            < old(z).spath().last() ==> !#[trigger] old(z).shas(old(z).spath().drop_last().push(c as u8)),
        !r ==> final(z).spath() == old(z).spath(),
        !r && next ==> old(z).spath().len() == 0 || forall|c: int| old(z).spath().last() < c < 256 ==> !#[trigger] old(
            z,
        ).shas(old(z).spath().drop_last().push(c as u8)),
        !r && !next ==> old(z).spath().len() == 0 || forall|c: int| 0 <= c < old(z).spath().last() ==> !#[trigger] old(
            z,
        ).shas(old(z).spath().drop_last().push(c as u8)),
{
    let ghost o = z.spath();
    if z.at_root() {
        return false;
    }
    let last = z.path()[z.path().len() - 1];
    z.ascend_byte();
    proof {
        assert(z.spath() =~= o.drop_last());
    }
    let m = z.child_mask();
    let found = if next {
        m.next_bit(last)
    } else {
        m.prev_bit(last)
    };
    match found {
        Some(b) => {
            proof {
                assert forall|c: int| last < c < b implies !#[trigger] old(z).shas(o.drop_last().push(c as u8)) by {
                    assert(!m.has(c));
                }
                assert forall|c: int| b < c < last implies !#[trigger] old(z).shas(o.drop_last().push(c as u8)) by {
                    assert(!m.has(c));
                }
                assert(m.has(b as int));
            }
            z.descend_to_byte(b);
            proof {
                assert(z.spath().drop_last() =~= o.drop_last());
            }
            true
        },
        None => {
            proof {
                if next {
                    assert forall|c: int| last < c < 256 implies !#[trigger] old(z).shas(o.drop_last().push(c as u8)) by {
                        assert(!m.has(c));
                    }
                } else {
                    assert forall|c: int| 0 <= c < last implies !#[trigger] old(z).shas(o.drop_last().push(c as u8)) by {
                        assert(!m.has(c));
                    }
                }
            }
            z.descend_to_byte(last);
            proof {
                assert(z.spath() =~= o.drop_last().push(last));
                assert(o.drop_last().push(last) =~= o);
            }
            false
        },
    }
}

/// A byte for which `f` holds makes the count of such bytes positive.
proof fn lemma_count_positive(f: spec_fn(int) -> bool, b: int, i: nat)
    requires
        0 <= b < i,
        f(b),
    ensures
        bytes_count_below(f, i) > 0,
    decreases i,
{
    if b < i - 1 {
        lemma_count_positive(f, b, (i - 1) as nat);
    }
}

/// Where `f` holds for no byte below `i`, the count is zero.
proof fn lemma_count_zero(f: spec_fn(int) -> bool, i: nat)
    requires
        forall|b: int| 0 <= b < i ==> !#[trigger] f(b),
    ensures
        bytes_count_below(f, i) == 0,
    decreases i,
{
    if i > 0 {
        lemma_count_zero(f, (i - 1) as nat);
    }
}

/// The bytes that continue `p` to a path of the space of `z`.
pub open spec fn child_bytes<Z: ZipperMoving>(z: Z, p: Seq<u8>) -> spec_fn(int) -> bool {
    |b: int| 0 <= b < 256 && z.shas(p.push(b as u8))
}

/// Whether an ascent through the space of `z` stops at `p`: at the root, at a path with other
/// than one child, and, unless only branches count, at a path holding a value.
pub open spec fn ascent_stops_at<Z: ZipperMoving>(z: Z, p: Seq<u8>, branches_only: bool) -> bool {
    ||| p.len() == 0
    ||| bytes_count_below(child_bytes(z, p), 256) != 1
    ||| (!branches_only && z.sget(p) is Some)
}

/// Moves the focus of `z` up at least one byte, to the nearest path where an ascent stops, and
/// reports whether it moved
fn ascend_until_stop<V: Copy, Z: ZipperMoving<Val = V>>(z: &mut Z, branches_only: bool) -> (r: bool)
    requires
        old(z).zinv(),
    ensures
        final(z).zinv(),
        final(z).sheight() == old(z).sheight(),
        forall|p: Seq<u8>| #[trigger] final(z).sget(p) == old(z).sget(p),
        forall|p: Seq<u8>| #[trigger] final(z).shas(p) == old(z).shas(p),
        r == (old(z).spath().len() > 0),
        !r ==> final(z).spath() == old(z).spath(),
        r ==> final(z).spath().len() < old(z).spath().len() && final(z).spath() == old(z).spath().take(
            final(z).spath().len() as int,
        ),
        r ==> ascent_stops_at(*old(z), final(z).spath(), branches_only),
        r ==> forall|k: int| final(z).spath().len() < k < old(z).spath().len() ==> !ascent_stops_at(
            *old(z),
            #[trigger] old(z).spath().take(k),
            branches_only,
        ),
{
    let ghost o = z.spath();
    if !z.ascend_byte() {
        return false;
    }
    proof {
        assert(o.drop_last() =~= o.take(o.len() - 1));
    }
    loop
        invariant
            z.zinv(),
            z.sheight() == old(z).sheight(),
            forall|p: Seq<u8>| #[trigger] z.sget(p) == old(z).sget(p),
            forall|p: Seq<u8>| #[trigger] z.shas(p) == old(z).shas(p),
            o == old(z).spath(),
            z.spath().len() < o.len(),
            z.spath() == o.take(z.spath().len() as int),
            forall|k: int| z.spath().len() < k < o.len() ==> !ascent_stops_at(*old(z), #[trigger] o.take(k), branches_only),
        ensures
            z.zinv(),
            z.sheight() == old(z).sheight(),
            forall|p: Seq<u8>| #[trigger] z.sget(p) == old(z).sget(p),
            forall|p: Seq<u8>| #[trigger] z.shas(p) == old(z).shas(p),
            z.spath().len() < o.len(),
            z.spath() == o.take(z.spath().len() as int),
            forall|k: int| z.spath().len() < k < o.len() ==> !ascent_stops_at(*old(z), #[trigger] o.take(k), branches_only),
            ascent_stops_at(*old(z), z.spath(), branches_only),
        decreases z.spath().len(),
    {
        if z.at_root() {
            break;
        }
        let ghost p = z.spath();
        let m = z.child_mask();
        proof {
            assert(child_bytes(*z, p) =~= child_bytes(*old(z), p));
            crate::utils::lemma_mask_count(m, child_bytes(*z, p), 256);
        }
        let c = m.len();
        if c != 1 || (!branches_only && z.is_val()) {
            break;
        }
        z.ascend_byte();
        proof {
            assert(z.spath() =~= o.take(z.spath().len() as int));
            assert(p == o.take(p.len() as int));
        }
    }
    true
}

/// No value lies strictly between `a` and `b` in depth-first order.
pub open spec fn no_val_between<Z: ZipperMoving>(z: Z, a: Seq<u8>, b: Seq<u8>) -> bool {
    forall|q: Seq<u8>| path_before(a, q) && path_before(q, b) ==> #[trigger] z.sget(q) is None
}

/// No value lies strictly below `p`.
pub open spec fn no_val_below<Z: ZipperMoving>(z: Z, p: Seq<u8>) -> bool {
    forall|q: Seq<u8>| p.len() < q.len() && p.is_prefix_of(q) ==> #[trigger] z.sget(q) is None
}

/// A path between `p` and a path below its child `b` is below `p`, through a child no later
/// than `b`.
proof fn lemma_between_below(p: Seq<u8>, b: u8, f: Seq<u8>, q: Seq<u8>)
    requires
        p.push(b).is_prefix_of(f),
        path_before(p, q),
        path_before(q, f),
    ensures
        p.len() < q.len(),
        p.is_prefix_of(q),
        q[p.len() as int] <= b,
        q[p.len() as int] == b ==> p.push(b).is_prefix_of(q),
{
    assert(p.is_prefix_of(p)) by {
        assert(p.subrange(0, p.len() as int) =~= p);
    }
    assert(p.is_prefix_of(f)) by {
        assert forall|k: int| 0 <= k < p.len() implies p[k] == f[k] by {
            assert(p.push(b)[k] == f[k]);
        }
    }
    lemma_path_before_convex(p, p, q, f);
    lemma_path_before_asym(p, p);
    if q.len() <= p.len() {
        assert(q =~= p);
    }
    let x = q[p.len() as int];
    assert(p.push(x).is_prefix_of(q)) by {
        assert forall|k: int| 0 <= k < p.len() + 1 implies p.push(x)[k] == q[k] by {
            if k < p.len() {
                assert(p[k] == q[k]);
            }
        }
    }
    if x > b {
        lemma_path_before_siblings(p, b, x, f, q);
        lemma_path_before_asym(q, f);
    }
}

/// A path after `o` below `c1`, no later than `o`'s own child `x` of `c1`, is below that child.
proof fn lemma_after_in_subtree(o: Seq<u8>, c1: Seq<u8>, x: u8, q: Seq<u8>)
    requires
        c1.push(x).is_prefix_of(o),
        path_before(o, q),
        c1.is_prefix_of(q),
        q.len() == c1.len() || q[c1.len() as int] <= x,
    ensures
        c1.push(x).is_prefix_of(q),
{
    let c = c1.push(x);
    assert(c1.is_prefix_of(o)) by {
        assert forall|k: int| 0 <= k < c1.len() implies c1[k] == o[k] by {
            assert(c[k] == o[k]);
        }
    }
    if q.len() == c1.len() {
        assert(q =~= c1);
        lemma_path_before_below(c1, o);
        lemma_path_before_asym(q, o);
    } else {
        let b = q[c1.len() as int];
        assert(c1.push(b).is_prefix_of(q)) by {
            assert forall|k: int| 0 <= k < c1.len() + 1 implies c1.push(b)[k] == q[k] by {
                if k < c1.len() {
                    assert(c1[k] == q[k]);
                }
            }
        }
        if b < x {
            lemma_path_before_siblings(c1, b, x, q, o);
            lemma_path_before_asym(q, o);
        } else {
            assert(c1.push(b) =~= c);
        }
    }
}

/// A path below `c1` through a byte where the space has no child holds no value.
proof fn lemma_absent_child<Z: ZipperMoving>(z: Z, c1: Seq<u8>, q: Seq<u8>)
    requires
        z.zinv(),
        c1.is_prefix_of(q),
        q.len() > c1.len(),
        z.sget(q) is Some,
    ensures
        z.shas(c1.push(q[c1.len() as int])),
{
    z.lemma_space();
    let c = c1.push(q[c1.len() as int]);
    assert(c.is_prefix_of(q)) by {
        assert forall|k: int| 0 <= k < c.len() implies c[k] == q[k] by {
            if k < c1.len() {
                assert(c1[k] == q[k]);
            }
        }
    }
    assert(z.shas(q));
}

/// A path of the space below `c1` passes through a child of `c1` that the space has.
proof fn lemma_below_child_exists<Z: ZipperMoving>(z: Z, c1: Seq<u8>, q: Seq<u8>)
    requires
        z.zinv(),
        c1.is_prefix_of(q),
        q.len() > c1.len(),
        z.shas(q),
    ensures
        z.shas(c1.push(q[c1.len() as int])),
{
    z.lemma_space();
    let c = c1.push(q[c1.len() as int]);
    assert(c.is_prefix_of(q)) by {
        assert forall|k: int| 0 <= k < c.len() implies c[k] == q[k] by {
            if k < c1.len() {
                assert(c1[k] == q[k]);
            }
        }
    }
}

/// A path below `c1` whose byte after `c1` is `n` starts with the child `n` of `c1`.
proof fn lemma_child_prefix(c1: Seq<u8>, n: u8, q: Seq<u8>)
    requires
        c1.is_prefix_of(q),
        q.len() > c1.len(),
        q[c1.len() as int] == n,
    ensures
        c1.push(n).is_prefix_of(q),
{
    let c = c1.push(n);
    assert forall|k: int| 0 <= k < c.len() implies c[k] == q[k] by {
        if k < c1.len() {
            assert(c1[k] == q[k]);
        }
    }
}

/// A path below `c1` whose byte after `c1` is `n` is below the child `n` of `c1`.
proof fn lemma_below_child(c1: Seq<u8>, n: u8, q: Seq<u8>)
    requires
        c1.is_prefix_of(q),
        q.len() > c1.len(),
        q[c1.len() as int] == n,
        q != c1.push(n),
    ensures
        c1.push(n).is_prefix_of(q),
        c1.push(n).len() < q.len(),
{
    let c = c1.push(n);
    assert(c.is_prefix_of(q)) by {
        assert forall|k: int| 0 <= k < c.len() implies c[k] == q[k] by {
            if k < c1.len() {
                assert(c1[k] == q[k]);
            }
        }
    }
    if q.len() <= c.len() {
        assert(q =~= c);
    }
}

/// A path between `o` and a path below the child `n` of `c1`, where `o` is below `c1`, is below
/// `c1`, and not through a child after `n`.
proof fn lemma_between_in_subtree(o: Seq<u8>, c1: Seq<u8>, n: u8, f: Seq<u8>, q: Seq<u8>)
    requires
        c1.is_prefix_of(o),
        c1.push(n).is_prefix_of(f),
        path_before(o, q),
        path_before(q, f),
    ensures
        c1.is_prefix_of(q),
        q.len() == c1.len() || q[c1.len() as int] <= n,
{
    assert(c1.is_prefix_of(f)) by {
        assert forall|k: int| 0 <= k < c1.len() implies c1[k] == f[k] by {
            assert(c1.push(n)[k] == f[k]);
        }
    }
    lemma_path_before_convex(c1, o, q, f);
    if q.len() > c1.len() && q[c1.len() as int] > n {
        let b = q[c1.len() as int];
        assert(c1.push(b).is_prefix_of(q)) by {
            assert forall|k: int| 0 <= k < c1.len() + 1 implies c1.push(b)[k] == q[k] by {
                if k < c1.len() {
                    assert(c1[k] == q[k]);
                }
            }
        }
        lemma_path_before_siblings(c1, n, b, f, q);
        lemma_path_before_asym(q, f);
    }
}

/// Moves the focus of `z` down to the first value strictly below it in depth-first order, and
/// reports whether there was one; the focus stays put where there was none
fn first_val_below<V: Copy, Z: ZipperMoving<Val = V>>(z: &mut Z) -> (r: bool)
    requires
        old(z).zinv(),
    ensures
        final(z).zinv(),
        final(z).sheight() == old(z).sheight(),
        forall|p: Seq<u8>| #[trigger] final(z).sget(p) == old(z).sget(p),
        forall|p: Seq<u8>| #[trigger] final(z).shas(p) == old(z).shas(p),
        r ==> old(z).spath().len() < final(z).spath().len() && old(z).spath().is_prefix_of(final(z).spath())
            && final(z).sget(final(z).spath()) is Some,
        r ==> no_val_between(*old(z), old(z).spath(), final(z).spath()),
        !r ==> final(z).spath() == old(z).spath(),
        !r ==> no_val_below(*old(z), old(z).spath()),
    decreases old(z).sheight() - old(z).spath().len(),
{
    let ghost z0 = *z;
    let ghost p = z.spath();
    proof {
        z.lemma_space();
    }
    let m = z.child_mask();
    let mut i: usize = 0;
    while i < 256
        invariant
            i <= 256,
            z0 == *old(z),
            z0.zinv(),
            z.zinv(),
            p == z0.spath(),
            z.spath() == p,
            z.sheight() == z0.sheight(),
            forall|q: Seq<u8>| #[trigger] z.sget(q) == z0.sget(q),
            forall|q: Seq<u8>| #[trigger] z.shas(q) == z0.shas(q),
            forall|b: int| #[trigger] m.has(b) <==> (0 <= b < 256 && z0.shas(p.push(b as u8))),
            forall|q: Seq<u8>| p.len() < q.len() && p.is_prefix_of(q) && q[p.len() as int] < i ==> #[trigger] z0.sget(q) is None,
        decreases 256 - i,
    {
        let ghost c = p.push(i as u8);
        if m.test_bit(i as u8) {
            proof {
                assert(m.has(i as int));
                z0.lemma_space();
                assert(p.push(i as u8).len() <= z0.sheight());
            }
            z.descend_to_byte(i as u8);
            proof {
                assert(p.is_prefix_of(p.push(i as u8)));
                assert(c.is_prefix_of(c)) by {
                    assert(c.subrange(0, c.len() as int) =~= c);
                }
            }
            if z.is_val() {
                proof {
                    assert forall|q: Seq<u8>| path_before(p, q) && path_before(q, c) implies #[trigger] z0.sget(q) is None by {
                        lemma_between_below(p, i as u8, c, q);
                        if q[p.len() as int] == i {
                            lemma_path_before_asym(q, c);
                            if q != c {
                                assert(c.len() < q.len()) by {
                                    if q.len() <= c.len() {
                                        assert(q =~= c);
                                    }
                                }
                                lemma_path_before_below(c, q);
                            }
                        }
                    }
                }
                return true;
            }
            let ghost zc = *z;
            proof {
                assert(z0.sget(c) is None);
                assert(zc.spath() == c);
            }
            if first_val_below(z) {
                proof {
                    let f = z.spath();
                    assert(p.is_prefix_of(f));
                    assert(c.is_prefix_of(f));
                    assert forall|q: Seq<u8>| path_before(p, q) && path_before(q, f) implies #[trigger] z0.sget(q) is None by {
                        lemma_between_below(p, i as u8, f, q);
                        if q[p.len() as int] == i && q != c {
                            assert(c.len() < q.len()) by {
                                if q.len() <= c.len() {
                                    assert(q =~= c);
                                }
                            }
                            lemma_path_before_below(c, q);
                            assert(zc.sget(q) is None);
                        }
                    }
                }
                return true;
            }
            z.ascend_byte();
            proof {
                assert(p.push(i as u8).drop_last() =~= p);
                assert forall|q: Seq<u8>| p.len() < q.len() && p.is_prefix_of(q) && q[p.len() as int] < i + 1 implies #[trigger] z0.sget(q) is None by {
                    if q[p.len() as int] == i && q != c {
                        assert(c.is_prefix_of(q)) by {
                            assert forall|k: int| 0 <= k < c.len() implies c[k] == q[k] by {
                                if k < p.len() {
                                    assert(p[k] == q[k]);
                                }
                            }
                        }
                        assert(c.len() < q.len()) by {
                            if q.len() <= c.len() {
                                assert(q =~= c);
                            }
                        }
                        assert(zc.sget(q) is None);
                    }
                }
            }
        } else {
            proof {
                assert(!m.has(i as int));
                assert forall|q: Seq<u8>| p.len() < q.len() && p.is_prefix_of(q) && q[p.len() as int] < i + 1 implies #[trigger] z0.sget(q) is None by {
                    if q[p.len() as int] == i {
                        assert(c.is_prefix_of(q)) by {
                            assert forall|k: int| 0 <= k < c.len() implies c[k] == q[k] by {
                                if k < p.len() {
                                    assert(p[k] == q[k]);
                                }
                            }
                        }
                        z0.lemma_space();
                        if z0.sget(q) is Some {
                            assert(z0.shas(q));
                            assert(z0.shas(c));
                        }
                    }
                }
            }
        }
        i = i + 1;
    }
    false
}

/// Counting and visiting what a zipper sees.
pub trait ZipperIteration<V: Copy>: ZipperMoving<Val = V> {
    /// The number of children below the focus
    fn child_count(&self) -> (r: usize)
        requires
            self.zinv(),
        ensures
            r == bytes_count_below(|b: int| 0 <= b < 256 && self.shas(self.spath().push(b as u8)), 256),
    ;

    /// Moves the focus to the next path of the space in depth-first order; at the end of the
    /// space the focus goes back to the root and `false` is returned
    fn to_next_step(&mut self) -> (r: bool)
        requires
            old(self).zinv(),
        ensures
            final(self).zinv(),
            final(self).sheight() == old(self).sheight(),
            forall|p: Seq<u8>| #[trigger] final(self).sget(p) == old(self).sget(p),
            forall|p: Seq<u8>| #[trigger] final(self).shas(p) == old(self).shas(p),
            r ==> final(self).shas(final(self).spath()) && path_before(old(self).spath(), final(self).spath()),
            r ==> forall|q: Seq<u8>| path_before(old(self).spath(), q) && path_before(q, final(self).spath())
                ==> !#[trigger] old(self).shas(q),
            !r ==> final(self).spath() == Seq::<u8>::empty(),
            !r ==> forall|q: Seq<u8>| path_before(old(self).spath(), q) ==> !#[trigger] old(self).shas(q),
    ;

    /// Moves the focus to the next value of the space in depth-first order; where there is none,
    /// the focus goes back to the root and `false` is returned
    fn to_next_val(&mut self) -> (r: bool)
        requires
            old(self).zinv(),
        ensures
            final(self).zinv(),
            final(self).sheight() == old(self).sheight(),
            forall|p: Seq<u8>| #[trigger] final(self).sget(p) == old(self).sget(p),
            forall|p: Seq<u8>| #[trigger] final(self).shas(p) == old(self).shas(p),
            r ==> final(self).sget(final(self).spath()) is Some && path_before(old(self).spath(), final(self).spath()),
            r ==> no_val_between(*old(self), old(self).spath(), final(self).spath()),
            !r ==> final(self).spath() == Seq::<u8>::empty(),
            !r ==> forall|q: Seq<u8>| path_before(old(self).spath(), q) ==> #[trigger] old(self).sget(q) is None,
    ;

    /// Moves the focus to the next child, in byte order, of its parent; `false`, without moving,
    /// at the root or at the last child
    fn to_next_sibling_byte(&mut self) -> (r: bool)
        requires
            old(self).zinv(),
        ensures
            final(self).zinv(),
            final(self).sheight() == old(self).sheight(),
            forall|p: Seq<u8>| #[trigger] final(self).sget(p) == old(self).sget(p),
            forall|p: Seq<u8>| #[trigger] final(self).shas(p) == old(self).shas(p),
            r ==> old(self).spath().len() > 0 && final(self).spath().len() == old(self).spath().len()
                && final(self).spath().drop_last() == old(self).spath().drop_last() && old(self).spath().last() < final(
                self).spath().last() && final(self).shas(final(self).spath()),
            r ==> forall|c: int| old(self).spath().last() < c < final(self).spath().last() ==> !#[trigger] old(self).shas(
                old(self).spath().drop_last().push(c as u8),
            ),
            !r ==> final(self).spath() == old(self).spath(),
            !r ==> old(self).spath().len() == 0 || forall|c: int| old(self).spath().last() < c < 256 ==> !#[trigger] old(
                self,
            ).shas(old(self).spath().drop_last().push(c as u8)),
    ;

    /// Moves the focus to the previous child, in byte order, of its parent; `false`, without
    /// moving, at the root or at the first child
    fn to_prev_sibling_byte(&mut self) -> (r: bool)
        requires
            old(self).zinv(),
        ensures
            final(self).zinv(),
            final(self).sheight() == old(self).sheight(),
            forall|p: Seq<u8>| #[trigger] final(self).sget(p) == old(self).sget(p),
            forall|p: Seq<u8>| #[trigger] final(self).shas(p) == old(self).shas(p),
            r ==> old(self).spath().len() > 0 && final(self).spath().len() == old(self).spath().len()
                && final(self).spath().drop_last() == old(self).spath().drop_last() && final(self).spath().last() < old(
                self).spath().last() && final(self).shas(final(self).spath()),
            r ==> forall|c: int| final(self).spath().last() < c < old(self).spath().last() ==> !#[trigger] old(self).shas(
                old(self).spath().drop_last().push(c as u8),
            ),
            !r ==> final(self).spath() == old(self).spath(),
            !r ==> old(self).spath().len() == 0 || forall|c: int| 0 <= c < old(self).spath().last() ==> !#[trigger] old(
                self,
            ).shas(old(self).spath().drop_last().push(c as u8)),
    ;

    /// Moves the focus down to its first child in byte order; `false`, without moving, where it
    /// has none
    fn descend_first_byte(&mut self) -> (r: bool)
        requires
            old(self).zinv(),
        ensures
            final(self).zinv(),
            final(self).sheight() == old(self).sheight(),
            forall|p: Seq<u8>| #[trigger] final(self).sget(p) == old(self).sget(p),
            forall|p: Seq<u8>| #[trigger] final(self).shas(p) == old(self).shas(p),
            r == (bytes_count_below(child_bytes(*old(self), old(self).spath()), 256) > 0),
            !r ==> final(self).spath() == old(self).spath(),
            r ==> exists|b: u8| #![trigger old(self).spath().push(b)] final(self).spath() == old(self).spath().push(b)
                && old(self).shas(old(self).spath().push(b)) && forall|c: int| 0 <= c < b ==> !#[trigger] old(self).shas(
                old(self).spath().push(c as u8),
            ),
    ;

    /// Moves the focus down through single children, and no further than the first path that
    /// holds a value or has other than one child; `false`, without moving, where the focus does
    /// not have exactly one child
    fn descend_until(&mut self) -> (r: bool)
        requires
            old(self).zinv(),
        ensures
            final(self).zinv(),
            final(self).sheight() == old(self).sheight(),
            forall|p: Seq<u8>| #[trigger] final(self).sget(p) == old(self).sget(p),
            forall|p: Seq<u8>| #[trigger] final(self).shas(p) == old(self).shas(p),
            r == (bytes_count_below(child_bytes(*old(self), old(self).spath()), 256) == 1),
            !r ==> final(self).spath() == old(self).spath(),
            r ==> old(self).spath().len() < final(self).spath().len() && old(self).spath().is_prefix_of(final(self).spath())
                && final(self).shas(final(self).spath()),
            r ==> final(self).sget(final(self).spath()) is Some || bytes_count_below(
                child_bytes(*old(self), final(self).spath()),
                256,
            ) != 1,
            r ==> forall|i: int| old(self).spath().len() <= i < final(self).spath().len() ==> bytes_count_below(
                child_bytes(*old(self), #[trigger] final(self).spath().take(i)),
                256,
            ) == 1 && (i > old(self).spath().len() ==> old(self).sget(final(self).spath().take(i)) is None),
    ;

    /// Moves the focus down along `k` as far as the space goes, stopping at the first path that
    /// holds a value, and returns how many bytes it went down
    fn descend_to_val(&mut self, k: &[u8]) -> (r: usize)
        requires
            old(self).zinv(),
        ensures
            final(self).zinv(),
            final(self).sheight() == old(self).sheight(),
            forall|p: Seq<u8>| #[trigger] final(self).sget(p) == old(self).sget(p),
            forall|p: Seq<u8>| #[trigger] final(self).shas(p) == old(self).shas(p),
            r <= k@.len(),
            final(self).spath() == old(self).spath() + k@.take(r as int),
            forall|j: int| 0 < j <= r ==> #[trigger] old(self).shas(old(self).spath() + k@.take(j)),
            forall|j: int| 0 < j < r ==> #[trigger] old(self).sget(old(self).spath() + k@.take(j)) is None,
            r < k@.len() ==> !old(self).shas(old(self).spath() + k@.take(r + 1)) || (r > 0 && old(self).sget(
                old(self).spath() + k@.take(r as int),
            ) is Some),
    ;

    /// Moves the focus up to the nearest path above it that holds a value or has other than one
    /// child, or else to the root; returns `false` where the focus was at the root already
    fn ascend_until(&mut self) -> (r: bool)
        requires
            old(self).zinv(),
        ensures
            final(self).zinv(),
            final(self).sheight() == old(self).sheight(),
            forall|p: Seq<u8>| #[trigger] final(self).sget(p) == old(self).sget(p),
            forall|p: Seq<u8>| #[trigger] final(self).shas(p) == old(self).shas(p),
            r == (old(self).spath().len() > 0),
            !r ==> final(self).spath() == old(self).spath(),
            r ==> final(self).spath().len() < old(self).spath().len() && final(self).spath() == old(self).spath().take(
                final(self).spath().len() as int,
            ),
            r ==> ascent_stops_at(*old(self), final(self).spath(), false),
            r ==> forall|k: int| final(self).spath().len() < k < old(self).spath().len() ==> !ascent_stops_at(
                *old(self),
                #[trigger] old(self).spath().take(k),
                false,
            ),
    ;

    /// Moves the focus up to the nearest path above it that has other than one child, passing
    /// values by, or else to the root; returns `false` where the focus was at the root already
    fn ascend_until_branch(&mut self) -> (r: bool)
        requires
            old(self).zinv(),
        ensures
            final(self).zinv(),
            final(self).sheight() == old(self).sheight(),
            forall|p: Seq<u8>| #[trigger] final(self).sget(p) == old(self).sget(p),
            forall|p: Seq<u8>| #[trigger] final(self).shas(p) == old(self).shas(p),
            r == (old(self).spath().len() > 0),
            !r ==> final(self).spath() == old(self).spath(),
            r ==> final(self).spath().len() < old(self).spath().len() && final(self).spath() == old(self).spath().take(
                final(self).spath().len() as int,
            ),
            r ==> ascent_stops_at(*old(self), final(self).spath(), true),
            r ==> forall|k: int| final(self).spath().len() < k < old(self).spath().len() ==> !ascent_stops_at(
                *old(self),
                #[trigger] old(self).spath().take(k),
                true,
            ),
    ;

    /// Moves the focus down as far along `k` as the space goes, and returns how many bytes it
    /// went down
    fn descend_to_existing(&mut self, k: &[u8]) -> (r: usize)
        requires
            old(self).zinv(),
        ensures
            final(self).zinv(),
            final(self).sheight() == old(self).sheight(),
            forall|p: Seq<u8>| #[trigger] final(self).sget(p) == old(self).sget(p),
            forall|p: Seq<u8>| #[trigger] final(self).shas(p) == old(self).shas(p),
            r <= k@.len(),
            final(self).spath() == old(self).spath() + k@.take(r as int),
            forall|j: int| 0 < j <= r ==> #[trigger] old(self).shas(old(self).spath() + k@.take(j)),
            r < k@.len() ==> !old(self).shas(old(self).spath() + k@.take(r + 1)),
    ;

    /// Moves the focus to the next value in depth-first order and returns it; where there is
    /// none, the focus goes back to the root and `None` is returned
    fn to_next_get_val(&mut self) -> (r: Option<&V>)
        requires
            old(self).zinv(),
        ensures
            final(self).zinv(),
            final(self).sheight() == old(self).sheight(),
            forall|p: Seq<u8>| #[trigger] final(self).sget(p) == old(self).sget(p),
            forall|p: Seq<u8>| #[trigger] final(self).shas(p) == old(self).shas(p),
            r is Some ==> opt_value(r) == final(self).sget(final(self).spath()) && path_before(old(self).spath(), final(self).spath()),
            r is Some ==> no_val_between(*old(self), old(self).spath(), final(self).spath()),
            r is None ==> final(self).spath() == Seq::<u8>::empty(),
            r is None ==> forall|q: Seq<u8>| path_before(old(self).spath(), q) ==> #[trigger] old(self).sget(q) is None,
    ;

    /// Moves the focus down along the first path of `k` bytes below it in depth-first order, and
    /// reports whether there was one; the focus stays put where there was none
    fn descend_first_k_path(&mut self, k: usize) -> (r: bool)
        requires
            old(self).zinv(),
        ensures
            final(self).zinv(),
            final(self).sheight() == old(self).sheight(),
            forall|p: Seq<u8>| #[trigger] final(self).sget(p) == old(self).sget(p),
            forall|p: Seq<u8>| #[trigger] final(self).shas(p) == old(self).shas(p),
            r ==> final(self).spath().len() == old(self).spath().len() + k && old(self).spath().is_prefix_of(final(self).spath())
                && final(self).shas(final(self).spath()),
            r ==> forall|q: Seq<u8>| q.len() == old(self).spath().len() + k && old(self).spath().is_prefix_of(q) && path_before(
                q,
                final(self).spath(),
            ) ==> !#[trigger] old(self).shas(q),
            !r ==> final(self).spath() == old(self).spath(),
            !r ==> forall|q: Seq<u8>| q.len() == old(self).spath().len() + k && old(self).spath().is_prefix_of(q)
                ==> !#[trigger] old(self).shas(q),
    ;

    /// With the focus `k` bytes below a base path, moves it to the next path of `k` bytes below
    /// that base in depth-first order; where there is none, the focus goes back to the base and
    /// `false` is returned
    fn to_next_k_path(&mut self, k: usize) -> (r: bool)
        requires
            old(self).zinv(),
            k <= old(self).spath().len(),
        ensures
            final(self).zinv(),
            final(self).sheight() == old(self).sheight(),
            forall|p: Seq<u8>| #[trigger] final(self).sget(p) == old(self).sget(p),
            forall|p: Seq<u8>| #[trigger] final(self).shas(p) == old(self).shas(p),
            r ==> final(self).spath().len() == old(self).spath().len() && old(self).spath().take(old(self).spath().len() - k).is_prefix_of(final(self).spath())
                && final(self).shas(final(self).spath()) && path_before(old(self).spath(), final(self).spath()),
            r ==> forall|q: Seq<u8>| q.len() == old(self).spath().len() && old(self).spath().take(old(self).spath().len() - k).is_prefix_of(q)
                && path_before(old(self).spath(), q) && path_before(q, final(self).spath()) ==> !#[trigger] old(self).shas(q),
            !r ==> final(self).spath() == old(self).spath().take(old(self).spath().len() - k),
            !r ==> forall|q: Seq<u8>| q.len() == old(self).spath().len() && old(self).spath().take(old(self).spath().len() - k).is_prefix_of(q)
                && path_before(old(self).spath(), q) ==> !#[trigger] old(self).shas(q),
    ;

    /// The number of values at the focus and below it
    fn val_count(&self) -> (r: usize)
        requires
            self.zinv(),
            self.shas(self.spath()) ==> space_count(*self, self.spath(), (self.sheight() - self.spath().len()) as nat)
                <= usize::MAX,
        ensures
            r == (if self.shas(self.spath()) {
                space_count(*self, self.spath(), (self.sheight() - self.spath().len()) as nat)
            } else {
                0
            }),
    ;
}

impl<V: Copy, Z: ZipperMoving<Val = V>> ZipperIteration<V> for Z {
    fn to_next_sibling_byte(&mut self) -> (r: bool) {
        to_sibling(self, true)
    }

    fn to_prev_sibling_byte(&mut self) -> (r: bool) {
        to_sibling(self, false)
    }

    fn descend_first_byte(&mut self) -> (r: bool) {
        let ghost o = self.spath();
        let m = self.child_mask();
        proof {
            crate::utils::lemma_mask_count(m, child_bytes(*self, o), 256);
        }
        let first = if m.test_bit(0) {
            proof {
                assert(m.has(0));
            }
            Some(0u8)
        } else {
            proof {
                assert(!m.has(0));
            }
            m.next_bit(0)
        };
        match first {
            Some(b) => {
                proof {
                    assert(m.has(b as int));
                    lemma_count_positive(child_bytes(*self, o), b as int, 256);
                    assert forall|c: int| 0 <= c < b implies !#[trigger] self.shas(o.push(c as u8)) by {
                        assert(!m.has(c));
                    }
                }
                self.descend_to_byte(b);
                proof {
                    assert(old(self).shas(o.push(b)));
                }
                true
            },
            None => {
                proof {
                    assert forall|c: int| 0 <= c < 256 implies !#[trigger] child_bytes(*self, o)(c) by {
                        assert(!m.has(c));
                    }
                    lemma_count_zero(child_bytes(*self, o), 256);
                }
                false
            },
        }
    }

    fn descend_until(&mut self) -> (r: bool) {
        let ghost o = self.spath();
        let ghost z0 = *self;
        proof {
            z0.lemma_space();
        }
        let m = self.child_mask();
        proof {
            crate::utils::lemma_mask_count(m, child_bytes(z0, o), 256);
        }
        if m.len() != 1 {
            return false;
        }
        loop
            invariant_except_break
                bytes_count_below(child_bytes(z0, self.spath()), 256) == 1,
                self.spath().len() > o.len() ==> z0.sget(self.spath()) is None,
            invariant
                self.zinv(),
                z0 == *old(self),
                z0.zinv(),
                self.sheight() == old(self).sheight(),
                forall|p: Seq<u8>| #[trigger] self.sget(p) == old(self).sget(p),
                forall|p: Seq<u8>| #[trigger] self.shas(p) == old(self).shas(p),
                o == z0.spath(),
                o.is_prefix_of(self.spath()),
                self.shas(self.spath()) || self.spath() == o,
                forall|i: int| o.len() <= i < self.spath().len() ==> bytes_count_below(child_bytes(z0, #[trigger] self.spath().take(i)), 256) == 1
                    && (i > o.len() ==> z0.sget(self.spath().take(i)) is None),
            ensures
                self.zinv(),
                self.sheight() == old(self).sheight(),
                forall|p: Seq<u8>| #[trigger] self.sget(p) == old(self).sget(p),
                forall|p: Seq<u8>| #[trigger] self.shas(p) == old(self).shas(p),
                o.len() < self.spath().len() && o.is_prefix_of(self.spath()) && self.shas(self.spath()),
                z0.sget(self.spath()) is Some || bytes_count_below(child_bytes(z0, self.spath()), 256) != 1,
                forall|i: int| o.len() <= i < self.spath().len() ==> bytes_count_below(child_bytes(z0, #[trigger] self.spath().take(i)), 256) == 1
                    && (i > o.len() ==> z0.sget(self.spath().take(i)) is None),
            decreases z0.sheight() - self.spath().len(),
        {
            let ghost p = self.spath();
            let cm = self.child_mask();
            proof {
                assert(child_bytes(*self, p) =~= child_bytes(z0, p));
                crate::utils::lemma_mask_count(cm, child_bytes(z0, p), 256);
            }
            let b = match cm.indexed_bit::<true>(0) {
                Some(b) => b,
                None => {
                    proof {
                        assert(false);
                    }
                    0
                },
            };
            proof {
                assert(cm.has(b as int));
                assert(z0.shas(p.push(b)));
                z0.lemma_space();
                assert(p.push(b).len() <= z0.sheight());
            }
            self.descend_to_byte(b);
            proof {
                let q = self.spath();
                assert(q =~= p.push(b));
                assert(o.is_prefix_of(q)) by {
                    assert forall|j: int| 0 <= j < o.len() implies o[j] == q[j] by {
                        assert(p[j] == o[j]);
                    }
                }
                assert forall|i: int| o.len() <= i < q.len() implies bytes_count_below(child_bytes(z0, #[trigger] q.take(i)), 256) == 1
                    && (i > o.len() ==> z0.sget(q.take(i)) is None) by {
                    if i < p.len() {
                        assert(q.take(i) =~= p.take(i));
                    } else {
                        assert(q.take(i) =~= p);
                    }
                }
            }
            if self.is_val() {
                break;
            }
            let cm2 = self.child_mask();
            proof {
                let q = self.spath();
                assert(child_bytes(*self, q) =~= child_bytes(z0, q));
                crate::utils::lemma_mask_count(cm2, child_bytes(z0, q), 256);
            }
            if cm2.len() != 1 {
                break;
            }
        }
        true
    }

    fn descend_to_val(&mut self, k: &[u8]) -> (r: usize) {
        let ghost o = self.spath();
        let mut i: usize = 0;
        while i < k.len()
            invariant
                i <= k@.len(),
                self.zinv(),
                self.sheight() == old(self).sheight(),
                forall|p: Seq<u8>| #[trigger] self.sget(p) == old(self).sget(p),
                forall|p: Seq<u8>| #[trigger] self.shas(p) == old(self).shas(p),
                o == old(self).spath(),
                self.spath() == o + k@.take(i as int),
                forall|j: int| 0 < j <= i ==> #[trigger] old(self).shas(o + k@.take(j)),
                forall|j: int| 0 < j < i ==> #[trigger] old(self).sget(o + k@.take(j)) is None,
                i > 0 ==> old(self).sget(o + k@.take(i as int)) is None,
            decreases k@.len() - i,
        {
            self.descend_to_byte(k[i]);
            proof {
                assert(k@.take(i + 1) =~= k@.take(i as int).push(k@[i as int]));
                assert(self.spath() =~= o + k@.take(i + 1));
            }
            if !self.path_exists() {
                self.ascend_byte();
                proof {
                    assert(self.spath() =~= o + k@.take(i as int));
                }
                return i;
            }
            i = i + 1;
            if self.is_val() {
                return i;
            }
        }
        proof {
            assert(k@.take(k@.len() as int) =~= k@);
        }
        i
    }

    fn ascend_until(&mut self) -> (r: bool) {
        ascend_until_stop(self, false)
    }

    fn ascend_until_branch(&mut self) -> (r: bool) {
        ascend_until_stop(self, true)
    }

    fn descend_to_existing(&mut self, k: &[u8]) -> (r: usize) {
        let ghost o = self.spath();
        let mut i: usize = 0;
        while i < k.len()
            invariant
                i <= k@.len(),
                self.zinv(),
                self.sheight() == old(self).sheight(),
                forall|p: Seq<u8>| #[trigger] self.sget(p) == old(self).sget(p),
                forall|p: Seq<u8>| #[trigger] self.shas(p) == old(self).shas(p),
                o == old(self).spath(),
                self.spath() == o + k@.take(i as int),
                forall|j: int| 0 < j <= i ==> #[trigger] old(self).shas(o + k@.take(j)),
            decreases k@.len() - i,
        {
            let m = self.child_mask();
            if !m.test_bit(k[i]) {
                proof {
                    assert(!m.has(k@[i as int] as int));
                    assert(o + k@.take(i + 1) =~= (o + k@.take(i as int)).push(k@[i as int]));
                }
                return i;
            }
            proof {
                assert(m.has(k@[i as int] as int));
                assert(o + k@.take(i + 1) =~= (o + k@.take(i as int)).push(k@[i as int]));
            }
            self.descend_to_byte(k[i]);
            i = i + 1;
        }
        i
    }

    fn to_next_get_val(&mut self) -> (r: Option<&V>) {
        if self.to_next_val() {
            self.val()
        } else {
            None
        }
    }

    fn descend_first_k_path(&mut self, k: usize) -> (r: bool) {
        descend_first_k(self, k)
    }

    fn to_next_k_path(&mut self, k: usize) -> (r: bool) {
        let ghost o = self.spath();
        let ghost z0 = *self;
        let ghost base = o.take(o.len() - k);
        let mut depth: usize = 0;
        proof {
            z0.lemma_space();
            assert forall|q: Seq<u8>| q.len() == o.len() && o.take(o.len() - 0).is_prefix_of(q) && path_before(o, q) implies !#[trigger] z0.shas(q) by {
                assert(o.take(o.len() - 0) =~= o);
                assert(q =~= o);
                lemma_path_before_asym(o, o);
            }
        }
        while depth < k
            invariant
                depth <= k,
                k <= o.len(),
                base == o.take(o.len() - k),
                self.zinv(),
                self.sheight() == old(self).sheight(),
                forall|p: Seq<u8>| #[trigger] self.sget(p) == old(self).sget(p),
                forall|p: Seq<u8>| #[trigger] self.shas(p) == old(self).shas(p),
                o == old(self).spath(),
                z0 == *old(self),
                z0.zinv(),
                self.spath() == o.take(o.len() - depth),
                forall|q: Seq<u8>| q.len() == o.len() && o.take(o.len() - depth).is_prefix_of(q) && path_before(o, q) ==> !#[trigger] z0.shas(q),
            decreases k - depth,
        {
            let x = self.path()[self.path().len() - 1];
            let ghost c = self.spath();
            self.ascend_byte();
            depth = depth + 1;
            let ghost c1 = self.spath();
            proof {
                assert(c1 =~= o.take(o.len() - depth));
                assert(o[c1.len() as int] == x);
                assert(c1.is_prefix_of(o));
                assert(c =~= c1.push(x));
                assert(c1.push(x).is_prefix_of(o)) by {
                    assert forall|j: int| 0 <= j < c.len() implies c[j] == o[j] by {}
                }
                assert forall|q: Seq<u8>| q.len() == o.len() && c1.is_prefix_of(q) && path_before(o, q) && q[c1.len() as int] <= x
                    implies !#[trigger] z0.shas(q) by {
                    lemma_after_in_subtree(o, c1, x, q);
                }
            }
            let cm = self.child_mask();
            let mut y = x;
            loop
                invariant
                    depth <= k,
                    k <= o.len(),
                    1 <= depth,
                    base == o.take(o.len() - k),
                    self.zinv(),
                    self.sheight() == old(self).sheight(),
                    forall|p: Seq<u8>| #[trigger] self.sget(p) == old(self).sget(p),
                    forall|p: Seq<u8>| #[trigger] self.shas(p) == old(self).shas(p),
                    o == old(self).spath(),
                    z0 == *old(self),
                    z0.zinv(),
                    c1 == o.take(o.len() - depth),
                    c1.is_prefix_of(o),
                    self.spath() == c1,
                    o[c1.len() as int] == x,
                    x <= y,
                    forall|b: int| #[trigger] cm.has(b) <==> (0 <= b < 256 && z0.shas(c1.push(b as u8))),
                    forall|q: Seq<u8>| q.len() == o.len() && c1.is_prefix_of(q) && path_before(o, q) && q[c1.len() as int] <= y
                        ==> !#[trigger] z0.shas(q),
                ensures
                    depth <= k,
                    1 <= depth,
                    self.zinv(),
                    self.sheight() == old(self).sheight(),
                    forall|p: Seq<u8>| #[trigger] self.sget(p) == old(self).sget(p),
                    forall|p: Seq<u8>| #[trigger] self.shas(p) == old(self).shas(p),
                    self.spath() == o.take(o.len() - depth),
                    forall|q: Seq<u8>| q.len() == o.len() && o.take(o.len() - depth).is_prefix_of(q) && path_before(o, q) ==> !#[trigger] z0.shas(q),
                decreases 256 - y,
            {
                match cm.next_bit(y) {
                    Some(n) => {
                        proof {
                            assert forall|q: Seq<u8>| q.len() == o.len() && c1.is_prefix_of(q) && path_before(o, q) && q[c1.len() as int] < n
                                implies !#[trigger] z0.shas(q) by {
                                if q[c1.len() as int] > y && z0.shas(q) {
                                    lemma_below_child_exists(z0, c1, q);
                                    assert(cm.has(q[c1.len() as int] as int));
                                }
                            }
                        }
                        self.descend_to_byte(n);
                        let ghost cn = self.spath();
                        let ghost zc = *self;
                        proof {
                            assert(cn =~= c1.push(n));
                        }
                        if descend_first_k(self, depth - 1) {
                            proof {
                                let f = self.spath();
                                assert(f.len() == o.len());
                                assert forall|j: int| 0 <= j < c1.len() implies f[j] == c1[j] by {
                                    assert(f[j] == cn[j]);
                                    assert(cn[j] == c1[j]);
                                }
                                assert(f[c1.len() as int] == cn[c1.len() as int]);
                                assert(f.take(c1.len() as int) =~= o.take(c1.len() as int));
                                assert(diverges(o, f, c1.len() as int));
                                assert(base.is_prefix_of(f)) by {
                                    assert forall|j: int| 0 <= j < base.len() implies base[j] == f[j] by {
                                        assert(base[j] == o[j]);
                                        assert(c1[j] == o[j]);
                                    }
                                }
                                assert(cn.is_prefix_of(f));
                                assert forall|q: Seq<u8>| q.len() == o.len() && base.is_prefix_of(q) && path_before(o, q) && path_before(q, f)
                                    implies !#[trigger] z0.shas(q) by {
                                    lemma_between_in_subtree(o, c1, n, f, q);
                                    if q[c1.len() as int] == n {
                                        lemma_child_prefix(c1, n, q);
                                        assert(!zc.shas(q));
                                    }
                                }
                            }
                            return true;
                        }
                        self.ascend_byte();
                        proof {
                            assert(self.spath() =~= c1);
                            assert forall|q: Seq<u8>| q.len() == o.len() && c1.is_prefix_of(q) && path_before(o, q) && q[c1.len() as int] <= n
                                implies !#[trigger] z0.shas(q) by {
                                if q[c1.len() as int] == n {
                                    lemma_child_prefix(c1, n, q);
                                    assert(!zc.shas(q));
                                }
                            }
                        }
                        y = n;
                    },
                    None => {
                        proof {
                            assert forall|q: Seq<u8>| q.len() == o.len() && o.take(o.len() - depth).is_prefix_of(q) && path_before(o, q)
                                implies !#[trigger] z0.shas(q) by {
                                if q[c1.len() as int] > y && z0.shas(q) {
                                    lemma_below_child_exists(z0, c1, q);
                                    assert(cm.has(q[c1.len() as int] as int));
                                }
                            }
                        }
                        break;
                    },
                }
            }
        }
        false
    }

    fn val_count(&self) -> (r: usize) {
        if !self.path_exists() {
            return 0;
        }
        proof {
            self.lemma_space();
        }
        let mut z = self.fork();
        proof {
            lemma_space_count_same(z, *self, self.spath(), (self.sheight() - self.spath().len()) as nat);
        }
        count_vals(&mut z)
    }

    fn child_count(&self) -> (r: usize) {
        let m = self.child_mask();
        proof {
            crate::utils::lemma_mask_count(m, |b: int| (0 <= b < 256 && self.shas(self.spath().push(b as u8))), 256);
        }
        m.len()
    }

    fn to_next_step(&mut self) -> (r: bool) {
        let ghost o = self.spath();
        let ghost z0 = *self;
        proof {
            z0.lemma_space();
        }
        let m = self.child_mask();
        let first = if m.test_bit(0) {
            proof {
                assert(m.has(0));
            }
            Some(0u8)
        } else {
            proof {
                assert(!m.has(0));
            }
            m.next_bit(0)
        };
        match first {
            Some(b) => {
                proof {
                    assert(m.has(b as int));
                    assert forall|c: int| 0 <= c < b implies !#[trigger] m.has(c) by {}
                }
                self.descend_to_byte(b);
                proof {
                    let f = o.push(b);
                    assert(o.is_prefix_of(f));
                    assert forall|q: Seq<u8>| path_before(o, q) && path_before(q, f) implies !#[trigger] z0.shas(q) by {
                        lemma_between_below(o, b, f, q);
                        let x = q[o.len() as int];
                        if x < b {
                            if z0.shas(q) {
                                lemma_below_child_exists(z0, o, q);
                                assert(m.has(x as int));
                            }
                        } else if q != f {
                            lemma_below_child(o, b, q);
                            lemma_path_before_below(f, q);
                            lemma_path_before_asym(q, f);
                        }
                    }
                }
                return true;
            },
            None => {
                proof {
                    assert forall|c: int| 0 <= c < 256 implies !#[trigger] m.has(c) by {}
                }
            },
        }
        proof {
            assert forall|q: Seq<u8>| path_before(o, q) && o.is_prefix_of(q) implies !#[trigger] z0.shas(q) by {
                lemma_path_before_asym(o, o);
                if q.len() <= o.len() {
                    assert(q =~= o);
                }
                if z0.shas(q) {
                    lemma_below_child_exists(z0, o, q);
                    assert(m.has(q[o.len() as int] as int));
                }
            }
        }
        while !self.at_root()
            invariant
                self.zinv(),
                self.sheight() == old(self).sheight(),
                forall|p: Seq<u8>| #[trigger] self.sget(p) == old(self).sget(p),
                forall|p: Seq<u8>| #[trigger] self.shas(p) == old(self).shas(p),
                o == old(self).spath(),
                z0 == *old(self),
                z0.zinv(),
                self.spath().is_prefix_of(o),
                forall|q: Seq<u8>| path_before(o, q) && self.spath().is_prefix_of(q) ==> !#[trigger] z0.shas(q),
            decreases self.spath().len(),
        {
            let x = self.path()[self.path().len() - 1];
            let ghost c = self.spath();
            self.ascend_byte();
            let ghost c1 = self.spath();
            proof {
                assert(c1 =~= c.drop_last());
                assert(o[c1.len() as int] == x);
                assert(o.take(c1.len() as int) =~= c1);
                assert(c1.is_prefix_of(o));
                assert(c =~= c1.push(x));
                assert(c1.push(x).is_prefix_of(o)) by {
                    assert forall|k: int| 0 <= k < c.len() implies c[k] == o[k] by {}
                }
            }
            let cm = self.child_mask();
            match cm.next_bit(x) {
                Some(n) => {
                    self.descend_to_byte(n);
                    proof {
                        let f = self.spath();
                        assert(f =~= c1.push(n));
                        assert(f.take(c1.len() as int) =~= c1);
                        assert(diverges(o, f, c1.len() as int));
                        assert(cm.has(n as int));
                        assert forall|q: Seq<u8>| path_before(o, q) && path_before(q, f) implies !#[trigger] z0.shas(q) by {
                            lemma_between_in_subtree(o, c1, n, f, q);
                            if q.len() == c1.len() {
                                assert(q =~= c1);
                                lemma_path_before_below(c1, o);
                                lemma_path_before_asym(q, o);
                            } else {
                                let y = q[c1.len() as int];
                                if y <= x {
                                    lemma_after_in_subtree(o, c1, x, q);
                                } else if y < n {
                                    if z0.shas(q) {
                                        lemma_below_child_exists(z0, c1, q);
                                        assert(cm.has(y as int));
                                    }
                                } else if q != f {
                                    lemma_below_child(c1, n, q);
                                    lemma_path_before_below(f, q);
                                    lemma_path_before_asym(q, f);
                                }
                            }
                        }
                    }
                    return true;
                },
                None => {
                    proof {
                        assert forall|q: Seq<u8>| path_before(o, q) && c1.is_prefix_of(q) implies !#[trigger] z0.shas(q) by {
                            if q.len() == c1.len() {
                                assert(q =~= c1);
                                lemma_path_before_below(c1, o);
                                lemma_path_before_asym(q, o);
                            } else {
                                let y = q[c1.len() as int];
                                if y <= x {
                                    lemma_after_in_subtree(o, c1, x, q);
                                } else if z0.shas(q) {
                                    lemma_below_child_exists(z0, c1, q);
                                    assert(cm.has(y as int));
                                }
                            }
                        }
                    }
                },
            }
        }
        proof {
            assert forall|q: Seq<u8>| path_before(o, q) implies !#[trigger] z0.shas(q) by {
                assert(self.spath().is_prefix_of(q));
            }
        }
        false
    }

    fn to_next_val(&mut self) -> (r: bool) {
        let ghost o = self.spath();
        let ghost z0 = *self;
        if first_val_below(self) {
            return true;
        }
        proof {
            assert forall|q: Seq<u8>| path_before(o, q) && o.is_prefix_of(q) implies #[trigger] z0.sget(q) is None by {
                lemma_path_before_asym(o, o);
                if q.len() <= o.len() {
                    assert(q =~= o);
                }
            }
        }
        while !self.at_root()
            invariant
                self.zinv(),
                self.sheight() == old(self).sheight(),
                forall|p: Seq<u8>| #[trigger] self.sget(p) == old(self).sget(p),
                forall|p: Seq<u8>| #[trigger] self.shas(p) == old(self).shas(p),
                o == old(self).spath(),
                z0 == *old(self),
                z0.zinv(),
                self.spath().is_prefix_of(o),
                forall|q: Seq<u8>| path_before(o, q) && self.spath().is_prefix_of(q) ==> #[trigger] z0.sget(q) is None,
            decreases self.spath().len(),
        {
            let x = self.path()[self.path().len() - 1];
            let ghost c = self.spath();
            self.ascend_byte();
            let ghost c1 = self.spath();
            proof {
                assert(c1 =~= c.drop_last());
                assert(o[c1.len() as int] == x);
                assert(o.take(c1.len() as int) =~= c1);
                assert(c1.is_prefix_of(o));
                assert(c =~= c1.push(x));
                assert(c1.push(x).is_prefix_of(o)) by {
                    assert forall|k: int| 0 <= k < c.len() implies c[k] == o[k] by {}
                }
                z0.lemma_space();
                assert forall|q: Seq<u8>| path_before(o, q) && c1.is_prefix_of(q) && (q.len() == c1.len() || q[c1.len() as int] <= x)
                    implies #[trigger] z0.sget(q) is None by {
                    lemma_after_in_subtree(o, c1, x, q);
                }
            }
            let cm = self.child_mask();
            let mut y = x;
            loop
                invariant
                    self.zinv(),
                    self.sheight() == old(self).sheight(),
                    forall|p: Seq<u8>| #[trigger] self.sget(p) == old(self).sget(p),
                    forall|p: Seq<u8>| #[trigger] self.shas(p) == old(self).shas(p),
                    o == old(self).spath(),
                    z0 == *old(self),
                    z0.zinv(),
                    self.spath() == c1,
                    c1.is_prefix_of(o),
                    c1.len() < o.len(),
                    o[c1.len() as int] == x,
                    o.take(c1.len() as int) == c1,
                    x <= y,
                    forall|b: int| #[trigger] cm.has(b) <==> (0 <= b < 256 && z0.shas(c1.push(b as u8))),
                    forall|q: Seq<u8>| path_before(o, q) && c1.is_prefix_of(q) && (q.len() == c1.len() || q[c1.len() as int] <= y)
                        ==> #[trigger] z0.sget(q) is None,
                ensures
                    self.zinv(),
                    self.sheight() == old(self).sheight(),
                    forall|p: Seq<u8>| #[trigger] self.sget(p) == old(self).sget(p),
                    forall|p: Seq<u8>| #[trigger] self.shas(p) == old(self).shas(p),
                    self.spath() == c1,
                    c1.is_prefix_of(o),
                    forall|q: Seq<u8>| path_before(o, q) && c1.is_prefix_of(q) ==> #[trigger] z0.sget(q) is None,
                decreases 256 - y,
            {
                match cm.next_bit(y) {
                    Some(n) => {
                        proof {
                            z0.lemma_space();
                            assert forall|q: Seq<u8>| path_before(o, q) && c1.is_prefix_of(q) && (q.len() == c1.len() || q[c1.len() as int] < n)
                                implies #[trigger] z0.sget(q) is None by {
                                if q.len() > c1.len() && q[c1.len() as int] > y {
                                    if z0.sget(q) is Some {
                                        lemma_absent_child(z0, c1, q);
                                        assert(cm.has(q[c1.len() as int] as int));
                                    }
                                }
                            }
                        }
                        let ghost zb = *self;
                        self.descend_to_byte(n);
                        let ghost cn = self.spath();
                        proof {
                            assert(cn =~= c1.push(n));
                            assert(cn.take(c1.len() as int) =~= c1);
                            assert(cn[c1.len() as int] == n);
                        }
                        if self.is_val() {
                            proof {
                                assert(diverges(o, self.spath(), c1.len() as int));
                                assert forall|q: Seq<u8>| path_before(o, q) && path_before(q, cn) implies #[trigger] z0.sget(q) is None by {
                                    lemma_between_in_subtree(o, c1, n, cn, q);
                                    if q.len() > c1.len() && q[c1.len() as int] == n {
                                        lemma_path_before_asym(q, cn);
                                        if q != cn {
                                            lemma_below_child(c1, n, q);
                                            lemma_path_before_below(cn, q);
                                        }
                                    }
                                }
                            }
                            return true;
                        }
                        let ghost zc = *self;
                        proof {
                            assert(z0.sget(cn) is None);
                        }
                        if first_val_below(self) {
                            proof {
                                let f = self.spath();
                                assert(f.take(c1.len() as int) =~= c1) by {
                                    assert(cn.is_prefix_of(f));
                                    assert forall|k: int| 0 <= k < c1.len() implies f.take(c1.len() as int)[k] == c1[k] by {
                                        assert(f[k] == cn[k]);
                                    }
                                }
                                assert(f[c1.len() as int] == cn[c1.len() as int]);
                                assert(diverges(o, f, c1.len() as int));
                                assert(cn.is_prefix_of(f));
                                assert forall|q: Seq<u8>| path_before(o, q) && path_before(q, f) implies #[trigger] z0.sget(q) is None by {
                                    lemma_between_in_subtree(o, c1, n, f, q);
                                    if q.len() > c1.len() && q[c1.len() as int] == n && q != cn {
                                        lemma_below_child(c1, n, q);
                                        lemma_path_before_below(cn, q);
                                        assert(zc.sget(q) is None);
                                    }
                                }
                            }
                            return true;
                        }
                        self.ascend_byte();
                        proof {
                            assert(self.spath() =~= c1);
                            assert forall|q: Seq<u8>| path_before(o, q) && c1.is_prefix_of(q) && (q.len() == c1.len() || q[c1.len() as int] <= n)
                                implies #[trigger] z0.sget(q) is None by {
                                if q.len() > c1.len() && q[c1.len() as int] == n && q != cn {
                                    lemma_below_child(c1, n, q);
                                    assert(zc.sget(q) is None);
                                }
                            }
                        }
                        y = n;
                    },
                    None => {
                        proof {
                            z0.lemma_space();
                            assert forall|q: Seq<u8>| path_before(o, q) && c1.is_prefix_of(q) implies #[trigger] z0.sget(q) is None by {
                                if q.len() > c1.len() && q[c1.len() as int] > y {
                                    if z0.sget(q) is Some {
                                        lemma_absent_child(z0, c1, q);
                                        assert(cm.has(q[c1.len() as int] as int));
                                    }
                                }
                            }
                        }
                        break;
                    },
                }
            }
        }
        proof {
            assert forall|q: Seq<u8>| path_before(o, q) implies #[trigger] z0.sget(q) is None by {
                assert(self.spath().is_prefix_of(q));
            }
        }
        false
    }
}

impl<V: Copy, Z: ZipperMoving<Val = V>> ZipperSubtries<V> for Z {
    fn make_node(&self) -> (r: TrieNode<V>) {
        let mut z = self.fork();
        let r = if z.path_exists() {
            build_node(&mut z)
        } else {
            let e = empty_node();
            proof {
                self.lemma_space();
                assert forall|q: Seq<u8>| #![trigger e.node_at(q)] e.get(q) == self.sget(self.spath() + q) && e.has_path(q) == (q.len() == 0 || self.shas(self.spath() + q)) by {
                    assert(e.node_at(q) == e.node_at(q));
                    assert(self.spath().is_prefix_of(self.spath() + q));
                    if self.shas(self.spath() + q) {
                        assert(self.shas(self.spath()));
                    }
                }
            }
            e
        };
        r
    }

    fn make_map(&self) -> (m: PathMap<V>) {
        let n = self.make_node();
        let m = PathMap { root: n };
        proof {
            assert forall|q: Seq<u8>| #![trigger m.root.node_at(q)] m.get(q) == self.sget(self.spath() + q) && m.has_path(q) == (q.len() == 0 || self.shas(self.spath() + q)) by {
                assert(n.node_at(q) == n.node_at(q));
            }
        }
        m
    }

    fn try_make_map(&self) -> (r: Option<PathMap<V>>) {
        let n = self.make_node();
        let m = PathMap { root: n };
        proof {
            assert forall|q: Seq<u8>| #![trigger m.root.node_at(q)] m.get(q) == self.sget(self.spath() + q) && m.has_path(q) == (q.len() == 0 || self.shas(self.spath() + q)) by {
                assert(n.node_at(q) == n.node_at(q));
            }
        }
        Some(m)
    }
}

impl<'a, V: Copy> ZipperMoving for ReadZipper<'a, V> {
    type Val = V;

    open spec fn zinv(&self) -> bool {
        self.inv()
    }

    open spec fn sget(&self, p: Seq<u8>) -> Option<V> {
        opt_get(self.root_node(), p)
    }

    open spec fn shas(&self, p: Seq<u8>) -> bool {
        opt_exists(self.root_node(), p)
    }

    open spec fn spath(&self) -> Seq<u8> {
        self.path@
    }

    open spec fn sheight(&self) -> nat {
        match self.root_node() {
            Some(r) => height(r),
            None => 0,
        }
    }

    proof fn lemma_space(&self) {
        assert forall|p: Seq<u8>, q: Seq<u8>|
            #![trigger self.shas(p), self.shas(q)]
            self.shas(p) && q.is_prefix_of(p) implies self.shas(q) by {
            let r = self.root_node().unwrap();
            lemma_exists_prefix(r, p, q.len() as int);
            assert(p.subrange(0, q.len() as int) =~= q);
        }
        assert forall|p: Seq<u8>| #[trigger] self.shas(p) implies p.len() <= self.sheight() by {
            lemma_height(self.root_node().unwrap(), p);
        }
    }

    open spec fn native(&self) -> bool {
        true
    }

    fn native_subtries(&self) -> (r: bool) {
        true
    }

    fn fork(&self) -> (r: Self) {
        ReadZipper { root: self.root, origin: vstd::slice::slice_to_vec(self.origin.as_slice()), path: vstd::slice::slice_to_vec(self.path.as_slice()) }
    }

    fn path_exists(&self) -> (r: bool) {
        ReadZipper::path_exists(self)
    }

    fn val(&self) -> (r: Option<&V>) {
        ReadZipper::val(self)
    }

    fn child_mask(&self) -> (m: ByteMask) {
        let m = ReadZipper::child_mask(self);
        proof {
            assert forall|b: int| #[trigger] m.has(b) <==> (0 <= b < 256 && self.shas(self.spath().push(b as u8))) by {
                if let Some(r) = self.root_node() {
                    if 0 <= b < 256 {
                        crate::trie::lemma_node_at_push(r, self.path@, b as u8);
                    }
                    if let Some(n) = r.node_at(self.path@) {
                        if n.child(b) is Some {
                            assert(0 <= b < n.children@.len());
                            crate::trie::lemma_node_at_wf(r, self.path@);
                        }
                    }
                }
            }
        }
        m
    }

    fn path(&self) -> (r: &[u8]) {
        ReadZipper::path(self)
    }

    fn reset(&mut self) {
        ReadZipper::reset(self)
    }

    fn descend_to_byte(&mut self, b: u8) {
        ReadZipper::descend_to_byte(self, b)
    }

    fn ascend_byte(&mut self) -> (r: bool) {
        ReadZipper::ascend_byte(self)
    }
}

} // verus!
