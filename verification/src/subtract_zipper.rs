//! A virtual zipper over the difference of what two zippers see.
use vstd::prelude::*;
use crate::ring::{opt_value, subtract_value, subtract_values, DistributiveLattice};
use crate::utils::{BitMask, ByteMask};
use crate::zipper_moving::ZipperMoving;

verus! {

/// The value left at `q` when the right space is subtracted from the left one.
pub open spec fn sub_get<V: DistributiveLattice + Copy, L: ZipperMoving<Val = V>, R: ZipperMoving<Val = V>>(l: L, r: R, q: Seq<u8>) -> Option<V> {
    subtract_values(l.sget(q), r.sget(q))
}

/// Whether `w` is kept in the difference: the left has it, and it leaves the right or keeps a
/// value.
pub open spec fn sub_keeps<V: DistributiveLattice + Copy, L: ZipperMoving<Val = V>, R: ZipperMoving<Val = V>>(l: L, r: R, w: Seq<u8>) -> bool {
    l.shas(w) && (!r.shas(w) || sub_get(l, r, w) is Some)
}

/// Whether something is kept in the difference at `q` or below it.
pub open spec fn sub_reaches<V: DistributiveLattice + Copy, L: ZipperMoving<Val = V>, R: ZipperMoving<Val = V>>(l: L, r: R, q: Seq<u8>) -> bool {
    exists|w: Seq<u8>| q.is_prefix_of(w) && #[trigger] sub_keeps(l, r, w)
}

/// Zippers with the same spaces keep the same paths.
pub proof fn lemma_sub_same<V: DistributiveLattice + Copy, L: ZipperMoving<Val = V>, R: ZipperMoving<Val = V>>(l1: L, r1: R, l2: L, r2: R)
    requires
        forall|p: Seq<u8>| #[trigger] l1.sget(p) == l2.sget(p),
        forall|p: Seq<u8>| #[trigger] l1.shas(p) == l2.shas(p),
        forall|p: Seq<u8>| #[trigger] r1.sget(p) == r2.sget(p),
        forall|p: Seq<u8>| #[trigger] r1.shas(p) == r2.shas(p),
    ensures
        forall|q: Seq<u8>| #[trigger] sub_reaches(l1, r1, q) == sub_reaches(l2, r2, q),
        forall|q: Seq<u8>| #[trigger] sub_get(l1, r1, q) == sub_get(l2, r2, q),
{
    assert forall|w: Seq<u8>| #[trigger] sub_keeps(l1, r1, w) == sub_keeps(l2, r2, w) by {
        assert(l1.sget(w) == l2.sget(w) && r1.sget(w) == r2.sget(w));
        assert(l1.shas(w) == l2.shas(w) && r1.shas(w) == r2.shas(w));
    }
    assert forall|q: Seq<u8>| #[trigger] sub_reaches(l1, r1, q) == sub_reaches(l2, r2, q) by {
        if sub_reaches(l1, r1, q) {
            let w = choose|w: Seq<u8>| q.is_prefix_of(w) && #[trigger] sub_keeps(l1, r1, w);
            assert(sub_keeps(l2, r2, w));
        }
        if sub_reaches(l2, r2, q) {
            let w = choose|w: Seq<u8>| q.is_prefix_of(w) && #[trigger] sub_keeps(l2, r2, w);
            assert(sub_keeps(l1, r1, w));
        }
    }
    assert forall|q: Seq<u8>| #[trigger] sub_get(l1, r1, q) == sub_get(l2, r2, q) by {
        assert(l1.sget(q) == l2.sget(q) && r1.sget(q) == r2.sget(q));
    }
}

/// Whether something is kept in the difference at the common focus of `left` and `right` or
/// below it, found by visiting the left space below the focus
fn residual<V: DistributiveLattice + Copy, L: ZipperMoving<Val = V>, R: ZipperMoving<Val = V>>(left: &mut L, right: &mut R) -> (r: bool)
    requires
        old(left).zinv(),
        old(right).zinv(),
        old(left).spath() == old(right).spath(),
    ensures
        final(left).zinv(),
        final(right).zinv(),
        final(left).sheight() == old(left).sheight(),
        forall|p: Seq<u8>| #[trigger] final(left).sget(p) == old(left).sget(p),
        forall|p: Seq<u8>| #[trigger] final(left).shas(p) == old(left).shas(p),
        final(right).sheight() == old(right).sheight(),
        forall|p: Seq<u8>| #[trigger] final(right).sget(p) == old(right).sget(p),
        forall|p: Seq<u8>| #[trigger] final(right).shas(p) == old(right).shas(p),
        final(left).spath() == old(left).spath(),
        final(right).spath() == old(right).spath(),
        r == sub_reaches(*old(left), *old(right), old(left).spath()),
    decreases old(left).sheight() - old(left).spath().len(),
{
    let ghost l0 = *left;
    let ghost r0 = *right;
    let ghost p = left.spath();
    proof {
        left.lemma_space();
        right.lemma_space();
    }
    if !left.path_exists() {
        proof {
            if sub_reaches(l0, r0, p) {
                let w = choose|w: Seq<u8>| p.is_prefix_of(w) && #[trigger] sub_keeps(l0, r0, w);
                assert(l0.shas(w));
                assert(l0.shas(p));
            }
        }
        return false;
    }
    if !right.path_exists() {
        proof {
            assert(p.is_prefix_of(p));
            assert(sub_keeps(l0, r0, p));
        }
        return true;
    }
    let v = subtract_value(left.val(), right.val());
    if v.is_some() {
        proof {
            assert(p.is_prefix_of(p));
            assert(sub_keeps(l0, r0, p));
        }
        return true;
    }
    let m = left.child_mask();
    let mut i: usize = 0;
    while i < 256
        invariant
            i <= 256,
            left.zinv(),
            right.zinv(),
            l0.zinv(),
            l0 == *old(left),
            r0 == *old(right),
            p == l0.spath(),
            p == r0.spath(),
            left.spath() == p,
            right.spath() == p,
            left.sheight() == l0.sheight(),
            forall|q: Seq<u8>| #[trigger] left.sget(q) == l0.sget(q),
            forall|q: Seq<u8>| #[trigger] left.shas(q) == l0.shas(q),
            right.sheight() == r0.sheight(),
            forall|q: Seq<u8>| #[trigger] right.sget(q) == r0.sget(q),
            forall|q: Seq<u8>| #[trigger] right.shas(q) == r0.shas(q),
            forall|b: int| #[trigger] m.has(b) <==> (0 <= b < 256 && l0.shas(p.push(b as u8))),
            forall|b: int| 0 <= b < i ==> !#[trigger] sub_reaches(l0, r0, p.push(b as u8)),
        decreases 256 - i,
    {
        if m.test_bit(i as u8) {
            proof {
                assert(m.has(i as int));
                l0.lemma_space();
                assert(l0.shas(p.push(i as u8)));
            }
            left.descend_to_byte(i as u8);
            right.descend_to_byte(i as u8);
            let ghost l1 = *left;
            let ghost r1 = *right;
            let found = residual(left, right);
            left.ascend_byte();
            right.ascend_byte();
            proof {
                assert(p.push(i as u8).drop_last() =~= p);
                lemma_sub_same(l1, r1, l0, r0);
            }
            if found {
                proof {
                    let w = choose|w: Seq<u8>| p.push(i as u8).is_prefix_of(w) && #[trigger] sub_keeps(l0, r0, w);
                    assert(p.is_prefix_of(w));
                }
                return true;
            }
        } else {
            proof {
                l0.lemma_space();
                if sub_reaches(l0, r0, p.push(i as u8)) {
                    let w = choose|w: Seq<u8>| p.push(i as u8).is_prefix_of(w) && #[trigger] sub_keeps(l0, r0, w);
                    assert(l0.shas(w));
                    assert(l0.shas(p.push(i as u8)));
                    assert(m.has(i as int));
                }
            }
        }
        i = i + 1;
    }
    proof {
        if sub_reaches(l0, r0, p) {
            let w = choose|w: Seq<u8>| p.is_prefix_of(w) && #[trigger] sub_keeps(l0, r0, w);
            if w.len() == p.len() {
                assert(w =~= p);
                assert(sub_get(l0, r0, p) == v);
            } else {
                let b = w[p.len() as int];
                assert(p.push(b).is_prefix_of(w));
                assert(sub_reaches(l0, r0, p.push(b)));
                assert(!sub_reaches(l0, r0, p.push(b as int as u8)));
            }
        }
    }
    false
}

/// A read-only virtual zipper over the pathspace difference of two zippers kept at the same
/// relative path: values are subtracted with the lattice subtraction, and a path is seen where
/// something of the left is kept at it or below it.
pub struct SubtractZipper<L, R, V> {
    pub left: L,
    pub right: R,
    pub value: Option<V>,
}

impl<V: DistributiveLattice + Copy, L: ZipperMoving<Val = V>, R: ZipperMoving<Val = V>> SubtractZipper<L, R, V> {
    /// The invariant tying the two foci together and the value kept for the focus.
    pub open spec fn sinv(self) -> bool {
        &&& self.left.zinv()
        &&& self.right.zinv()
        &&& self.left.spath() == self.right.spath()
        &&& self.value == sub_get(self.left, self.right, self.left.spath())
    }

    /// A zipper over the difference of what `left` and `right` see from their roots
    pub fn new(left: L, right: R) -> (r: SubtractZipper<L, R, V>)
        requires
            left.zinv(),
            right.zinv(),
        ensures
            r.sinv(),
            r.left.spath() == Seq::<u8>::empty(),
            r.left.sheight() == left.sheight(),
            forall|p: Seq<u8>| #[trigger] r.left.sget(p) == left.sget(p),
            forall|p: Seq<u8>| #[trigger] r.left.shas(p) == left.shas(p),
            forall|p: Seq<u8>| #[trigger] r.right.sget(p) == right.sget(p),
            forall|p: Seq<u8>| #[trigger] r.right.shas(p) == right.shas(p),
    {
        let mut left = left;
        let mut right = right;
        left.reset();
        right.reset();
        let value = subtract_value(left.val(), right.val());
        SubtractZipper { left, right, value }
    }

    /// Recomputes the value kept for the focus
    fn refresh_value(&mut self)
        requires
            old(self).left.zinv(),
            old(self).right.zinv(),
            old(self).left.spath() == old(self).right.spath(),
        ensures
            final(self).sinv(),
            final(self).left == old(self).left,
            final(self).right == old(self).right,
    {
        self.value = subtract_value(self.left.val(), self.right.val());
    }
}

impl<V: DistributiveLattice + Copy, L: ZipperMoving<Val = V>, R: ZipperMoving<Val = V>> ZipperMoving for SubtractZipper<L, R, V> {
    type Val = V;

    open spec fn zinv(&self) -> bool {
        self.sinv()
    }

    open spec fn sget(&self, p: Seq<u8>) -> Option<V> {
        sub_get(self.left, self.right, p)
    }

    open spec fn shas(&self, p: Seq<u8>) -> bool {
        sub_reaches(self.left, self.right, p)
    }

    open spec fn spath(&self) -> Seq<u8> {
        self.left.spath()
    }

    open spec fn sheight(&self) -> nat {
        self.left.sheight()
    }

    proof fn lemma_space(&self) {
        self.left.lemma_space();
        assert forall|p: Seq<u8>, q: Seq<u8>|
            #![trigger self.shas(p), self.shas(q)]
            self.shas(p) && q.is_prefix_of(p) implies self.shas(q) by {
            let w = choose|w: Seq<u8>| p.is_prefix_of(w) && #[trigger] sub_keeps(self.left, self.right, w);
            assert(q.is_prefix_of(w));
        }
        assert forall|p: Seq<u8>| #[trigger] self.sget(p) is Some implies self.shas(p) by {
            assert(self.left.sget(p) is Some);
            assert(self.left.shas(p));
            assert(p.is_prefix_of(p));
            assert(sub_keeps(self.left, self.right, p));
        }
        assert forall|p: Seq<u8>| #[trigger] self.shas(p) implies p.len() <= self.sheight() by {
            let w = choose|w: Seq<u8>| p.is_prefix_of(w) && #[trigger] sub_keeps(self.left, self.right, w);
            assert(self.left.shas(w));
        }
    }

    open spec fn native(&self) -> bool {
        false
    }

    fn native_subtries(&self) -> (r: bool) {
        false
    }

    fn fork(&self) -> (r: Self) {
        let r = SubtractZipper { left: self.left.fork(), right: self.right.fork(), value: self.value };
        proof {
            lemma_sub_same(r.left, r.right, self.left, self.right);
        }
        r
    }

    fn path_exists(&self) -> (r: bool) {
        let mut l = self.left.fork();
        let mut rt = self.right.fork();
        let ghost l1 = l;
        let ghost r1 = rt;
        let r = residual(&mut l, &mut rt);
        proof {
            lemma_sub_same(l1, r1, self.left, self.right);
        }
        r
    }

    fn val(&self) -> (r: Option<&V>) {
        self.value.as_ref()
    }

    fn child_mask(&self) -> (m: ByteMask) {
        let lm = self.left.child_mask();
        let mut m = ByteMask::empty();
        let mut l = self.left.fork();
        let mut rt = self.right.fork();
        let ghost p = self.left.spath();
        proof {
            lemma_sub_same(l, rt, self.left, self.right);
        }
        let mut i: usize = 0;
        while i < 256
            invariant
                i <= 256,
                self.sinv(),
                p == self.left.spath(),
                l.zinv(),
                rt.zinv(),
                l.spath() == p,
                rt.spath() == p,
                l.sheight() == self.left.sheight(),
                forall|q: Seq<u8>| #[trigger] l.sget(q) == self.left.sget(q),
                forall|q: Seq<u8>| #[trigger] l.shas(q) == self.left.shas(q),
                forall|q: Seq<u8>| #[trigger] rt.sget(q) == self.right.sget(q),
                forall|q: Seq<u8>| #[trigger] rt.shas(q) == self.right.shas(q),
                forall|b: int| #[trigger] lm.has(b) <==> (0 <= b < 256 && self.left.shas(p.push(b as u8))),
                forall|b: int| #[trigger] m.has(b) <==> (0 <= b < i && sub_reaches(self.left, self.right, p.push(b as u8))),
            decreases 256 - i,
        {
            if lm.test_bit(i as u8) {
                l.descend_to_byte(i as u8);
                rt.descend_to_byte(i as u8);
                let ghost l1 = l;
                let ghost r1 = rt;
                let found = residual(&mut l, &mut rt);
                l.ascend_byte();
                rt.ascend_byte();
                proof {
                    assert(p.push(i as u8).drop_last() =~= p);
                    lemma_sub_same(l1, r1, self.left, self.right);
                }
                if found {
                    let ghost before = m;
                    m.set_bit(i as u8);
                    proof {
                        assert forall|b: int| #[trigger] m.has(b) <==> (0 <= b < i + 1 && sub_reaches(self.left, self.right, p.push(b as u8))) by {
                            assert(m.bit_at(b) == (before.bit_at(b) || (b == i as u8 && b < 256)));
                        }
                    }
                }
            } else {
                proof {
                    self.left.lemma_space();
                    if sub_reaches(self.left, self.right, p.push(i as u8)) {
                        let w = choose|w: Seq<u8>| p.push(i as u8).is_prefix_of(w) && #[trigger] sub_keeps(self.left, self.right, w);
                        assert(self.left.shas(w));
                        assert(self.left.shas(p.push(i as u8)));
                        assert(lm.has(i as int));
                    }
                }
            }
            i = i + 1;
        }
        m
    }

    fn path(&self) -> (r: &[u8]) {
        self.left.path()
    }

    fn reset(&mut self) {
        let ghost l0 = self.left;
        let ghost r0 = self.right;
        self.left.reset();
        self.right.reset();
        self.refresh_value();
        proof {
            lemma_sub_same(self.left, self.right, l0, r0);
        }
    }

    fn descend_to_byte(&mut self, b: u8) {
        let ghost l0 = self.left;
        let ghost r0 = self.right;
        self.left.descend_to_byte(b);
        self.right.descend_to_byte(b);
        self.refresh_value();
        proof {
            lemma_sub_same(self.left, self.right, l0, r0);
        }
    }

    fn ascend_byte(&mut self) -> (r: bool) {
        let ghost l0 = self.left;
        let ghost r0 = self.right;
        let r = self.left.ascend_byte();
        self.right.ascend_byte();
        self.refresh_value();
        proof {
            lemma_sub_same(self.left, self.right, l0, r0);
        }
        r
    }
}

} // verus!
