//! Overlay zippers: virtual unions of what two zippers see, not lattice joins.
//!
//! The value mapping returns borrowed values from the source zippers, so an overlay never
//! synthesizes a new value.
use vstd::prelude::*;
use core::marker::PhantomData;
use crate::ring::opt_value;
use crate::utils::{BitMask, ByteMask};
use crate::zipper_moving::ZipperMoving;

verus! {

/// How an overlay computes its value from the values of its two sources, which may differ in
/// type from each other and from the value it gives
pub trait OverlayMapping<AV, BV> {
    /// The type of the values the overlay gives.
    type Out: Copy;

    /// The value computed from the values of the two sources.
    spec fn map_spec(&self, a: Option<AV>, b: Option<BV>) -> Option<Self::Out>;

    /// Computes a value from the values of the two sources
    fn map<'a>(&self, a: Option<&'a AV>, b: Option<&'a BV>) -> (r: Option<&'a Self::Out>)
        ensures
            opt_value(r) == self.map_spec(opt_value(a), opt_value(b)),
    ;
}

/// The default mapping: the first source's value where it has one, else the second's.
#[derive(Clone, Copy)]
pub struct PreferFirst;

impl<V: Copy> OverlayMapping<V, V> for PreferFirst {
    type Out = V;

    open spec fn map_spec(&self, a: Option<V>, b: Option<V>) -> Option<V> {
        match a {
            Some(x) => Some(x),
            None => b,
        }
    }

    fn map<'a>(&self, a: Option<&'a V>, b: Option<&'a V>) -> (r: Option<&'a V>) {
        match a {
            Some(x) => Some(x),
            None => b,
        }
    }
}

/// The value an overlay sees at `q`: the mapping applied to the two sources' values.
pub open spec fn overlay_get<AV: Copy, BV: Copy, A: ZipperMoving<Val = AV>, B: ZipperMoving<Val = BV>, M: OverlayMapping<AV, BV>>(
    a: A,
    b: B,
    m: M,
    q: Seq<u8>,
) -> Option<M::Out> {
    m.map_spec(a.sget(q), b.sget(q))
}

/// Zipper that traverses a virtual trie formed by fusing the tries of two other zippers: a path
/// exists where it exists in either.
pub struct OverlayZipper<AV, BV, A, B, M> {
    pub a: A,
    pub b: B,
    pub mapping: M,
    pub marker: PhantomData<(AV, BV)>,
}

impl<V: Copy, A: ZipperMoving<Val = V>, B: ZipperMoving<Val = V>> OverlayZipper<V, V, A, B, PreferFirst> {
    /// An overlay of two zippers, each seen from its root; where both supply a value, the first
    /// one's is seen
    pub fn new(a: A, b: B) -> (r: OverlayZipper<V, V, A, B, PreferFirst>)
        requires
            a.zinv(),
            b.zinv(),
        ensures
            r.oinv(),
            r.a.spath() == Seq::<u8>::empty(),
            r.a.sheight() == a.sheight(),
            r.b.sheight() == b.sheight(),
            forall|p: Seq<u8>| #[trigger] r.a.sget(p) == a.sget(p),
            forall|p: Seq<u8>| #[trigger] r.a.shas(p) == a.shas(p),
            forall|p: Seq<u8>| #[trigger] r.b.sget(p) == b.sget(p),
            forall|p: Seq<u8>| #[trigger] r.b.shas(p) == b.shas(p),
    {
        OverlayZipper::with_mapping(a, b, PreferFirst)
    }
}

impl<AV: Copy, BV: Copy, A: ZipperMoving<Val = AV>, B: ZipperMoving<Val = BV>, M: OverlayMapping<AV, BV>> OverlayZipper<AV, BV, A, B, M> {
    /// The invariant: both sources are at the same focus, and the mapping gives no value where
    /// neither source has one, as a mapping that only picks among the sources' values does.
    pub open spec fn oinv(self) -> bool {
        &&& self.mapping.map_spec(None, None) is None
        &&& self.a.zinv()
        &&& self.b.zinv()
        &&& self.a.spath() == self.b.spath()
    }

    /// An overlay of two zippers, each seen from its root, with `mapping` computing the values;
    /// the mapping gives no value where neither source has one
    pub fn with_mapping(a: A, b: B, mapping: M) -> (r: OverlayZipper<AV, BV, A, B, M>)
        requires
            mapping.map_spec(None, None) is None,
            a.zinv(),
            b.zinv(),
        ensures
            r.oinv(),
            r.mapping == mapping,
            r.a.spath() == Seq::<u8>::empty(),
            r.a.sheight() == a.sheight(),
            r.b.sheight() == b.sheight(),
            forall|p: Seq<u8>| #[trigger] r.a.sget(p) == a.sget(p),
            forall|p: Seq<u8>| #[trigger] r.a.shas(p) == a.shas(p),
            forall|p: Seq<u8>| #[trigger] r.b.sget(p) == b.sget(p),
            forall|p: Seq<u8>| #[trigger] r.b.shas(p) == b.shas(p),
    {
        let mut a = a;
        let mut b = b;
        a.reset();
        b.reset();
        OverlayZipper { a, b, mapping, marker: PhantomData }
    }
}

impl<AV: Copy, BV: Copy, A: ZipperMoving<Val = AV>, B: ZipperMoving<Val = BV>, M: OverlayMapping<AV, BV> + Copy> ZipperMoving for OverlayZipper<AV, BV, A, B, M> {
    type Val = M::Out;

    open spec fn zinv(&self) -> bool {
        self.oinv()
    }

    open spec fn sget(&self, p: Seq<u8>) -> Option<M::Out> {
        overlay_get(self.a, self.b, self.mapping, p)
    }

    open spec fn shas(&self, p: Seq<u8>) -> bool {
        self.a.shas(p) || self.b.shas(p)
    }

    open spec fn spath(&self) -> Seq<u8> {
        self.a.spath()
    }

    open spec fn sheight(&self) -> nat {
        if self.a.sheight() >= self.b.sheight() {
            self.a.sheight()
        } else {
            self.b.sheight()
        }
    }

    proof fn lemma_space(&self) {
        self.a.lemma_space();
        self.b.lemma_space();
        assert forall|p: Seq<u8>, q: Seq<u8>|
            #![trigger self.shas(p), self.shas(q)]
            self.shas(p) && q.is_prefix_of(p) implies self.shas(q) by {
            if self.a.shas(p) {
                assert(self.a.shas(q));
            } else {
                assert(self.b.shas(q));
            }
        }
        assert forall|p: Seq<u8>| #[trigger] self.sget(p) is Some implies self.shas(p) by {
            if self.a.sget(p) is Some {
                assert(self.a.shas(p));
            } else if self.b.sget(p) is Some {
                assert(self.b.shas(p));
            }
        }
        assert forall|p: Seq<u8>| #[trigger] self.shas(p) implies p.len() <= self.sheight() by {
            if self.a.shas(p) {
                assert(p.len() <= self.a.sheight());
            } else {
                assert(p.len() <= self.b.sheight());
            }
        }
    }

    open spec fn native(&self) -> bool {
        false
    }

    fn native_subtries(&self) -> (r: bool) {
        false
    }

    fn fork(&self) -> (r: Self) {
        OverlayZipper { a: self.a.fork(), b: self.b.fork(), mapping: self.mapping, marker: PhantomData }
    }

    fn path_exists(&self) -> (r: bool) {
        let r = self.a.path_exists() || self.b.path_exists();
        assert(r == self.shas(self.spath()));
        r
    }

    fn val(&self) -> (r: Option<&M::Out>) {
        self.mapping.map(self.a.val(), self.b.val())
    }

    fn child_mask(&self) -> (m: ByteMask) {
        let am = self.a.child_mask();
        let bm = self.b.child_mask();
        let m = am.or(&bm);
        proof {
            assert forall|b: int| #[trigger] m.has(b) <==> (0 <= b < 256 && self.shas(self.spath().push(b as u8))) by {
                assert(m.bit_at(b) == (am.bit_at(b) || bm.bit_at(b)));
            }
        }
        m
    }

    fn path(&self) -> (r: &[u8]) {
        self.a.path()
    }

    fn reset(&mut self) {
        self.a.reset();
        self.b.reset();
    }

    fn descend_to_byte(&mut self, k: u8) {
        self.a.descend_to_byte(k);
        self.b.descend_to_byte(k);
    }

    fn ascend_byte(&mut self) -> (r: bool) {
        let r = self.a.ascend_byte();
        self.b.ascend_byte();
        r
    }
}

} // verus!
