//! A virtual zipper that puts a path in front of the space of another zipper.
use vstd::prelude::*;
use crate::ring::opt_value;
use crate::utils::{starts_with, BitMask, ByteMask};
use crate::zipper_moving::ZipperMoving;

verus! {

/// A zipper that wraps another one and prepends an arbitrary path to the wrapped zipper's space:
/// the prefix's own paths exist, and below the prefix lies the wrapped space.
///
/// The whole prepended path is `origin` followed by `prefix`: the zipper's root sits at the end
/// of `origin`, so that `origin` is its root prefix path, and `prefix` is what the zipper itself
/// sees in front of the wrapped space.
pub struct PrefixZipper<Z> {
    pub path: Vec<u8>,
    pub source: Z,
    pub origin: Vec<u8>,
    pub prefix: Vec<u8>,
}

impl<Z: ZipperMoving> PrefixZipper<Z> {
    /// The invariant: the source's focus is the part of the focus below the prefix, or its root
    /// while the focus is not below the prefix.
    pub open spec fn pinv(self) -> bool {
        &&& self.source.zinv()
        &&& self.prefix@.is_prefix_of(self.path@) ==> self.source.spath() == self.path@.skip(
            self.prefix@.len() as int,
        )
        &&& !self.prefix@.is_prefix_of(self.path@) ==> self.source.spath() == Seq::<u8>::empty()
    }

    /// A zipper over `source`, seen from its root, with `prefix` put in front of it
    pub fn new(prefix: &[u8], source: Z) -> (r: PrefixZipper<Z>)
        requires
            source.zinv(),
        ensures
            r.pinv(),
            r.origin@ == Seq::<u8>::empty(),
            r.prefix@ == prefix@,
            r.path@ == Seq::<u8>::empty(),
            r.source.sheight() == source.sheight(),
            forall|p: Seq<u8>| #[trigger] r.source.sget(p) == source.sget(p),
            forall|p: Seq<u8>| #[trigger] r.source.shas(p) == source.shas(p),
    {
        let mut source = source;
        source.reset();
        let r = PrefixZipper { path: Vec::new(), source, origin: Vec::new(), prefix: vstd::slice::slice_to_vec(prefix) };
        proof {
            if r.prefix@.is_prefix_of(r.path@) {
                assert(r.prefix@.len() == 0);
                assert(r.path@.skip(0) =~= r.path@);
            }
        }
        r
    }

    /// Moves the root of the zipper to the end of `root_prefix_path`, which must begin the whole
    /// prepended path; the rest of that path is then seen in front of the wrapped space, and the
    /// focus goes back to the root
    pub fn set_root_prefix_path(&mut self, root_prefix_path: &[u8]) -> (r: Result<(), &'static str>)
        requires
            old(self).pinv(),
        ensures
            final(self).pinv(),
            final(self).source.sheight() == old(self).source.sheight(),
            forall|p: Seq<u8>| #[trigger] final(self).source.sget(p) == old(self).source.sget(p),
            forall|p: Seq<u8>| #[trigger] final(self).source.shas(p) == old(self).source.shas(p),
            r is Ok <==> root_prefix_path@.is_prefix_of(old(self).origin@ + old(self).prefix@),
            r is Ok ==> final(self).origin@ == root_prefix_path@ && final(self).prefix@ == (old(self).origin@
                + old(self).prefix@).skip(root_prefix_path@.len() as int) && final(self).path@ == Seq::<u8>::empty(),
            r is Err ==> *final(self) == *old(self),
    {
        let full = crate::zipper::concat_bytes(self.origin.as_slice(), self.prefix.as_slice());
        if !starts_with(full.as_slice(), root_prefix_path) {
            return Err("zipper's prefix must begin with root_prefix_path");
        }
        self.path.clear();
        self.source.reset();
        let rest = vstd::slice::slice_subrange(full.as_slice(), root_prefix_path.len(), full.len());
        proof {
            assert(rest@ =~= full@.skip(root_prefix_path@.len() as int));
        }
        self.prefix = vstd::slice::slice_to_vec(rest);
        self.origin = vstd::slice::slice_to_vec(root_prefix_path);
        proof {
            if self.prefix@.is_prefix_of(self.path@) {
                assert(self.path@.skip(self.prefix@.len() as int) =~= Seq::<u8>::empty());
            }
        }
        Ok(())
    }

    /// The zipper with its root moved to the end of `origin`, as `set_root_prefix_path` does
    pub fn with_origin(self, origin: &[u8]) -> (r: Result<PrefixZipper<Z>, &'static str>)
        requires
            self.pinv(),
        ensures
            r is Ok <==> origin@.is_prefix_of(self.origin@ + self.prefix@),
            r matches Ok(z) ==> z.pinv() && z.origin@ == origin@ && z.prefix@ == (self.origin@
                + self.prefix@).skip(origin@.len() as int) && z.path@ == Seq::<u8>::empty()
                && z.source.sheight() == self.source.sheight()
                && (forall|p: Seq<u8>| #[trigger] z.source.sget(p) == self.source.sget(p))
                && (forall|p: Seq<u8>| #[trigger] z.source.shas(p) == self.source.shas(p)),
    {
        let mut z = self;
        match z.set_root_prefix_path(origin) {
            Ok(()) => Ok(z),
            Err(_) => Err("set_origin must be called within prefix"),
        }
    }

    /// The path from the zipper's root prefix to its root
    pub fn root_prefix_path(&self) -> (r: &[u8])
        ensures
            r@ == self.origin@,
    {
        self.origin.as_slice()
    }

    /// The whole path to the focus: the root prefix path followed by the focus path
    pub fn origin_path(&self) -> (r: Vec<u8>)
        ensures
            r@ == self.origin@ + self.path@,
    {
        crate::zipper::concat_bytes(self.origin.as_slice(), self.path.as_slice())
    }

    /// Whether the focus lies at the end of the prefix or below it
    fn in_source(&self) -> (r: bool)
        ensures
            r == self.prefix@.is_prefix_of(self.path@),
    {
        starts_with(self.path.as_slice(), self.prefix.as_slice())
    }

    /// The part of the prefix still below the focus: empty once the focus is at the end of the
    /// prefix or below it, and `None` once the focus has left the prefix
    pub fn prefix_path_below_focus(&self) -> (r: Option<&[u8]>)
        ensures
            self.prefix@.is_prefix_of(self.path@) ==> (r matches Some(s) && s@ == Seq::<u8>::empty()),
            !self.prefix@.is_prefix_of(self.path@) && self.path@.is_prefix_of(self.prefix@) ==> (r matches Some(
                s,
            ) && s@ == self.prefix@.skip(self.path@.len() as int)),
            !self.prefix@.is_prefix_of(self.path@) && !self.path@.is_prefix_of(self.prefix@) ==> r is None,
    {
        if self.in_source() {
            let e: &[u8] = vstd::slice::slice_subrange(self.prefix.as_slice(), self.prefix.len(), self.prefix.len());
            proof {
                assert(e@ =~= Seq::<u8>::empty());
            }
            Some(e)
        } else if starts_with(self.prefix.as_slice(), self.path.as_slice()) {
            let rest = vstd::slice::slice_subrange(self.prefix.as_slice(), self.path.len(), self.prefix.len());
            proof {
                assert(rest@ =~= self.prefix@.skip(self.path@.len() as int));
            }
            Some(rest)
        } else {
            None
        }
    }
}

impl<Z: ZipperMoving> ZipperMoving for PrefixZipper<Z> {
    type Val = Z::Val;

    open spec fn zinv(&self) -> bool {
        self.pinv()
    }

    open spec fn sget(&self, q: Seq<u8>) -> Option<Z::Val> {
        if self.prefix@.is_prefix_of(q) {
            self.source.sget(q.skip(self.prefix@.len() as int))
        } else {
            None
        }
    }

    open spec fn shas(&self, q: Seq<u8>) -> bool {
        if self.prefix@.is_prefix_of(q) {
            q.len() == self.prefix@.len() || self.source.shas(q.skip(self.prefix@.len() as int))
        } else {
            q.is_prefix_of(self.prefix@)
        }
    }

    open spec fn spath(&self) -> Seq<u8> {
        self.path@
    }

    open spec fn sheight(&self) -> nat {
        self.prefix@.len() + self.source.sheight()
    }

    open spec fn native(&self) -> bool {
        self.source.native()
    }

    proof fn lemma_space(&self) {
        self.source.lemma_space();
        let ghost pre = self.prefix@;
        assert forall|p: Seq<u8>, q: Seq<u8>|
            #![trigger self.shas(p), self.shas(q)]
            self.shas(p) && q.is_prefix_of(p) implies self.shas(q) by {
            if pre.is_prefix_of(p) {
                if pre.is_prefix_of(q) {
                    let ps = p.skip(pre.len() as int);
                    let qs = q.skip(pre.len() as int);
                    if q.len() != pre.len() {
                        assert(p.len() != pre.len());
                        assert(qs.is_prefix_of(ps)) by {
                            assert forall|k: int| 0 <= k < qs.len() implies qs[k] == ps[k] by {
                                assert(qs[k] == q[k + pre.len()]);
                                assert(ps[k] == p[k + pre.len()]);
                            }
                        }
                    }
                } else {
                    assert(q.len() < pre.len()) by {
                        if q.len() >= pre.len() {
                            assert forall|k: int| 0 <= k < pre.len() implies pre[k] == q[k] by {
                                assert(q[k] == p[k]);
                            }
                        }
                    }
                    assert forall|k: int| 0 <= k < q.len() implies q[k] == pre[k] by {
                        assert(q[k] == p[k]);
                    }
                }
            } else {
                assert(!pre.is_prefix_of(q)) by {
                    if pre.is_prefix_of(q) {
                        assert forall|k: int| 0 <= k < pre.len() implies pre[k] == p[k] by {
                            assert(q[k] == p[k]);
                        }
                    }
                }
                assert forall|k: int| 0 <= k < q.len() implies q[k] == pre[k] by {
                    assert(q[k] == p[k]);
                }
            }
        }
        assert forall|p: Seq<u8>| #[trigger] self.sget(p) is Some implies self.shas(p) by {
            assert(self.source.sget(p.skip(pre.len() as int)) is Some);
        }
        assert forall|p: Seq<u8>| #[trigger] self.shas(p) implies p.len() <= self.sheight() by {
            if pre.is_prefix_of(p) && p.len() != pre.len() {
                assert(self.source.shas(p.skip(pre.len() as int)));
            }
        }
    }

    fn native_subtries(&self) -> (r: bool) {
        self.source.native_subtries()
    }

    fn fork(&self) -> (r: Self) {
        PrefixZipper {
            path: vstd::slice::slice_to_vec(self.path.as_slice()),
            source: self.source.fork(),
            origin: vstd::slice::slice_to_vec(self.origin.as_slice()),
            prefix: vstd::slice::slice_to_vec(self.prefix.as_slice()),
        }
    }

    fn path_exists(&self) -> (r: bool) {
        if self.in_source() {
            self.path.len() == self.prefix.len() || self.source.path_exists()
        } else {
            starts_with(self.prefix.as_slice(), self.path.as_slice())
        }
    }

    fn val(&self) -> (r: Option<&Z::Val>) {
        if self.in_source() {
            self.source.val()
        } else {
            None
        }
    }

    fn child_mask(&self) -> (m: ByteMask) {
        let ghost pre = self.prefix@;
        let ghost p = self.path@;
        if self.in_source() {
            let m = self.source.child_mask();
            proof {
                assert forall|b: int| #[trigger] m.has(b) <==> (0 <= b < 256 && self.shas(p.push(b as u8))) by {
                    if 0 <= b < 256 {
                        assert(pre.is_prefix_of(p.push(b as u8)));
                        assert(p.push(b as u8).skip(pre.len() as int) =~= p.skip(pre.len() as int).push(b as u8));
                    }
                }
            }
            m
        } else if starts_with(self.prefix.as_slice(), self.path.as_slice()) {
            let next = self.prefix[self.path.len()];
            let m = ByteMask::singleton(next);
            proof {
                assert(p.len() < pre.len()) by {
                    if p.len() >= pre.len() {
                        assert(p.len() == pre.len());
                        assert(pre =~= p);
                    }
                }
                assert forall|b: int| #[trigger] m.has(b) <==> (0 <= b < 256 && self.shas(p.push(b as u8))) by {
                    let pb = p.push(b as u8);
                    if 0 <= b < 256 {
                        if b == next {
                            assert(pb.is_prefix_of(pre)) by {
                                assert forall|k: int| 0 <= k < pb.len() implies pb[k] == pre[k] by {}
                            }
                            if pre.is_prefix_of(pb) {
                                assert(pb.len() == pre.len());
                                assert(pb =~= pre);
                                assert(pb.skip(pre.len() as int) =~= Seq::<u8>::empty());
                            }
                        } else {
                            assert(!pb.is_prefix_of(pre)) by {
                                assert(pb[p.len() as int] != pre[p.len() as int]);
                            }
                            assert(!pre.is_prefix_of(pb)) by {
                                if pre.is_prefix_of(pb) {
                                    assert(pb[p.len() as int] == pre[p.len() as int]);
                                }
                            }
                        }
                    }
                }
            }
            m
        } else {
            let m = ByteMask::empty();
            proof {
                assert forall|b: int| #[trigger] m.has(b) <==> (0 <= b < 256 && self.shas(p.push(b as u8))) by {
                    let pb = p.push(b as u8);
                    assert(!pre.is_prefix_of(pb)) by {
                        if pre.is_prefix_of(pb) {
                            if pre.len() <= p.len() {
                                assert forall|k: int| 0 <= k < pre.len() implies pre[k] == p[k] by {
                                    assert(pb[k] == p[k]);
                                }
                            } else {
                                assert forall|k: int| 0 <= k < p.len() implies p[k] == pre[k] by {
                                    assert(pb[k] == p[k]);
                                }
                            }
                        }
                    }
                    assert(!pb.is_prefix_of(pre)) by {
                        if pb.is_prefix_of(pre) {
                            assert forall|k: int| 0 <= k < p.len() implies p[k] == pre[k] by {
                                assert(pb[k] == p[k]);
                            }
                        }
                    }
                }
            }
            m
        }
    }

    fn path(&self) -> (r: &[u8]) {
        self.path.as_slice()
    }

    fn reset(&mut self)
        ensures
            final(self).prefix@ == old(self).prefix@,
            final(self).origin@ == old(self).origin@,
    {
        self.path.clear();
        self.source.reset();
        proof {
            if self.prefix@.is_prefix_of(self.path@) {
                assert(self.path@.skip(self.prefix@.len() as int) =~= Seq::<u8>::empty());
            }
        }
    }

    fn descend_to_byte(&mut self, b: u8)
        ensures
            final(self).prefix@ == old(self).prefix@,
            final(self).origin@ == old(self).origin@,
    {
        let ghost pre = self.prefix@;
        let ghost p = self.path@;
        if self.in_source() {
            self.source.descend_to_byte(b);
            self.path.push(b);
            proof {
                assert(pre.is_prefix_of(self.path@));
                assert(self.path@.skip(pre.len() as int) =~= p.skip(pre.len() as int).push(b));
            }
        } else {
            self.path.push(b);
            proof {
                if pre.is_prefix_of(self.path@) {
                    assert(self.path@.len() == pre.len()) by {
                        if self.path@.len() > pre.len() {
                            assert(pre.is_prefix_of(p)) by {
                                assert forall|k: int| 0 <= k < pre.len() implies pre[k] == p[k] by {
                                    assert(self.path@[k] == p[k]);
                                }
                            }
                        }
                    }
                    assert(self.path@.skip(pre.len() as int) =~= Seq::<u8>::empty());
                }
            }
        }
    }

    fn ascend_byte(&mut self) -> (r: bool)
        ensures
            final(self).prefix@ == old(self).prefix@,
            final(self).origin@ == old(self).origin@,
    {
        let ghost pre = self.prefix@;
        let ghost p = self.path@;
        if self.path.len() == 0 {
            return false;
        }
        let src = self.in_source();
        self.path.pop();
        if src && self.path.len() >= self.prefix.len() {
            self.source.ascend_byte();
            proof {
                assert(pre.is_prefix_of(self.path@)) by {
                    assert forall|k: int| 0 <= k < pre.len() implies pre[k] == self.path@[k] by {
                        assert(self.path@[k] == p[k]);
                    }
                }
                assert(self.path@.skip(pre.len() as int) =~= p.skip(pre.len() as int).drop_last());
            }
        } else if src {
            self.source.reset();
            proof {
                assert(!pre.is_prefix_of(self.path@));
            }
        } else {
            proof {
                assert(!pre.is_prefix_of(self.path@)) by {
                    if pre.is_prefix_of(self.path@) {
                        assert forall|k: int| 0 <= k < pre.len() implies pre[k] == p[k] by {
                            assert(self.path@[k] == p[k]);
                        }
                    }
                }
            }
        }
        true
    }

    fn descend_to(&mut self, k: &[u8])
        ensures
            final(self).prefix@ == old(self).prefix@,
            final(self).origin@ == old(self).origin@,
    {
        let mut i: usize = 0;
        while i < k.len()
            invariant
                i <= k@.len(),
                self.zinv(),
                self.sheight() == old(self).sheight(),
                self.prefix@ == old(self).prefix@,
                self.origin@ == old(self).origin@,
                forall|p: Seq<u8>| #[trigger] self.sget(p) == old(self).sget(p),
                forall|p: Seq<u8>| #[trigger] self.shas(p) == old(self).shas(p),
                self.spath() == old(self).spath() + k@.take(i as int),
            decreases k@.len() - i,
        {
            self.descend_to_byte(k[i]);
            proof {
                assert(k@.take(i + 1) =~= k@.take(i as int).push(k@[i as int]));
            }
            i = i + 1;
        }
        proof {
            assert(k@.take(k@.len() as int) =~= k@);
        }
    }

    fn ascend(&mut self, steps: usize) -> (r: bool)
        ensures
            final(self).prefix@ == old(self).prefix@,
            final(self).origin@ == old(self).origin@,
    {
        let mut i: usize = 0;
        while i < steps
            invariant
                i <= steps,
                self.zinv(),
                self.sheight() == old(self).sheight(),
                self.prefix@ == old(self).prefix@,
                self.origin@ == old(self).origin@,
                forall|p: Seq<u8>| #[trigger] self.sget(p) == old(self).sget(p),
                forall|p: Seq<u8>| #[trigger] self.shas(p) == old(self).shas(p),
                i <= old(self).spath().len(),
                self.spath() == old(self).spath().take(old(self).spath().len() - i),
            decreases steps - i,
        {
            let moved = self.ascend_byte();
            if !moved {
                proof {
                    assert(self.spath().len() == 0);
                    assert(i == old(self).spath().len());
                }
                return false;
            }
            proof {
                let o = old(self).spath();
                assert(o.take(o.len() - i).drop_last() =~= o.take(o.len() - (i + 1)));
            }
            i = i + 1;
        }
        true
    }
}

} // verus!
