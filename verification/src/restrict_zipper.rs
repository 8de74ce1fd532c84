//! A virtual zipper that lets through the paths of a data zipper that a guard zipper allows.
use vstd::prelude::*;
use crate::ring::opt_value;
use crate::utils::{BitMask, ByteMask};
use crate::zipper_moving::ZipperMoving;

verus! {

/// Whether the guard holds a value on `p` strictly above depth `d`.
pub open spec fn guard_above<G: ZipperMoving>(g: G, p: Seq<u8>, d: int) -> bool {
    exists|k: int| 0 <= k < d && #[trigger] g.sget(p.take(k)) is Some
}

/// Whether the guard holds a value on `p`, at its end or anywhere above it.
pub open spec fn guard_on<G: ZipperMoving>(g: G, p: Seq<u8>) -> bool {
    guard_above(g, p, p.len() + 1 as int)
}

/// Two guards with the same values hold values at the same places.
pub proof fn lemma_guard_same<G: ZipperMoving>(g1: G, g2: G)
    requires
        forall|p: Seq<u8>| #[trigger] g1.sget(p) == g2.sget(p),
    ensures
        forall|p: Seq<u8>, d: int| #[trigger] guard_above(g1, p, d) == guard_above(g2, p, d),
{
    assert forall|p: Seq<u8>, d: int| #[trigger] guard_above(g1, p, d) == guard_above(g2, p, d) by {
        if guard_above(g1, p, d) {
            let k = choose|k: int| 0 <= k < d && #[trigger] g1.sget(p.take(k)) is Some;
            assert(g2.sget(p.take(k)) is Some);
        }
        if guard_above(g2, p, d) {
            let k = choose|k: int| 0 <= k < d && #[trigger] g2.sget(p.take(k)) is Some;
            assert(g1.sget(p.take(k)) is Some);
        }
    }
}

/// Whether the guard holds a value above depth `d` depends only on the path above that depth.
pub proof fn lemma_guard_prefix<G: ZipperMoving>(g: G, p: Seq<u8>, q: Seq<u8>, d: int)
    requires
        forall|k: int| 0 <= k < d ==> #[trigger] p.take(k) == q.take(k),
    ensures
        guard_above(g, p, d) == guard_above(g, q, d),
{
    if guard_above(g, p, d) {
        let k = choose|k: int| 0 <= k < d && #[trigger] g.sget(p.take(k)) is Some;
        assert(p.take(k) == q.take(k));
        assert(g.sget(q.take(k)) is Some);
    }
    if guard_above(g, q, d) {
        let k = choose|k: int| 0 <= k < d && #[trigger] g.sget(q.take(k)) is Some;
        assert(p.take(k) == q.take(k));
        assert(g.sget(p.take(k)) is Some);
    }
}

/// A read-only virtual zipper that restricts data paths by prefixes that lead to values in a
/// guard zipper: where the guard has a value, that value lets through the focus and all below
/// it; elsewhere only the branches both the data and the guard have are let through.
pub struct RestrictZipper<D, G> {
    pub data: D,
    pub guard: G,
    pub active: bool,
    pub active_stack: Vec<bool>,
}

impl<D, G> RestrictZipper<D, G> {
    /// The invariant tying the data and guard foci and the record of guard values above.
    pub open spec fn rinv(self) -> bool where D: ZipperMoving, G: ZipperMoving {
        &&& self.data.zinv()
        &&& self.guard.zinv()
        &&& self.data.spath() == self.guard.spath()
        &&& self.active_stack@.len() == self.data.spath().len()
        &&& self.active == guard_above(self.guard, self.data.spath(), self.data.spath().len() as int)
        &&& forall|j: int| 0 <= j < self.active_stack@.len() ==> #[trigger] self.active_stack@[j]
            == guard_above(self.guard, self.data.spath(), j)
    }
}

impl<D: ZipperMoving, G: ZipperMoving> RestrictZipper<D, G> {
    /// A zipper over the data let through by the guard, both seen from their roots
    pub fn new(data: D, guard: G) -> (r: RestrictZipper<D, G>)
        requires
            data.zinv(),
            guard.zinv(),
        ensures
            r.rinv(),
            r.data.spath() == Seq::<u8>::empty(),
            r.data.sheight() == data.sheight(),
            forall|p: Seq<u8>| #[trigger] r.data.sget(p) == data.sget(p),
            forall|p: Seq<u8>| #[trigger] r.data.shas(p) == data.shas(p),
            forall|p: Seq<u8>| #[trigger] r.guard.sget(p) == guard.sget(p),
            forall|p: Seq<u8>| #[trigger] r.guard.shas(p) == guard.shas(p),
    {
        let mut data = data;
        let mut guard = guard;
        data.reset();
        guard.reset();
        RestrictZipper { data, guard, active: false, active_stack: Vec::new() }
    }

    /// Whether a guard value lets the focus through
    fn active_here(&self) -> (r: bool)
        requires
            self.rinv(),
        ensures
            r == guard_on(self.guard, self.data.spath()),
    {
        let g = self.guard.val().is_some();
        proof {
            let p = self.data.spath();
            assert(p.take(p.len() as int) =~= p);
            if guard_on(self.guard, p) && !self.active {
                let k = choose|k: int| 0 <= k < p.len() + 1 && #[trigger] self.guard.sget(p.take(k)) is Some;
                assert(k == p.len());
            }
            if g {
                assert(self.guard.sget(p.take(p.len() as int)) is Some);
            }
            if self.active {
                let k = choose|k: int| 0 <= k < p.len() && #[trigger] self.guard.sget(p.take(k)) is Some;
                assert(self.guard.sget(p.take(k)) is Some);
            }
        }
        self.active || g
    }
}

impl<D: ZipperMoving, G: ZipperMoving> ZipperMoving for RestrictZipper<D, G> {
    type Val = D::Val;

    open spec fn zinv(&self) -> bool {
        self.rinv()
    }

    open spec fn sget(&self, p: Seq<u8>) -> Option<D::Val> {
        if guard_on(self.guard, p) {
            self.data.sget(p)
        } else {
            None
        }
    }

    open spec fn shas(&self, p: Seq<u8>) -> bool {
        self.data.shas(p) && (guard_on(self.guard, p) || self.guard.shas(p))
    }

    open spec fn spath(&self) -> Seq<u8> {
        self.data.spath()
    }

    open spec fn sheight(&self) -> nat {
        self.data.sheight()
    }

    proof fn lemma_space(&self) {
        self.data.lemma_space();
        self.guard.lemma_space();
        assert forall|p: Seq<u8>, q: Seq<u8>|
            #![trigger self.shas(p), self.shas(q)]
            self.shas(p) && q.is_prefix_of(p) implies self.shas(q) by {
            assert(self.data.shas(q));
            if guard_on(self.guard, p) && !guard_on(self.guard, q) {
                let k = choose|k: int| 0 <= k < p.len() + 1 && #[trigger] self.guard.sget(p.take(k)) is Some;
                if k <= q.len() {
                    assert(p.take(k) =~= q.take(k));
                    assert(self.guard.sget(q.take(k)) is Some);
                } else {
                    assert(self.guard.shas(p.take(k)));
                    assert(q.is_prefix_of(p.take(k)));
                    assert(self.guard.shas(q));
                }
            } else if !guard_on(self.guard, p) {
                assert(self.guard.shas(q));
            }
        }
        assert forall|p: Seq<u8>| #[trigger] self.sget(p) is Some implies self.shas(p) by {
            assert(self.data.shas(p));
        }
        assert forall|p: Seq<u8>| #[trigger] self.shas(p) implies p.len() <= self.sheight() by {
            assert(self.data.shas(p));
        }
    }

    open spec fn native(&self) -> bool {
        false
    }

    fn native_subtries(&self) -> (r: bool) {
        false
    }

    fn fork(&self) -> (r: Self) {
        let r = RestrictZipper {
            data: self.data.fork(),
            guard: self.guard.fork(),
            active: self.active,
            active_stack: vstd::slice::slice_to_vec(self.active_stack.as_slice()),
        };
        proof {
            lemma_guard_same(r.guard, self.guard);
        }
        r
    }

    fn path_exists(&self) -> (r: bool) {
        if !self.data.path_exists() {
            return false;
        }
        if self.active_here() {
            return true;
        }
        self.guard.path_exists()
    }

    fn val(&self) -> (r: Option<&D::Val>) {
        if self.active_here() {
            self.data.val()
        } else {
            None
        }
    }

    fn child_mask(&self) -> (m: ByteMask) {
        let data_mask = self.data.child_mask();
        let here = self.active_here();
        let m = if here {
            data_mask
        } else {
            let gm = self.guard.child_mask();
            let m2 = data_mask.and(&gm);
            proof {
                assert forall|b: int| #[trigger] m2.has(b) == (data_mask.has(b) && gm.has(b)) by {
                    assert(m2.bit_at(b) == (data_mask.bit_at(b) && gm.bit_at(b)));
                }
            }
            m2
        };
        proof {
            let p = self.data.spath();
            self.guard.lemma_space();
            assert forall|b: int| #[trigger] m.has(b) <==> (0 <= b < 256 && self.shas(p.push(b as u8))) by {
                let pb = p.push(b as u8);
                if 0 <= b < 256 {
                    if here {
                        let k = choose|k: int| 0 <= k < p.len() + 1 && #[trigger] self.guard.sget(p.take(k)) is Some;
                        assert(pb.take(k) =~= p.take(k));
                        assert(self.guard.sget(pb.take(k)) is Some);
                        assert(guard_on(self.guard, pb));
                    } else {
                        if guard_on(self.guard, pb) {
                            let k = choose|k: int| 0 <= k < pb.len() + 1 && #[trigger] self.guard.sget(pb.take(k)) is Some;
                            if k < pb.len() {
                                assert(pb.take(k) =~= p.take(k));
                                assert(self.guard.sget(p.take(k)) is Some);
                                assert(false);
                            }
                            assert(pb.take(k) =~= pb);
                            assert(self.guard.shas(pb));
                        }
                    }
                }
            }
        }
        m
    }

    fn path(&self) -> (r: &[u8]) {
        self.data.path()
    }

    fn reset(&mut self) {
        let ghost g0 = self.guard;
        self.data.reset();
        self.guard.reset();
        self.active = false;
        self.active_stack.clear();
        proof {
            lemma_guard_same(self.guard, g0);
            assert(!guard_above(self.guard, self.data.spath(), 0));
        }
    }

    fn descend_to_byte(&mut self, b: u8) {
        let here = self.active_here();
        let ghost p = self.data.spath();
        let ghost g0 = self.guard;
        let ghost s0 = self.active_stack@;
        let ghost a0 = self.active;
        self.active_stack.push(self.active);
        self.active = here;
        self.data.descend_to_byte(b);
        self.guard.descend_to_byte(b);
        proof {
            lemma_guard_same(self.guard, g0);
            let pb = p.push(b);
            assert forall|k: int| 0 <= k <= p.len() implies #[trigger] pb.take(k) == p.take(k) by {
                assert(pb.take(k) =~= p.take(k));
            }
            assert(guard_above(g0, p, p.len() + 1 as int) == guard_above(self.guard, p, p.len() + 1 as int));
            lemma_guard_prefix(self.guard, pb, p, p.len() + 1 as int);
            assert(self.active_stack@ == s0.push(a0));
            assert forall|j: int| 0 <= j < self.active_stack@.len() implies #[trigger] self.active_stack@[j]
                == guard_above(self.guard, pb, j) by {
                assert(guard_above(g0, p, j) == guard_above(self.guard, p, j));
                lemma_guard_prefix(self.guard, pb, p, j);
            }
        }
    }

    fn ascend_byte(&mut self) -> (r: bool) {
        if self.data.at_root() {
            return false;
        }
        let ghost p = self.data.spath();
        let ghost g0 = self.guard;
        let a = self.active_stack.pop();
        self.data.ascend_byte();
        self.guard.ascend_byte();
        match a {
            Some(x) => {
                self.active = x;
            },
            None => {
                self.active = false;
            },
        }
        proof {
            lemma_guard_same(self.guard, g0);
            let q = p.drop_last();
            assert forall|k: int| 0 <= k <= q.len() implies #[trigger] q.take(k) == p.take(k) by {
                assert(q.take(k) =~= p.take(k));
            }
            assert forall|j: int| 0 <= j <= q.len() implies guard_above(self.guard, q, j) == guard_above(self.guard, p, j) by {
                if guard_above(self.guard, q, j) {
                    let k = choose|k: int| 0 <= k < j && #[trigger] self.guard.sget(q.take(k)) is Some;
                    assert(self.guard.sget(p.take(k)) is Some);
                }
                if guard_above(self.guard, p, j) {
                    let k = choose|k: int| 0 <= k < j && #[trigger] self.guard.sget(p.take(k)) is Some;
                    assert(self.guard.sget(q.take(k)) is Some);
                }
            }
            assert(guard_above(self.guard, q, q.len() as int) == guard_above(self.guard, p, q.len() as int));
        }
        true
    }
}

} // verus!
