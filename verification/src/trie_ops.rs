//! Whole-trie lattice operations: join, meet, subtract and restrict, node by node.
use vstd::prelude::*;
use crate::ring::{join_value, join_values, meet_value, meet_values, subtract_value, subtract_values, DistributiveLattice, Lattice};
use crate::trie::{lemma_exists_prefix, lemma_bare_paths, lemma_cons_split, lemma_node_at_cons, lemma_prefix_cons, opt_exists, opt_get, TrieNode};

verus! {

/// Builds a node from its value and a slot vector.
fn make_node<V>(val: Option<V>, children: Vec<Option<Box<TrieNode<V>>>>) -> (r: TrieNode<V>)
    requires
        children@.len() == 0 || children@.len() == 256,
        forall|x: int| 0 <= x < children@.len() ==> (#[trigger] children@[x] matches Some(c) ==> c.wf()),
    ensures
        r.wf(),
        r.val == val,
        r.children@ == children@,
{
    TrieNode { val, children }
}

/// The join of two nodes: every path of either, with joined values
pub fn join_node<V: Lattice + Copy>(a: &TrieNode<V>, b: &TrieNode<V>) -> (r: TrieNode<V>)
    requires
        a.wf(),
        b.wf(),
    ensures
        r.wf(),
        forall|q: Seq<u8>|
            #![trigger r.node_at(q)]
            r.get(q) == join_values(a.get(q), b.get(q)) && r.has_path(q) == (a.has_path(q)
                || b.has_path(q)),
    decreases a,
{
    let val = join_value(a.node_val(), b.node_val());
    let mut children: Vec<Option<Box<TrieNode<V>>>> = Vec::new();
    if a.children.len() > 0 || b.children.len() > 0 {
        children = crate::trie::empty_slots();
        let mut i: usize = 0;
        while i < 256
            invariant
                i <= 256,
                a.wf(),
                b.wf(),
                children@.len() == 256,
                forall|x: int|
                    0 <= x < 256 ==> match #[trigger] children@[x] {
                        Some(c) => x < i && c.wf() && forall|q: Seq<u8>|
                            #![trigger c.node_at(q)]
                            c.get(q) == join_values(opt_get(a.child(x), q), opt_get(b.child(x), q))
                                && c.has_path(q) == (opt_exists(a.child(x), q) || opt_exists(
                                b.child(x),
                                q,
                            )),
                        None => x >= i || (a.child(x) is None && b.child(x) is None),
                    },
            decreases 256 - i,
        {
            let ca = a.get_child(i as u8);
            let cb = b.get_child(i as u8);
            match ca {
                Some(x) => match cb {
                    Some(y) => {
                        let j = join_node(x, y);
                        children.set(i, Some(Box::new(j)));
                    },
                    None => {
                        let c = x.clone_node();
                        children.set(i, Some(Box::new(c)));
                    },
                },
                None => match cb {
                    Some(y) => {
                        let c = y.clone_node();
                        children.set(i, Some(Box::new(c)));
                    },
                    None => {},
                },
            }
            i = i + 1;
        }
    }
    let r = make_node(val, children);
    proof {
        assert forall|q: Seq<u8>|
            #![trigger r.node_at(q)]
            r.get(q) == join_values(a.get(q), b.get(q)) && r.has_path(q) == (a.has_path(q)
                || b.has_path(q)) by {
            if q.len() > 0 {
                let x = q[0] as int;
                let qr = q.drop_first();
                if r.children@.len() == 256 {
                    match r.child(x) {
                        Some(c) => {
                            assert(c.get(qr) == join_values(opt_get(a.child(x), qr), opt_get(b.child(x), qr)));
                            assert(c.has_path(qr) == (opt_exists(a.child(x), qr) || opt_exists(b.child(x), qr)));
                        },
                        None => {},
                    }
                }
            }
        }
    }
    r
}


/// The value two nodes meet to at `w`.
pub open spec fn meet_at<V: Lattice>(a: TrieNode<V>, b: TrieNode<V>, w: Seq<u8>) -> Option<V> {
    meet_values(a.get(w), b.get(w))
}

/// Whether the meet of two nodes holds a value at `q` or below it.
pub open spec fn meet_reaches<V: Lattice>(a: TrieNode<V>, b: TrieNode<V>, q: Seq<u8>) -> bool {
    exists|w: Seq<u8>| #[trigger] meet_at(a, b, w) is Some && q.is_prefix_of(w)
}

proof fn lemma_meet_reaches_cons<V: Lattice>(a: TrieNode<V>, b: TrieNode<V>, x: u8, qr: Seq<u8>)
    ensures
        meet_reaches(a, b, seq![x] + qr) <==> (a.child(x as int) is Some && b.child(x as int) is Some
            && meet_reaches(a.child(x as int).unwrap(), b.child(x as int).unwrap(), qr)),
{
    let q = seq![x] + qr;
    if meet_reaches(a, b, q) {
        let w = choose|w: Seq<u8>| #[trigger] meet_at(a, b, w) is Some && q.is_prefix_of(w);
        assert(w.len() > 0 && w[0] == x) by {
            assert(q[0] == x);
        }
        lemma_cons_split(w);
        lemma_prefix_cons(x, qr, w.drop_first());
        lemma_node_at_cons(a, x, w.drop_first());
        lemma_node_at_cons(b, x, w.drop_first());
        assert(a.get(w) is Some && b.get(w) is Some);
        let ca = a.child(x as int).unwrap();
        let cb = b.child(x as int).unwrap();
        assert(meet_at(ca, cb, w.drop_first()) is Some);
    }
    if a.child(x as int) is Some && b.child(x as int) is Some && meet_reaches(a.child(x as int).unwrap(), b.child(x as int).unwrap(), qr) {
        let ca = a.child(x as int).unwrap();
        let cb = b.child(x as int).unwrap();
        let wr = choose|w: Seq<u8>| #[trigger] meet_at(ca, cb, w) is Some && qr.is_prefix_of(w);
        let w = seq![x] + wr;
        lemma_prefix_cons(x, qr, wr);
        lemma_node_at_cons(a, x, wr);
        lemma_node_at_cons(b, x, wr);
        assert(meet_at(a, b, w) is Some);
    }
}

/// The meet of two nodes: the values where both have one and the lattice meet keeps it, and the
/// paths that lead to such values
pub fn meet_node<V: Lattice + Copy>(a: &TrieNode<V>, b: &TrieNode<V>) -> (r: TrieNode<V>)
    requires
        a.wf(),
        b.wf(),
    ensures
        r.wf(),
        forall|q: Seq<u8>|
            #![trigger r.node_at(q)]
            r.get(q) == meet_at(*a, *b, q) && r.has_path(q) == (q.len() == 0 || meet_reaches(*a, *b, q)),
    decreases a,
{
    let val = meet_value(a.node_val(), b.node_val());
    let mut children: Vec<Option<Box<TrieNode<V>>>> = Vec::new();
    if a.children.len() > 0 && b.children.len() > 0 {
        children = crate::trie::empty_slots();
        let mut i: usize = 0;
        while i < 256
            invariant
                i <= 256,
                a.wf(),
                b.wf(),
                children@.len() == 256,
                forall|x: int|
                    0 <= x < 256 ==> match #[trigger] children@[x] {
                        Some(c) => x < i && c.wf() && a.child(x) is Some && b.child(x) is Some
                            && meet_reaches(a.child(x).unwrap(), b.child(x).unwrap(), Seq::<u8>::empty())
                            && forall|q: Seq<u8>|
                            #![trigger c.node_at(q)]
                            c.get(q) == meet_at(a.child(x).unwrap(), b.child(x).unwrap(), q)
                                && c.has_path(q) == (q.len() == 0 || meet_reaches(
                                a.child(x).unwrap(),
                                b.child(x).unwrap(),
                                q,
                            )),
                        None => x >= i || a.child(x) is None || b.child(x) is None || !meet_reaches(
                            a.child(x).unwrap(),
                            b.child(x).unwrap(),
                            Seq::<u8>::empty(),
                        ),
                    },
            decreases 256 - i,
        {
            let ca = a.get_child(i as u8);
            let cb = b.get_child(i as u8);
            match ca {
                Some(x) => match cb {
                    Some(y) => {
                        let m = meet_node(x, y);
                        if m.node_is_bare() {
                            proof {
                                if meet_reaches(*x, *y, Seq::<u8>::empty()) {
                                    let w = choose|w: Seq<u8>| #[trigger] meet_at(*x, *y, w) is Some && Seq::<u8>::empty().is_prefix_of(w);
                                    assert(m.get(w) is Some);
                                    lemma_bare_paths(m, w);
                                }
                            }
                        } else {
                            proof {
                                if m.val is Some {
                                    assert(m.get(Seq::<u8>::empty()) is Some);
                                    assert(meet_at(*x, *y, Seq::<u8>::empty()) is Some);
                                    assert(Seq::<u8>::empty().is_prefix_of(Seq::<u8>::empty()));
                                } else {
                                    let c = choose|c: int| #[trigger] m.child(c) is Some;
                                    assert(m.child(c) is Some ==> 0 <= c < 256);
                                    let cq = seq![c as u8];
                                    assert(cq[0] as int == c);
                                    assert(cq.drop_first() =~= Seq::<u8>::empty());
                                    let mc = m.child(c).unwrap();
                                    assert(mc.node_at(Seq::<u8>::empty()) is Some);
                                    assert(m.node_at(cq) == mc.node_at(cq.drop_first()));
                                    assert(m.has_path(cq));
                                    assert(meet_reaches(*x, *y, cq));
                                    let w = choose|w: Seq<u8>| #[trigger] meet_at(*x, *y, w) is Some && cq.is_prefix_of(w);
                                    assert(Seq::<u8>::empty().is_prefix_of(w));
                                }
                            }
                            children.set(i, Some(Box::new(m)));
                        }
                    },
                    None => {},
                },
                None => {},
            }
            i = i + 1;
        }
    }
    let r = make_node(val, children);
    proof {
        assert forall|q: Seq<u8>|
            #![trigger r.node_at(q)]
            r.get(q) == meet_at(*a, *b, q) && r.has_path(q) == (q.len() == 0 || meet_reaches(*a, *b, q)) by {
            if q.len() > 0 {
                let x = q[0] as int;
                let qr = q.drop_first();
                lemma_cons_split(q);
                lemma_meet_reaches_cons(*a, *b, q[0], qr);
                lemma_node_at_cons(*a, q[0], qr);
                lemma_node_at_cons(*b, q[0], qr);
                if r.children@.len() == 256 {
                    match r.child(x) {
                        Some(c) => {
                            assert(c.get(qr) == meet_at(a.child(x).unwrap(), b.child(x).unwrap(), qr));
                        },
                        None => {
                            if a.child(x) is Some && b.child(x) is Some {
                                let ca = a.child(x).unwrap();
                                let cb = b.child(x).unwrap();
                                assert(!meet_reaches(ca, cb, Seq::<u8>::empty()));
                                if meet_at(ca, cb, qr) is Some {
                                    assert(Seq::<u8>::empty().is_prefix_of(qr));
                                }
                                if meet_reaches(ca, cb, qr) {
                                    let w = choose|w: Seq<u8>| #[trigger] meet_at(ca, cb, w) is Some && qr.is_prefix_of(w);
                                    assert(Seq::<u8>::empty().is_prefix_of(w));
                                }
                            }
                        },
                    }
                } else {
                    if a.child(x) is Some && b.child(x) is Some {
                        assert(a.children@.len() == 0 || b.children@.len() == 0);
                    }
                }
            } else {
                assert(a.get(q) == a.val);
                assert(b.get(q) == b.val);
            }
        }
    }
    r
}


/// The value left at `w` when `b` is subtracted from `a`.
pub open spec fn subtract_at<V: DistributiveLattice>(a: TrieNode<V>, b: Option<TrieNode<V>>, w: Seq<u8>) -> Option<V> {
    subtract_values(a.get(w), opt_get(b, w))
}

/// Whether `w` is kept when `b` is subtracted from `a`: it leaves the paths of `b`, or a value
/// is left there.
pub open spec fn subtract_keeps<V: DistributiveLattice>(a: TrieNode<V>, b: Option<TrieNode<V>>, w: Seq<u8>) -> bool {
    a.has_path(w) && (!opt_exists(b, w) || subtract_at(a, b, w) is Some)
}

/// Whether something is kept at `q` or below it when `b` is subtracted from `a`.
pub open spec fn subtract_reaches<V: DistributiveLattice>(a: TrieNode<V>, b: Option<TrieNode<V>>, q: Seq<u8>) -> bool {
    exists|w: Seq<u8>| #[trigger] subtract_keeps(a, b, w) && q.is_prefix_of(w)
}

/// The child below `x` of an optional node.
pub open spec fn opt_child<V>(n: Option<TrieNode<V>>, x: int) -> Option<TrieNode<V>> {
    match n {
        Some(n) => n.child(x),
        None => None,
    }
}

proof fn lemma_subtract_reaches_cons<V: DistributiveLattice>(a: TrieNode<V>, b: Option<TrieNode<V>>, x: u8, qr: Seq<u8>)
    ensures
        subtract_reaches(a, b, seq![x] + qr) <==> (a.child(x as int) is Some && subtract_reaches(
            a.child(x as int).unwrap(),
            opt_child(b, x as int),
            qr,
        )),
{
    let q = seq![x] + qr;
    let bx = opt_child(b, x as int);
    if subtract_reaches(a, b, q) {
        let w = choose|w: Seq<u8>| #[trigger] subtract_keeps(a, b, w) && q.is_prefix_of(w);
        assert(w.len() > 0 && w[0] == x) by {
            assert(q[0] == x);
        }
        lemma_cons_split(w);
        let wr = w.drop_first();
        lemma_prefix_cons(x, qr, wr);
        lemma_node_at_cons(a, x, wr);
        match b {
            Some(bb) => {
                lemma_node_at_cons(bb, x, wr);
            },
            None => {},
        }
        let ca = a.child(x as int).unwrap();
        assert(subtract_keeps(ca, bx, wr));
    }
    if a.child(x as int) is Some && subtract_reaches(a.child(x as int).unwrap(), bx, qr) {
        let ca = a.child(x as int).unwrap();
        let wr = choose|w: Seq<u8>| #[trigger] subtract_keeps(ca, bx, w) && qr.is_prefix_of(w);
        let w = seq![x] + wr;
        lemma_prefix_cons(x, qr, wr);
        lemma_node_at_cons(a, x, wr);
        match b {
            Some(bb) => {
                lemma_node_at_cons(bb, x, wr);
            },
            None => {},
        }
        assert(subtract_keeps(a, b, w));
    }
}

/// The difference of two nodes: the paths of `a` that leave the paths of `b` or keep a value,
/// with the values left by subtraction
pub fn subtract_node<V: DistributiveLattice + Copy>(a: &TrieNode<V>, b: Option<&TrieNode<V>>) -> (r: TrieNode<V>)
    requires
        a.wf(),
        b matches Some(b) ==> b.wf(),
    ensures
        r.wf(),
        forall|q: Seq<u8>|
            #![trigger r.node_at(q)]
            r.get(q) == subtract_at(*a, crate::ring::opt_value(b), q) && r.has_path(q) == (q.len() == 0
                || subtract_reaches(*a, crate::ring::opt_value(b), q)),
    decreases a,
{
    let ghost bo = crate::ring::opt_value(b);
    match b {
        None => {
            let r = a.clone_node();
            proof {
                assert forall|q: Seq<u8>|
                    #![trigger r.node_at(q)]
                    r.get(q) == subtract_at(*a, bo, q) && r.has_path(q) == (q.len() == 0
                        || subtract_reaches(*a, bo, q)) by {
                    assert(r.has_path(q) == a.has_path(q));
                    if a.has_path(q) {
                        assert(subtract_keeps(*a, bo, q));
                        assert(q.is_prefix_of(q));
                    }
                    if subtract_reaches(*a, bo, q) {
                        let w = choose|w: Seq<u8>| #[trigger] subtract_keeps(*a, bo, w) && q.is_prefix_of(w);
                        lemma_exists_prefix(*a, w, q.len() as int);
                        assert(w.subrange(0, q.len() as int) =~= q);
                    }
                    if q.len() == 0 {
                        assert(a.has_path(q));
                    }
                }
            }
            r
        },
        Some(bn) => {
            let val = subtract_value(a.node_val(), bn.node_val());
            let mut children: Vec<Option<Box<TrieNode<V>>>> = Vec::new();
            if a.children.len() > 0 {
                children = crate::trie::empty_slots();
                let mut i: usize = 0;
                while i < 256
                    invariant
                        i <= 256,
                        a.wf(),
                        bn.wf(),
                        bo == Some(*bn),
                        children@.len() == 256,
                        forall|x: int|
                            0 <= x < 256 ==> match #[trigger] children@[x] {
                                Some(c) => x < i && c.wf() && a.child(x) is Some && subtract_reaches(
                                    a.child(x).unwrap(),
                                    bn.child(x),
                                    Seq::<u8>::empty(),
                                ) && forall|q: Seq<u8>|
                                    #![trigger c.node_at(q)]
                                    c.get(q) == subtract_at(a.child(x).unwrap(), bn.child(x), q)
                                        && c.has_path(q) == (q.len() == 0 || subtract_reaches(
                                        a.child(x).unwrap(),
                                        bn.child(x),
                                        q,
                                    )),
                                None => x >= i || a.child(x) is None || !subtract_reaches(
                                    a.child(x).unwrap(),
                                    bn.child(x),
                                    Seq::<u8>::empty(),
                                ),
                            },
                    decreases 256 - i,
                {
                    match a.get_child(i as u8) {
                        Some(x) => {
                            let y = bn.get_child(i as u8);
                            let ghost yo = crate::ring::opt_value(y);
                            assert(yo == bn.child(i as int));
                            let m = subtract_node(x, y);
                            let keep = if y.is_none() {
                                true
                            } else {
                                !m.node_is_bare()
                            };
                            proof {
                                if y.is_none() {
                                    assert(x.has_path(Seq::<u8>::empty()));
                                    assert(subtract_keeps(*x, yo, Seq::<u8>::empty()));
                                    assert(Seq::<u8>::empty().is_prefix_of(Seq::<u8>::empty()));
                                } else if m.is_bare() {
                                    if subtract_reaches(*x, yo, Seq::<u8>::empty()) {
                                        let w = choose|w: Seq<u8>| #[trigger] subtract_keeps(*x, yo, w) && Seq::<u8>::empty().is_prefix_of(w);
                                        lemma_bare_paths(m, w);
                                        if w.len() > 0 {
                                            assert(w.is_prefix_of(w));
                                            assert(m.has_path(w));
                                        }
                                    }
                                } else {
                                    if m.val is Some {
                                        assert(m.get(Seq::<u8>::empty()) is Some);
                                        assert(x.has_path(Seq::<u8>::empty()));
                                        assert(subtract_keeps(*x, yo, Seq::<u8>::empty()));
                                        assert(Seq::<u8>::empty().is_prefix_of(Seq::<u8>::empty()));
                                    } else {
                                        let c = choose|c: int| #[trigger] m.child(c) is Some;
                                        assert(m.child(c) is Some ==> 0 <= c < 256);
                                        let cq = seq![c as u8];
                                        assert(cq[0] as int == c);
                                        assert(cq.drop_first() =~= Seq::<u8>::empty());
                                        let mc = m.child(c).unwrap();
                                        assert(mc.node_at(Seq::<u8>::empty()) is Some);
                                        assert(m.node_at(cq) == mc.node_at(cq.drop_first()));
                                        assert(m.has_path(cq));
                                        let w = choose|w: Seq<u8>| #[trigger] subtract_keeps(*x, yo, w) && cq.is_prefix_of(w);
                                        assert(Seq::<u8>::empty().is_prefix_of(w));
                                    }
                                }
                            }
                            if keep {
                                children.set(i, Some(Box::new(m)));
                            }
                        },
                        None => {},
                    }
                    i = i + 1;
                }
            }
            let r = make_node(val, children);
            proof {
                assert forall|q: Seq<u8>|
                    #![trigger r.node_at(q)]
                    r.get(q) == subtract_at(*a, bo, q) && r.has_path(q) == (q.len() == 0
                        || subtract_reaches(*a, bo, q)) by {
                    if q.len() > 0 {
                        let x = q[0] as int;
                        let qr = q.drop_first();
                        lemma_cons_split(q);
                        lemma_subtract_reaches_cons(*a, bo, q[0], qr);
                        lemma_node_at_cons(*a, q[0], qr);
                        lemma_node_at_cons(*bn, q[0], qr);
                        assert(opt_child(bo, x) == bn.child(x));
                        if r.children@.len() == 256 {
                            match r.child(x) {
                                Some(c) => {
                                    assert(c.get(qr) == subtract_at(a.child(x).unwrap(), bn.child(x), qr));
                                },
                                None => {
                                    if a.child(x) is Some {
                                        let ca = a.child(x).unwrap();
                                        let cb = bn.child(x);
                                        assert(!subtract_reaches(ca, cb, Seq::<u8>::empty()));
                                        if ca.has_path(qr) && subtract_at(ca, cb, qr) is Some {
                                            assert(subtract_keeps(ca, cb, qr));
                                            assert(Seq::<u8>::empty().is_prefix_of(qr));
                                        }
                                        if ca.get(qr) is Some {
                                            assert(ca.has_path(qr));
                                        }
                                        if subtract_reaches(ca, cb, qr) {
                                            let w = choose|w: Seq<u8>| #[trigger] subtract_keeps(ca, cb, w) && qr.is_prefix_of(w);
                                            assert(Seq::<u8>::empty().is_prefix_of(w));
                                        }
                                    }
                                },
                            }
                        } else {
                            assert(a.child(x) is None);
                        }
                    } else {
                        assert(a.get(q) == a.val);
                        assert(bn.get(q) == bn.val);
                    }
                }
            }
            r
        },
    }
}

/// Whether `g` holds a value on the path `q`, at its start, its end or anywhere between.
pub open spec fn guard_active<W>(g: TrieNode<W>, q: Seq<u8>) -> bool {
    exists|k: int| 0 <= k <= q.len() && #[trigger] g.get(q.subrange(0, k)) is Some
}

proof fn lemma_guard_active_cons<W>(g: TrieNode<W>, x: u8, qr: Seq<u8>)
    ensures
        guard_active(g, seq![x] + qr) <==> (g.val is Some || (g.child(x as int) is Some
            && guard_active(g.child(x as int).unwrap(), qr))),
{
    let q = seq![x] + qr;
    if guard_active(g, q) {
        let k = choose|k: int| 0 <= k <= q.len() && #[trigger] g.get(q.subrange(0, k)) is Some;
        if k > 0 {
            assert(q.subrange(0, k) =~= seq![x] + qr.subrange(0, k - 1));
            lemma_node_at_cons(g, x, qr.subrange(0, k - 1));
            let gc = g.child(x as int).unwrap();
            assert(gc.get(qr.subrange(0, k - 1)) is Some);
        } else {
            assert(q.subrange(0, 0) =~= Seq::<u8>::empty());
        }
    }
    if g.val is Some {
        assert(q.subrange(0, 0) =~= Seq::<u8>::empty());
        assert(g.get(q.subrange(0, 0)) is Some);
    } else if g.child(x as int) is Some && guard_active(g.child(x as int).unwrap(), qr) {
        let gc = g.child(x as int).unwrap();
        let k = choose|k: int| 0 <= k <= qr.len() && #[trigger] gc.get(qr.subrange(0, k)) is Some;
        assert(q.subrange(0, k + 1) =~= seq![x] + qr.subrange(0, k));
        lemma_node_at_cons(g, x, qr.subrange(0, k));
        assert(g.get(q.subrange(0, k + 1)) is Some);
    }
}

/// The data of `d` kept by the guard `g`: below a guard value everything, and elsewhere the
/// paths that `g` has too
pub fn restrict_node<V: Copy, W: Copy>(d: &TrieNode<V>, g: &TrieNode<W>) -> (r: TrieNode<V>)
    requires
        d.wf(),
        g.wf(),
    ensures
        r.wf(),
        forall|q: Seq<u8>|
            #![trigger r.node_at(q)]
            r.get(q) == (if guard_active(*g, q) {
                d.get(q)
            } else {
                None
            }) && r.has_path(q) == (q.len() == 0 || (d.has_path(q) && (g.has_path(q)
                || guard_active(*g, q)))),
    decreases d,
{
    if g.val.is_some() {
        let r = d.clone_node();
        proof {
            assert forall|q: Seq<u8>|
                #![trigger r.node_at(q)]
                r.get(q) == (if guard_active(*g, q) {
                    d.get(q)
                } else {
                    None
                }) && r.has_path(q) == (q.len() == 0 || (d.has_path(q) && (g.has_path(q)
                    || guard_active(*g, q)))) by {
                assert(q.subrange(0, 0) =~= Seq::<u8>::empty());
                assert(g.get(q.subrange(0, 0)) is Some);
                if q.len() == 0 {
                    assert(d.has_path(q));
                }
            }
        }
        return r;
    }
    let mut children: Vec<Option<Box<TrieNode<V>>>> = Vec::new();
    if d.children.len() > 0 && g.children.len() > 0 {
        children = crate::trie::empty_slots();
        let mut i: usize = 0;
        while i < 256
            invariant
                i <= 256,
                d.wf(),
                g.wf(),
                children@.len() == 256,
                forall|x: int|
                    0 <= x < 256 ==> match #[trigger] children@[x] {
                        Some(c) => x < i && c.wf() && d.child(x) is Some && g.child(x) is Some
                            && forall|q: Seq<u8>|
                            #![trigger c.node_at(q)]
                            c.get(q) == (if guard_active(g.child(x).unwrap(), q) {
                                d.child(x).unwrap().get(q)
                            } else {
                                None
                            }) && c.has_path(q) == (q.len() == 0 || (d.child(x).unwrap().has_path(q)
                                && (g.child(x).unwrap().has_path(q) || guard_active(
                                g.child(x).unwrap(),
                                q,
                            )))),
                        None => x >= i || d.child(x) is None || g.child(x) is None,
                    },
            decreases 256 - i,
        {
            match d.get_child(i as u8) {
                Some(x) => match g.get_child(i as u8) {
                    Some(y) => {
                        let m = restrict_node(x, y);
                        children.set(i, Some(Box::new(m)));
                    },
                    None => {},
                },
                None => {},
            }
            i = i + 1;
        }
    }
    let r = make_node(None, children);
    proof {
        assert forall|q: Seq<u8>|
            #![trigger r.node_at(q)]
            r.get(q) == (if guard_active(*g, q) {
                d.get(q)
            } else {
                None
            }) && r.has_path(q) == (q.len() == 0 || (d.has_path(q) && (g.has_path(q)
                || guard_active(*g, q)))) by {
            if q.len() > 0 {
                let x = q[0] as int;
                let qr = q.drop_first();
                lemma_cons_split(q);
                lemma_guard_active_cons(*g, q[0], qr);
                lemma_node_at_cons(*d, q[0], qr);
                lemma_node_at_cons(*g, q[0], qr);
                if r.children@.len() == 256 {
                    match r.child(x) {
                        Some(c) => {
                            assert(c.get(qr) == (if guard_active(g.child(x).unwrap(), qr) {
                                d.child(x).unwrap().get(qr)
                            } else {
                                None
                            }));
                        },
                        None => {},
                    }
                } else {
                    assert(d.child(x) is None || g.child(x) is None);
                }
            } else {
                assert(q.subrange(0, 0) =~= q);
                assert(!guard_active(*g, q)) by {
                    if guard_active(*g, q) {
                        let k = choose|k: int| 0 <= k <= q.len() && #[trigger] g.get(q.subrange(0, k)) is Some;
                        assert(k == 0);
                    }
                }
            }
        }
    }
    r
}

} // verus!
