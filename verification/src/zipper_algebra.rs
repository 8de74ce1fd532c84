//! Join, meet and subtraction of the subtries at the foci of several read zippers, written at
//! the focus of a write zipper: two-way, three-way, n-way, and in disjunctive normal form.
use vstd::prelude::*;
use crate::ring::{join_values, meet_values, subtract_values, AlgebraicResult, DistributiveLattice, Lattice, COUNTER_IDENT, SELF_IDENT};
use crate::trie::{lemma_node_at_cons, opt_exists, opt_get, TrieNode};
use crate::trie_ops::{join_node, meet_at, meet_node, meet_reaches, subtract_at, subtract_keeps, subtract_node, subtract_reaches};
use crate::zipper::{empty_node, grafted, lemma_stands_for_self, src_get, src_has, stands_for, ReadZipper, WriteZipper};

verus! {

/// The value at `q` of the join of the subtries `s`, taken from the left.
pub open spec fn fold_join_get<V: Lattice>(s: Seq<Option<TrieNode<V>>>, q: Seq<u8>) -> Option<V>
    decreases s.len(),
{
    if s.len() == 0 {
        None
    } else {
        join_values(fold_join_get(s.drop_last(), q), src_get(s.last(), q))
    }
}

/// Whether `q` exists in the join of the subtries `s`: it exists in one of them.
pub open spec fn join_has<V>(s: Seq<Option<TrieNode<V>>>, q: Seq<u8>) -> bool {
    q.len() == 0 || exists|i: int| 0 <= i < s.len() && #[trigger] src_has(s[i], q)
}

/// The value at `q` of the meet of the subtries `s`, taken from the left.
pub open spec fn fold_meet_get<V: Lattice>(s: Seq<Option<TrieNode<V>>>, q: Seq<u8>) -> Option<V>
    decreases s.len(),
{
    if s.len() == 0 {
        None
    } else if s.len() == 1 {
        src_get(s[0], q)
    } else {
        meet_values(fold_meet_get(s.drop_last(), q), src_get(s.last(), q))
    }
}

/// Whether `q` exists in the meet of the subtries `s` taken from the left: a single subtrie is
/// kept whole, and the meet of several holds the paths that lead to a value of the meet.
pub open spec fn fold_meet_has<V: Lattice>(s: Seq<Option<TrieNode<V>>>, q: Seq<u8>) -> bool {
    if s.len() <= 1 {
        q.len() == 0 || (s.len() == 1 && src_has(s[0], q))
    } else {
        q.len() == 0 || exists|w: Seq<u8>| q.is_prefix_of(w) && (#[trigger] fold_meet_get(s, w)) is Some
    }
}

/// Whether two values are the same for the lattice: both absent, or both present with a meet
/// identical to each of them.
pub open spec fn same_value<V: Lattice>(x: Option<V>, y: Option<V>) -> bool {
    match x {
        Some(a) => match y {
            Some(b) => match a.meet_spec(&b) {
                AlgebraicResult::Identity(mask) => mask & SELF_IDENT != 0 && mask & COUNTER_IDENT != 0,
                _ => false,
            },
            None => false,
        },
        None => y is None,
    }
}

/// Whether two nodes hold the same paths, with the same value for the lattice at each.
pub open spec fn same_nodes<V: Lattice>(a: TrieNode<V>, b: TrieNode<V>) -> bool {
    forall|q: Seq<u8>|
        #![trigger a.node_at(q)]
        #![trigger b.node_at(q)]
        a.has_path(q) == b.has_path(q) && same_value(a.get(q), b.get(q))
}

/// Whether two subtries hold the same paths, with the same value for the lattice at each.
pub open spec fn same_sources<V: Lattice>(a: Option<TrieNode<V>>, b: Option<TrieNode<V>>) -> bool {
    forall|q: Seq<u8>| #![trigger src_has(a, q)] #![trigger src_has(b, q)] src_has(a, q) == src_has(b, q) && same_value(src_get(a, q), src_get(b, q))
}

/// Whether all the subtries `s` are the same as the first, as those at one place of one map are.
pub open spec fn all_same<V: Lattice>(s: Seq<Option<TrieNode<V>>>) -> bool {
    forall|i: int| 0 <= i < s.len() ==> #[trigger] same_sources(s[0], s[i])
}

/// Whether `q` exists in the meet of the subtries `s`: where several subtries are all the same,
/// the first is taken whole, as a subtrie met with itself; otherwise the meet taken from the left
/// holds the paths that lead to a value of the meet.
///
/// Being the same asks, of every pair of values, a meet that reports itself identical to both;
/// without it, the meet taken from the left applies even to a subtrie met with itself.
pub open spec fn meet_has<V: Lattice>(s: Seq<Option<TrieNode<V>>>, q: Seq<u8>) -> bool {
    if s.len() >= 2 && all_same(s) {
        src_has(s[0], q)
    } else {
        fold_meet_has(s, q)
    }
}

/// The value at `q` when the subtries `s[1..]` are subtracted from `s[0]` in turn.
pub open spec fn fold_sub_get<V: DistributiveLattice>(s: Seq<Option<TrieNode<V>>>, q: Seq<u8>) -> Option<V>
    decreases s.len(),
{
    if s.len() == 0 {
        None
    } else if s.len() == 1 {
        src_get(s[0], q)
    } else {
        subtract_values(fold_sub_get(s.drop_last(), q), src_get(s.last(), q))
    }
}

/// Whether `q` exists when the subtries `s[1..]` are subtracted from `s[0]` in turn: at each
/// step a path is kept where it leads to a path that is kept and that leaves the subtracted
/// subtrie or keeps a value.
pub open spec fn sub_has<V: DistributiveLattice>(s: Seq<Option<TrieNode<V>>>, q: Seq<u8>) -> bool
    decreases s.len(),
{
    if s.len() <= 1 {
        q.len() == 0 || (s.len() == 1 && src_has(s[0], q))
    } else {
        q.len() == 0 || exists|w: Seq<u8>|
            #![trigger fold_sub_get(s, w)]
            q.is_prefix_of(w) && sub_has(s.drop_last(), w) && (!src_has(s.last(), w) || fold_sub_get(s, w) is Some)
    }
}

/// The join of the subtries `nodes` stand for, from the left
fn join_all<V: Lattice + Copy>(nodes: &Vec<&TrieNode<V>>, Ghost(s): Ghost<Seq<Option<TrieNode<V>>>>) -> (r: TrieNode<V>)
    requires
        nodes@.len() == s.len(),
        forall|i: int| 0 <= i < s.len() ==> (#[trigger] nodes@[i]).wf() && stands_for(*nodes@[i], s[i]),
    ensures
        r.wf(),
        forall|q: Seq<u8>|
            #![trigger r.node_at(q)]
            r.get(q) == fold_join_get(s, q) && r.has_path(q) == join_has(s, q),
{
    let mut acc = empty_node();
    let mut i: usize = 0;
    while i < nodes.len()
        invariant
            i <= nodes@.len(),
            nodes@.len() == s.len(),
            forall|i: int| 0 <= i < s.len() ==> (#[trigger] nodes@[i]).wf() && stands_for(*nodes@[i], s[i]),
            acc.wf(),
            forall|q: Seq<u8>|
                #![trigger acc.node_at(q)]
                acc.get(q) == fold_join_get(s.take(i as int), q) && acc.has_path(q) == join_has(s.take(i as int), q),
        decreases nodes@.len() - i,
    {
        let n = nodes[i];
        let next = join_node(&acc, n);
        proof {
            let t = s.take(i + 1);
            assert(t.drop_last() =~= s.take(i as int));
            assert(t.last() == s[i as int]);
            assert(stands_for(*nodes@[i as int], s[i as int]));
            assert forall|q: Seq<u8>| #![trigger next.node_at(q)] next.get(q) == fold_join_get(t, q) && next.has_path(q) == join_has(t, q) by {
                assert(acc.node_at(q) == acc.node_at(q));
                assert(n.node_at(q) == n.node_at(q));
                if next.has_path(q) && q.len() > 0 {
                    if n.has_path(q) {
                        assert(src_has(t[i as int], q));
                    } else {
                        let k = choose|k: int| 0 <= k < i && #[trigger] src_has(s.take(i as int)[k], q);
                        assert(src_has(t[k], q));
                    }
                }
                if join_has(t, q) && q.len() > 0 {
                    let k = choose|k: int| 0 <= k < t.len() && #[trigger] src_has(t[k], q);
                    if k < i {
                        assert(src_has(s.take(i as int)[k], q));
                    }
                }
            }
        }
        acc = next;
        i = i + 1;
    }
    proof {
        assert(s.take(s.len() as int) =~= s);
    }
    acc
}

/// The meet of the subtries `nodes` stand for, taken from the left
fn meet_fold<V: Lattice + Copy>(nodes: &Vec<&TrieNode<V>>, Ghost(s): Ghost<Seq<Option<TrieNode<V>>>>) -> (r: TrieNode<V>)
    requires
        nodes@.len() == s.len(),
        s.len() >= 1,
        forall|i: int| 0 <= i < s.len() ==> (#[trigger] nodes@[i]).wf() && stands_for(*nodes@[i], s[i]),
    ensures
        r.wf(),
        forall|q: Seq<u8>|
            #![trigger r.node_at(q)]
            r.get(q) == fold_meet_get(s, q) && r.has_path(q) == fold_meet_has(s, q),
{
    assert((nodes@[0]).wf() && stands_for(*nodes@[0], s[0]));
    let mut acc = nodes[0].clone_node();
    proof {
        let t = s.take(1);
        assert forall|q: Seq<u8>| #![trigger acc.node_at(q)] acc.get(q) == fold_meet_get(t, q) && acc.has_path(q) == fold_meet_has(t, q) by {
            assert(nodes@[0].node_at(q) == nodes@[0].node_at(q));
            assert(t[0] == s[0]);
        }
    }
    let mut i: usize = 1;
    while i < nodes.len()
        invariant
            1 <= i <= nodes@.len(),
            nodes@.len() == s.len(),
            forall|i: int| 0 <= i < s.len() ==> (#[trigger] nodes@[i]).wf() && stands_for(*nodes@[i], s[i]),
            acc.wf(),
            forall|q: Seq<u8>|
                #![trigger acc.node_at(q)]
                acc.get(q) == fold_meet_get(s.take(i as int), q) && acc.has_path(q) == fold_meet_has(s.take(i as int), q),
        decreases nodes@.len() - i,
    {
        let n = nodes[i];
        let next = meet_node(&acc, n);
        proof {
            let t = s.take(i + 1);
            assert(t.drop_last() =~= s.take(i as int));
            assert(t.last() == s[i as int]);
            assert(stands_for(*nodes@[i as int], s[i as int]));
            assert forall|w: Seq<u8>| #[trigger] meet_at(acc, *n, w) == fold_meet_get(t, w) by {
                assert(acc.node_at(w) == acc.node_at(w));
                assert(n.node_at(w) == n.node_at(w));
            }
            assert forall|q: Seq<u8>| #![trigger next.node_at(q)] next.get(q) == fold_meet_get(t, q) && next.has_path(q) == fold_meet_has(t, q) by {
                assert(meet_at(acc, *n, q) == fold_meet_get(t, q));
                if q.len() > 0 {
                    if meet_reaches(acc, *n, q) {
                        let w = choose|w: Seq<u8>| #[trigger] meet_at(acc, *n, w) is Some && q.is_prefix_of(w);
                        assert(fold_meet_get(t, w) is Some);
                    }
                    if fold_meet_has(t, q) {
                        let w = choose|w: Seq<u8>| q.is_prefix_of(w) && (#[trigger] fold_meet_get(t, w)) is Some;
                        assert(meet_at(acc, *n, w) is Some);
                    }
                }
            }
        }
        acc = next;
        i = i + 1;
    }
    proof {
        assert(s.take(s.len() as int) =~= s);
    }
    acc
}

/// Whether two nodes hold the same paths, with the same value for the lattice at each
pub(crate) fn nodes_same<V: Lattice + Copy>(a: &TrieNode<V>, b: &TrieNode<V>) -> (r: bool)
    requires
        a.wf(),
        b.wf(),
    ensures
        r == same_nodes(*a, *b),
    decreases a,
{
    let e = Ghost(Seq::<u8>::empty());
    proof {
        assert(a.node_at(e@) == Some(*a));
        assert(b.node_at(e@) == Some(*b));
    }
    let vs = match a.node_val() {
        Some(x) => match b.node_val() {
            Some(y) => match x.pmeet(y) {
                AlgebraicResult::Identity(mask) => mask & SELF_IDENT != 0 && mask & COUNTER_IDENT != 0,
                _ => false,
            },
            None => false,
        },
        None => b.node_val().is_none(),
    };
    if !vs {
        proof {
            assert(!same_value(a.get(e@), b.get(e@)));
        }
        return false;
    }
    let mut i: usize = 0;
    while i < 256
        invariant
            i <= 256,
            a.wf(),
            b.wf(),
            e@ == Seq::<u8>::empty(),
            same_value(a.val, b.val),
            forall|x: int|
                0 <= x < i ==> match #[trigger] a.child(x) {
                    Some(c) => b.child(x) matches Some(d) && same_nodes(c, d),
                    None => b.child(x) is None,
                },
        decreases 256 - i,
    {
        let ca = a.get_child(i as u8);
        let cb = b.get_child(i as u8);
        match ca {
            Some(c) => match cb {
                Some(d) => {
                    if !nodes_same(c, d) {
                        proof {
                            let qr = choose|qr: Seq<u8>| !(c.has_path(qr) == d.has_path(qr) && same_value(c.get(qr), d.get(qr)));
                            let q = seq![i as u8] + qr;
                            lemma_node_at_cons(*a, i as u8, qr);
                            lemma_node_at_cons(*b, i as u8, qr);
                            assert(!(a.has_path(q) == b.has_path(q) && same_value(a.get(q), b.get(q))));
                        }
                        return false;
                    }
                },
                None => {
                    proof {
                        let q = seq![i as u8];
                        assert(c.node_at(e@) == Some(*c));
                        lemma_node_at_cons(*a, i as u8, e@);
                        lemma_node_at_cons(*b, i as u8, e@);
                        assert(q =~= seq![i as u8] + e@);
                        assert(a.has_path(q) != b.has_path(q));
                    }
                    return false;
                },
            },
            None => match cb {
                Some(d) => {
                    proof {
                        let q = seq![i as u8];
                        assert(d.node_at(e@) == Some(*d));
                        lemma_node_at_cons(*a, i as u8, e@);
                        lemma_node_at_cons(*b, i as u8, e@);
                        assert(q =~= seq![i as u8] + e@);
                        assert(a.has_path(q) != b.has_path(q));
                    }
                    return false;
                },
                None => {},
            },
        }
        i = i + 1;
    }
    proof {
        assert forall|q: Seq<u8>| #![trigger a.node_at(q)] #![trigger b.node_at(q)]
            a.has_path(q) == b.has_path(q) && same_value(a.get(q), b.get(q)) by {
            if q.len() > 0 {
                let x = q[0];
                let qr = q.drop_first();
                assert(q =~= seq![x] + qr);
                lemma_node_at_cons(*a, x, qr);
                lemma_node_at_cons(*b, x, qr);
                if a.child(x as int) is Some {
                    let c = a.child(x as int).unwrap();
                    let d = b.child(x as int).unwrap();
                    assert(same_nodes(c, d));
                    assert(c.node_at(qr) == c.node_at(qr));
                }
            }
        }
    }
    true
}

/// All the subtries being the same, their meet taken from the left gives the values of the first.
proof fn lemma_fold_meet_same<V: Lattice>(s: Seq<Option<TrieNode<V>>>, q: Seq<u8>)
    requires
        s.len() >= 1,
        all_same(s),
    ensures
        fold_meet_get(s, q) == src_get(s[0], q),
    decreases s.len(),
{
    if s.len() >= 2 {
        let t = s.drop_last();
        assert forall|i: int| 0 <= i < t.len() implies #[trigger] same_sources(t[0], t[i]) by {
            assert(same_sources(s[0], s[i]));
        }
        lemma_fold_meet_same(t, q);
        assert(t[0] == s[0]);
        let last: int = s.len() - 1;
        assert(same_sources(s[0], s[last]));
        assert(src_has(s[0], q) == src_has(s[last], q) && same_value(src_get(s[0], q), src_get(s[last], q)));
        assert(fold_meet_get(s, q) == meet_values(fold_meet_get(t, q), src_get(s.last(), q)));
    }
}

/// The meet of the subtries `nodes` stand for: the first taken whole where all are the same, and
/// otherwise their meet taken from the left
fn meet_all<V: Lattice + Copy>(nodes: &Vec<&TrieNode<V>>, Ghost(s): Ghost<Seq<Option<TrieNode<V>>>>) -> (r: TrieNode<V>)
    requires
        nodes@.len() == s.len(),
        s.len() >= 1,
        forall|i: int| 0 <= i < s.len() ==> (#[trigger] nodes@[i]).wf() && stands_for(*nodes@[i], s[i]),
    ensures
        r.wf(),
        forall|q: Seq<u8>|
            #![trigger r.node_at(q)]
            r.get(q) == fold_meet_get(s, q) && r.has_path(q) == meet_has(s, q),
{
    assert((nodes@[0]).wf() && stands_for(*nodes@[0], s[0]));
    let mut k: usize = 0;
    while k < nodes.len()
        invariant
            k <= nodes@.len(),
            nodes@.len() == s.len(),
            forall|i: int| 0 <= i < s.len() ==> (#[trigger] nodes@[i]).wf() && stands_for(*nodes@[i], s[i]),
            forall|j: int| 0 <= j < k ==> #[trigger] same_sources(s[0], s[j]),
        decreases nodes@.len() - k,
    {
        assert((nodes@[k as int]).wf() && stands_for(*nodes@[k as int], s[k as int]));
        let same = nodes_same(nodes[0], nodes[k]);
        proof {
            let n0 = *nodes@[0];
            let nk = *nodes@[k as int];
            assert(same_nodes(n0, nk) == same_sources(s[0], s[k as int])) by {
                if same_nodes(n0, nk) {
                    assert forall|q: Seq<u8>| #![trigger src_has(s[0], q)] #![trigger src_has(s[k as int], q)]
                        src_has(s[0], q) == src_has(s[k as int], q) && same_value(src_get(s[0], q), src_get(s[k as int], q)) by {
                        assert(n0.node_at(q) == n0.node_at(q));
                        assert(nk.node_at(q) == nk.node_at(q));
                    }
                }
                if same_sources(s[0], s[k as int]) {
                    assert forall|q: Seq<u8>| #![trigger n0.node_at(q)] #![trigger nk.node_at(q)]
                        n0.has_path(q) == nk.has_path(q) && same_value(n0.get(q), nk.get(q)) by {
                        assert(src_has(s[0], q) == src_has(s[0], q));
                    }
                }
            }
        }
        if !same {
            proof {
                assert(!all_same(s));
            }
            return meet_fold(nodes, Ghost(s));
        }
        k = k + 1;
    }
    let r = nodes[0].clone_node();
    proof {
        assert(all_same(s));
        assert forall|q: Seq<u8>| #![trigger r.node_at(q)] r.get(q) == fold_meet_get(s, q) && r.has_path(q) == meet_has(s, q) by {
            lemma_fold_meet_same(s, q);
            assert(nodes@[0].node_at(q) == nodes@[0].node_at(q));
            assert(r.node_at(q) == r.node_at(q));
        }
    }
    r
}

/// The subtries `nodes[1..]` stand for subtracted in turn from the one `nodes[0]` stands for
fn subtract_all<V: DistributiveLattice + Copy>(nodes: &Vec<&TrieNode<V>>, Ghost(s): Ghost<Seq<Option<TrieNode<V>>>>) -> (r: TrieNode<V>)
    requires
        nodes@.len() == s.len(),
        s.len() >= 1,
        forall|i: int| 0 <= i < s.len() ==> (#[trigger] nodes@[i]).wf() && stands_for(*nodes@[i], s[i]),
    ensures
        r.wf(),
        forall|q: Seq<u8>|
            #![trigger r.node_at(q)]
            r.get(q) == fold_sub_get(s, q) && r.has_path(q) == sub_has(s, q),
{
    assert((nodes@[0]).wf() && stands_for(*nodes@[0], s[0]));
    let mut acc = nodes[0].clone_node();
    proof {
        let t = s.take(1);
        assert forall|q: Seq<u8>| #![trigger acc.node_at(q)] acc.get(q) == fold_sub_get(t, q) && acc.has_path(q) == sub_has(t, q) by {
            assert(nodes@[0].node_at(q) == nodes@[0].node_at(q));
            assert(t[0] == s[0]);
        }
    }
    let mut i: usize = 1;
    while i < nodes.len()
        invariant
            1 <= i <= nodes@.len(),
            nodes@.len() == s.len(),
            forall|i: int| 0 <= i < s.len() ==> (#[trigger] nodes@[i]).wf() && stands_for(*nodes@[i], s[i]),
            acc.wf(),
            forall|q: Seq<u8>|
                #![trigger acc.node_at(q)]
                acc.get(q) == fold_sub_get(s.take(i as int), q) && acc.has_path(q) == sub_has(s.take(i as int), q),
        decreases nodes@.len() - i,
    {
        let n = nodes[i];
        let next = subtract_node(&acc, Some(n));
        proof {
            let t = s.take(i + 1);
            let prev = s.take(i as int);
            assert(t.drop_last() =~= prev);
            assert(t.last() == s[i as int]);
            assert(stands_for(*nodes@[i as int], s[i as int]));
            assert forall|w: Seq<u8>| #[trigger] subtract_keeps(acc, Some(*n), w) == (sub_has(prev, w) && (!src_has(t.last(), w) || fold_sub_get(t, w) is Some)) by {
                assert(acc.node_at(w) == acc.node_at(w));
                assert(n.node_at(w) == n.node_at(w));
            }
            assert forall|q: Seq<u8>| #![trigger next.node_at(q)] next.get(q) == fold_sub_get(t, q) && next.has_path(q) == sub_has(t, q) by {
                assert(acc.node_at(q) == acc.node_at(q));
                assert(n.node_at(q) == n.node_at(q));
                if q.len() > 0 {
                    if subtract_reaches(acc, Some(*n), q) {
                        let w = choose|w: Seq<u8>| #[trigger] subtract_keeps(acc, Some(*n), w) && q.is_prefix_of(w);
                        assert(sub_has(prev, w));
                    }
                    if sub_has(t, q) {
                        assert(t.len() >= 2);
                        let w = choose|w: Seq<u8>| #![trigger fold_sub_get(t, w)] q.is_prefix_of(w) && sub_has(t.drop_last(), w) && (!src_has(t.last(), w) || fold_sub_get(t, w) is Some);
                        assert(subtract_keeps(acc, Some(*n), w));
                    }
                }
            }
        }
        acc = next;
        i = i + 1;
    }
    proof {
        assert(s.take(s.len() as int) =~= s);
    }
    acc
}

/// The subtrie at the focus of `z`, or `empty` where the focus path does not exist
fn source_node<'x, V: Copy>(z: &ReadZipper<'x, V>, empty: &'x TrieNode<V>) -> (r: &'x TrieNode<V>)
    requires
        z.inv(),
        empty.wf(),
        stands_for(*empty, None),
    ensures
        r.wf(),
        stands_for(*r, z.focus_node()),
{
    match z.focus() {
        Some(n) => {
            proof {
                lemma_stands_for_self(*n);
            }
            n
        },
        None => empty,
    }
}

/// Writes `r` at the focus of `out`
fn write_result<V: Copy>(out: &mut WriteZipper<V>, r: TrieNode<V>)
    requires
        old(out).inv(),
        r.wf(),
    ensures
        final(out).inv(),
        final(out).same_place(*old(out)),
        grafted(old(out).trie(), final(out).trie(), old(out).focus_path(), |q: Seq<u8>| r.get(q), |q: Seq<u8>| r.has_path(q)),
{
    out.graft_node(r);
}

/// The subtries at the foci of two zippers.
pub open spec fn sources2<V>(a: ReadZipper<V>, b: ReadZipper<V>) -> Seq<Option<TrieNode<V>>> {
    seq![a.focus_node(), b.focus_node()]
}

/// The subtries at the foci of three zippers.
pub open spec fn sources3<V>(a: ReadZipper<V>, b: ReadZipper<V>, c: ReadZipper<V>) -> Seq<Option<TrieNode<V>>> {
    seq![a.focus_node(), b.focus_node(), c.focus_node()]
}

/// The subtries at the foci of a sequence of zippers.
pub open spec fn sources<V>(zs: Seq<ReadZipper<V>>) -> Seq<Option<TrieNode<V>>> {
    zs.map_values(|z: ReadZipper<V>| z.focus_node())
}

/// Writes at the focus of `out` the join of the subtries at the foci of `lhs` and `rhs`: every
/// path of either, with the values joined where both have one
pub fn zipper_join<V: Lattice + Copy>(lhs: &mut ReadZipper<V>, rhs: &mut ReadZipper<V>, out: &mut WriteZipper<V>)
    requires
        old(lhs).inv(),
        old(rhs).inv(),
        old(out).inv(),
    ensures
        *final(lhs) == *old(lhs),
        *final(rhs) == *old(rhs),
        final(out).inv(),
        final(out).same_place(*old(out)),
        grafted(old(out).trie(), final(out).trie(), old(out).focus_path(),
            |q: Seq<u8>| fold_join_get(sources2(*old(lhs), *old(rhs)), q),
            |q: Seq<u8>| join_has(sources2(*old(lhs), *old(rhs)), q)),
{
    let ghost s = sources2(*lhs, *rhs);
    let empty = empty_node();
    let a = source_node(lhs, &empty);
    let b = source_node(rhs, &empty);
    let mut v: Vec<&TrieNode<V>> = Vec::new();
    v.push(a);
    v.push(b);
    let r = join_all(&v, Ghost(s));
    write_result(out, r);
}

/// Writes at the focus of `out` the meet of the subtries at the foci of `lhs` and `rhs`: the
/// values both have and the lattice meet keeps, with the paths that lead to them; where the two
/// subtries are the same, as at one place of one map, the subtrie is taken whole. Two values are
/// the same where their meet reports itself identical to both (for plain values: where they are
/// equal); with a lattice whose meet of a value with itself does not report that, a subtrie met
/// with itself keeps only its paths that lead to a value
pub fn zipper_meet<V: Lattice + Copy>(lhs: &mut ReadZipper<V>, rhs: &mut ReadZipper<V>, out: &mut WriteZipper<V>)
    requires
        old(lhs).inv(),
        old(rhs).inv(),
        old(out).inv(),
    ensures
        *final(lhs) == *old(lhs),
        *final(rhs) == *old(rhs),
        final(out).inv(),
        final(out).same_place(*old(out)),
        grafted(old(out).trie(), final(out).trie(), old(out).focus_path(),
            |q: Seq<u8>| fold_meet_get(sources2(*old(lhs), *old(rhs)), q),
            |q: Seq<u8>| meet_has(sources2(*old(lhs), *old(rhs)), q)),
{
    let ghost s = sources2(*lhs, *rhs);
    let empty = empty_node();
    let a = source_node(lhs, &empty);
    let b = source_node(rhs, &empty);
    let mut v: Vec<&TrieNode<V>> = Vec::new();
    v.push(a);
    v.push(b);
    let r = meet_all(&v, Ghost(s));
    write_result(out, r);
}

/// Writes at the focus of `out` the subtrie at the focus of `lhs` with the one at the focus of
/// `rhs` taken away: values are subtracted where both have one, and a path is kept where it
/// leaves `rhs` or leads to a value that is left
pub fn zipper_subtract<V: DistributiveLattice + Copy>(lhs: &mut ReadZipper<V>, rhs: &mut ReadZipper<V>, out: &mut WriteZipper<V>)
    requires
        old(lhs).inv(),
        old(rhs).inv(),
        old(out).inv(),
    ensures
        *final(lhs) == *old(lhs),
        *final(rhs) == *old(rhs),
        final(out).inv(),
        final(out).same_place(*old(out)),
        grafted(old(out).trie(), final(out).trie(), old(out).focus_path(),
            |q: Seq<u8>| fold_sub_get(sources2(*old(lhs), *old(rhs)), q),
            |q: Seq<u8>| sub_has(sources2(*old(lhs), *old(rhs)), q)),
{
    let ghost s = sources2(*lhs, *rhs);
    let empty = empty_node();
    let a = source_node(lhs, &empty);
    let b = source_node(rhs, &empty);
    let mut v: Vec<&TrieNode<V>> = Vec::new();
    v.push(a);
    v.push(b);
    let r = subtract_all(&v, Ghost(s));
    write_result(out, r);
}

/// Writes at the focus of `out` the join of the subtries at the foci of `lhs`, `mid` and `rhs`,
/// taken from the left
pub fn zipper_join3<V: Lattice + Copy>(lhs: &mut ReadZipper<V>, mid: &mut ReadZipper<V>, rhs: &mut ReadZipper<V>, out: &mut WriteZipper<V>)
    requires
        old(lhs).inv(),
        old(mid).inv(),
        old(rhs).inv(),
        old(out).inv(),
    ensures
        *final(lhs) == *old(lhs),
        *final(mid) == *old(mid),
        *final(rhs) == *old(rhs),
        final(out).inv(),
        final(out).same_place(*old(out)),
        grafted(old(out).trie(), final(out).trie(), old(out).focus_path(),
            |q: Seq<u8>| fold_join_get(sources3(*old(lhs), *old(mid), *old(rhs)), q),
            |q: Seq<u8>| join_has(sources3(*old(lhs), *old(mid), *old(rhs)), q)),
{
    let ghost s = sources3(*lhs, *mid, *rhs);
    let empty = empty_node();
    let a = source_node(lhs, &empty);
    let b = source_node(mid, &empty);
    let c = source_node(rhs, &empty);
    let mut v: Vec<&TrieNode<V>> = Vec::new();
    v.push(a);
    v.push(b);
    v.push(c);
    let r = join_all(&v, Ghost(s));
    write_result(out, r);
}

/// Writes at the focus of `out` the meet of the subtries at the foci of `lhs`, `mid` and `rhs`,
/// taken from the left, or the first taken whole where all three are the same
pub fn zipper_meet3<V: Lattice + Copy>(lhs: &mut ReadZipper<V>, mid: &mut ReadZipper<V>, rhs: &mut ReadZipper<V>, out: &mut WriteZipper<V>)
    requires
        old(lhs).inv(),
        old(mid).inv(),
        old(rhs).inv(),
        old(out).inv(),
    ensures
        *final(lhs) == *old(lhs),
        *final(mid) == *old(mid),
        *final(rhs) == *old(rhs),
        final(out).inv(),
        final(out).same_place(*old(out)),
        grafted(old(out).trie(), final(out).trie(), old(out).focus_path(),
            |q: Seq<u8>| fold_meet_get(sources3(*old(lhs), *old(mid), *old(rhs)), q),
            |q: Seq<u8>| meet_has(sources3(*old(lhs), *old(mid), *old(rhs)), q)),
{
    let ghost s = sources3(*lhs, *mid, *rhs);
    let empty = empty_node();
    let a = source_node(lhs, &empty);
    let b = source_node(mid, &empty);
    let c = source_node(rhs, &empty);
    let mut v: Vec<&TrieNode<V>> = Vec::new();
    v.push(a);
    v.push(b);
    v.push(c);
    let r = meet_all(&v, Ghost(s));
    write_result(out, r);
}

/// Writes at the focus of `out` the subtrie at the focus of `lhs` with those at the foci of `mid`
/// and then `rhs` taken away
pub fn zipper_subtract3<V: DistributiveLattice + Copy>(lhs: &mut ReadZipper<V>, mid: &mut ReadZipper<V>, rhs: &mut ReadZipper<V>, out: &mut WriteZipper<V>)
    requires
        old(lhs).inv(),
        old(mid).inv(),
        old(rhs).inv(),
        old(out).inv(),
    ensures
        *final(lhs) == *old(lhs),
        *final(mid) == *old(mid),
        *final(rhs) == *old(rhs),
        final(out).inv(),
        final(out).same_place(*old(out)),
        grafted(old(out).trie(), final(out).trie(), old(out).focus_path(),
            |q: Seq<u8>| fold_sub_get(sources3(*old(lhs), *old(mid), *old(rhs)), q),
            |q: Seq<u8>| sub_has(sources3(*old(lhs), *old(mid), *old(rhs)), q)),
{
    let ghost s = sources3(*lhs, *mid, *rhs);
    let empty = empty_node();
    let a = source_node(lhs, &empty);
    let b = source_node(mid, &empty);
    let c = source_node(rhs, &empty);
    let mut v: Vec<&TrieNode<V>> = Vec::new();
    v.push(a);
    v.push(b);
    v.push(c);
    let r = subtract_all(&v, Ghost(s));
    write_result(out, r);
}

/// The subtries at the foci of the zippers `zs`, with `empty` standing for a missing one
fn source_nodes<'x, V: Copy>(zs: &'x [ReadZipper<'x, V>], empty: &'x TrieNode<V>) -> (r: Vec<&'x TrieNode<V>>)
    requires
        forall|i: int| 0 <= i < zs@.len() ==> (#[trigger] zs@[i]).inv(),
        empty.wf(),
        stands_for(*empty, None),
    ensures
        r@.len() == zs@.len(),
        forall|i: int| 0 <= i < zs@.len() ==> (#[trigger] r@[i]).wf() && stands_for(*r@[i], sources(zs@)[i]),
{
    let mut r: Vec<&TrieNode<V>> = Vec::new();
    let mut i: usize = 0;
    while i < zs.len()
        invariant
            i <= zs@.len(),
            forall|i: int| 0 <= i < zs@.len() ==> (#[trigger] zs@[i]).inv(),
            empty.wf(),
            stands_for(*empty, None),
            r@.len() == i,
            forall|k: int| 0 <= k < i ==> (#[trigger] r@[k]).wf() && stands_for(*r@[k], sources(zs@)[k]),
        decreases zs@.len() - i,
    {
        let n = source_node(&zs[i], empty);
        r.push(n);
        i = i + 1;
    }
    r
}

/// Writes at the focus of `out` the join of the subtries at the foci of the zippers `zs`, taken
/// from the left
pub fn zipper_n_join<V: Lattice + Copy, const N: usize>(zs: &mut [ReadZipper<V>; N], out: &mut WriteZipper<V>)
    requires
        forall|i: int| 0 <= i < N ==> (#[trigger] old(zs)@[i]).inv(),
        old(out).inv(),
    ensures
        final(zs)@ == old(zs)@,
        final(out).inv(),
        final(out).same_place(*old(out)),
        grafted(old(out).trie(), final(out).trie(), old(out).focus_path(),
            |q: Seq<u8>| fold_join_get(sources(old(zs)@), q),
            |q: Seq<u8>| join_has(sources(old(zs)@), q)),
{
    let empty = empty_node();
    let v = source_nodes(zs.as_slice(), &empty);
    let r = join_all(&v, Ghost(sources(zs@)));
    write_result(out, r);
}

/// Writes at the focus of `out` the meet of the subtries at the foci of the zippers `zs`, taken
/// from the left, or the first taken whole where all are the same
pub fn zipper_n_meet<V: Lattice + Copy, const N: usize>(zs: &mut [ReadZipper<V>; N], out: &mut WriteZipper<V>)
    requires
        N >= 1,
        forall|i: int| 0 <= i < N ==> (#[trigger] old(zs)@[i]).inv(),
        old(out).inv(),
    ensures
        final(zs)@ == old(zs)@,
        final(out).inv(),
        final(out).same_place(*old(out)),
        grafted(old(out).trie(), final(out).trie(), old(out).focus_path(),
            |q: Seq<u8>| fold_meet_get(sources(old(zs)@), q),
            |q: Seq<u8>| meet_has(sources(old(zs)@), q)),
{
    let empty = empty_node();
    let v = source_nodes(zs.as_slice(), &empty);
    let r = meet_all(&v, Ghost(sources(zs@)));
    write_result(out, r);
}

/// Writes at the focus of `out` the subtrie at the focus of `zs[0]` with those at the foci of the
/// other zippers taken away in turn
pub fn zipper_n_subtract<V: DistributiveLattice + Copy, const N: usize>(zs: &mut [ReadZipper<V>; N], out: &mut WriteZipper<V>)
    requires
        N >= 1,
        forall|i: int| 0 <= i < N ==> (#[trigger] old(zs)@[i]).inv(),
        old(out).inv(),
    ensures
        final(zs)@ == old(zs)@,
        final(out).inv(),
        final(out).same_place(*old(out)),
        grafted(old(out).trie(), final(out).trie(), old(out).focus_path(),
            |q: Seq<u8>| fold_sub_get(sources(old(zs)@), q),
            |q: Seq<u8>| sub_has(sources(old(zs)@), q)),
{
    let empty = empty_node();
    let v = source_nodes(zs.as_slice(), &empty);
    let r = subtract_all(&v, Ghost(sources(zs@)));
    write_result(out, r);
}

/// The subtries at the foci of the zippers of a clause.
pub open spec fn clause_sources<V>(c: Seq<&ReadZipper<V>>) -> Seq<Option<TrieNode<V>>> {
    c.map_values(|z: &ReadZipper<V>| z.focus_node())
}

/// The subtries of each clause.
pub open spec fn dnf_sources<V>(cs: Seq<&[&ReadZipper<V>]>) -> Seq<Seq<Option<TrieNode<V>>>> {
    cs.map_values(|c: &[&ReadZipper<V>]| clause_sources(c@))
}

/// The value at `q` of the join, over the clauses `cs`, of the meet of each clause.
pub open spec fn dnf_get<V: Lattice>(cs: Seq<Seq<Option<TrieNode<V>>>>, q: Seq<u8>) -> Option<V>
    decreases cs.len(),
{
    if cs.len() == 0 {
        None
    } else {
        join_values(dnf_get(cs.drop_last(), q), fold_meet_get(cs.last(), q))
    }
}

/// Whether `q` exists in the join, over the clauses `cs`, of the meet of each clause.
pub open spec fn dnf_has<V: Lattice>(cs: Seq<Seq<Option<TrieNode<V>>>>, q: Seq<u8>) -> bool {
    q.len() == 0 || exists|i: int| 0 <= i < cs.len() && #[trigger] meet_has(cs[i], q)
}

/// Writes at the focus of `out` the join, over the clauses, of the meet of the subtries at the
/// foci of each clause's zippers: a formula in disjunctive normal form, in which a clause with no
/// zipper meets to nothing and so adds nothing
pub fn zipper_merge_dnf<V: Lattice + Copy>(clauses: &[&[&ReadZipper<V>]], out: &mut WriteZipper<V>)
    requires
        forall|i: int, j: int| 0 <= i < clauses@.len() && 0 <= j < clauses@[i]@.len() ==> (#[trigger] clauses@[i]@[j]).inv(),
        old(out).inv(),
    ensures
        final(out).inv(),
        final(out).same_place(*old(out)),
        grafted(old(out).trie(), final(out).trie(), old(out).focus_path(),
            |q: Seq<u8>| dnf_get(dnf_sources(clauses@), q),
            |q: Seq<u8>| dnf_has(dnf_sources(clauses@), q)),
{
    let ghost cs = dnf_sources(clauses@);
    let empty = empty_node();
    let mut acc = empty_node();
    let mut i: usize = 0;
    while i < clauses.len()
        invariant
            i <= clauses@.len(),
            cs == dnf_sources(clauses@),
            forall|i: int, j: int| 0 <= i < clauses@.len() && 0 <= j < clauses@[i]@.len() ==> (#[trigger] clauses@[i]@[j]).inv(),
            empty.wf(),
            stands_for(empty, None),
            acc.wf(),
            forall|q: Seq<u8>|
                #![trigger acc.node_at(q)]
                acc.get(q) == dnf_get(cs.take(i as int), q) && acc.has_path(q) == dnf_has(cs.take(i as int), q),
        decreases clauses@.len() - i,
    {
        let c: &[&ReadZipper<V>] = clauses[i];
        if c.len() > 0 {
            let mut v: Vec<&TrieNode<V>> = Vec::new();
            let mut j: usize = 0;
            while j < c.len()
                invariant
                    j <= c@.len(),
                    c == clauses@[i as int],
                    i < clauses@.len(),
                    forall|i: int, j: int| 0 <= i < clauses@.len() && 0 <= j < clauses@[i]@.len() ==> (#[trigger] clauses@[i]@[j]).inv(),
                    empty.wf(),
                    stands_for(empty, None),
                    v@.len() == j,
                    forall|k: int| 0 <= k < j ==> (#[trigger] v@[k]).wf() && stands_for(*v@[k], clause_sources(c@)[k]),
                decreases c@.len() - j,
            {
                assert(clauses@[i as int]@[j as int].inv());
                let n = source_node(c[j], &empty);
                v.push(n);
                j = j + 1;
            }
            let m = meet_all(&v, Ghost(clause_sources(c@)));
            let next = join_node(&acc, &m);
            proof {
                let t = cs.take(i + 1);
                assert(t.drop_last() =~= cs.take(i as int));
                assert(t.last() == clause_sources(c@));
                assert forall|q: Seq<u8>| #![trigger next.node_at(q)] next.get(q) == dnf_get(t, q) && next.has_path(q) == dnf_has(t, q) by {
                    assert(acc.node_at(q) == acc.node_at(q));
                    assert(m.node_at(q) == m.node_at(q));
                    if next.has_path(q) && q.len() > 0 {
                        if m.has_path(q) {
                            assert(meet_has(t[i as int], q));
                        } else {
                            let k = choose|k: int| 0 <= k < i && #[trigger] meet_has(cs.take(i as int)[k], q);
                            assert(meet_has(t[k], q));
                        }
                    }
                    if dnf_has(t, q) && q.len() > 0 {
                        let k = choose|k: int| 0 <= k < t.len() && #[trigger] meet_has(t[k], q);
                        if k < i {
                            assert(meet_has(cs.take(i as int)[k], q));
                        }
                    }
                }
            }
            acc = next;
        } else {
            proof {
                let t = cs.take(i + 1);
                assert(t.drop_last() =~= cs.take(i as int));
                assert(t.last() == clause_sources(c@));
                assert forall|q: Seq<u8>| #![trigger acc.node_at(q)] acc.get(q) == dnf_get(t, q) && acc.has_path(q) == dnf_has(t, q) by {
                    assert(acc.node_at(q) == acc.node_at(q));
                    if dnf_has(t, q) && q.len() > 0 {
                        let k = choose|k: int| 0 <= k < t.len() && #[trigger] meet_has(t[k], q);
                        assert(k < i);
                        assert(meet_has(cs.take(i as int)[k], q));
                    }
                    if dnf_has(cs.take(i as int), q) && q.len() > 0 {
                        let k = choose|k: int| 0 <= k < i && #[trigger] meet_has(cs.take(i as int)[k], q);
                        assert(meet_has(t[k], q));
                    }
                }
            }
        }
        i = i + 1;
    }
    proof {
        assert(cs.take(cs.len() as int) =~= cs);
    }
    write_result(out, acc);
}

/// Join, meet and subtraction as methods of a zipper, with another zipper as right operand
pub trait ZipperAlgebraExt<V: DistributiveLattice + Copy>: Sized {
    /// The subtrie at the focus, the left operand.
    spec fn algebra_source(&self) -> Option<TrieNode<V>>;

    /// Whether the zipper can serve as an operand.
    spec fn algebra_inv(&self) -> bool;

    /// Writes at the focus of `out` the join of the subtries at the foci of `self` and `rhs`
    fn join(&mut self, rhs: &mut ReadZipper<V>, out: &mut WriteZipper<V>)
        requires
            old(self).algebra_inv(),
            old(rhs).inv(),
            old(out).inv(),
        ensures
            final(self).algebra_source() == old(self).algebra_source(),
            *final(rhs) == *old(rhs),
            final(out).inv(),
            final(out).same_place(*old(out)),
            grafted(old(out).trie(), final(out).trie(), old(out).focus_path(),
                |q: Seq<u8>| fold_join_get(seq![old(self).algebra_source(), old(rhs).focus_node()], q),
                |q: Seq<u8>| join_has(seq![old(self).algebra_source(), old(rhs).focus_node()], q)),
    ;

    /// Writes at the focus of `out` the meet of the subtries at the foci of `self` and `rhs`
    fn meet(&mut self, rhs: &mut ReadZipper<V>, out: &mut WriteZipper<V>)
        requires
            old(self).algebra_inv(),
            old(rhs).inv(),
            old(out).inv(),
        ensures
            final(self).algebra_source() == old(self).algebra_source(),
            *final(rhs) == *old(rhs),
            final(out).inv(),
            final(out).same_place(*old(out)),
            grafted(old(out).trie(), final(out).trie(), old(out).focus_path(),
                |q: Seq<u8>| fold_meet_get(seq![old(self).algebra_source(), old(rhs).focus_node()], q),
                |q: Seq<u8>| meet_has(seq![old(self).algebra_source(), old(rhs).focus_node()], q)),
    ;

    /// Writes at the focus of `out` the subtrie at the focus of `self` with the one at the focus
    /// of `rhs` taken away
    fn subtract(&mut self, rhs: &mut ReadZipper<V>, out: &mut WriteZipper<V>)
        requires
            old(self).algebra_inv(),
            old(rhs).inv(),
            old(out).inv(),
        ensures
            final(self).algebra_source() == old(self).algebra_source(),
            *final(rhs) == *old(rhs),
            final(out).inv(),
            final(out).same_place(*old(out)),
            grafted(old(out).trie(), final(out).trie(), old(out).focus_path(),
                |q: Seq<u8>| fold_sub_get(seq![old(self).algebra_source(), old(rhs).focus_node()], q),
                |q: Seq<u8>| sub_has(seq![old(self).algebra_source(), old(rhs).focus_node()], q)),
    ;
}

impl<'a, V: DistributiveLattice + Copy> ZipperAlgebraExt<V> for ReadZipper<'a, V> {
    open spec fn algebra_source(&self) -> Option<TrieNode<V>> {
        self.focus_node()
    }

    open spec fn algebra_inv(&self) -> bool {
        self.inv()
    }

    fn join(&mut self, rhs: &mut ReadZipper<V>, out: &mut WriteZipper<V>)
        ensures
            *final(self) == *old(self),
            grafted(old(out).trie(), final(out).trie(), old(out).focus_path(),
                |q: Seq<u8>| fold_join_get(sources2(*old(self), *old(rhs)), q),
                |q: Seq<u8>| join_has(sources2(*old(self), *old(rhs)), q)),
    {
        zipper_join(self, rhs, out);
    }

    fn meet(&mut self, rhs: &mut ReadZipper<V>, out: &mut WriteZipper<V>)
        ensures
            *final(self) == *old(self),
            grafted(old(out).trie(), final(out).trie(), old(out).focus_path(),
                |q: Seq<u8>| fold_meet_get(sources2(*old(self), *old(rhs)), q),
                |q: Seq<u8>| meet_has(sources2(*old(self), *old(rhs)), q)),
    {
        zipper_meet(self, rhs, out);
    }

    fn subtract(&mut self, rhs: &mut ReadZipper<V>, out: &mut WriteZipper<V>)
        ensures
            *final(self) == *old(self),
            grafted(old(out).trie(), final(out).trie(), old(out).focus_path(),
                |q: Seq<u8>| fold_sub_get(sources2(*old(self), *old(rhs)), q),
                |q: Seq<u8>| sub_has(sources2(*old(self), *old(rhs)), q)),
    {
        zipper_subtract(self, rhs, out);
    }
}

/// N-way join, meet and subtraction over a group of zippers
pub trait ZipperMergeF<V: DistributiveLattice + Copy>: Sized {
    /// The subtries at the foci of the group.
    spec fn merge_sources(&self) -> Seq<Option<TrieNode<V>>>;

    /// Whether every zipper of the group can serve as an operand.
    spec fn merge_inv(&self) -> bool;

    /// Writes at the focus of `out` the join of the group, from the left
    fn join_n(self, out: &mut WriteZipper<V>)
        requires
            self.merge_inv(),
            old(out).inv(),
        ensures
            final(out).inv(),
            final(out).same_place(*old(out)),
            grafted(old(out).trie(), final(out).trie(), old(out).focus_path(),
                |q: Seq<u8>| fold_join_get(self.merge_sources(), q),
                |q: Seq<u8>| join_has(self.merge_sources(), q)),
    ;

    /// Writes at the focus of `out` the meet of the group, from the left
    fn meet_n(self, out: &mut WriteZipper<V>)
        requires
            self.merge_inv(),
            self.merge_sources().len() >= 1,
            old(out).inv(),
        ensures
            final(out).inv(),
            final(out).same_place(*old(out)),
            grafted(old(out).trie(), final(out).trie(), old(out).focus_path(),
                |q: Seq<u8>| fold_meet_get(self.merge_sources(), q),
                |q: Seq<u8>| meet_has(self.merge_sources(), q)),
    ;

    /// Writes at the focus of `out` the first subtrie of the group with the others taken away
    /// in turn
    fn subtract_n(self, out: &mut WriteZipper<V>)
        requires
            self.merge_inv(),
            self.merge_sources().len() >= 1,
            old(out).inv(),
        ensures
            final(out).inv(),
            final(out).same_place(*old(out)),
            grafted(old(out).trie(), final(out).trie(), old(out).focus_path(),
                |q: Seq<u8>| fold_sub_get(self.merge_sources(), q),
                |q: Seq<u8>| sub_has(self.merge_sources(), q)),
    ;
}

impl<'a, 'b, V: DistributiveLattice + Copy, const N: usize> ZipperMergeF<V> for &'b mut [ReadZipper<'a, V>; N] {
    open spec fn merge_sources(&self) -> Seq<Option<TrieNode<V>>> {
        sources((**self)@)
    }

    open spec fn merge_inv(&self) -> bool {
        forall|i: int| 0 <= i < N ==> (#[trigger] (**self)@[i]).inv()
    }

    fn join_n(self, out: &mut WriteZipper<V>)
        ensures
            grafted(old(out).trie(), final(out).trie(), old(out).focus_path(),
                |q: Seq<u8>| fold_join_get(sources((*old(self))@), q),
                |q: Seq<u8>| join_has(sources((*old(self))@), q)),
    {
        zipper_n_join(self, out);
    }

    fn meet_n(self, out: &mut WriteZipper<V>)
        ensures
            grafted(old(out).trie(), final(out).trie(), old(out).focus_path(),
                |q: Seq<u8>| fold_meet_get(sources((*old(self))@), q),
                |q: Seq<u8>| meet_has(sources((*old(self))@), q)),
    {
        zipper_n_meet(self, out);
    }

    fn subtract_n(self, out: &mut WriteZipper<V>)
        ensures
            grafted(old(out).trie(), final(out).trie(), old(out).focus_path(),
                |q: Seq<u8>| fold_sub_get(sources((*old(self))@), q),
                |q: Seq<u8>| sub_has(sources((*old(self))@), q)),
    {
        zipper_n_subtract(self, out);
    }
}

} // verus!
