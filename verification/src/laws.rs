//! Laws of the whole-map algebra and of the lazy zippers that stand for it.
use vstd::prelude::*;
use crate::overlay_zipper::{OverlayZipper, PreferFirst};
use crate::pathmap::PathMap;
use crate::prefix_zipper::PrefixZipper;
use crate::restrict_zipper::{guard_on, RestrictZipper};
use crate::ring::{join_values, meet_values, DistributiveLattice, Lattice, COUNTER_IDENT, SELF_IDENT};
use crate::subtract_zipper::{sub_keeps, SubtractZipper};
use crate::trie_ops::{guard_active, meet_at, meet_reaches, subtract_at, subtract_keeps, subtract_reaches};
use crate::trie::{lemma_node_at_append, opt_exists, opt_get, opt_node_at, TrieNode};
use crate::trie_ref::SubtrieSource;
use crate::zipper_algebra::{ZipperAlgebraExt, ZipperMergeF};
use crate::zipper::{grafted, src_get, src_has, ReadZipper};
use crate::zipper_moving::{child_count_of, has_child, ZipperMoving};
use crate::zipper_algebra::{all_same, same_nodes, same_sources, same_value};
use crate::utils::{bytes_count_below, lemma_count_below_monotone, ByteMask, ByteRange};

verus! {

/// The join and meet of two unit values keep the left one.
proof fn lemma_unit_ident()
    ensures
        (SELF_IDENT | COUNTER_IDENT) & SELF_IDENT != 0,
{
    assert((1u64 | 2u64) & 1u64 != 0u64) by (bit_vector);
}

/// Joining two maps of unit values keeps exactly the paths where either of them holds a value.
pub proof fn law_join_is_union(a: PathMap<()>, b: PathMap<()>)
    ensures
        forall|q: Seq<u8>| #[trigger] join_values(a.get(q), b.get(q)) is Some <==> (a.get(q) is Some || b.get(q) is Some),
{
    lemma_unit_ident();
}

/// Meeting two maps of unit values keeps exactly the paths where both of them hold a value.
pub proof fn law_meet_is_intersection(a: PathMap<()>, b: PathMap<()>)
    ensures
        forall|q: Seq<u8>| #[trigger] meet_values(a.get(q), b.get(q)) is Some <==> (a.get(q) is Some && b.get(q) is Some),
{
    lemma_unit_ident();
}

/// Subtracting one map of unit values from another keeps exactly the paths where the first holds
/// a value and the second does not.
pub proof fn law_subtract_is_difference(a: PathMap<()>, b: PathMap<()>)
    ensures
        forall|q: Seq<u8>| #[trigger] subtract_at(a.root, Some(b.root), q) is Some <==> (a.get(q) is Some && b.get(q) is None),
{
}

/// The join and the meet of maps of unit values do not depend on the order of the operands, in
/// their values nor, for the meet, in their paths.
pub proof fn law_join_meet_commute(a: PathMap<()>, b: PathMap<()>)
    ensures
        forall|q: Seq<u8>| #[trigger] join_values(a.get(q), b.get(q)) == join_values(b.get(q), a.get(q)),
        forall|q: Seq<u8>| #[trigger] meet_values(a.get(q), b.get(q)) == meet_values(b.get(q), a.get(q)),
        forall|q: Seq<u8>| #[trigger] meet_reaches(a.root, b.root, q) == meet_reaches(b.root, a.root, q),
{
    lemma_unit_ident();
    assert forall|w: Seq<u8>| #[trigger] meet_at(a.root, b.root, w) == meet_at(b.root, a.root, w) by {}
    assert forall|q: Seq<u8>| #[trigger] meet_reaches(a.root, b.root, q) == meet_reaches(b.root, a.root, q) by {
        if meet_reaches(a.root, b.root, q) {
            let w = choose|w: Seq<u8>| #[trigger] meet_at(a.root, b.root, w) is Some && q.is_prefix_of(w);
            assert(meet_at(b.root, a.root, w) is Some);
        }
        if meet_reaches(b.root, a.root, q) {
            let w = choose|w: Seq<u8>| #[trigger] meet_at(b.root, a.root, w) is Some && q.is_prefix_of(w);
            assert(meet_at(a.root, b.root, w) is Some);
        }
    }
}

/// A map of unit values joined or met with itself is itself, and taken from itself leaves no
/// value.
pub proof fn law_idempotent(a: PathMap<()>)
    ensures
        forall|q: Seq<u8>| #[trigger] join_values(a.get(q), a.get(q)) == a.get(q),
        forall|q: Seq<u8>| #[trigger] meet_values(a.get(q), a.get(q)) == a.get(q),
        forall|q: Seq<u8>| #[trigger] subtract_at(a.root, Some(a.root), q) is None,
{
    lemma_unit_ident();
}

/// Joining, and meeting, three maps of unit values gives the same values however the operations
/// are grouped.
pub proof fn law_join_meet_associate(a: PathMap<()>, b: PathMap<()>, c: PathMap<()>)
    ensures
        forall|q: Seq<u8>| #[trigger] join_values(join_values(a.get(q), b.get(q)), c.get(q))
            == join_values(a.get(q), join_values(b.get(q), c.get(q))),
        forall|q: Seq<u8>| #[trigger] meet_values(meet_values(a.get(q), b.get(q)), c.get(q))
            == meet_values(a.get(q), meet_values(b.get(q), c.get(q))),
{
    lemma_unit_ident();
}

/// The meet distributes over the join and the join over the meet, for maps of unit values.
pub proof fn law_distributive(a: PathMap<()>, b: PathMap<()>, c: PathMap<()>)
    ensures
        forall|q: Seq<u8>| #[trigger] meet_values(a.get(q), join_values(b.get(q), c.get(q)))
            == join_values(meet_values(a.get(q), b.get(q)), meet_values(a.get(q), c.get(q))),
        forall|q: Seq<u8>| #[trigger] join_values(a.get(q), meet_values(b.get(q), c.get(q)))
            == meet_values(join_values(a.get(q), b.get(q)), join_values(a.get(q), c.get(q))),
{
    lemma_unit_ident();
}


/// Whether zipper `z` sees the map `m` from its root.
pub open spec fn sees<Z: ZipperMoving>(z: Z, m: PathMap<Z::Val>) -> bool {
    &&& forall|p: Seq<u8>| #[trigger] z.sget(p) == m.get(p)
    &&& forall|p: Seq<u8>| #[trigger] z.shas(p) == m.has_path(p)
}

/// A restrict zipper over zippers that see two maps sees what the eager restriction of the first
/// map by the second holds: the same values and the same paths.
pub proof fn law_restrict_zipper_matches_restrict<D: ZipperMoving, G: ZipperMoving>(
    z: RestrictZipper<D, G>,
    d: PathMap<D::Val>,
    g: PathMap<G::Val>,
)
    requires
        sees(z.data, d),
        sees(z.guard, g),
    ensures
        forall|q: Seq<u8>| #[trigger] z.sget(q) == (if guard_active(g.root, q) {
            d.get(q)
        } else {
            None
        }),
        forall|q: Seq<u8>| #[trigger] z.shas(q) == (q.len() == 0 || (d.has_path(q) && (g.has_path(q)
            || guard_active(g.root, q)))),
{
    assert forall|q: Seq<u8>| #[trigger] guard_on(z.guard, q) == guard_active(g.root, q) by {
        if guard_on(z.guard, q) {
            let k = choose|k: int| 0 <= k < q.len() + 1 && #[trigger] z.guard.sget(q.take(k)) is Some;
            assert(q.take(k) == q.subrange(0, k));
            assert(g.root.get(q.subrange(0, k)) is Some);
        }
        if guard_active(g.root, q) {
            let k = choose|k: int| 0 <= k <= q.len() && #[trigger] g.root.get(q.subrange(0, k)) is Some;
            assert(q.take(k) == q.subrange(0, k));
            assert(z.guard.sget(q.take(k)) is Some);
        }
    }
    assert forall|q: Seq<u8>| #[trigger] z.shas(q) == (q.len() == 0 || (d.has_path(q) && (g.has_path(q)
        || guard_active(g.root, q)))) by {
        if q.len() == 0 {
            assert(d.root.node_at(q) == Some(d.root));
            assert(g.root.node_at(q) == Some(g.root));
        }
    }
}

/// A subtract zipper over zippers that see two maps sees the values the eager subtraction of the
/// maps holds, and a path wherever the subtraction keeps something at it or below it.
pub proof fn law_subtract_zipper_matches_subtract<V: DistributiveLattice + Copy, L: ZipperMoving<Val = V>, R: ZipperMoving<Val = V>>(
    z: SubtractZipper<L, R, V>,
    a: PathMap<V>,
    b: PathMap<V>,
)
    requires
        sees(z.left, a),
        sees(z.right, b),
    ensures
        forall|q: Seq<u8>| #[trigger] z.sget(q) == subtract_at(a.root, Some(b.root), q),
        forall|q: Seq<u8>| #[trigger] z.shas(q) == subtract_reaches(a.root, Some(b.root), q),
{
    assert forall|w: Seq<u8>| #[trigger] sub_keeps(z.left, z.right, w) == subtract_keeps(a.root, Some(b.root), w) by {}
    assert forall|q: Seq<u8>| #[trigger] z.shas(q) == subtract_reaches(a.root, Some(b.root), q) by {
        if z.shas(q) {
            let w = choose|w: Seq<u8>| q.is_prefix_of(w) && #[trigger] sub_keeps(z.left, z.right, w);
            assert(subtract_keeps(a.root, Some(b.root), w));
        }
        if subtract_reaches(a.root, Some(b.root), q) {
            let w = choose|w: Seq<u8>| #[trigger] subtract_keeps(a.root, Some(b.root), w) && q.is_prefix_of(w);
            assert(sub_keeps(z.left, z.right, w));
        }
    }
}

/// The overlay of zippers that see two maps, preferring the first value, sees what the eager join
/// of the maps holds, for values whose join keeps the left operand.
pub proof fn law_overlay_matches_join<V: Lattice + Copy, A: ZipperMoving<Val = V>, B: ZipperMoving<Val = V>>(
    z: OverlayZipper<V, V, A, B, PreferFirst>,
    a: PathMap<V>,
    b: PathMap<V>,
)
    requires
        sees(z.a, a),
        sees(z.b, b),
        forall|x: V, y: V| #[trigger] join_values(Some(x), Some(y)) == Some(x),
    ensures
        forall|q: Seq<u8>| #[trigger] z.sget(q) == join_values(a.get(q), b.get(q)),
        forall|q: Seq<u8>| #[trigger] z.shas(q) == (a.has_path(q) || b.has_path(q)),
{
    assert forall|q: Seq<u8>| #[trigger] z.sget(q) == join_values(a.get(q), b.get(q)) by {
        if a.get(q) is Some && b.get(q) is Some {
            assert(join_values(Some(a.get(q).unwrap()), Some(b.get(q).unwrap())) == Some(a.get(q).unwrap()));
        }
    }
}


/// A read zipper over the root of a map sees that map.
pub proof fn lemma_read_zipper_sees<V: Copy>(z: ReadZipper<'_, V>, m: PathMap<V>)
    requires
        z.root_node() == Some(m.root),
    ensures
        sees(z, m),
{
}

/// A guard holding a value at its root lets every path through.
pub proof fn law_root_guard_lets_all_through<W>(g: PathMap<W>)
    requires
        g.get(Seq::<u8>::empty()) is Some,
    ensures
        forall|q: Seq<u8>| #[trigger] guard_active(g.root, q),
{
    assert forall|q: Seq<u8>| #[trigger] guard_active(g.root, q) by {
        assert(q.subrange(0, 0) =~= Seq::<u8>::empty());
        assert(g.root.get(q.subrange(0, 0)) is Some);
    }
}


/// A prefix zipper over a zipper that sees a map sees what inserting the prefix in front of
/// everything at the root of the map leaves there: the same values and the same paths.
pub proof fn law_prefix_zipper_matches_insert_prefix<Z: ZipperMoving>(z: PrefixZipper<Z>, m: PathMap<Z::Val>, new: TrieNode<Z::Val>)
    requires
        sees(z.source, m),
        grafted(m.root, new, Seq::<u8>::empty(),
            |q: Seq<u8>| if z.prefix@.is_prefix_of(q) {
                src_get(m.root.node_at(Seq::<u8>::empty()), q.skip(z.prefix@.len() as int))
            } else {
                None
            },
            |q: Seq<u8>| if z.prefix@.is_prefix_of(q) {
                q.len() == z.prefix@.len() || src_has(m.root.node_at(Seq::<u8>::empty()), q.skip(z.prefix@.len() as int))
            } else {
                q.is_prefix_of(z.prefix@)
            }),
    ensures
        forall|q: Seq<u8>| #[trigger] z.sget(q) == new.get(q),
        forall|q: Seq<u8>| #[trigger] z.shas(q) == new.has_path(q),
{
    let e = Seq::<u8>::empty();
    assert(m.root.node_at(e) == Some(m.root));
    assert forall|q: Seq<u8>| #[trigger] z.sget(q) == new.get(q) by {
        assert(e.is_prefix_of(q));
        assert(q.skip(0) =~= q);
        assert(new.node_at(q) == new.node_at(q));
    }
    assert forall|q: Seq<u8>| #[trigger] z.shas(q) == new.has_path(q) by {
        assert(e.is_prefix_of(q));
        assert(q.skip(0) =~= q);
        assert(new.node_at(q) == new.node_at(q));
        if z.prefix@.is_prefix_of(q) {
            let r = q.skip(z.prefix@.len() as int);
            if r.len() == 0 {
                assert(m.root.node_at(r) == Some(m.root));
            }
        }
    }
}


/// Where `s` lists the bytes of `m` in increasing order, as `ByteMask::bytes` does, the number of
/// bytes of `m` below `i` is the number of entries of `s` below `i`: all entries before it are
/// below `i`, and the entry at it, if any, is not.
proof fn lemma_count_below_splits(m: ByteMask, s: Seq<u8>, i: nat)
    requires
        forall|a: int, b: int| 0 <= a < b < s.len() ==> s[a] < s[b],
        forall|x: int| m.has(x) <==> exists|k: int| 0 <= k < s.len() && s[k] == x,
        i <= 256,
    ensures
        m.count_below(i as int) <= s.len(),
        m.count_below(i as int) < s.len() ==> s[m.count_below(i as int) as int] >= i,
        m.count_below(i as int) > 0 ==> s[m.count_below(i as int) - 1] < i,
    decreases i,
{
    if i > 0 {
        let j = (i - 1) as nat;
        lemma_count_below_splits(m, s, j);
        let c = m.count_below(j as int);
        assert(m.count_below(i as int) == c + if m.has(j as int) { 1nat } else { 0nat });
        if m.has(j as int) {
            let k = choose|k: int| 0 <= k < s.len() && s[k] == j;
            if k < c {
                assert(s[c - 1] >= s[k]) by {
                    if k < c - 1 {
                        assert(s[k] < s[c - 1]);
                    }
                }
            }
            if k > c {
                assert(s[c as int] < s[k]);
            }
            assert(k == c);
            if c + 1 < s.len() {
                assert(s[c as int] < s[c + 1int]);
            }
        } else {
            if c < s.len() {
                assert(s[c as int] != j) by {
                    if s[c as int] == j {
                        assert(m.has(j as int));
                    }
                }
            }
        }
    }
}

/// `ByteMask::indexed_bit` agrees with the order in which `ByteMask::bytes` lists a mask's bytes:
/// counting up, the byte at index `k` is the `k`-th listed, and counting down it is the `k`-th
/// from the end; no other byte of the mask stands at that index, and the mask has as many bytes
/// as are listed, so that past the last index there is none.
pub proof fn law_indexed_bit_follows_byte_order(m: ByteMask, s: Seq<u8>)
    requires
        forall|a: int, b: int| 0 <= a < b < s.len() ==> s[a] < s[b],
        forall|x: int| m.has(x) <==> exists|k: int| 0 <= k < s.len() && s[k] == x,
    ensures
        m.count() == s.len(),
        forall|k: int| 0 <= k < s.len() ==> #[trigger] m.count_below(s[k] as int) == k,
        forall|k: int| 0 <= k < s.len() ==> m.count() - #[trigger] m.count_below(s[k] + 1) == s.len() - 1 - k,
        forall|b: int| #[trigger] m.has(b) ==> exists|k: int| 0 <= k < s.len() && s[k] == b && m.count_below(b) == k
            && m.count() - m.count_below(b + 1) == s.len() - 1 - k,
{
    lemma_count_below_splits(m, s, 256);
    assert(m.count() == m.count_below(256));
    assert forall|k: int|
        #![trigger m.count_below(s[k] as int)]
        #![trigger m.count_below(s[k] + 1)]
        0 <= k < s.len() implies m.count_below(s[k] as int) == k && m.count_below(s[k] + 1) == k + 1 by {
        lemma_count_below_splits(m, s, s[k] as nat);
        lemma_count_below_splits(m, s, (s[k] + 1) as nat);
        let c = m.count_below(s[k] as int);
        let d = m.count_below(s[k] + 1);
        if c < k {
            assert(s[c as int] < s[k]);
        }
        if c > k {
            if k < c - 1 {
                assert(s[k] < s[c - 1]);
            }
        }
        if d < k + 1 {
            if d < k {
                assert(s[d as int] < s[k]);
            }
        }
        if d > k + 1 {
            assert(s[k] < s[d - 1]);
        }
    }
    if s.len() > 0 {
        let last = s.len() - 1;
        assert(m.count_below(s[last] as int) == last);
        assert(m.count_below(s[last] + 1) == s.len());
        assert(m.count_below(s[last] + 1) <= m.count()) by {
            lemma_count_below_monotone(m.0@, (s[last] + 1) as nat, 256);
        }
    }
    assert forall|b: int| #[trigger] m.has(b) implies exists|k: int| 0 <= k < s.len() && s[k] == b && m.count_below(b) == k
        && m.count() - m.count_below(b + 1) == s.len() - 1 - k by {
        let k = choose|k: int| 0 <= k < s.len() && s[k] == b;
        assert(m.count_below(s[k] as int) == k);
    }
}


/// A map met with itself, where the lattice meet leaves every value as it is, is the map itself:
/// `PathMap::meet`, and the zipper meets of zippers at one place of it, take it whole, its paths
/// that lead to no value included.
pub proof fn law_meet_with_itself<V: Lattice>(a: PathMap<V>)
    requires
        forall|x: V| #[trigger] same_value(Some(x), Some(x)),
    ensures
        same_nodes(a.root, a.root),
        all_same(seq![Some(a.root), Some(a.root)]),
        forall|q: Seq<u8>| #[trigger] meet_values(a.get(q), a.get(q)) == a.get(q),
{
    assert forall|q: Seq<u8>| #[trigger] same_value(a.get(q), a.get(q)) by {
        if a.get(q) is Some {
            assert(same_value(Some(a.get(q).unwrap()), Some(a.get(q).unwrap())));
        }
    }
    assert forall|q: Seq<u8>| #![trigger a.root.node_at(q)] a.root.has_path(q) == a.root.has_path(q) && same_value(a.root.get(q), a.root.get(q)) by {
        assert(same_value(a.get(q), a.get(q)));
    }
    let s = seq![Some(a.root), Some(a.root)];
    assert forall|i: int| 0 <= i < s.len() implies #[trigger] same_sources(s[0], s[i]) by {
        assert forall|q: Seq<u8>| #![trigger src_has(s[0], q)] #![trigger src_has(s[i], q)] src_has(s[0], q) == src_has(s[i], q) && same_value(src_get(s[0], q), src_get(s[i], q)) by {
            assert(same_value(a.get(q), a.get(q)));
        }
    }
    assert forall|q: Seq<u8>| #[trigger] meet_values(a.get(q), a.get(q)) == a.get(q) by {
        assert(same_value(a.get(q), a.get(q)));
    }
}


/// A byte test that holds of one byte alone counts that byte once, below any bound above it.
proof fn lemma_count_one_byte(f: spec_fn(int) -> bool, c: int, i: nat)
    requires
        0 <= c < 256,
        i <= 256,
        forall|b: int| 0 <= b < 256 ==> #[trigger] f(b) == (b == c),
    ensures
        bytes_count_below(f, i) == if c < i { 1nat } else { 0nat },
    decreases i,
{
    if i > 0 {
        lemma_count_one_byte(f, c, (i - 1) as nat);
        assert(f(i - 1) == (i - 1 == c));
    }
}

/// At its root, a prefix zipper with a prefix exists, holds no value, and has exactly one child:
/// the first byte of the prefix.
pub proof fn law_prefix_zipper_root_has_one_child<Z: ZipperMoving>(z: PrefixZipper<Z>)
    requires
        z.pinv(),
        z.prefix@.len() > 0,
        z.path@.len() == 0,
    ensures
        z.shas(z.spath()),
        z.sget(z.spath()) is None,
        forall|b: int| #[trigger] has_child(z, z.spath(), b) <==> b == z.prefix@[0],
        child_count_of(z) == 1,
{
    let pre = z.prefix@;
    let e = z.spath();
    assert(e.is_prefix_of(pre));
    assert(!pre.is_prefix_of(e));
    assert forall|b: int| #[trigger] has_child(z, e, b) <==> b == pre[0] by {
        if 0 <= b < 256 {
            let q = e.push(b as u8);
            assert(q.len() == 1 && q[0] == b as u8);
            if b == pre[0] {
                assert(q.is_prefix_of(pre));
            } else {
                assert(!q.is_prefix_of(pre));
                assert(!pre.is_prefix_of(q));
            }
        }
    }
    lemma_count_one_byte(|b: int| has_child(z, e, b), pre[0] as int, 256);
}


/// What a read zipper hands join, meet and subtract as its left operand is what lies below its
/// focus: at every path `q`, the value and the existence of its focus path followed by `q` in the
/// zipper's whole trie, not of `q` itself from the root.
pub proof fn law_read_zipper_operand_lies_below_its_focus<V: DistributiveLattice + Copy>(z: ReadZipper<V>)
    ensures
        forall|q: Seq<u8>| #[trigger] opt_get(z.algebra_source(), q) == opt_get(z.root_node(), z.path@ + q),
        forall|q: Seq<u8>| #[trigger] opt_exists(z.algebra_source(), q) == opt_exists(z.root_node(), z.path@ + q),
{
    assert forall|q: Seq<u8>| #[trigger] opt_get(z.algebra_source(), q) == opt_get(z.root_node(), z.path@ + q) by {
        if let Some(n) = z.root_node() {
            lemma_node_at_append(n, z.path@, q);
        }
    }
    assert forall|q: Seq<u8>| #[trigger] opt_exists(z.algebra_source(), q) == opt_exists(z.root_node(), z.path@ + q) by {
        if let Some(n) = z.root_node() {
            lemma_node_at_append(n, z.path@, q);
        }
    }
}

/// A read zipper used as the source of a graft stands for what lies below its focus: the subtrie
/// at `p` below it is the node at the focus path followed by `p` in the zipper's whole trie.
pub proof fn law_read_zipper_source_lies_below_its_focus<V>(z: ReadZipper<V>)
    ensures
        forall|p: Seq<u8>| #[trigger] opt_node_at(z.source_node(), p) == opt_node_at(z.root_node(), z.path@ + p),
{
    assert forall|p: Seq<u8>| #[trigger] opt_node_at(z.source_node(), p) == opt_node_at(z.root_node(), z.path@ + p) by {
        if let Some(n) = z.root_node() {
            lemma_node_at_append(n, z.path@, p);
        }
    }
}

/// The operands of the n-way merges of a group of read zippers are the subtries at the zippers'
/// foci, in the order of the group: the `i`-th operand is what lies below the focus of the
/// `i`-th zipper.
pub proof fn law_merge_group_operands_in_order<'a, 'b, V: DistributiveLattice + Copy, const N: usize>(
    zs: &'b mut [ReadZipper<'a, V>; N],
)
    ensures
        zs.merge_sources().len() == N,
        forall|i: int, q: Seq<u8>| 0 <= i < N ==> #[trigger] opt_get(zs.merge_sources()[i], q) == opt_get(
            old(zs)@[i].root_node(),
            old(zs)@[i].path@ + q,
        ),
{
    assert forall|i: int, q: Seq<u8>| 0 <= i < N implies #[trigger] opt_get(zs.merge_sources()[i], q) == opt_get(
        old(zs)@[i].root_node(),
        old(zs)@[i].path@ + q,
    ) by {
        if let Some(n) = old(zs)@[i].root_node() {
            lemma_node_at_append(n, old(zs)@[i].path@, q);
        }
    }
}

/// A byte range `start..=end` that has not been used up holds its end: its bounds, as masks are
/// built from them, run from its start to one past its end, whatever the start.
pub proof fn law_inclusive_range_holds_its_end(r: core::ops::RangeInclusive<u8>)
    requires
        !r@.exhausted,
    ensures
        r.byte_start() == r@.start,
        r.byte_end() == r@.end + 1,
{
}

} // verus!
