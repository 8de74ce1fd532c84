//! Occupancy statistics of a map: how many nodes, and how many links to children, each depth of
//! its trie holds.
use vstd::prelude::*;
use crate::pathmap::PathMap;
use crate::trie::{children_height, height, lemma_children_height, TrieNode};

verus! {

/// The number of nodes `d` levels below `n`, `n` itself being the one node at level zero.
pub open spec fn level_count<V>(n: TrieNode<V>, d: nat) -> nat
    decreases n, d, 257nat,
{
    if d == 0 {
        1
    } else {
        children_level_count(n, (d - 1) as nat, 256)
    }
}

/// The number of nodes `d` levels below the children of `n` whose byte is under `k`.
pub open spec fn children_level_count<V>(n: TrieNode<V>, d: nat, k: nat) -> nat
    decreases n, d, k,
{
    if k == 0 {
        0
    } else {
        children_level_count(n, d, (k - 1) as nat) + if 0 <= k - 1 < n.children@.len() {
            match n.children@[k - 1] {
                Some(c) => level_count(*c, d),
                None => 0,
            }
        } else {
            0
        }
    }
}

/// The larger of two numbers.
pub open spec fn max_nat(a: nat, b: nat) -> nat {
    if a >= b {
        a
    } else {
        b
    }
}

/// The most children that a node `d` levels below `n` has.
pub open spec fn level_max<V>(n: TrieNode<V>, d: nat) -> nat
    decreases n, d, 257nat,
{
    if d == 0 {
        level_count(n, 1)
    } else {
        children_level_max(n, (d - 1) as nat, 256)
    }
}

/// The most children that a node `d` levels below a child of `n` whose byte is under `k` has.
pub open spec fn children_level_max<V>(n: TrieNode<V>, d: nat, k: nat) -> nat
    decreases n, d, k,
{
    if k == 0 {
        0
    } else {
        max_nat(
            children_level_max(n, d, (k - 1) as nat),
            if 0 <= k - 1 < n.children@.len() {
                match n.children@[k - 1] {
                    Some(c) => level_max(*c, d),
                    None => 0,
                }
            } else {
                0
            },
        )
    }
}

/// The sum of the numbers of `s`.
pub open spec fn seq_sum(s: Seq<usize>) -> nat
    decreases s.len(),
{
    if s.len() == 0 {
        0
    } else {
        seq_sum(s.drop_last()) + s.last() as nat
    }
}

/// The number at `k` of `s`, zero past its end.
pub open spec fn at_or_zero(s: Seq<usize>, k: int) -> nat {
    if 0 <= k < s.len() {
        s[k] as nat
    } else {
        0
    }
}

/// Partial sums of the children's level counts only grow.
proof fn lemma_children_level_count_monotone<V>(n: TrieNode<V>, d: nat, i: nat, k: nat)
    requires
        i <= k,
    ensures
        children_level_count(n, d, i) <= children_level_count(n, d, k),
    decreases k,
{
    if i < k {
        lemma_children_level_count_monotone(n, d, i, (k - 1) as nat);
    }
}

/// No node lies deeper below a node than its height.
proof fn lemma_level_beyond_height<V>(n: TrieNode<V>, d: nat)
    requires
        d > height(n),
    ensures
        level_count(n, d) == 0,
        level_max(n, d) == 0,
    decreases n, d, 257nat,
{
    lemma_children_level_beyond_height(n, (d - 1) as nat, 256);
}

/// Below the children of a node whose byte is under `k`, no node lies at or past the height
/// those children reach.
proof fn lemma_children_level_beyond_height<V>(n: TrieNode<V>, d: nat, k: nat)
    requires
        d >= children_height(n, k),
    ensures
        children_level_count(n, d, k) == 0,
        children_level_max(n, d, k) == 0,
    decreases n, d, k,
{
    if k > 0 {
        lemma_children_level_beyond_height(n, d, (k - 1) as nat);
        if 0 <= k - 1 < n.children@.len() {
            match n.children@[k - 1] {
                Some(c) => {
                    lemma_level_beyond_height(*c, d);
                },
                None => {},
            }
        }
    }
}

/// A node without child slots has no children, and nothing below it.
proof fn lemma_no_slots<V>(n: TrieNode<V>, d: nat, k: nat)
    requires
        n.children@.len() == 0,
    ensures
        children_level_count(n, d, k) == 0,
        children_level_max(n, d, k) == 0,
        children_height(n, k) == 0,
    decreases k,
{
    if k > 0 {
        lemma_no_slots(n, d, (k - 1) as nat);
    }
}

/// Adds to `nodes`, depth by depth from `depth` on, the number of nodes of the subtrie at `n`,
/// and raises `maxes` to the most children a node of it has at each depth; the lists grow to
/// reach the subtrie's deepest level
fn count_levels<V>(n: &TrieNode<V>, depth: usize, nodes: &mut Vec<usize>, maxes: &mut Vec<usize>)
    requires
        n.wf(),
        old(nodes)@.len() >= depth,
        old(maxes)@.len() == old(nodes)@.len(),
        forall|j: nat| j <= height(*n) ==> at_or_zero(old(nodes)@, depth + j) + #[trigger] level_count(*n, j) <= usize::MAX,
    ensures
        final(nodes)@.len() == max_nat(old(nodes)@.len(), (depth + height(*n) + 1) as nat),
        final(maxes)@.len() == final(nodes)@.len(),
        forall|k: int| 0 <= k < final(nodes)@.len() ==> #[trigger] final(nodes)@[k] == at_or_zero(old(nodes)@, k) + if k >= depth {
            level_count(*n, (k - depth) as nat)
        } else {
            0
        },
        forall|k: int| 0 <= k < final(maxes)@.len() ==> #[trigger] final(maxes)@[k] == if k >= depth {
            max_nat(at_or_zero(old(maxes)@, k), level_max(*n, (k - depth) as nat))
        } else {
            at_or_zero(old(maxes)@, k)
        },
    decreases n,
{
    let ghost n0 = nodes@;
    let ghost m0 = maxes@;
    if nodes.len() == depth {
        nodes.push(0);
        maxes.push(0);
    }
    let mut c: usize = 0;
    if n.children.len() == 256 {
        let mut i: usize = 0;
        while i < 256
            invariant
                i <= 256,
                n.children@.len() == 256,
                c == children_level_count(*n, 0, i as nat),
                c <= i,
            decreases 256 - i,
        {
            proof {
                assert(children_level_count(*n, 0, (i + 1) as nat) == children_level_count(*n, 0, i as nat) + match n.children@[i as int] {
                    Some(ch) => level_count(*ch, 0),
                    None => 0,
                });
            }
            if n.children[i].is_some() {
                proof {
                    let ch = n.children@[i as int].unwrap();
                    assert(level_count(*ch, 0) == 1);
                }
                c = c + 1;
            }
            i = i + 1;
        }
    } else {
        proof {
            lemma_no_slots(*n, 0, 256);
        }
    }
    proof {
        assert(level_count(*n, 1) == c);
        assert(at_or_zero(n0, depth as int) + level_count(*n, 0) <= usize::MAX);
    }
    let cur = nodes[depth];
    nodes.set(depth, cur + 1);
    let m = maxes[depth];
    maxes.set(depth, if m < c {
        c
    } else {
        m
    });
    let len = nodes.len();
    let d1 = depth + 1;
    let ghost n1 = nodes@;
    let ghost m1 = maxes@;
    proof {
        assert(level_max(*n, 0) == c);
        assert(m1[depth as int] == max_nat(at_or_zero(m0, depth as int), c as nat));
        assert forall|k: int| k != depth implies at_or_zero(n1, k) == at_or_zero(n0, k) && at_or_zero(m1, k) == at_or_zero(m0, k) by {}
    }
    if n.children.len() == 256 {
        let mut i: usize = 0;
        while i < 256
            invariant
                i <= 256,
                n.wf(),
                n.children@.len() == 256,
                nodes@.len() == maxes@.len(),
                nodes@.len() == max_nat(n1.len(), (depth + children_height(*n, i as nat) + 1) as nat),
                n1.len() >= depth + 1,
                n1.len() == m1.len(),
                d1 == depth + 1,
                forall|k: int| k != depth ==> at_or_zero(n1, k) == at_or_zero(n0, k),
                forall|k: int| k != depth ==> at_or_zero(m1, k) == at_or_zero(m0, k),
                m1[depth as int] == max_nat(at_or_zero(m0, depth as int), c as nat),
                c == level_count(*n, 1),
                forall|j: nat| j <= height(*n) ==> at_or_zero(n0, depth + j) + #[trigger] level_count(*n, j) <= usize::MAX,
                forall|k: int| 0 <= k < nodes@.len() ==> #[trigger] nodes@[k] == at_or_zero(n1, k) + if k > depth {
                    children_level_count(*n, (k - depth - 1) as nat, i as nat)
                } else {
                    0
                },
                forall|k: int| 0 <= k < maxes@.len() ==> #[trigger] maxes@[k] == if k > depth {
                    max_nat(at_or_zero(m1, k), children_level_max(*n, (k - depth - 1) as nat, i as nat))
                } else {
                    at_or_zero(m1, k)
                },
            decreases 256 - i,
        {
            let ghost nc = nodes@;
            let ghost mc = maxes@;
            match &n.children[i] {
                Some(ch) => {
                    proof {
                        assert(n.children@[i as int] matches Some(cc) && cc.wf());
                        assert(n.child(i as int) == Some(**ch));
                        lemma_children_height(*n, i as int, 256);
                        assert forall|j: nat| j <= height(**ch) implies at_or_zero(nc, depth + 1 + j) + #[trigger] level_count(**ch, j) <= usize::MAX by {
                            lemma_children_level_count_monotone(*n, j, (i + 1) as nat, 256);
                            assert(level_count(*n, j + 1) == children_level_count(*n, j, 256));
                            assert(at_or_zero(n0, depth + (j + 1)) + level_count(*n, j + 1) <= usize::MAX);
                            if depth + 1 + j < nc.len() {
                                assert(nc[depth + 1 + j] == at_or_zero(n1, depth + 1 + j) + children_level_count(*n, j, i as nat));
                            }
                        }
                    }
                    count_levels(ch, d1, nodes, maxes);
                    proof {
                        assert forall|k: int| 0 <= k < nodes@.len() implies #[trigger] nodes@[k] == at_or_zero(n1, k) + if k > depth {
                            children_level_count(*n, (k - depth - 1) as nat, (i + 1) as nat)
                        } else {
                            0
                        } by {
                            if k >= nc.len() {
                                lemma_children_level_beyond_height(*n, (k - depth - 1) as nat, i as nat);
                            }
                        }
                        assert forall|k: int| 0 <= k < maxes@.len() implies #[trigger] maxes@[k] == if k > depth {
                            max_nat(at_or_zero(m1, k), children_level_max(*n, (k - depth - 1) as nat, (i + 1) as nat))
                        } else {
                            at_or_zero(m1, k)
                        } by {
                            if k >= mc.len() {
                                lemma_children_level_beyond_height(*n, (k - depth - 1) as nat, i as nat);
                            }
                        }
                    }
                },
                None => {
                    proof {
                        assert(n.child(i as int) is None);
                    }
                },
            }
            i = i + 1;
        }
    } else {
        proof {
            assert forall|j: nat| #[trigger] children_level_count(*n, j, 256) == 0 by {
                lemma_no_slots(*n, j, 256);
            }
            assert forall|j: nat| #[trigger] children_level_max(*n, j, 256) == 0 by {
                lemma_no_slots(*n, j, 256);
            }
            lemma_no_slots(*n, 0, 256);
            assert(nodes@ == n1 && maxes@ == m1);
        }
    }
    proof {
        assert(height(*n) == children_height(*n, 256));
        assert forall|k: int| 0 <= k < nodes@.len() implies #[trigger] nodes@[k] == at_or_zero(n0, k) + if k >= depth {
            level_count(*n, (k - depth) as nat)
        } else {
            0
        } by {
            if k > depth {
                assert(level_count(*n, (k - depth) as nat) == children_level_count(*n, (k - depth - 1) as nat, 256));
                if n.children@.len() != 256 {
                    assert(children_level_count(*n, (k - depth - 1) as nat, 256) == 0);
                }
            }
        }
        assert forall|k: int| 0 <= k < maxes@.len() implies #[trigger] maxes@[k] == if k >= depth {
            max_nat(at_or_zero(m0, k), level_max(*n, (k - depth) as nat))
        } else {
            at_or_zero(m0, k)
        } by {
            if k > depth {
                assert(level_max(*n, (k - depth) as nat) == children_level_max(*n, (k - depth - 1) as nat, 256));
                if n.children@.len() != 256 {
                    assert(children_level_max(*n, (k - depth - 1) as nat, 256) == 0);
                    assert(maxes@[k] == at_or_zero(m1, k));
                }
            } else if k == depth {
                assert(maxes@[k] == at_or_zero(m1, k));
                assert(at_or_zero(m1, k) == m1[k]);
                assert(level_max(*n, 0) == level_count(*n, 1));
            } else {
                assert(maxes@[k] == at_or_zero(m1, k));
            }
        }
    }
}


/// A prefix of a list sums to no more than the list.
proof fn lemma_seq_sum_take(s: Seq<usize>, i: int)
    requires
        0 <= i <= s.len(),
    ensures
        seq_sum(s.take(i)) <= seq_sum(s),
    decreases s.len(),
{
    if i < s.len() {
        assert(s.drop_last().take(i) =~= s.take(i));
        lemma_seq_sum_take(s.drop_last(), i);
    } else {
        assert(s.take(i) =~= s);
    }
}

/// A list sums to its first number plus the sum of the rest.
proof fn lemma_seq_sum_first(s: Seq<usize>)
    requires
        s.len() > 0,
    ensures
        seq_sum(s) == s[0] + seq_sum(s.drop_first()),
    decreases s.len(),
{
    if s.len() > 1 {
        lemma_seq_sum_first(s.drop_last());
        assert(s.drop_last().drop_first() =~= s.drop_first().drop_last());
        assert(s.drop_first().last() == s.last());
    } else {
        assert(s.drop_first() =~= Seq::<usize>::empty());
        assert(s.drop_last() =~= Seq::<usize>::empty());
    }
}

/// The sum of the numbers of `s`, which must fit in a `usize`
fn sum_of(s: &Vec<usize>) -> (r: usize)
    requires
        seq_sum(s@) <= usize::MAX,
    ensures
        r == seq_sum(s@),
{
    let mut total: usize = 0;
    let mut i: usize = 0;
    while i < s.len()
        invariant
            i <= s@.len(),
            seq_sum(s@) <= usize::MAX,
            total == seq_sum(s@.take(i as int)),
        decreases s@.len() - i,
    {
        proof {
            lemma_seq_sum_take(s@, i + 1);
            assert(s@.take(i + 1).drop_last() =~= s@.take(i as int));
        }
        total = total + s[i];
        i = i + 1;
    }
    proof {
        assert(s@.take(s@.len() as int) =~= s@);
    }
    total
}

/// The most children a node at a level has is at most the number of nodes one level further.
proof fn lemma_level_max_le_count<V>(n: TrieNode<V>, d: nat)
    ensures
        level_max(n, d) <= level_count(n, d + 1),
    decreases n, d, 257nat,
{
    if d > 0 {
        lemma_children_level_max_le_count(n, (d - 1) as nat, 256);
    }
}

/// The most children a node at a level below the first `k` children has is at most the number of
/// nodes one level further below them.
proof fn lemma_children_level_max_le_count<V>(n: TrieNode<V>, d: nat, k: nat)
    ensures
        children_level_max(n, d, k) <= children_level_count(n, d + 1, k),
    decreases n, d, k,
{
    if k > 0 {
        lemma_children_level_max_le_count(n, d, (k - 1) as nat);
        if 0 <= k - 1 < n.children@.len() {
            match n.children@[k - 1] {
                Some(c) => {
                    lemma_level_max_le_count(*c, d);
                },
                None => {},
            }
        }
    }
}

/// Statistics of the nodes of a map's trie, depth by depth: how many nodes lie at each depth,
/// how many links to children they have together, and the most links one of them has.
pub struct Counters {
    pub total_nodes_by_depth: Vec<usize>,
    pub total_child_items_by_depth: Vec<usize>,
    pub max_child_items_by_depth: Vec<usize>,
}

impl Counters {
    /// Statistics of nothing
    pub fn new() -> (r: Counters)
        ensures
            r.total_nodes_by_depth@ == Seq::<usize>::empty(),
            r.total_child_items_by_depth@ == Seq::<usize>::empty(),
            r.max_child_items_by_depth@ == Seq::<usize>::empty(),
    {
        Counters { total_nodes_by_depth: Vec::new(), total_child_items_by_depth: Vec::new(), max_child_items_by_depth: Vec::new() }
    }

    /// The number of nodes counted at all depths
    pub fn total_nodes(&self) -> (r: usize)
        requires
            seq_sum(self.total_nodes_by_depth@) <= usize::MAX,
        ensures
            r == seq_sum(self.total_nodes_by_depth@),
    {
        sum_of(&self.total_nodes_by_depth)
    }

    /// The number of links to children counted at all depths
    pub fn total_child_items(&self) -> (r: usize)
        requires
            seq_sum(self.total_child_items_by_depth@) <= usize::MAX,
        ensures
            r == seq_sum(self.total_child_items_by_depth@),
    {
        sum_of(&self.total_child_items_by_depth)
    }

    /// Counts the nodes of the trie of `map`, depth by depth, the root being at depth zero; every
    /// node but the root is a child of one, so there is one link less than there are nodes
    pub fn count_ocupancy<V>(map: &PathMap<V>) -> (r: Counters)
        requires
            map.wf(),
            forall|d: nat| d <= height(map.root) ==> #[trigger] level_count(map.root, d) <= usize::MAX,
        ensures
            r.total_nodes_by_depth@.len() == height(map.root) + 1,
            r.total_child_items_by_depth@.len() == height(map.root) + 1,
            r.max_child_items_by_depth@.len() == height(map.root) + 1,
            forall|d: int| 0 <= d <= height(map.root) ==> #[trigger] r.total_nodes_by_depth@[d] == level_count(map.root, d as nat),
            forall|d: int| 0 <= d <= height(map.root) ==> #[trigger] r.total_child_items_by_depth@[d] == level_count(map.root, (d + 1) as nat),
            forall|d: int| 0 <= d <= height(map.root) ==> #[trigger] r.max_child_items_by_depth@[d] == level_max(map.root, d as nat),
            seq_sum(r.total_child_items_by_depth@) + 1 == seq_sum(r.total_nodes_by_depth@),
            forall|d: int| 0 <= d <= height(map.root) ==> #[trigger] r.max_child_items_by_depth@[d] <= r.total_child_items_by_depth@[d],
    {
        let mut nodes: Vec<usize> = Vec::new();
        let mut maxes: Vec<usize> = Vec::new();
        proof {
            assert forall|j: nat| j <= height(map.root) implies at_or_zero(nodes@, j as int) + #[trigger] level_count(map.root, j) <= usize::MAX by {}
        }
        count_levels(&map.root, 0, &mut nodes, &mut maxes);
        let mut items: Vec<usize> = Vec::new();
        let mut i: usize = 1;
        while i < nodes.len()
            invariant
                1 <= i <= nodes@.len(),
                nodes@.len() == height(map.root) + 1,
                items@ == nodes@.subrange(1, i as int),
            decreases nodes@.len() - i,
        {
            items.push(nodes[i]);
            proof {
                assert(nodes@.subrange(1, i + 1) =~= nodes@.subrange(1, i as int).push(nodes@[i as int]));
            }
            i = i + 1;
        }
        items.push(0);
        proof {
            let h = height(map.root);
            lemma_level_beyond_height(map.root, h + 1);
            assert(items@ =~= nodes@.drop_first().push(0));
            assert(nodes@[0] == level_count(map.root, 0));
            lemma_seq_sum_first(nodes@);
            assert(items@.drop_last() =~= nodes@.drop_first());
            assert forall|d: int| 0 <= d <= h implies #[trigger] items@[d] == level_count(map.root, (d + 1) as nat) by {
                if d < h {
                    assert(items@[d] == nodes@[d + 1]);
                }
            }
            assert forall|d: int| 0 <= d <= h implies #[trigger] nodes@[d] == level_count(map.root, d as nat) by {}
            assert forall|d: int| 0 <= d <= h implies #[trigger] maxes@[d] == level_max(map.root, d as nat) by {}
            assert forall|d: int| 0 <= d <= h implies #[trigger] maxes@[d] <= items@[d] by {
                lemma_level_max_le_count(map.root, d as nat);
            }
        }
        Counters { total_nodes_by_depth: nodes, total_child_items_by_depth: items, max_child_items_by_depth: maxes }
    }
}

} // verus!
