//! The trie itself: nodes holding an optional value and up to 256 children, one per byte.
use vstd::prelude::*;
use crate::utils::{BitMask, ByteMask};

verus! {

/// A node of the trie: the value at its path, and a child for each byte that continues the path.
///
/// A node either has no child slots at all, or exactly one slot for each of the 256 bytes.
pub struct TrieNode<V> {
    pub val: Option<V>,
    pub children: Vec<Option<Box<TrieNode<V>>>>,
}

impl<V> TrieNode<V> {
    /// The node's shape: no child slots or one for each byte, at every depth.
    pub open spec fn wf(self) -> bool
        decreases self,
    {
        &&& (self.children@.len() == 0 || self.children@.len() == 256)
        &&& forall|i: int|
            0 <= i < self.children@.len() ==> (#[trigger] self.children@[i] matches Some(c) ==> c.wf())
    }

    /// The child below byte `b`.
    pub open spec fn child(self, b: int) -> Option<TrieNode<V>> {
        if 0 <= b < self.children@.len() {
            match self.children@[b] {
                Some(c) => Some(*c),
                None => None,
            }
        } else {
            None
        }
    }

    /// The node at path `p` below this one.
    pub open spec fn node_at(self, p: Seq<u8>) -> Option<TrieNode<V>>
        decreases p.len(),
    {
        if p.len() == 0 {
            Some(self)
        } else {
            match self.child(p[0] as int) {
                Some(c) => c.node_at(p.drop_first()),
                None => None,
            }
        }
    }

    /// The value at path `p` below this node.
    pub open spec fn get(self, p: Seq<u8>) -> Option<V> {
        match self.node_at(p) {
            Some(n) => n.val,
            None => None,
        }
    }

    /// Whether path `p` exists below this node.
    pub open spec fn has_path(self, p: Seq<u8>) -> bool {
        self.node_at(p) is Some
    }

    /// Whether the node holds neither a value nor a child.
    pub open spec fn is_bare(self) -> bool {
        &&& self.val is None
        &&& forall|b: int| #[trigger] self.child(b) is None
    }

    /// Whether two nodes hold the same paths and the same values.
    pub open spec fn same_space(self, other: TrieNode<V>) -> bool {
        forall|p: Seq<u8>|
            #![trigger self.node_at(p)]
            #![trigger other.node_at(p)]
            self.has_path(p) == other.has_path(p) && self.get(p) == other.get(p)
    }
}

/// Whether `a` and `b` agree on their first `i` bytes and `a` has the smaller byte at `i`.
pub open spec fn diverges(a: Seq<u8>, b: Seq<u8>, i: int) -> bool {
    0 <= i < a.len() && i < b.len() && a.take(i) == b.take(i) && a[i] < b[i]
}

/// Whether `a` comes before `b` in depth-first order: it is a proper prefix of `b`, or at the
/// first byte where they differ its byte is the smaller.
pub open spec fn path_before(a: Seq<u8>, b: Seq<u8>) -> bool {
    (a.len() < b.len() && a.is_prefix_of(b)) || exists|i: int| #[trigger] diverges(a, b, i)
}

/// No path comes before itself, and of two paths at most one comes before the other.
pub proof fn lemma_path_before_asym(a: Seq<u8>, b: Seq<u8>)
    ensures
        !(path_before(a, b) && path_before(b, a)),
{
    if path_before(a, b) && path_before(b, a) {
        if a.len() < b.len() && a.is_prefix_of(b) {
            if !(b.len() < a.len() && b.is_prefix_of(a)) {
                let j = choose|j: int| #[trigger] diverges(b, a, j);
                assert(a[j] == b[j]);
            }
        } else {
            let i = choose|i: int| #[trigger] diverges(a, b, i);
            if b.len() < a.len() && b.is_prefix_of(a) {
                assert(a[i] == b[i]);
            } else {
                let j = choose|j: int| #[trigger] diverges(b, a, j);
                if i < j {
                    assert(b.take(j)[i] == a.take(j)[i]);
                } else if j < i {
                    assert(a.take(i)[j] == b.take(i)[j]);
                }
            }
        }
    }
}

/// Depth-first order is transitive.
pub proof fn lemma_path_before_trans(a: Seq<u8>, b: Seq<u8>, c: Seq<u8>)
    requires
        path_before(a, b),
        path_before(b, c),
    ensures
        path_before(a, c),
{
    if a.len() < b.len() && a.is_prefix_of(b) {
        if b.len() < c.len() && b.is_prefix_of(c) {
            assert(a.is_prefix_of(c)) by {
                assert forall|k: int| 0 <= k < a.len() implies a[k] == c[k] by {
                    assert(a[k] == b[k]);
                    assert(b[k] == c[k]);
                }
            }
        } else {
            let j = choose|j: int| #[trigger] diverges(b, c, j);
            if j < a.len() {
                assert(a.take(j) =~= c.take(j)) by {
                    assert forall|k: int| 0 <= k < j implies a.take(j)[k] == c.take(j)[k] by {
                        assert(a[k] == b[k]);
                        assert(b.take(j)[k] == c.take(j)[k]);
                    }
                }
                assert(a[j] == b[j]);
                assert(diverges(a, c, j));
            } else {
                assert(a.is_prefix_of(c)) by {
                    assert forall|k: int| 0 <= k < a.len() implies a[k] == c[k] by {
                        assert(a[k] == b[k]);
                        assert(b.take(j)[k] == c.take(j)[k]);
                    }
                }
            }
        }
    } else {
        let i = choose|i: int| #[trigger] diverges(a, b, i);
        if b.len() < c.len() && b.is_prefix_of(c) {
            assert(c.take(i) =~= b.take(i)) by {
                assert forall|k: int| 0 <= k < i implies c.take(i)[k] == b.take(i)[k] by {
                    assert(b[k] == c[k]);
                }
            }
            assert(b[i] == c[i]);
            assert(diverges(a, c, i));
        } else {
            let j = choose|j: int| #[trigger] diverges(b, c, j);
            if i <= j {
                assert(a.take(i) =~= c.take(i)) by {
                    assert forall|k: int| 0 <= k < i implies a.take(i)[k] == c.take(i)[k] by {
                        assert(a.take(i)[k] == b.take(i)[k]);
                        assert(b.take(j)[k] == c.take(j)[k]);
                    }
                }
                if i < j {
                    assert(b.take(j)[i] == c.take(j)[i]);
                }
                assert(diverges(a, c, i));
            } else {
                assert(a.take(j) =~= c.take(j)) by {
                    assert forall|k: int| 0 <= k < j implies a.take(j)[k] == c.take(j)[k] by {
                        assert(a.take(i)[k] == b.take(i)[k]);
                        assert(b.take(j)[k] == c.take(j)[k]);
                    }
                }
                assert(a.take(i)[j] == b.take(i)[j]);
                assert(diverges(a, c, j));
            }
        }
    }
}

/// Two paths that agree on their first `k` bytes and where neither is a prefix of the other
/// differ first at some byte at or after `k`.
proof fn lemma_first_difference(a: Seq<u8>, b: Seq<u8>, k: int)
    requires
        0 <= k <= a.len(),
        k <= b.len(),
        a.take(k) == b.take(k),
        !a.is_prefix_of(b),
        !b.is_prefix_of(a),
    ensures
        exists|i: int| k <= i < a.len() && i < b.len() && a.take(i) == b.take(i) && a[i] != b[i],
    decreases a.len() - k,
{
    if k == a.len() {
        assert(a =~= b.take(k));
        assert(a.is_prefix_of(b));
    } else if k == b.len() {
        assert(b =~= a.take(k));
        assert(b.is_prefix_of(a));
    } else if a[k] != b[k] {
        assert(a.take(k) == b.take(k));
    } else {
        assert(a.take(k + 1) =~= a.take(k).push(a[k]));
        assert(b.take(k + 1) =~= b.take(k).push(b[k]));
        lemma_first_difference(a, b, k + 1);
    }
}

/// Of two different paths, one comes before the other in depth-first order.
pub proof fn lemma_path_before_total(a: Seq<u8>, b: Seq<u8>)
    requires
        a != b,
    ensures
        path_before(a, b) || path_before(b, a),
{
    if a.is_prefix_of(b) {
        if a.len() == b.len() {
            assert(a =~= b);
        }
    } else if b.is_prefix_of(a) {
        if a.len() == b.len() {
            assert(a =~= b);
        }
    } else {
        assert(a.take(0) =~= b.take(0));
        lemma_first_difference(a, b, 0);
        let i = choose|i: int| 0 <= i < a.len() && i < b.len() && a.take(i) == b.take(i) && a[i] != b[i];
        if a[i] < b[i] {
            assert(diverges(a, b, i));
        } else {
            assert(diverges(b, a, i));
        }
    }
}

/// A path comes before every path below it.
pub proof fn lemma_path_before_below(c: Seq<u8>, q: Seq<u8>)
    requires
        c.len() < q.len(),
        c.is_prefix_of(q),
    ensures
        path_before(c, q),
{
}

/// Everything below a child comes before everything below a later child of the same path.
pub proof fn lemma_path_before_siblings(c: Seq<u8>, b1: u8, b2: u8, q: Seq<u8>, r: Seq<u8>)
    requires
        b1 < b2,
        c.push(b1).is_prefix_of(q),
        c.push(b2).is_prefix_of(r),
    ensures
        path_before(q, r),
{
    let k = c.len() as int;
    assert(q[k] == c.push(b1)[k]);
    assert(r[k] == c.push(b2)[k]);
    assert(q.take(k) =~= r.take(k)) by {
        assert forall|j: int| 0 <= j < k implies q.take(k)[j] == r.take(k)[j] by {
            assert(q[j] == c.push(b1)[j]);
            assert(r[j] == c.push(b2)[j]);
        }
    }
    assert(diverges(q, r, k));
}

/// A path between two paths below `c`, in depth-first order, is below `c` too.
pub proof fn lemma_path_before_convex(c: Seq<u8>, a: Seq<u8>, q: Seq<u8>, b: Seq<u8>)
    requires
        c.is_prefix_of(a),
        c.is_prefix_of(b),
        path_before(a, q),
        path_before(q, b),
    ensures
        c.is_prefix_of(q),
{
    if !c.is_prefix_of(q) {
        if q.is_prefix_of(c) {
            assert(q.len() < c.len()) by {
                if q.len() >= c.len() {
                    assert(q =~= c);
                }
            }
            assert(q.is_prefix_of(a)) by {
                assert forall|k: int| 0 <= k < q.len() implies q[k] == a[k] by {
                    assert(q[k] == c[k]);
                    assert(c[k] == a[k]);
                }
            }
            lemma_path_before_below(q, a);
            lemma_path_before_asym(q, a);
        } else {
            assert(c.take(0) =~= q.take(0));
            lemma_first_difference(c, q, 0);
            let i = choose|i: int| 0 <= i < c.len() && i < q.len() && c.take(i) == q.take(i) && c[i] != q[i];
            assert(c[i] == a[i] && c[i] == b[i]);
            if q[i] < c[i] {
                assert(q.take(i) =~= a.take(i)) by {
                    assert forall|k: int| 0 <= k < i implies q.take(i)[k] == a.take(i)[k] by {
                        assert(c.take(i)[k] == q.take(i)[k]);
                        assert(c[k] == a[k]);
                    }
                }
                assert(diverges(q, a, i));
                lemma_path_before_asym(q, a);
            } else {
                assert(b.take(i) =~= q.take(i)) by {
                    assert forall|k: int| 0 <= k < i implies b.take(i)[k] == q.take(i)[k] by {
                        assert(c.take(i)[k] == q.take(i)[k]);
                        assert(c[k] == b[k]);
                    }
                }
                assert(diverges(b, q, i));
                lemma_path_before_asym(q, b);
            }
        }
    }
}

/// The length of the longest path below a node.
pub open spec fn height<V>(n: TrieNode<V>) -> nat
    decreases n, 257nat,
{
    children_height(n, 256)
}

/// The length of the longest path below a node that starts with a byte below `k`.
pub open spec fn children_height<V>(n: TrieNode<V>, k: nat) -> nat
    decreases n, k,
{
    if k == 0 {
        0
    } else {
        let rest = children_height(n, (k - 1) as nat);
        let here = if 0 <= k - 1 < n.children@.len() {
            match n.children@[k - 1] {
                Some(c) => 1 + height(*c),
                None => 0,
            }
        } else {
            0
        };
        if here > rest {
            here
        } else {
            rest
        }
    }
}

/// No path below a node is longer than its height.
pub proof fn lemma_height<V>(n: TrieNode<V>, p: Seq<u8>)
    requires
        n.has_path(p),
    ensures
        p.len() <= height(n),
    decreases p.len(),
{
    if p.len() > 0 {
        let b = p[0] as int;
        let c = n.child(b).unwrap();
        lemma_height(c, p.drop_first());
        lemma_children_height(n, b, 256);
    }
}

/// A child's height is below its parent's.
pub proof fn lemma_children_height<V>(n: TrieNode<V>, b: int, k: nat)
    requires
        0 <= b < k,
        n.child(b) is Some,
    ensures
        1 + height(n.child(b).unwrap()) <= children_height(n, k),
    decreases k,
{
    if b < k - 1 {
        lemma_children_height(n, b, (k - 1) as nat);
    }
}

/// The number of values at a node and below it.
pub open spec fn node_val_count<V>(n: TrieNode<V>) -> nat
    decreases n, 257nat,
{
    (if n.val is Some {
        1nat
    } else {
        0nat
    }) + children_val_count(n, 256)
}

/// The number of values below the children of a node whose byte is under `k`.
pub open spec fn children_val_count<V>(n: TrieNode<V>, k: nat) -> nat
    decreases n, k,
{
    if k == 0 {
        0
    } else {
        children_val_count(n, (k - 1) as nat) + if 0 <= k - 1 < n.children@.len() {
            match n.children@[k - 1] {
                Some(c) => node_val_count(*c),
                None => 0,
            }
        } else {
            0
        }
    }
}

/// Partial sums of the children's counts only grow.
pub proof fn lemma_children_val_count_monotone<V>(n: TrieNode<V>, i: nat, k: nat)
    requires
        i <= k,
    ensures
        children_val_count(n, i) <= children_val_count(n, k),
    decreases k,
{
    if i < k {
        lemma_children_val_count_monotone(n, i, (k - 1) as nat);
    }
}

/// The value at `p` below an optional node.
pub open spec fn opt_get<V>(n: Option<TrieNode<V>>, p: Seq<u8>) -> Option<V> {
    match n {
        Some(n) => n.get(p),
        None => None,
    }
}

/// Whether `p` exists below an optional node.
pub open spec fn opt_exists<V>(n: Option<TrieNode<V>>, p: Seq<u8>) -> bool {
    match n {
        Some(n) => n.has_path(p),
        None => false,
    }
}

/// The node at `p` below an optional node.
pub open spec fn opt_node_at<V>(n: Option<TrieNode<V>>, p: Seq<u8>) -> Option<TrieNode<V>> {
    match n {
        Some(n) => n.node_at(p),
        None => None,
    }
}

/// Descending from a node by a byte and then a path is descending by the longer path.
pub proof fn lemma_node_at_cons<V>(n: TrieNode<V>, b: u8, p: Seq<u8>)
    ensures
        n.node_at(seq![b] + p) == match n.child(b as int) {
            Some(c) => c.node_at(p),
            None => None,
        },
{
    assert((seq![b] + p).drop_first() =~= p);
}

/// Descending by `p` and then by `q` is descending by `p + q`.
pub proof fn lemma_node_at_append<V>(n: TrieNode<V>, p: Seq<u8>, q: Seq<u8>)
    ensures
        n.node_at(p + q) == match n.node_at(p) {
            Some(m) => m.node_at(q),
            None => None,
        },
    decreases p.len(),
{
    if p.len() == 0 {
        assert(p + q =~= q);
    } else {
        assert((p + q).drop_first() =~= p.drop_first() + q);
        assert((p + q)[0] == p[0]);
        match n.child(p[0] as int) {
            Some(c) => {
                lemma_node_at_append(c, p.drop_first(), q);
            },
            None => {},
        }
    }
}

/// Descending by `p` and then one byte further.
pub proof fn lemma_node_at_push<V>(n: TrieNode<V>, p: Seq<u8>, b: u8)
    ensures
        n.node_at(p.push(b)) == match n.node_at(p) {
            Some(m) => m.child(b as int),
            None => None,
        },
{
    lemma_node_at_append(n, p, seq![b]);
    assert(p + seq![b] =~= p.push(b));
    match n.node_at(p) {
        Some(m) => {
            lemma_node_at_cons(m, b, Seq::<u8>::empty());
            assert(seq![b] + Seq::<u8>::empty() =~= seq![b]);
            match m.child(b as int) {
                Some(c) => {
                    assert(c.node_at(Seq::<u8>::empty()) == Some(c));
                },
                None => {},
            }
        },
        None => {},
    }
}

/// A well-formed node's descendants are well formed.
pub proof fn lemma_node_at_wf<V>(n: TrieNode<V>, p: Seq<u8>)
    requires
        n.wf(),
    ensures
        n.node_at(p) matches Some(m) ==> m.wf(),
    decreases p.len(),
{
    if p.len() > 0 {
        match n.child(p[0] as int) {
            Some(c) => {
                assert(n.children@[p[0] as int] matches Some(cc) && cc.wf());
                lemma_node_at_wf(c, p.drop_first());
            },
            None => {},
        }
    }
}

/// Paths that exist below a node are closed under taking prefixes.
pub proof fn lemma_exists_prefix<V>(n: TrieNode<V>, p: Seq<u8>, k: int)
    requires
        0 <= k <= p.len(),
        n.has_path(p),
    ensures
        n.has_path(p.subrange(0, k)),
{
    lemma_node_at_append(n, p.subrange(0, k), p.subrange(k, p.len() as int));
    assert(p.subrange(0, k) + p.subrange(k, p.len() as int) =~= p);
}

impl<V: Copy> TrieNode<V> {
    /// A node with no value and no children
    pub fn new() -> (r: TrieNode<V>)
        ensures
            r.wf(),
            r.is_bare(),
            r.children@.len() == 0,
    {
        TrieNode { val: None, children: Vec::new() }
    }

    /// The node's value
    pub fn node_val(&self) -> (r: Option<&V>)
        ensures
            r == match self.val {
                Some(v) => Some(&v),
                None => None,
            },
    {
        match &self.val {
            Some(v) => Some(v),
            None => None,
        }
    }

    /// The child below byte `b`
    pub fn get_child(&self, b: u8) -> (r: Option<&TrieNode<V>>)
        requires
            self.wf(),
        ensures
            r == match self.child(b as int) {
                Some(c) => Some(&c),
                None => None,
            },
            r matches Some(c) ==> c.wf(),
    {
        if self.children.len() == 0 {
            None
        } else {
            match &self.children[b as usize] {
                Some(c) => Some(&**c),
                None => None,
            }
        }
    }

    /// The node at `path` below this one
    pub fn node_at_path(&self, path: &[u8]) -> (r: Option<&TrieNode<V>>)
        requires
            self.wf(),
        ensures
            r == match self.node_at(path@) {
                Some(m) => Some(&m),
                None => None,
            },
            r matches Some(m) ==> m.wf(),
    {
        let mut cur: &TrieNode<V> = self;
        let mut i: usize = 0;
        while i < path.len()
            invariant
                i <= path@.len(),
                cur.wf(),
                self.node_at(path@.subrange(0, i as int)) == Some(*cur),
            decreases path@.len() - i,
        {
            proof {
                lemma_node_at_push(*self, path@.subrange(0, i as int), path@[i as int]);
                assert(path@.subrange(0, i as int).push(path@[i as int]) =~= path@.subrange(0, i + 1));
            }
            match cur.get_child(path[i]) {
                Some(c) => {
                    cur = c;
                },
                None => {
                    proof {
                        lemma_node_at_append(*self, path@.subrange(0, i + 1), path@.subrange(i + 1, path@.len() as int));
                        assert(path@.subrange(0, i + 1) + path@.subrange(i + 1, path@.len() as int) =~= path@);
                    }
                    return None;
                },
            }
            i = i + 1;
        }
        proof {
            assert(path@.subrange(0, i as int) =~= path@);
        }
        Some(cur)
    }

    /// The bytes that have a child below this node
    pub fn child_mask(&self) -> (m: ByteMask)
        requires
            self.wf(),
        ensures
            forall|b: int| #[trigger] m.has(b) <==> self.child(b) is Some,
    {
        let mut m = ByteMask::new();
        if self.children.len() == 0 {
            return m;
        }
        let mut i: usize = 0;
        while i < 256
            invariant
                i <= 256,
                self.children@.len() == 256,
                forall|b: int| #[trigger] m.has(b) <==> 0 <= b < i && self.child(b) is Some,
            decreases 256 - i,
        {
            if self.children[i].is_some() {
                let ghost before = m;
                m.set_bit(i as u8);
                proof {
                    assert forall|b: int| #[trigger] m.has(b) <==> 0 <= b < i + 1 && self.child(b) is Some by {
                        assert(m.bit_at(b) == (before.bit_at(b) || (b == i as u8 && b < 256)));
                    }
                }
            }
            i = i + 1;
        }
        m
    }

    /// Whether the node has neither a value nor a child
    pub fn node_is_bare(&self) -> (r: bool)
        requires
            self.wf(),
        ensures
            r == self.is_bare(),
    {
        if self.val.is_some() {
            return false;
        }
        let mut i: usize = 0;
        while i < self.children.len()
            invariant
                i <= self.children@.len(),
                self.val is None,
                forall|b: int| 0 <= b < i ==> #[trigger] self.child(b) is None,
            decreases self.children@.len() - i,
        {
            if self.children[i].is_some() {
                assert(self.child(i as int) is Some);
                return false;
            }
            i = i + 1;
        }
        true
    }
}


/// A node's paths and values are given by its value and its children.
pub proof fn lemma_same_children<V>(a: TrieNode<V>, b: TrieNode<V>, q: Seq<u8>)
    requires
        q.len() > 0,
        a.child(q[0] as int) == b.child(q[0] as int),
    ensures
        a.node_at(q) == b.node_at(q),
{
}

/// A slot vector with no children.
pub fn empty_slots<V>() -> (r: Vec<Option<Box<TrieNode<V>>>>)
    ensures
        r@.len() == 256,
        forall|i: int| 0 <= i < 256 ==> #[trigger] r@[i] is None,
{
    let mut r: Vec<Option<Box<TrieNode<V>>>> = Vec::new();
    let mut i: usize = 0;
    while i < 256
        invariant
            i <= 256,
            r@.len() == i,
            forall|x: int| 0 <= x < i ==> #[trigger] r@[x] is None,
        decreases 256 - i,
    {
        r.push(None);
        i = i + 1;
    }
    r
}

impl<V: Copy> TrieNode<V> {
    /// Makes sure the node has a slot for every byte
    fn ensure_slots(&mut self)
        requires
            old(self).wf(),
        ensures
            final(self).wf(),
            final(self).children@.len() == 256,
            final(self).val == old(self).val,
            forall|b: int| #[trigger] final(self).child(b) == old(self).child(b),
    {
        if self.children.len() == 0 {
            self.children = empty_slots();
        }
    }

    /// Takes the child below `b` out of the node, leaving the slot empty
    fn take_child(&mut self, b: u8) -> (r: TrieNode<V>)
        requires
            old(self).wf(),
            old(self).children@.len() == 256,
        ensures
            final(self).wf(),
            final(self).children@.len() == 256,
            final(self).val == old(self).val,
            r.wf(),
            old(self).child(b as int) matches Some(c) ==> r == c,
            old(self).child(b as int) is None ==> r.is_bare() && r.children@.len() == 0,
            final(self).child(b as int) is None,
            forall|x: int| x != b ==> #[trigger] final(self).child(x) == old(self).child(x),
    {
        match self.children[b as usize].take() {
            Some(c) => {
                proof {
                    assert(old(self).children@[b as int] matches Some(cc) && cc.wf());
                }
                *c
            },
            None => TrieNode::new(),
        }
    }

    /// Puts `c` below byte `b`
    fn put_child(&mut self, b: u8, c: TrieNode<V>)
        requires
            old(self).wf(),
            old(self).children@.len() == 256,
            c.wf(),
        ensures
            final(self).wf(),
            final(self).children@.len() == 256,
            final(self).val == old(self).val,
            final(self).child(b as int) == Some(c),
            forall|x: int| x != b ==> #[trigger] final(self).child(x) == old(self).child(x),
    {
        self.children[b as usize] = Some(Box::new(c));
        proof {
            assert forall|i: int| 0 <= i < self.children@.len() implies (#[trigger] self.children@[i] matches Some(cc) ==> cc.wf()) by {
                if i != b {
                    assert(self.children@[i] == old(self).children@[i]);
                }
            }
        }
    }

    /// Sets the value at `path[i..]`, creating the path, and returns the value it replaced
    pub fn set_val_rec(&mut self, path: &[u8], i: usize, v: V) -> (old_val: Option<V>)
        requires
            old(self).wf(),
            i <= path@.len(),
        ensures
            final(self).wf(),
            old_val == old(self).get(path@.subrange(i as int, path@.len() as int)),
            forall|q: Seq<u8>|
                #![trigger final(self).node_at(q)]
                final(self).get(q) == if q == path@.subrange(i as int, path@.len() as int) {
                    Some(v)
                } else {
                    old(self).get(q)
                },
            forall|q: Seq<u8>|
                #![trigger final(self).node_at(q)]
                final(self).has_path(q) == (old(self).has_path(q) || q.is_prefix_of(
                    path@.subrange(i as int, path@.len() as int),
                )),
        decreases path@.len() - i,
    {
        let ghost p = path@.subrange(i as int, path@.len() as int);
        if i == path.len() {
            let o = self.val;
            self.val = Some(v);
            proof {
                assert(p =~= Seq::<u8>::empty());
                assert forall|q: Seq<u8>| #![trigger self.node_at(q)] self.get(q) == if q == p {
                    Some(v)
                } else {
                    old(self).get(q)
                } by {
                    if q.len() > 0 {
                        lemma_same_children(*self, *old(self), q);
                    } else {
                        assert(q =~= p);
                    }
                }
                assert forall|q: Seq<u8>| #![trigger self.node_at(q)] self.has_path(q) == (old(self).has_path(q) || q.is_prefix_of(p)) by {
                    if q.len() > 0 {
                        lemma_same_children(*self, *old(self), q);
                    }
                }
            }
            return o;
        }
        self.ensure_slots();
        let b = path[i];
        let ghost mid = *self;
        let mut child = self.take_child(b);
        let ghost old_child = child;
        let r = child.set_val_rec(path, i + 1, v);
        self.put_child(b, child);
        proof {
            let rest = path@.subrange(i + 1, path@.len() as int);
            assert(p.drop_first() =~= rest);
            assert(p[0] == b);
            assert(old(self).get(p) == old_child.get(rest)) by {
                if old(self).child(b as int) is None {
                    assert(old_child.node_at(rest) matches Some(n) ==> rest.len() == 0);
                }
            }
            assert forall|q: Seq<u8>| #![trigger self.node_at(q)] self.get(q) == if q == p {
                Some(v)
            } else {
                old(self).get(q)
            } && self.has_path(q) == (old(self).has_path(q) || q.is_prefix_of(p)) by {
                if q.len() == 0 {
                    assert(q.is_prefix_of(p));
                } else if q[0] == b {
                    let qr = q.drop_first();
                    assert(self.node_at(q) == child.node_at(qr));
                    assert(q == p <==> qr == rest) by {
                        if qr == rest {
                            assert forall|k: int| 0 <= k < q.len() implies q[k] == p[k] by {
                                if k > 0 {
                                    assert(q[k] == qr[k - 1]);
                                    assert(p[k] == rest[k - 1]);
                                }
                            }
                            assert(q =~= p);
                        }
                    }
                    assert(q.is_prefix_of(p) <==> qr.is_prefix_of(rest)) by {
                        if qr.is_prefix_of(rest) {
                            assert forall|k: int| 0 <= k < q.len() implies q[k] == p[k] by {
                                if k > 0 {
                                    assert(q[k] == qr[k - 1]);
                                }
                            }
                        }
                        if q.is_prefix_of(p) {
                            assert forall|k: int| 0 <= k < qr.len() implies qr[k] == rest[k] by {
                                assert(q[k + 1] == p[k + 1]);
                            }
                        }
                    }
                    if old(self).child(b as int) is None {
                        assert(old_child.node_at(qr) matches Some(n) ==> qr.len() == 0);
                        assert(old(self).node_at(q) is None);
                    }
                } else {
                    assert(self.child(q[0] as int) == old(self).child(q[0] as int));
                    lemma_same_children(*self, *old(self), q);
                    assert(!q.is_prefix_of(p)) by {
                        assert(q[0] != p[0]);
                    }
                    assert(q != p);
                }
            }
        }
        r
    }

    /// Creates the path `path[i..]`, returning `true` if it did not exist
    pub fn create_path_rec(&mut self, path: &[u8], i: usize) -> (created: bool)
        requires
            old(self).wf(),
            i <= path@.len(),
        ensures
            final(self).wf(),
            created == !old(self).has_path(path@.subrange(i as int, path@.len() as int)),
            forall|q: Seq<u8>|
                #![trigger final(self).node_at(q)]
                final(self).get(q) == old(self).get(q),
            forall|q: Seq<u8>|
                #![trigger final(self).node_at(q)]
                final(self).has_path(q) == (old(self).has_path(q) || q.is_prefix_of(
                    path@.subrange(i as int, path@.len() as int),
                )),
        decreases path@.len() - i,
    {
        let ghost p = path@.subrange(i as int, path@.len() as int);
        if i == path.len() {
            proof {
                assert(p =~= Seq::<u8>::empty());
                assert forall|q: Seq<u8>| #![trigger self.node_at(q)] self.has_path(q) == (old(self).has_path(q) || q.is_prefix_of(p)) by {
                    if q.len() == 0 {
                        assert(q.is_prefix_of(p));
                    }
                }
            }
            return false;
        }
        self.ensure_slots();
        let b = path[i];
        let had_child = self.get_child(b).is_some();
        let mut child = self.take_child(b);
        let ghost old_child = child;
        let r = child.create_path_rec(path, i + 1);
        self.put_child(b, child);
        proof {
            let rest = path@.subrange(i + 1, path@.len() as int);
            assert(p.drop_first() =~= rest);
            assert(p[0] == b);
            assert(old(self).has_path(p) == old_child.has_path(rest) || old(self).child(b as int) is None) by {
                if old(self).child(b as int) is None {
                    assert(!old(self).has_path(p));
                }
            }
            assert forall|q: Seq<u8>| #![trigger self.node_at(q)] self.get(q) == old(self).get(q)
                && self.has_path(q) == (old(self).has_path(q) || q.is_prefix_of(p)) by {
                if q.len() == 0 {
                    assert(q.is_prefix_of(p));
                } else if q[0] == b {
                    let qr = q.drop_first();
                    assert(self.node_at(q) == child.node_at(qr));
                    assert(q.is_prefix_of(p) <==> qr.is_prefix_of(rest)) by {
                        if qr.is_prefix_of(rest) {
                            assert forall|k: int| 0 <= k < q.len() implies q[k] == p[k] by {
                                if k > 0 {
                                    assert(q[k] == qr[k - 1]);
                                }
                            }
                        }
                        if q.is_prefix_of(p) {
                            assert forall|k: int| 0 <= k < qr.len() implies qr[k] == rest[k] by {
                                assert(q[k + 1] == p[k + 1]);
                            }
                        }
                    }
                    if old(self).child(b as int) is None {
                        assert(old_child.node_at(qr) matches Some(n) ==> qr.len() == 0);
                        assert(old(self).node_at(q) is None);
                    }
                } else {
                    assert(self.child(q[0] as int) == old(self).child(q[0] as int));
                    lemma_same_children(*self, *old(self), q);
                    assert(!q.is_prefix_of(p)) by {
                        assert(q[0] != p[0]);
                    }
                }
            }
            if old(self).child(b as int) is None {
                assert(old_child.has_path(rest) == (rest.len() == 0));
            }
        }
        r || !had_child
    }
}


/// Whether, once the value at `p` is removed and emptied nodes along `p` are pruned, the node at
/// `q` is kept: something below it still holds a value or leaves the path `p`.
pub open spec fn survives<V>(n: TrieNode<V>, p: Seq<u8>, q: Seq<u8>) -> bool {
    exists|r: Seq<u8>|
        #![trigger n.node_at(r)]
        q.is_prefix_of(r) && n.has_path(r) && (!r.is_prefix_of(p) || (r != p && n.get(r) is Some))
}

/// A bare node holds only the empty path, and no value.
pub proof fn lemma_bare_paths<V>(n: TrieNode<V>, q: Seq<u8>)
    requires
        n.is_bare(),
    ensures
        n.has_path(q) <==> q.len() == 0,
        n.get(q) is None,
{
    if q.len() > 0 {
        assert(n.child(q[0] as int) is None);
    }
}

/// Prepending a byte to a prefix relation.
pub proof fn lemma_prefix_cons(b: u8, q: Seq<u8>, r: Seq<u8>)
    ensures
        (seq![b] + q).is_prefix_of(seq![b] + r) <==> q.is_prefix_of(r),
{
    let bq = seq![b] + q;
    let br = seq![b] + r;
    if q.is_prefix_of(r) {
        assert forall|k: int| 0 <= k < bq.len() implies bq[k] == br[k] by {
            if k > 0 {
                assert(bq[k] == q[k - 1]);
                assert(br[k] == r[k - 1]);
            }
        }
    }
    if bq.is_prefix_of(br) {
        assert forall|k: int| 0 <= k < q.len() implies q[k] == r[k] by {
            assert(bq[k + 1] == br[k + 1]);
        }
    }
}

/// A non-empty sequence is its first element followed by the rest.
pub proof fn lemma_cons_split(q: Seq<u8>)
    requires
        q.len() > 0,
    ensures
        q == seq![q[0]] + q.drop_first(),
{
    assert(q =~= seq![q[0]] + q.drop_first());
}

impl<V: Copy> TrieNode<V> {
    /// Removes the value at `path[i..]`, returning it; when `prune` is set, nodes along the path
    /// that are left with neither a value nor a child are removed too
    pub fn remove_val_rec(&mut self, path: &[u8], i: usize, prune: bool) -> (removed: Option<V>)
        requires
            old(self).wf(),
            i <= path@.len(),
        ensures
            final(self).wf(),
            removed == old(self).get(path@.subrange(i as int, path@.len() as int)),
            forall|q: Seq<u8>|
                #![trigger final(self).node_at(q)]
                final(self).get(q) == if q == path@.subrange(i as int, path@.len() as int) {
                    None
                } else {
                    old(self).get(q)
                },
            forall|q: Seq<u8>|
                #![trigger final(self).node_at(q)]
                final(self).has_path(q) == (old(self).has_path(q) && (!prune || q.len() == 0
                    || !q.is_prefix_of(path@.subrange(i as int, path@.len() as int)) || survives(
                    *old(self),
                    path@.subrange(i as int, path@.len() as int),
                    q,
                ))),
        decreases path@.len() - i,
    {
        let ghost p = path@.subrange(i as int, path@.len() as int);
        if i == path.len() {
            let o = self.val;
            self.val = None;
            proof {
                assert(p =~= Seq::<u8>::empty());
                assert forall|q: Seq<u8>| #![trigger self.node_at(q)] self.get(q) == if q == p {
                    None
                } else {
                    old(self).get(q)
                } && self.has_path(q) == (old(self).has_path(q) && (!prune || q.len() == 0
                    || !q.is_prefix_of(p) || survives(*old(self), p, q))) by {
                    if q.len() > 0 {
                        lemma_same_children(*self, *old(self), q);
                        assert(!q.is_prefix_of(p));
                    } else {
                        assert(q =~= p);
                    }
                }
            }
            return o;
        }
        let b = path[i];
        let ghost rest = path@.subrange(i + 1, path@.len() as int);
        proof {
            assert(p.drop_first() =~= rest);
            assert(p[0] == b);
            lemma_cons_split(p);
        }
        if self.get_child(b).is_none() {
            proof {
                assert forall|q: Seq<u8>| #![trigger self.node_at(q)] self.get(q) == if q == p {
                    None
                } else {
                    old(self).get(q)
                } && self.has_path(q) == (old(self).has_path(q) && (!prune || q.len() == 0
                    || !q.is_prefix_of(p) || survives(*old(self), p, q))) by {
                    if q.len() > 0 && q[0] == b {
                        assert(!self.has_path(q));
                    }
                }
            }
            return None;
        }
        self.ensure_slots();
        let ghost mid = *self;
        let mut child = self.take_child(b);
        let ghost old_child = child;
        let r = child.remove_val_rec(path, i + 1, prune);
        let emptied = prune && child.node_is_bare();
        if !emptied {
            self.put_child(b, child);
        }
        proof {
            assert(old(self).child(b as int) == Some(old_child));
            assert forall|q: Seq<u8>| #![trigger self.node_at(q)] self.get(q) == if q == p {
                None
            } else {
                old(self).get(q)
            } && self.has_path(q) == (old(self).has_path(q) && (!prune || q.len() == 0
                || !q.is_prefix_of(p) || survives(*old(self), p, q))) by {
                if q.len() == 0 {
                } else if q[0] == b {
                    let qr = q.drop_first();
                    lemma_cons_split(q);
                    lemma_prefix_cons(b, qr, rest);
                    assert(q == p <==> qr == rest);
                    assert(old(self).node_at(q) == old_child.node_at(qr));
                    if emptied {
                        lemma_bare_paths(child, qr);
                        assert(!self.has_path(q));
                        if old(self).has_path(q) && qr.is_prefix_of(rest) && survives(*old(self), p, q) {
                            let w = choose|w: Seq<u8>|
                                #![trigger old(self).node_at(w)]
                                q.is_prefix_of(w) && old(self).has_path(w) && (!w.is_prefix_of(p) || (w != p && old(self).get(w) is Some));
                            assert(w.len() > 0);
                            lemma_cons_split(w);
                            let wr = w.drop_first();
                            assert(w[0] == b) by {
                                assert(q[0] == w[0]);
                            }
                            lemma_prefix_cons(b, wr, rest);
                            assert(old(self).node_at(w) == old_child.node_at(wr));
                            lemma_bare_paths(child, wr);
                            if !w.is_prefix_of(p) {
                                assert(!wr.is_prefix_of(rest));
                                assert(child.has_path(wr));
                            } else {
                                assert(wr != rest);
                                assert(child.get(wr) is Some);
                            }
                        }
                    } else {
                        assert(self.child(b as int) == Some(child));
                        assert(self.node_at(q) == child.node_at(qr));
                        assert(survives(*old(self), p, q) <==> survives(old_child, rest, qr)) by {
                            if survives(*old(self), p, q) {
                                let w = choose|w: Seq<u8>|
                                    #![trigger old(self).node_at(w)]
                                    q.is_prefix_of(w) && old(self).has_path(w) && (!w.is_prefix_of(p) || (w != p && old(self).get(w) is Some));
                                lemma_cons_split(w);
                                let wr = w.drop_first();
                                assert(w[0] == b) by {
                                    assert(q[0] == w[0]);
                                }
                                lemma_prefix_cons(b, wr, rest);
                                lemma_prefix_cons(b, qr, wr);
                                assert(w == p <==> wr == rest);
                                assert(old(self).node_at(w) == old_child.node_at(wr));
                                assert(old_child.has_path(wr));
                            }
                            if survives(old_child, rest, qr) {
                                let wr = choose|wr: Seq<u8>|
                                    #![trigger old_child.node_at(wr)]
                                    qr.is_prefix_of(wr) && old_child.has_path(wr) && (!wr.is_prefix_of(rest) || (wr != rest && old_child.get(wr) is Some));
                                let w = seq![b] + wr;
                                assert(w.drop_first() =~= wr);
                                assert(w[0] == b);
                                lemma_prefix_cons(b, wr, rest);
                                lemma_prefix_cons(b, qr, wr);
                                assert(w == p <==> wr == rest);
                                assert(old(self).node_at(w) == old_child.node_at(wr));
                                assert(old(self).has_path(w));
                            }
                        }
                        if qr.len() == 0 && prune && q.is_prefix_of(p) {
                            // the child was kept, so something below it survives
                            assert(!child.is_bare());
                            if child.val is Some {
                                assert(child.get(Seq::<u8>::empty()) is Some);
                                assert(Seq::<u8>::empty() != rest);
                                assert(old_child.get(Seq::<u8>::empty()) is Some);
                                assert(old_child.has_path(Seq::<u8>::empty()));
                                assert(survives(old_child, rest, qr));
                            } else {
                                let c = choose|c: int| #[trigger] child.child(c) is Some;
                                let cq = seq![c as u8];
                                assert(child.child(c) is Some ==> 0 <= c < 256);
                                assert(cq.drop_first() =~= Seq::<u8>::empty());
                                assert(cq[0] as int == c);
                                let cc = child.child(c).unwrap();
                                assert(cc.node_at(Seq::<u8>::empty()) is Some);
                                assert(child.node_at(cq) == cc.node_at(cq.drop_first()));
                                assert(child.has_path(cq));
                                assert(old_child.has_path(cq));
                                if cq.is_prefix_of(rest) {
                                    assert(cq.len() > 0);
                                    assert(survives(old_child, rest, cq));
                                    let wr = choose|wr: Seq<u8>|
                                        #![trigger old_child.node_at(wr)]
                                        cq.is_prefix_of(wr) && old_child.has_path(wr) && (!wr.is_prefix_of(rest) || (wr != rest && old_child.get(wr) is Some));
                                    assert(qr.is_prefix_of(wr));
                                } else {
                                    assert(qr.is_prefix_of(cq));
                                }
                                assert(survives(old_child, rest, qr));
                            }
                        }
                    }
                } else {
                    assert(self.child(q[0] as int) == old(self).child(q[0] as int));
                    lemma_same_children(*self, *old(self), q);
                    assert(!q.is_prefix_of(p)) by {
                        assert(q[0] != p[0]);
                    }
                    assert(q != p);
                }
            }
        }
        r
    }
}


impl<V: Copy> TrieNode<V> {
    /// Replaces the node at `path[i..]`, with everything below it, by `sub`, creating the path
    pub fn graft_rec(&mut self, path: &[u8], i: usize, sub: TrieNode<V>)
        requires
            old(self).wf(),
            sub.wf(),
            i <= path@.len(),
        ensures
            final(self).wf(),
            forall|q: Seq<u8>|
                #![trigger final(self).node_at(q)]
                path@.subrange(i as int, path@.len() as int).is_prefix_of(q) ==> final(self).node_at(q)
                    == sub.node_at(q.skip(path@.len() - i)),
            forall|q: Seq<u8>|
                #![trigger final(self).node_at(q)]
                !path@.subrange(i as int, path@.len() as int).is_prefix_of(q) ==> final(self).get(q)
                    == old(self).get(q) && final(self).has_path(q) == (old(self).has_path(q)
                    || q.is_prefix_of(path@.subrange(i as int, path@.len() as int))),
        decreases path@.len() - i,
    {
        let ghost p = path@.subrange(i as int, path@.len() as int);
        if i == path.len() {
            *self = sub;
            proof {
                assert(p =~= Seq::<u8>::empty());
                assert forall|q: Seq<u8>| #![trigger self.node_at(q)] p.is_prefix_of(q) ==> self.node_at(q) == sub.node_at(q.skip(path@.len() - i)) by {
                    assert(q.skip(0) =~= q);
                }
            }
            return;
        }
        self.ensure_slots();
        let b = path[i];
        let mut child = self.take_child(b);
        let ghost old_child = child;
        child.graft_rec(path, i + 1, sub);
        self.put_child(b, child);
        proof {
            let rest = path@.subrange(i + 1, path@.len() as int);
            assert(p.drop_first() =~= rest);
            assert(p[0] == b);
            assert forall|q: Seq<u8>| #![trigger self.node_at(q)]
                (p.is_prefix_of(q) ==> self.node_at(q) == sub.node_at(q.skip(path@.len() - i)))
                && (!p.is_prefix_of(q) ==> self.get(q) == old(self).get(q) && self.has_path(q) == (
                old(self).has_path(q) || q.is_prefix_of(p))) by {
                if q.len() == 0 {
                    assert(q.is_prefix_of(p));
                    assert(!p.is_prefix_of(q));
                } else if q[0] == b {
                    let qr = q.drop_first();
                    assert(self.node_at(q) == child.node_at(qr));
                    assert(p.is_prefix_of(q) <==> rest.is_prefix_of(qr)) by {
                        if rest.is_prefix_of(qr) {
                            assert forall|k: int| 0 <= k < p.len() implies p[k] == q[k] by {
                                if k > 0 {
                                    assert(p[k] == rest[k - 1]);
                                    assert(q[k] == qr[k - 1]);
                                }
                            }
                        }
                        if p.is_prefix_of(q) {
                            assert forall|k: int| 0 <= k < rest.len() implies rest[k] == qr[k] by {
                                assert(p[k + 1] == q[k + 1]);
                            }
                        }
                    }
                    assert(q.is_prefix_of(p) <==> qr.is_prefix_of(rest)) by {
                        if qr.is_prefix_of(rest) {
                            assert forall|k: int| 0 <= k < q.len() implies q[k] == p[k] by {
                                if k > 0 {
                                    assert(q[k] == qr[k - 1]);
                                }
                            }
                        }
                        if q.is_prefix_of(p) {
                            assert forall|k: int| 0 <= k < qr.len() implies qr[k] == rest[k] by {
                                assert(q[k + 1] == p[k + 1]);
                            }
                        }
                    }
                    if p.is_prefix_of(q) {
                        assert(q.skip(path@.len() - i) =~= qr.skip(path@.len() - (i + 1)));
                    }
                    if old(self).child(b as int) is None {
                        assert(old_child.node_at(qr) matches Some(n) ==> qr.len() == 0);
                        assert(old(self).node_at(q) is None);
                    }
                } else {
                    assert(self.child(q[0] as int) == old(self).child(q[0] as int));
                    lemma_same_children(*self, *old(self), q);
                    assert(!q.is_prefix_of(p)) by {
                        assert(q[0] != p[0]);
                    }
                    assert(!p.is_prefix_of(q)) by {
                        assert(q[0] != p[0]);
                    }
                }
            }
        }
    }
}

impl<V: Copy> TrieNode<V> {
    /// The number of values at the node and below it
    pub fn count_vals(&self) -> (r: usize)
        requires
            self.wf(),
            node_val_count(*self) <= usize::MAX,
        ensures
            r == node_val_count(*self),
        decreases self,
    {
        let mut total: usize = if self.val.is_some() {
            1
        } else {
            0
        };
        if self.children.len() == 0 {
            proof {
                assert(children_val_count(*self, 256) == 0) by {
                    lemma_children_zero(*self, 256);
                }
            }
            return total;
        }
        let mut i: usize = 0;
        while i < 256
            invariant
                i <= 256,
                self.wf(),
                self.children@.len() == 256,
                node_val_count(*self) <= usize::MAX,
                total == (if self.val is Some {
                    1nat
                } else {
                    0nat
                }) + children_val_count(*self, i as nat),
            decreases 256 - i,
        {
            proof {
                lemma_children_val_count_monotone(*self, (i + 1) as nat, 256);
            }
            match &self.children[i] {
                Some(c) => {
                    proof {
                        assert(self.children@[i as int] matches Some(cc) && cc.wf());
                    }
                    let k = c.count_vals();
                    total = total + k;
                },
                None => {},
            }
            i = i + 1;
        }
        total
    }
}

/// A node without slots has nothing below it.
proof fn lemma_children_zero<V>(n: TrieNode<V>, k: nat)
    requires
        n.children@.len() == 0,
    ensures
        children_val_count(n, k) == 0,
    decreases k,
{
    if k > 0 {
        lemma_children_zero(n, (k - 1) as nat);
    }
}

impl<V: Copy> TrieNode<V> {
    /// A copy of the node and everything below it
    pub fn clone_node(&self) -> (r: TrieNode<V>)
        requires
            self.wf(),
        ensures
            r.wf(),
            r.same_space(*self),
            r.val == self.val,
        decreases self,
    {
        let mut children: Vec<Option<Box<TrieNode<V>>>> = Vec::new();
        if self.children.len() > 0 {
            children = empty_slots();
            let mut i: usize = 0;
            while i < 256
                invariant
                    i <= 256,
                    self.wf(),
                    self.children@.len() == 256,
                    children@.len() == 256,
                    forall|x: int|
                        0 <= x < 256 ==> match #[trigger] children@[x] {
                            Some(c) => x < i && self.child(x) is Some && c.wf() && c.same_space(
                                self.child(x).unwrap(),
                            ),
                            None => x >= i || self.child(x) is None,
                        },
                decreases 256 - i,
            {
                match &self.children[i] {
                    Some(c) => {
                        proof {
                            assert(self.children@[i as int] matches Some(cc) && cc.wf());
                        }
                        let cl = c.clone_node();
                        children.set(i, Some(Box::new(cl)));
                    },
                    None => {},
                }
                i = i + 1;
            }
        }
        let r = TrieNode { val: self.val, children };
        proof {
            assert forall|x: int| 0 <= x < r.children@.len() implies (#[trigger] r.children@[x] matches Some(c) ==> c.wf()) by {}
            assert forall|q: Seq<u8>|
                #![trigger r.node_at(q)]
                #![trigger self.node_at(q)]
                r.has_path(q) == self.has_path(q) && r.get(q) == self.get(q) by {
                if q.len() > 0 {
                    let x = q[0] as int;
                    if self.children@.len() == 256 {
                        match r.child(x) {
                            Some(c) => {
                                let sc = self.child(x).unwrap();
                                assert(c.has_path(q.drop_first()) == sc.has_path(q.drop_first()));
                                assert(c.get(q.drop_first()) == sc.get(q.drop_first()));
                            },
                            None => {},
                        }
                    }
                }
            }
        }
        r
    }
}



/// Whether the paths of `s` come in strictly increasing depth-first order.
pub open spec fn sorted_paths<V>(s: Seq<(Vec<u8>, V)>) -> bool {
    forall|i: int, j: int| #![trigger s[i], s[j]] 0 <= i < j < s.len() ==> path_before(s[i].0@, s[j].0@)
}

/// Whether `s` lists, each behind `prefix` and in depth-first order, the values of `n` at its own
/// path and below its children before byte `b`.
pub open spec fn lists_vals_before<V>(n: TrieNode<V>, prefix: Seq<u8>, s: Seq<(Vec<u8>, V)>, b: int) -> bool {
    &&& forall|k: int| #![trigger s[k]] 0 <= k < s.len() ==> {
        &&& prefix.is_prefix_of(s[k].0@)
        &&& n.get(s[k].0@.skip(prefix.len() as int)) == Some(s[k].1)
        &&& (s[k].0@.len() == prefix.len() || s[k].0@[prefix.len() as int] < b)
    }
    &&& forall|w: Seq<u8>| #[trigger] n.get(w) is Some && (w.len() == 0 || w[0] < b) ==> exists|k: int|
        #![trigger s[k]] 0 <= k < s.len() && s[k].0@ == prefix + w
    &&& sorted_paths(s)
}

/// Whether `s` lists all the values of `n`, each behind `prefix`, in depth-first order.
pub open spec fn lists_vals<V>(n: TrieNode<V>, prefix: Seq<u8>, s: Seq<(Vec<u8>, V)>) -> bool {
    lists_vals_before(n, prefix, s, 256)
}

/// A byte below which a node has no child adds nothing to what is listed.
proof fn lemma_listing_skip_byte<V>(n: TrieNode<V>, p: Seq<u8>, s: Seq<(Vec<u8>, V)>, b: int)
    requires
        lists_vals_before(n, p, s, b),
        n.child(b) is None,
    ensures
        lists_vals_before(n, p, s, b + 1),
{
    assert forall|w: Seq<u8>| #[trigger] n.get(w) is Some && (w.len() == 0 || w[0] < b + 1) implies exists|k: int|
        #![trigger s[k]] 0 <= k < s.len() && s[k].0@ == p + w by {
        if w.len() > 0 && w[0] == b {
            assert(n.node_at(w) is None);
        }
    }
}

/// The listing of the child below byte `b`, behind the prefix extended by `b`, continues the
/// listing of the node.
proof fn lemma_listing_add_child<V>(n: TrieNode<V>, p: Seq<u8>, s: Seq<(Vec<u8>, V)>, t: Seq<(Vec<u8>, V)>, b: u8)
    requires
        lists_vals_before(n, p, s, b as int),
        n.child(b as int) is Some,
        lists_vals(n.child(b as int).unwrap(), p.push(b), t),
    ensures
        lists_vals_before(n, p, s + t, b + 1),
{
    let c = n.child(b as int).unwrap();
    let u = s + t;
    let pl = p.len() as int;
    assert forall|k: int| 0 <= k < t.len() implies {
        &&& p.is_prefix_of(#[trigger] t[k].0@)
        &&& n.get(t[k].0@.skip(pl)) == Some(t[k].1)
        &&& t[k].0@.len() > pl && t[k].0@[pl] == b
    } by {
        let e = t[k].0@;
        assert(p.push(b).is_prefix_of(e));
        assert(e[pl] == p.push(b)[pl]);
        assert(p =~= e.subrange(0, pl)) by {
            assert forall|i: int| 0 <= i < pl implies p[i] == e[i] by {
                assert(p.push(b)[i] == e[i]);
            }
        }
        let r = e.skip(pl);
        assert(r.drop_first() =~= e.skip(pl + 1));
        assert(r[0] == b);
        assert(n.node_at(r) == c.node_at(r.drop_first()));
    }
    assert forall|k: int| #![trigger u[k]] 0 <= k < u.len() implies {
        &&& p.is_prefix_of(u[k].0@)
        &&& n.get(u[k].0@.skip(pl)) == Some(u[k].1)
        &&& (u[k].0@.len() == pl || u[k].0@[pl] < b + 1)
    } by {
        if k < s.len() {
            assert(u[k] == s[k]);
        } else {
            assert(u[k] == t[k - s.len()]);
        }
    }
    assert forall|w: Seq<u8>| #[trigger] n.get(w) is Some && (w.len() == 0 || w[0] < b + 1) implies exists|k: int|
        #![trigger u[k]] 0 <= k < u.len() && u[k].0@ == p + w by {
        if w.len() == 0 || w[0] < b {
            let k = choose|k: int| #![trigger s[k]] 0 <= k < s.len() && s[k].0@ == p + w;
            assert(u[k] == s[k]);
        } else {
            assert(w[0] == b);
            assert(n.node_at(w) == c.node_at(w.drop_first()));
            assert(c.get(w.drop_first()) is Some);
            let k = choose|k: int| #![trigger t[k]] 0 <= k < t.len() && t[k].0@ == p.push(b) + w.drop_first();
            assert(p.push(b) + w.drop_first() =~= p + w);
            assert(u[k + s.len()] == t[k]);
        }
    }
    assert forall|i: int, j: int| #![trigger u[i], u[j]] 0 <= i < j < u.len() implies path_before(u[i].0@, u[j].0@) by {
        if j < s.len() {
            assert(u[i] == s[i] && u[j] == s[j]);
        } else if i >= s.len() {
            assert(u[i] == t[i - s.len()] && u[j] == t[j - s.len()]);
        } else {
            assert(u[i] == s[i] && u[j] == t[j - s.len()]);
            let a = s[i].0@;
            let e = t[j - s.len()].0@;
            assert(p.is_prefix_of(a));
            assert(p.is_prefix_of(e) && e.len() > pl && e[pl] == b);
            if a.len() == pl {
                assert(a =~= p);
                assert(a.is_prefix_of(e));
            } else {
                assert(a.take(pl) =~= p);
                assert(e.take(pl) =~= p);
                assert(diverges(a, e, pl));
            }
        }
    }
}

impl<V: Copy> TrieNode<V> {
    /// Appends to `out` the values of the node and below it, each with its path behind
    /// `prefix`, in depth-first order of the paths
    pub fn collect_vals(&self, prefix: &mut Vec<u8>, out: &mut Vec<(Vec<u8>, V)>)
        requires
            self.wf(),
        ensures
            final(prefix)@ == old(prefix)@,
            final(out)@.len() >= old(out)@.len(),
            final(out)@.take(old(out)@.len() as int) == old(out)@,
            lists_vals(*self, old(prefix)@, final(out)@.skip(old(out)@.len() as int)),
        decreases self,
    {
        let ghost p = prefix@;
        let ghost o = out@;
        let start = out.len();
        match &self.val {
            Some(v) => {
                let path = vstd::slice::slice_to_vec(prefix.as_slice());
                out.push((path, *v));
            },
            None => {},
        }
        proof {
            let seg = out@.skip(start as int);
            assert(out@.take(start as int) =~= o);
            assert forall|w: Seq<u8>| #[trigger] self.get(w) is Some && (w.len() == 0 || w[0] < 0) implies exists|k: int|
                #![trigger seg[k]] 0 <= k < seg.len() && seg[k].0@ == p + w by {
                assert(w.len() == 0);
                assert(p + w =~= p);
                assert(seg[0] == out@[start as int]);
            }
            assert forall|k: int| #![trigger seg[k]] 0 <= k < seg.len() implies {
                &&& p.is_prefix_of(seg[k].0@)
                &&& self.get(seg[k].0@.skip(p.len() as int)) == Some(seg[k].1)
                &&& (seg[k].0@.len() == p.len() || seg[k].0@[p.len() as int] < 0)
            } by {
                assert(seg[k] == out@[start as int]);
                assert(seg[k].0@.skip(p.len() as int) =~= Seq::<u8>::empty());
            }
            assert(lists_vals_before(*self, p, seg, 0));
        }
        if self.children.len() == 256 {
            let mut b: usize = 0;
            while b < 256
                invariant
                    b <= 256,
                    self.wf(),
                    self.children@.len() == 256,
                    prefix@ == p,
                    start == o.len(),
                    out@.len() >= start,
                    out@.take(start as int) == o,
                    lists_vals_before(*self, p, out@.skip(start as int), b as int),
                decreases 256 - b,
            {
                match &self.children[b] {
                    Some(c) => {
                        proof {
                            assert(self.children@[b as int] matches Some(cc) && cc.wf());
                        }
                        let ghost before = out@;
                        let ghost mid = out@.len();
                        prefix.push(b as u8);
                        c.collect_vals(prefix, out);
                        prefix.pop();
                        proof {
                            assert(prefix@ =~= p);
                            let s1 = before.skip(start as int);
                            let t = out@.skip(mid as int);
                            assert(out@.skip(start as int) =~= s1 + t) by {
                                assert(out@.take(mid as int) == before);
                            }
                            assert(out@.take(start as int) =~= o) by {
                                assert(out@.take(mid as int) == before);
                                assert(before.take(start as int) == o);
                            }
                            lemma_listing_add_child(*self, p, s1, t, b as u8);
                        }
                    },
                    None => {
                        proof {
                            lemma_listing_skip_byte(*self, p, out@.skip(start as int), b as int);
                        }
                    },
                }
                b = b + 1;
            }
        } else {
            proof {
                let seg = out@.skip(start as int);
                lemma_children_none_listing(*self, p, seg, 256);
            }
        }
    }
}

/// A node without child slots is listed in full once its own value is.
proof fn lemma_children_none_listing<V>(n: TrieNode<V>, p: Seq<u8>, s: Seq<(Vec<u8>, V)>, b: int)
    requires
        n.children@.len() == 0,
        lists_vals_before(n, p, s, 0),
        b >= 0,
    ensures
        lists_vals_before(n, p, s, b),
{
    assert forall|w: Seq<u8>| #[trigger] n.get(w) is Some && (w.len() == 0 || w[0] < b) implies exists|k: int|
        #![trigger s[k]] 0 <= k < s.len() && s[k].0@ == p + w by {
        if w.len() > 0 {
            assert(n.node_at(w) is None);
        }
    }
}

} // verus!
