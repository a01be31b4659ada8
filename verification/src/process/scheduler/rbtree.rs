//! A red-black tree that keeps its nodes in an arena and caches the leftmost one.
//!
//! The contents are the key-value pairs in order. Keys may repeat: a new pair
//! goes behind the pairs whose keys equal its own.

use vstd::prelude::*;

verus! {

/// A key that orders the nodes of a tree.
pub trait SortKey: Copy {
    /// The key's place in the order.
    spec fn rank(&self) -> int;

    /// Tells whether this key comes before `other`.
    fn before(&self, other: &Self) -> (b: bool)
        ensures
            b == (self.rank() < other.rank()),
    ;
}

impl SortKey for u64 {
    open spec fn rank(&self) -> int {
        *self as int
    }

    fn before(&self, other: &Self) -> (b: bool) {
        *self < *other
    }
}

/// Colour of a node.
#[derive(Clone, Copy, Debug, PartialEq, Eq, Structural)]
pub enum RbColor {
    /// A red node has black children.
    Red,
    /// The root and the empty leaves are black.
    Black,
}

/// A node; the links are indexes into the arena.
pub struct RbNode<K, V> {
    key: K,
    value: V,
    parent: Option<usize>,
    left: Option<usize>,
    right: Option<usize>,
    color: RbColor,
}

/// Where the nodes stand, by arena index.
///
/// `order` lists the nodes in order. The subtree of node `i` holds the
/// positions from `lo[i]` up to `hi[i]`, and `i` itself stands at `pos[i]`.
/// `bh[i]` counts the black nodes on a path from `i` down to a leaf.
pub struct Shape {
    pub order: Seq<int>,
    pub pos: Seq<int>,
    pub lo: Seq<int>,
    pub hi: Seq<int>,
    pub bh: Seq<int>,
}

/// A red-black tree with its leftmost node at hand.
pub struct RbRootCached<K, V> {
    root: Option<usize>,
    leftmost: Option<usize>,
    nodes: Vec<Option<RbNode<K, V>>>,
    free_slots: Vec<usize>,
    len: usize,
    shape: Ghost<Shape>,
}

/// Slot `i` holds a node.
spec fn live<K, V>(nodes: Seq<Option<RbNode<K, V>>>, i: int) -> bool {
    0 <= i < nodes.len() && nodes[i] is Some
}

/// The node in slot `i`.
spec fn node<K, V>(nodes: Seq<Option<RbNode<K, V>>>, i: int) -> RbNode<K, V> {
    nodes[i]->Some_0
}

/// `child` is the root of the positions from `a` up to `b`, below node `i`.
spec fn child_spans<K, V>(
    nodes: Seq<Option<RbNode<K, V>>>,
    s: Shape,
    child: Option<usize>,
    i: int,
    a: int,
    b: int,
) -> bool {
    match child {
        None => a == b,
        Some(j) => live(nodes, j as int) && node(nodes, j as int).parent == Some(i as usize)
            && s.lo[j as int] == a && s.hi[j as int] == b,
    }
}

/// Node `i` is linked to its neighbours as its span says.
spec fn node_linked<K, V>(
    nodes: Seq<Option<RbNode<K, V>>>,
    s: Shape,
    root: Option<usize>,
    i: int,
) -> bool {
    let n = node(nodes, i);
    &&& 0 <= s.lo[i] <= s.pos[i] < s.hi[i] <= s.order.len()
    &&& s.order[s.pos[i]] == i
    &&& child_spans(nodes, s, n.left, i, s.lo[i], s.pos[i])
    &&& child_spans(nodes, s, n.right, i, s.pos[i] + 1, s.hi[i])
    &&& match n.parent {
        None => root == Some(i as usize) && s.lo[i] == 0 && s.hi[i] == s.order.len(),
        Some(p) => live(nodes, p as int) && (node(nodes, p as int).left == Some(i as usize) || node(
            nodes,
            p as int,
        ).right == Some(i as usize)),
    }
}

/// The links form one binary tree over the live slots, in the given order.
spec fn linked<K, V>(nodes: Seq<Option<RbNode<K, V>>>, s: Shape, root: Option<usize>) -> bool {
    &&& nodes.len() <= usize::MAX
    &&& s.pos.len() == nodes.len()
    &&& s.lo.len() == nodes.len()
    &&& s.hi.len() == nodes.len()
    &&& s.bh.len() == nodes.len()
    &&& forall|i: int| live(nodes, i) ==> #[trigger] node_linked(nodes, s, root, i)
    &&& forall|p: int|
        0 <= p < s.order.len() ==> live(nodes, #[trigger] s.order[p]) && s.pos[s.order[p]] == p
    &&& match root {
        None => s.order.len() == 0,
        Some(r) => live(nodes, r as int) && node(nodes, r as int).parent is None,
    }
}

/// Colour of a node; an empty leaf is black.
spec fn color_of<K, V>(nodes: Seq<Option<RbNode<K, V>>>, index: Option<usize>) -> RbColor {
    match index {
        None => RbColor::Black,
        Some(i) => node(nodes, i as int).color,
    }
}

/// Black nodes on a path from `child` down to a leaf.
spec fn black_height(s: Shape, child: Option<usize>) -> int {
    match child {
        None => 0,
        Some(j) => s.bh[j as int],
    }
}

/// A missing black node: below node `.0`, on the left where `.1` holds.
spec fn missing_below(short: Option<(int, bool)>, i: int, on_left: bool) -> int {
    if short == Some((i, on_left)) {
        1
    } else {
        0
    }
}

/// The paths below node `i` hold equally many black nodes, but for the one that is missing.
spec fn node_balanced<K, V>(
    nodes: Seq<Option<RbNode<K, V>>>,
    s: Shape,
    short: Option<(int, bool)>,
    i: int,
) -> bool {
    let n = node(nodes, i);
    let l = black_height(s, n.left) + missing_below(short, i, true);
    let r = black_height(s, n.right) + missing_below(short, i, false);
    &&& l == r
    &&& s.bh[i] == l + if n.color == RbColor::Black {
        1int
    } else {
        0int
    }
}

/// Every node is balanced.
spec fn balanced<K, V>(
    nodes: Seq<Option<RbNode<K, V>>>,
    s: Shape,
    short: Option<(int, bool)>,
) -> bool {
    forall|i: int| live(nodes, i) ==> #[trigger] node_balanced(nodes, s, short, i)
}

/// Node `i`, if red, has black children; `z` is not counted.
spec fn red_fine<K, V>(nodes: Seq<Option<RbNode<K, V>>>, z: Option<usize>, i: int) -> bool {
    let n = node(nodes, i);
    n.color == RbColor::Red ==> {
        &&& n.left == z || color_of(nodes, n.left) == RbColor::Black
        &&& n.right == z || color_of(nodes, n.right) == RbColor::Black
    }
}

/// Every red node has black children, but perhaps for `z`.
spec fn reds_fine<K, V>(nodes: Seq<Option<RbNode<K, V>>>, z: Option<usize>) -> bool {
    forall|i: int| live(nodes, i) ==> #[trigger] red_fine(nodes, z, i)
}

/// The key at a position.
spec fn key_at<K, V>(nodes: Seq<Option<RbNode<K, V>>>, s: Shape, p: int) -> K {
    node(nodes, s.order[p]).key
}

/// The keys stand in order.
spec fn keys_sorted<K: SortKey, V>(nodes: Seq<Option<RbNode<K, V>>>, s: Shape) -> bool {
    forall|p: int, q: int|
        0 <= p <= q < s.order.len() ==> (#[trigger] key_at(nodes, s, p)).rank() <= (
        #[trigger] key_at(nodes, s, q)).rank()
}

/// The free slots are the empty ones, each listed once.
spec fn slots_free<K, V>(nodes: Seq<Option<RbNode<K, V>>>, free: Seq<usize>) -> bool {
    &&& forall|k: int|
        0 <= k < free.len() ==> #[trigger] free[k] < nodes.len() && nodes[free[k] as int] is None
    &&& forall|j: int, k: int| 0 <= j < k < free.len() ==> #[trigger] free[j] != #[trigger] free[k]
}

/// The pairs in order.
spec fn pairs<K, V>(nodes: Seq<Option<RbNode<K, V>>>, s: Shape) -> Seq<(K, V)> {
    Seq::new(
        s.order.len(),
        |p: int| (node(nodes, s.order[p]).key, node(nodes, s.order[p]).value),
    )
}

/// Only the links of `i` differ: they are those of `n`.
spec fn relinked<K, V>(
    before: RbRootCached<K, V>,
    after: RbRootCached<K, V>,
    i: int,
    n: RbNode<K, V>,
) -> bool {
    &&& after.nodes@ == before.nodes@.update(i, Some(n))
    &&& after.root == before.root
    &&& after.leftmost == before.leftmost
    &&& after.free_slots == before.free_slots
    &&& after.len == before.len
    &&& after.shape == before.shape
}

/// `after` is `before` turned left at `x`, whose right child is `y`.
spec fn turned_left<K, V>(
    before: RbRootCached<K, V>,
    after: RbRootCached<K, V>,
    x: int,
    y: int,
) -> bool {
    let old_nodes = before.nodes@;
    let nodes = after.nodes@;
    let up = node(old_nodes, x).parent;
    let middle = node(old_nodes, y).left;
    &&& nodes.len() == old_nodes.len()
    &&& forall|i: int| #[trigger] live(nodes, i) == live(old_nodes, i)
    &&& forall|i: int|
        #[trigger] live(nodes, i) ==> {
            let n = node(nodes, i);
            let o = node(old_nodes, i);
            &&& n.key == o.key
            &&& n.value == o.value
            &&& n.color == o.color
            &&& n.left == if i == y {
                Some(x as usize)
            } else if o.left == Some(x as usize) {
                Some(y as usize)
            } else {
                o.left
            }
            &&& n.right == if i == x {
                middle
            } else if o.right == Some(x as usize) {
                Some(y as usize)
            } else {
                o.right
            }
            &&& n.parent == if i == x {
                Some(y as usize)
            } else if i == y {
                up
            } else if middle == Some(i as usize) {
                Some(x as usize)
            } else {
                o.parent
            }
        }
    &&& after.root == if up is None {
        Some(y as usize)
    } else {
        before.root
    }
    &&& after.leftmost == before.leftmost
    &&& after.free_slots == before.free_slots
    &&& after.len == before.len
    &&& after.shape@.order == before.shape@.order
    &&& after.shape@.pos == before.shape@.pos
    &&& after.shape@.bh == before.shape@.bh
}

/// `after` is `before` turned right at `x`, whose left child is `y`.
spec fn turned_right<K, V>(
    before: RbRootCached<K, V>,
    after: RbRootCached<K, V>,
    x: int,
    y: int,
) -> bool {
    let old_nodes = before.nodes@;
    let nodes = after.nodes@;
    let up = node(old_nodes, x).parent;
    let middle = node(old_nodes, y).right;
    &&& nodes.len() == old_nodes.len()
    &&& forall|i: int| #[trigger] live(nodes, i) == live(old_nodes, i)
    &&& forall|i: int|
        #[trigger] live(nodes, i) ==> {
            let n = node(nodes, i);
            let o = node(old_nodes, i);
            &&& n.key == o.key
            &&& n.value == o.value
            &&& n.color == o.color
            &&& n.right == if i == y {
                Some(x as usize)
            } else if o.right == Some(x as usize) {
                Some(y as usize)
            } else {
                o.right
            }
            &&& n.left == if i == x {
                middle
            } else if o.left == Some(x as usize) {
                Some(y as usize)
            } else {
                o.left
            }
            &&& n.parent == if i == x {
                Some(y as usize)
            } else if i == y {
                up
            } else if middle == Some(i as usize) {
                Some(x as usize)
            } else {
                o.parent
            }
        }
    &&& after.root == if up is None {
        Some(y as usize)
    } else {
        before.root
    }
    &&& after.leftmost == before.leftmost
    &&& after.free_slots == before.free_slots
    &&& after.len == before.len
    &&& after.shape@.order == before.shape@.order
    &&& after.shape@.pos == before.shape@.pos
    &&& after.shape@.bh == before.shape@.bh
}

/// A live node and its neighbours are linked.
proof fn lemma_around<K, V>(
    nodes: Seq<Option<RbNode<K, V>>>,
    s: Shape,
    root: Option<usize>,
    i: int,
)
    requires
        linked(nodes, s, root),
        live(nodes, i),
    ensures
        node_linked(nodes, s, root, i),
        node(nodes, i).left matches Some(j) ==> live(nodes, j as int) && j != i && node_linked(
            nodes,
            s,
            root,
            j as int,
        ),
        node(nodes, i).right matches Some(j) ==> live(nodes, j as int) && j != i && node_linked(
            nodes,
            s,
            root,
            j as int,
        ),
        node(nodes, i).parent matches Some(j) ==> live(nodes, j as int) && j != i && node_linked(
            nodes,
            s,
            root,
            j as int,
        ),
{
    assert(node_linked(nodes, s, root, i));
    if let Some(j) = node(nodes, i).left {
        assert(node_linked(nodes, s, root, j as int));
    }
    if let Some(j) = node(nodes, i).right {
        assert(node_linked(nodes, s, root, j as int));
    }
    if let Some(j) = node(nodes, i).parent {
        assert(node_linked(nodes, s, root, j as int));
    }
}

/// Turning left keeps the tree linked in the same order.
proof fn lemma_turned_left_linked<K, V>(
    before: RbRootCached<K, V>,
    after: RbRootCached<K, V>,
    x: int,
    y: int,
)
    requires
        linked(before.nodes@, before.shape@, before.root),
        live(before.nodes@, x),
        node(before.nodes@, x).right == Some(y as usize),
        0 <= y <= usize::MAX,
        turned_left(before, after, x, y),
        after.shape@.lo == before.shape@.lo.update(y, before.shape@.lo[x]),
        after.shape@.hi == before.shape@.hi.update(x, before.shape@.pos[y]),
    ensures
        linked(after.nodes@, after.shape@, after.root),
{
    let on = before.nodes@;
    let os = before.shape@;
    let n = after.nodes@;
    let s = after.shape@;
    lemma_around(on, os, before.root, x);
    lemma_around(on, os, before.root, y);
    assert forall|i: int| live(n, i) implies #[trigger] node_linked(n, s, after.root, i) by {
        assert(live(on, i));
        lemma_around(on, os, before.root, i);
        let o = node(on, i);
        if let Some(l) = o.left {
            assert(live(n, l as int));
        }
        if let Some(r) = o.right {
            assert(live(n, r as int));
        }
        if let Some(p) = o.parent {
            assert(live(n, p as int));
        }
        assert(live(n, x));
        assert(live(n, y));
        if let Some(m) = node(on, y).left {
            assert(live(n, m as int));
        }
        if let Some(u) = node(on, x).parent {
            assert(live(n, u as int));
        }
    }
    assert forall|p: int| 0 <= p < s.order.len() implies live(n, #[trigger] s.order[p])
        && s.pos[s.order[p]] == p by {
        assert(live(on, os.order[p]));
    }
    if let Some(r) = before.root {
        assert(live(on, r as int));
        assert(live(n, r as int));
    }
    assert(live(n, y));
}

/// Turning right keeps the tree linked in the same order.
proof fn lemma_turned_right_linked<K, V>(
    before: RbRootCached<K, V>,
    after: RbRootCached<K, V>,
    x: int,
    y: int,
)
    requires
        linked(before.nodes@, before.shape@, before.root),
        live(before.nodes@, x),
        node(before.nodes@, x).left == Some(y as usize),
        0 <= y <= usize::MAX,
        turned_right(before, after, x, y),
        after.shape@.lo == before.shape@.lo.update(x, before.shape@.pos[y] + 1),
        after.shape@.hi == before.shape@.hi.update(y, before.shape@.hi[x]),
    ensures
        linked(after.nodes@, after.shape@, after.root),
{
    let on = before.nodes@;
    let os = before.shape@;
    let n = after.nodes@;
    let s = after.shape@;
    lemma_around(on, os, before.root, x);
    lemma_around(on, os, before.root, y);
    assert forall|i: int| live(n, i) implies #[trigger] node_linked(n, s, after.root, i) by {
        assert(live(on, i));
        lemma_around(on, os, before.root, i);
        let o = node(on, i);
        if let Some(l) = o.right {
            assert(live(n, l as int));
        }
        if let Some(r) = o.left {
            assert(live(n, r as int));
        }
        if let Some(p) = o.parent {
            assert(live(n, p as int));
        }
        assert(live(n, x));
        assert(live(n, y));
        if let Some(m) = node(on, y).right {
            assert(live(n, m as int));
        }
        if let Some(u) = node(on, x).parent {
            assert(live(n, u as int));
        }
    }
    assert forall|p: int| 0 <= p < s.order.len() implies live(n, #[trigger] s.order[p])
        && s.pos[s.order[p]] == p by {
        assert(live(on, os.order[p]));
    }
    if let Some(r) = before.root {
        assert(live(on, r as int));
        assert(live(n, r as int));
    }
    assert(live(n, y));
}

impl<K: SortKey, V> View for RbRootCached<K, V> {
    type V = Seq<(K, V)>;

    /// The key-value pairs in order.
    closed spec fn view(&self) -> Seq<(K, V)> {
        pairs(self.nodes@, self.shape@)
    }
}

impl<K: SortKey, V> RbRootCached<K, V> {
    /// Linked, sorted and counted; says nothing of colours.
    spec fn ordered(&self) -> bool {
        &&& linked(self.nodes@, self.shape@, self.root)
        &&& keys_sorted(self.nodes@, self.shape@)
        &&& self.len == self.shape@.order.len()
        &&& self.leftmost == if self.shape@.order.len() == 0 {
            None
        } else {
            Some(self.shape@.order[0] as usize)
        }
        &&& slots_free(self.nodes@, self.free_slots@)
        &&& self.nodes@.len() == self.len + self.free_slots@.len()
    }

    /// The tree is ordered and meets the red-black rules: a red node has black
    /// children, every path from a node to a leaf holds equally many black
    /// nodes, and the root is black.
    pub closed spec fn wf(&self) -> bool {
        &&& self.ordered()
        &&& balanced(self.nodes@, self.shape@, None)
        &&& reds_fine(self.nodes@, None)
        &&& color_of(self.nodes@, self.root) == RbColor::Black
    }

    /// Slots that the arena has, used or free.
    pub closed spec fn slots(&self) -> nat {
        self.nodes@.len()
    }

    /// The slot of the arena that pair `j` is in.
    pub closed spec fn slot_of(&self, j: int) -> int {
        self.shape@.order[j]
    }

    /// Makes an empty tree.
    pub fn new() -> (tree: Self)
        ensures
            tree.wf(),
            tree@ == Seq::<(K, V)>::empty(),
            tree.slots() == 0,
    {
        RbRootCached {
            root: None,
            leftmost: None,
            nodes: Vec::new(),
            free_slots: Vec::new(),
            len: 0,
            shape: Ghost(
                Shape {
                    order: Seq::empty(),
                    pos: Seq::empty(),
                    lo: Seq::empty(),
                    hi: Seq::empty(),
                    bh: Seq::empty(),
                },
            ),
        }
    }

    /// Tells whether the tree holds nothing.
    pub fn is_empty(&self) -> (empty: bool)
        requires
            self.wf(),
        ensures
            empty == (self@.len() == 0),
    {
        self.len == 0
    }

    /// Returns the value of the first pair.
    pub fn first(&self) -> (value: Option<&V>)
        requires
            self.wf(),
        ensures
            self@.len() == 0 ==> value is None,
            self@.len() > 0 ==> value == Some(&self@[0].1),
    {
        match self.leftmost {
            None => None,
            Some(i) => match &self.nodes[i] {
                None => None,
                Some(n) => Some(&n.value),
            },
        }
    }

    /// Returns the key of the first pair.
    pub fn first_key(&self) -> (key: Option<K>)
        requires
            self.wf(),
        ensures
            self@.len() == 0 ==> key is None,
            self@.len() > 0 ==> key == Some(self@[0].0),
    {
        match self.leftmost {
            None => None,
            Some(i) => match &self.nodes[i] {
                None => None,
                Some(n) => Some(n.key),
            },
        }
    }

    /// Returns the node of the subtree at `start` that comes first.
    fn minimum(&self, start: usize) -> (least: usize)
        requires
            linked(self.nodes@, self.shape@, self.root),
            live(self.nodes@, start as int),
        ensures
            live(self.nodes@, least as int),
            self.shape@.pos[least as int] == self.shape@.lo[start as int],
            self.shape@.lo[least as int] == self.shape@.lo[start as int],
            node(self.nodes@, least as int).left is None,
    {
        let mut at: usize = start;
        proof {
            lemma_around(self.nodes@, self.shape@, self.root, at as int);
        }
        loop
            invariant
                linked(self.nodes@, self.shape@, self.root),
                live(self.nodes@, start as int),
                live(self.nodes@, at as int),
                node_linked(self.nodes@, self.shape@, self.root, at as int),
                self.shape@.lo[at as int] == self.shape@.lo[start as int],
            decreases self.shape@.hi[at as int] - self.shape@.lo[at as int],
        {
            proof {
                lemma_around(self.nodes@, self.shape@, self.root, at as int);
            }
            match self.left(at) {
                None => {
                    return at;
                },
                Some(child) => {
                    at = child;
                },
            }
        }
    }
}

impl<K: SortKey, V> RbRootCached<K, V> {
    /// Colour of a node; an empty leaf is black.
    fn color(&self, index: Option<usize>) -> (color: RbColor)
        requires
            index is Some ==> live(self.nodes@, index->Some_0 as int),
        ensures
            color == color_of(self.nodes@, index),
    {
        match index {
            None => RbColor::Black,
            Some(i) => match &self.nodes[i] {
                None => RbColor::Black,
                Some(n) => n.color,
            },
        }
    }

    fn parent(&self, index: usize) -> (parent: Option<usize>)
        requires
            live(self.nodes@, index as int),
        ensures
            parent == node(self.nodes@, index as int).parent,
    {
        match &self.nodes[index] {
            None => None,
            Some(n) => n.parent,
        }
    }

    fn left(&self, index: usize) -> (left: Option<usize>)
        requires
            live(self.nodes@, index as int),
        ensures
            left == node(self.nodes@, index as int).left,
    {
        match &self.nodes[index] {
            None => None,
            Some(n) => n.left,
        }
    }

    fn right(&self, index: usize) -> (right: Option<usize>)
        requires
            live(self.nodes@, index as int),
        ensures
            right == node(self.nodes@, index as int).right,
    {
        match &self.nodes[index] {
            None => None,
            Some(n) => n.right,
        }
    }

    /// Returns the left child of a node; an empty leaf has none.
    fn left_of(&self, index: Option<usize>) -> (left: Option<usize>)
        requires
            index is Some ==> live(self.nodes@, index->Some_0 as int),
        ensures
            left == match index {
                None => None,
                Some(i) => node(self.nodes@, i as int).left,
            },
    {
        match index {
            None => None,
            Some(i) => self.left(i),
        }
    }

    /// Returns the right child of a node; an empty leaf has none.
    fn right_of(&self, index: Option<usize>) -> (right: Option<usize>)
        requires
            index is Some ==> live(self.nodes@, index->Some_0 as int),
        ensures
            right == match index {
                None => None,
                Some(i) => node(self.nodes@, i as int).right,
            },
    {
        match index {
            None => None,
            Some(i) => self.right(i),
        }
    }

    fn set_left(&mut self, index: usize, child: Option<usize>)
        requires
            live(old(self).nodes@, index as int),
        ensures
            relinked(
                *old(self),
                *final(self),
                index as int,
                RbNode { left: child, ..node(old(self).nodes@, index as int) },
            ),
    {
        if let Some(n) = &mut self.nodes[index] {
            n.left = child;
        }
    }

    fn set_right(&mut self, index: usize, child: Option<usize>)
        requires
            live(old(self).nodes@, index as int),
        ensures
            relinked(
                *old(self),
                *final(self),
                index as int,
                RbNode { right: child, ..node(old(self).nodes@, index as int) },
            ),
    {
        if let Some(n) = &mut self.nodes[index] {
            n.right = child;
        }
    }

    /// Sets the parent of a node; an empty leaf has no parent link.
    fn set_parent(&mut self, index: Option<usize>, parent: Option<usize>)
        requires
            index is Some ==> live(old(self).nodes@, index->Some_0 as int),
        ensures
            index is None ==> *final(self) == *old(self),
            index matches Some(i) ==> relinked(
                *old(self),
                *final(self),
                i as int,
                RbNode { parent, ..node(old(self).nodes@, i as int) },
            ),
    {
        if let Some(i) = index {
            if let Some(n) = &mut self.nodes[i] {
                n.parent = parent;
            }
        }
    }

    /// Sets the colour of a node; an empty leaf stays black.
    fn set_color(&mut self, index: Option<usize>, color: RbColor)
        requires
            index is Some ==> live(old(self).nodes@, index->Some_0 as int),
        ensures
            index is None ==> *final(self) == *old(self),
            index matches Some(i) ==> relinked(
                *old(self),
                *final(self),
                i as int,
                RbNode { color, ..node(old(self).nodes@, i as int) },
            ),
    {
        if let Some(i) = index {
            if let Some(n) = &mut self.nodes[i] {
                n.color = color;
            }
        }
    }

    /// Turns the tree left at `x`: the right child takes the node's place.
    #[verifier::spinoff_prover]
    #[verifier::rlimit(60)]
    fn rotate_left(&mut self, x: usize)
        requires
            linked(old(self).nodes@, old(self).shape@, old(self).root),
            live(old(self).nodes@, x as int),
            node(old(self).nodes@, x as int).right is Some,
        ensures
            linked(final(self).nodes@, final(self).shape@, final(self).root),
            turned_left(
                *old(self),
                *final(self),
                x as int,
                node(old(self).nodes@, x as int).right->Some_0 as int,
            ),
            final(self).shape@.lo == old(self).shape@.lo.update(
                node(old(self).nodes@, x as int).right->Some_0 as int,
                old(self).shape@.lo[x as int],
            ),
            final(self).shape@.hi == old(self).shape@.hi.update(
                x as int,
                old(self).shape@.pos[node(old(self).nodes@, x as int).right->Some_0 as int],
            ),
    {
        proof {
            lemma_around(self.nodes@, self.shape@, self.root, x as int);
        }
        let pivot = self.right(x);
        if let Some(y) = pivot {
            proof {
                lemma_around(self.nodes@, self.shape@, self.root, y as int);
            }
            let middle = self.left(y);
            let parent = self.parent(x);
            self.set_right(x, middle);
            self.set_parent(middle, Some(x));
            self.set_parent(pivot, parent);
            if let Some(p) = parent {
                if self.left(p) == Some(x) {
                    self.set_left(p, pivot);
                } else {
                    self.set_right(p, pivot);
                }
            } else {
                self.root = pivot;
            }
            self.set_left(y, Some(x));
            self.set_parent(Some(x), pivot);
            let ghost s = old(self).shape@;
            self.shape = Ghost(
                Shape {
                    lo: s.lo.update(y as int, s.lo[x as int]),
                    hi: s.hi.update(x as int, s.pos[y as int]),
                    ..s
                },
            );
            proof {
                assert forall|i: int| #[trigger] live(self.nodes@, i) implies {
                    let o = node(old(self).nodes@, i);
                    &&& o.left == Some(x) ==> parent == Some(i as usize)
                    &&& o.right == Some(x) ==> parent == Some(i as usize)
                } by {
                    assert(live(old(self).nodes@, i));
                    assert(node_linked(old(self).nodes@, s, old(self).root, i));
                }
                lemma_turned_left_linked(*old(self), *self, x as int, y as int);
            }
        }
    }

    /// Turns the tree right at `x`: the left child takes the node's place.
    #[verifier::spinoff_prover]
    #[verifier::rlimit(60)]
    fn rotate_right(&mut self, x: usize)
        requires
            linked(old(self).nodes@, old(self).shape@, old(self).root),
            live(old(self).nodes@, x as int),
            node(old(self).nodes@, x as int).left is Some,
        ensures
            linked(final(self).nodes@, final(self).shape@, final(self).root),
            turned_right(
                *old(self),
                *final(self),
                x as int,
                node(old(self).nodes@, x as int).left->Some_0 as int,
            ),
            final(self).shape@.lo == old(self).shape@.lo.update(
                x as int,
                old(self).shape@.pos[node(old(self).nodes@, x as int).left->Some_0 as int] + 1,
            ),
            final(self).shape@.hi == old(self).shape@.hi.update(
                node(old(self).nodes@, x as int).left->Some_0 as int,
                old(self).shape@.hi[x as int],
            ),
    {
        proof {
            lemma_around(self.nodes@, self.shape@, self.root, x as int);
        }
        let pivot = self.left(x);
        if let Some(y) = pivot {
            proof {
                lemma_around(self.nodes@, self.shape@, self.root, y as int);
            }
            let middle = self.right(y);
            let parent = self.parent(x);
            self.set_left(x, middle);
            self.set_parent(middle, Some(x));
            self.set_parent(pivot, parent);
            if let Some(p) = parent {
                if self.right(p) == Some(x) {
                    self.set_right(p, pivot);
                } else {
                    self.set_left(p, pivot);
                }
            } else {
                self.root = pivot;
            }
            self.set_right(y, Some(x));
            self.set_parent(Some(x), pivot);
            let ghost s = old(self).shape@;
            self.shape = Ghost(
                Shape {
                    lo: s.lo.update(x as int, s.pos[y as int] + 1),
                    hi: s.hi.update(y as int, s.hi[x as int]),
                    ..s
                },
            );
            proof {
                assert forall|i: int| #[trigger] live(self.nodes@, i) implies {
                    let o = node(old(self).nodes@, i);
                    &&& o.right == Some(x) ==> parent == Some(i as usize)
                    &&& o.left == Some(x) ==> parent == Some(i as usize)
                } by {
                    assert(live(old(self).nodes@, i));
                    assert(node_linked(old(self).nodes@, s, old(self).root, i));
                }
                lemma_turned_right_linked(*old(self), *self, x as int, y as int);
            }
        }
    }
}

/// `after` is `before` with a red leaf `z` added below `parent` at position `p`.
spec fn leaf_added<K, V>(
    before: RbRootCached<K, V>,
    after: RbRootCached<K, V>,
    z: int,
    p: int,
    parent: Option<usize>,
    on_left: bool,
    leaf: RbNode<K, V>,
) -> bool {
    let on = before.nodes@;
    let n = after.nodes@;
    &&& leaf == (RbNode { parent, left: None, right: None, color: RbColor::Red, ..leaf })
    &&& live(n, z)
    &&& node(n, z) == leaf
    &&& !live(on, z)
    &&& n.len() == if z < on.len() {
        on.len()
    } else {
        on.len() + 1
    }
    &&& forall|i: int| i != z ==> #[trigger] live(n, i) == live(on, i)
    &&& forall|i: int|
        i != z && #[trigger] live(n, i) ==> {
            let o = node(on, i);
            node(n, i) == if parent == Some(i as usize) {
                if on_left {
                    RbNode { left: Some(z as usize), ..o }
                } else {
                    RbNode { right: Some(z as usize), ..o }
                }
            } else {
                o
            }
        }
    &&& after.root == if parent is None {
        Some(z as usize)
    } else {
        before.root
    }
    &&& match parent {
        None => before.root is None && p == 0,
        Some(q) => {
            &&& live(on, q as int)
            &&& if on_left {
                node(on, q as int).left is None && p == before.shape@.pos[q as int]
            } else {
                node(on, q as int).right is None && p == before.shape@.pos[q as int] + 1
            }
        },
    }
    &&& after.shape@ == shape_with_leaf(before.shape@, n.len(), z, p, parent is Some && !on_left)
}

/// The shape after a leaf `z` came in at position `p`; `behind` tells that it
/// hangs on the right of the node before that position.
spec fn shape_with_leaf(s: Shape, slots: nat, z: int, p: int, behind: bool) -> Shape {
    let first = if behind {
        p - 1
    } else {
        p
    };
    Shape {
        order: s.order.insert(p, z),
        pos: Seq::new(
            slots,
            |i: int|
                if i == z {
                    p
                } else if s.pos[i] >= p {
                    s.pos[i] + 1
                } else {
                    s.pos[i]
                },
        ),
        lo: Seq::new(
            slots,
            |i: int|
                if i == z {
                    p
                } else if s.lo[i] > first {
                    s.lo[i] + 1
                } else {
                    s.lo[i]
                },
        ),
        hi: Seq::new(
            slots,
            |i: int|
                if i == z {
                    p + 1
                } else if s.hi[i] > first {
                    s.hi[i] + 1
                } else {
                    s.hi[i]
                },
        ),
        bh: Seq::new(
            slots,
            |i: int|
                if i == z {
                    0
                } else {
                    s.bh[i]
                },
        ),
    }
}

/// Adding a leaf keeps the tree linked, with the leaf at its position.
#[verifier::spinoff_prover]
#[verifier::rlimit(60)]
proof fn lemma_leaf_added_linked<K, V>(
    before: RbRootCached<K, V>,
    after: RbRootCached<K, V>,
    z: int,
    p: int,
    parent: Option<usize>,
    on_left: bool,
    leaf: RbNode<K, V>,
)
    requires
        linked(before.nodes@, before.shape@, before.root),
        after.nodes@.len() <= usize::MAX,
        leaf_added(before, after, z, p, parent, on_left, leaf),
    ensures
        linked(after.nodes@, after.shape@, after.root),
{
    let on = before.nodes@;
    let os = before.shape@;
    let n = after.nodes@;
    let s = after.shape@;
    if let Some(q) = parent {
        lemma_around(on, os, before.root, q as int);
    }
    if let Some(r) = before.root {
        lemma_around(on, os, before.root, r as int);
    }
    assert forall|i: int| live(n, i) implies #[trigger] node_linked(n, s, after.root, i) by {
        assert(live(n, z));
        if i != z {
            assert(live(on, i));
            lemma_around(on, os, before.root, i);
            let o = node(on, i);
            if let Some(l) = o.left {
                assert(live(n, l as int));
            }
            if let Some(r) = o.right {
                assert(live(n, r as int));
            }
            if let Some(u) = o.parent {
                assert(live(n, u as int));
            }
            if let Some(q) = parent {
                assert(live(n, q as int));
            }
        } else {
            if let Some(q) = parent {
                assert(live(n, q as int));
            }
        }
    }
    assert forall|k: int| 0 <= k < s.order.len() implies live(n, #[trigger] s.order[k])
        && s.pos[s.order[k]] == k by {
        if k < p {
            assert(s.order[k] == os.order[k]);
            assert(live(on, os.order[k]));
        } else if k > p {
            assert(s.order[k] == os.order[k - 1]);
            assert(live(on, os.order[k - 1]));
        }
        assert(live(n, s.order[k]));
    }
    if let Some(r) = after.root {
        assert(live(n, r as int));
    }
}

/// A leaf at the right position keeps the keys sorted and adds its pair there.
proof fn lemma_leaf_added_pairs<K: SortKey, V>(
    before: RbRootCached<K, V>,
    after: RbRootCached<K, V>,
    z: int,
    p: int,
    parent: Option<usize>,
    on_left: bool,
    leaf: RbNode<K, V>,
)
    requires
        linked(before.nodes@, before.shape@, before.root),
        leaf_added(before, after, z, p, parent, on_left, leaf),
        keys_sorted(before.nodes@, before.shape@),
        0 <= p <= before.shape@.order.len(),
        forall|k: int|
            0 <= k < p ==> (#[trigger] key_at(before.nodes@, before.shape@, k)).rank()
                <= leaf.key.rank(),
        forall|k: int|
            p <= k < before.shape@.order.len() ==> (#[trigger] key_at(
                before.nodes@,
                before.shape@,
                k,
            )).rank() > leaf.key.rank(),
    ensures
        keys_sorted(after.nodes@, after.shape@),
        pairs(after.nodes@, after.shape@) == pairs(before.nodes@, before.shape@).insert(
            p,
            (leaf.key, leaf.value),
        ),
{
    let on = before.nodes@;
    let os = before.shape@;
    let n = after.nodes@;
    let s = after.shape@;
    assert forall|k: int| 0 <= k < s.order.len() implies node(n, #[trigger] s.order[k]).key == if k
        == p {
        leaf.key
    } else if k < p {
        key_at(on, os, k)
    } else {
        key_at(on, os, k - 1)
    } && node(n, s.order[k]).value == if k == p {
        leaf.value
    } else if k < p {
        node(on, os.order[k]).value
    } else {
        node(on, os.order[k - 1]).value
    } by {
        assert(live(n, z));
        if k < p {
            assert(live(on, os.order[k]));
            assert(live(n, os.order[k]));
        } else if k > p {
            assert(live(on, os.order[k - 1]));
            assert(live(n, os.order[k - 1]));
        }
    }
    assert forall|j: int, k: int| 0 <= j <= k < s.order.len() implies (#[trigger] key_at(
        n,
        s,
        j,
    )).rank() <= (#[trigger] key_at(n, s, k)).rank() by {
        assert(node(n, s.order[j]).key == key_at(n, s, j));
        assert(node(n, s.order[k]).key == key_at(n, s, k));
    }
    assert(pairs(n, s) =~= pairs(on, os).insert(p, (leaf.key, leaf.value)));
}

/// A red leaf leaves every path with the black nodes it had.
proof fn lemma_leaf_added_colors<K, V>(
    before: RbRootCached<K, V>,
    after: RbRootCached<K, V>,
    z: int,
    p: int,
    parent: Option<usize>,
    on_left: bool,
    leaf: RbNode<K, V>,
)
    requires
        linked(before.nodes@, before.shape@, before.root),
        leaf_added(before, after, z, p, parent, on_left, leaf),
        after.nodes@.len() <= usize::MAX,
        balanced(before.nodes@, before.shape@, None),
        reds_fine(before.nodes@, None),
    ensures
        balanced(after.nodes@, after.shape@, None),
        reds_fine(after.nodes@, Some(z as usize)),
{
    let on = before.nodes@;
    let os = before.shape@;
    let n = after.nodes@;
    let s = after.shape@;
    assert forall|i: int| live(n, i) implies #[trigger] node_balanced(n, s, None, i) by {
        if i != z {
            lemma_around(on, os, before.root, i);
            assert(node_balanced(on, os, None, i));
        }
    }
    assert forall|i: int| live(n, i) implies #[trigger] red_fine(n, Some(z as usize), i) by {
        if i != z {
            lemma_around(on, os, before.root, i);
            assert(red_fine(on, None, i));
            if let Some(l) = node(on, i).left {
                assert(live(n, l as int));
            }
            if let Some(r) = node(on, i).right {
                assert(live(n, r as int));
            }
        }
    }
}

/// The nodes hold the same pairs, whatever their links and colours.
spec fn same_items<K, V>(before: RbRootCached<K, V>, after: RbRootCached<K, V>) -> bool {
    &&& after.nodes@.len() == before.nodes@.len()
    &&& forall|i: int| #[trigger] live(after.nodes@, i) == live(before.nodes@, i)
    &&& forall|i: int|
        #[trigger] live(after.nodes@, i) ==> node(after.nodes@, i).key == node(before.nodes@, i).key
            && node(after.nodes@, i).value == node(before.nodes@, i).value
    &&& after.leftmost == before.leftmost
    &&& after.free_slots == before.free_slots
    &&& after.len == before.len
    &&& after.shape@.order == before.shape@.order
}

/// A tree that holds the same pairs in the same order is ordered.
proof fn lemma_same_items<K: SortKey, V>(before: RbRootCached<K, V>, after: RbRootCached<K, V>)
    requires
        before.ordered(),
        same_items(before, after),
        linked(after.nodes@, after.shape@, after.root),
    ensures
        after.ordered(),
        after@ == before@,
        after.slots() == before.slots(),
{
    let on = before.nodes@;
    let n = after.nodes@;
    let order = after.shape@.order;
    assert forall|k: int| 0 <= k < order.len() implies node(n, #[trigger] order[k]).key == node(
        on,
        order[k],
    ).key && node(n, order[k]).value == node(on, order[k]).value by {
        assert(live(n, order[k]));
    }
    assert forall|j: int, k: int| 0 <= j <= k < order.len() implies (#[trigger] key_at(
        n,
        after.shape@,
        j,
    )).rank() <= (#[trigger] key_at(n, after.shape@, k)).rank() by {
        assert(key_at(n, after.shape@, j) == key_at(on, before.shape@, j));
        assert(key_at(n, after.shape@, k) == key_at(on, before.shape@, k));
    }
    assert(after@ =~= before@);
    assert forall|k: int| 0 <= k < after.free_slots@.len() implies #[trigger] after.free_slots@[k]
        < n.len() && n[after.free_slots@[k] as int] is None by {
        assert(live(n, after.free_slots@[k] as int) == live(on, after.free_slots@[k] as int));
    }
}

/// `after` is `before` but for the colours of some nodes and the black counts.
spec fn recolored<K, V>(before: RbRootCached<K, V>, after: RbRootCached<K, V>) -> bool {
    let on = before.nodes@;
    let n = after.nodes@;
    &&& same_items(before, after)
    &&& forall|i: int|
        #[trigger] live(n, i) ==> node(n, i) == (RbNode { color: node(n, i).color, ..node(on, i) })
    &&& after.root == before.root
    &&& after.shape@ == (Shape { bh: after.shape@.bh, ..before.shape@ })
    &&& after.shape@.bh.len() == before.shape@.bh.len()
}

/// New colours leave the links alone.
proof fn lemma_recolored_linked<K, V>(before: RbRootCached<K, V>, after: RbRootCached<K, V>)
    requires
        linked(before.nodes@, before.shape@, before.root),
        recolored(before, after),
    ensures
        linked(after.nodes@, after.shape@, after.root),
{
    let on = before.nodes@;
    let os = before.shape@;
    let n = after.nodes@;
    let s = after.shape@;
    assert forall|i: int| live(n, i) implies #[trigger] node_linked(n, s, after.root, i) by {
        lemma_around(on, os, before.root, i);
        if let Some(j) = node(on, i).left {
            assert(live(n, j as int));
        }
        if let Some(j) = node(on, i).right {
            assert(live(n, j as int));
        }
        if let Some(j) = node(on, i).parent {
            assert(live(n, j as int));
        }
    }
    assert forall|k: int| 0 <= k < s.order.len() implies live(n, #[trigger] s.order[k])
        && s.pos[s.order[k]] == k by {
        assert(live(on, os.order[k]));
    }
    if let Some(r) = before.root {
        assert(live(n, r as int));
    }
}

/// A red parent `p` and a red uncle `u` take the black of the grandparent `g`.
proof fn lemma_push_up<K, V>(
    before: RbRootCached<K, V>,
    after: RbRootCached<K, V>,
    z: int,
    p: int,
    u: int,
    g: int,
)
    requires
        linked(before.nodes@, before.shape@, before.root),
        balanced(before.nodes@, before.shape@, None),
        reds_fine(before.nodes@, Some(z as usize)),
        recolored(before, after),
        live(before.nodes@, z),
        live(before.nodes@, p),
        live(before.nodes@, u),
        live(before.nodes@, g),
        p != u,
        node(before.nodes@, z).parent == Some(p as usize),
        node(before.nodes@, p).parent == Some(g as usize),
        node(before.nodes@, u).parent == Some(g as usize),
        node(before.nodes@, p).color == RbColor::Red,
        node(before.nodes@, u).color == RbColor::Red,
        forall|i: int|
            #[trigger] live(after.nodes@, i) ==> node(after.nodes@, i).color == if i == p || i
                == u {
                RbColor::Black
            } else if i == g {
                RbColor::Red
            } else {
                node(before.nodes@, i).color
            },
        after.shape@.bh == before.shape@.bh.update(p, before.shape@.bh[p] + 1).update(
            u,
            before.shape@.bh[u] + 1,
        ),
    ensures
        balanced(after.nodes@, after.shape@, None),
        reds_fine(after.nodes@, Some(g as usize)),
{
    let on = before.nodes@;
    let os = before.shape@;
    let n = after.nodes@;
    let s = after.shape@;
    lemma_around(on, os, before.root, z);
    lemma_around(on, os, before.root, p);
    lemma_around(on, os, before.root, u);
    lemma_around(on, os, before.root, g);
    assert(red_fine(on, Some(z as usize), g));
    assert(node(on, g).color == RbColor::Black);
    assert forall|i: int| live(n, i) implies #[trigger] node_balanced(n, s, None, i) by {
        assert(live(on, i));
        lemma_around(on, os, before.root, i);
        assert(node_balanced(on, os, None, i));
    }
    assert forall|i: int| live(n, i) implies #[trigger] red_fine(n, Some(g as usize), i) by {
        assert(live(on, i));
        lemma_around(on, os, before.root, i);
        assert(red_fine(on, Some(z as usize), i));
        if let Some(j) = node(on, i).left {
            assert(live(n, j as int));
        }
        if let Some(j) = node(on, i).right {
            assert(live(n, j as int));
        }
    }
}

/// Turning left at a red node `x` with a red right child `z` makes the pair lean outwards.
proof fn lemma_lean_left<K, V>(
    before: RbRootCached<K, V>,
    after: RbRootCached<K, V>,
    x: int,
    z: int,
)
    requires
        linked(before.nodes@, before.shape@, before.root),
        balanced(before.nodes@, before.shape@, None),
        reds_fine(before.nodes@, Some(z as usize)),
        live(before.nodes@, x),
        live(before.nodes@, z),
        node(before.nodes@, x).right == Some(z as usize),
        node(before.nodes@, x).color == RbColor::Red,
        node(before.nodes@, z).color == RbColor::Red,
        turned_left(before, after, x, z),
    ensures
        balanced(after.nodes@, after.shape@, None),
        reds_fine(after.nodes@, Some(x as usize)),
{
    let on = before.nodes@;
    let os = before.shape@;
    let n = after.nodes@;
    let s = after.shape@;
    lemma_around(on, os, before.root, x);
    lemma_around(on, os, before.root, z);
    assert(node_balanced(on, os, None, x));
    assert(node_balanced(on, os, None, z));
    assert(red_fine(on, Some(z as usize), x));
    assert(red_fine(on, Some(z as usize), z));
    assert forall|i: int| live(n, i) implies #[trigger] node_balanced(n, s, None, i) by {
        assert(live(on, i));
        lemma_around(on, os, before.root, i);
        assert(node_balanced(on, os, None, i));
    }
    assert forall|i: int| live(n, i) implies #[trigger] red_fine(n, Some(x as usize), i) by {
        assert(live(on, i));
        lemma_around(on, os, before.root, i);
        assert(red_fine(on, Some(z as usize), i));
        assert(live(n, z));
        assert(live(n, x));
        if let Some(j) = node(on, i).left {
            assert(live(n, j as int));
        }
        if let Some(j) = node(on, i).right {
            assert(live(n, j as int));
        }
        if let Some(j) = node(on, z).left {
            assert(live(n, j as int));
        }
    }
}

/// Turning right at a red node `x` with a red left child `z` makes the pair lean outwards.
proof fn lemma_lean_right<K, V>(
    before: RbRootCached<K, V>,
    after: RbRootCached<K, V>,
    x: int,
    z: int,
)
    requires
        linked(before.nodes@, before.shape@, before.root),
        balanced(before.nodes@, before.shape@, None),
        reds_fine(before.nodes@, Some(z as usize)),
        live(before.nodes@, x),
        live(before.nodes@, z),
        node(before.nodes@, x).left == Some(z as usize),
        node(before.nodes@, x).color == RbColor::Red,
        node(before.nodes@, z).color == RbColor::Red,
        turned_right(before, after, x, z),
    ensures
        balanced(after.nodes@, after.shape@, None),
        reds_fine(after.nodes@, Some(x as usize)),
{
    let on = before.nodes@;
    let os = before.shape@;
    let n = after.nodes@;
    let s = after.shape@;
    lemma_around(on, os, before.root, x);
    lemma_around(on, os, before.root, z);
    assert(node_balanced(on, os, None, x));
    assert(node_balanced(on, os, None, z));
    assert(red_fine(on, Some(z as usize), x));
    assert(red_fine(on, Some(z as usize), z));
    assert forall|i: int| live(n, i) implies #[trigger] node_balanced(n, s, None, i) by {
        assert(live(on, i));
        lemma_around(on, os, before.root, i);
        assert(node_balanced(on, os, None, i));
    }
    assert forall|i: int| live(n, i) implies #[trigger] red_fine(n, Some(x as usize), i) by {
        assert(live(on, i));
        lemma_around(on, os, before.root, i);
        assert(red_fine(on, Some(z as usize), i));
        assert(live(n, z));
        assert(live(n, x));
        if let Some(j) = node(on, i).right {
            assert(live(n, j as int));
        }
        if let Some(j) = node(on, i).left {
            assert(live(n, j as int));
        }
        if let Some(j) = node(on, z).right {
            assert(live(n, j as int));
        }
    }
}

/// With a black uncle, the red parent `p` of `z` takes the place and the colour
/// of the grandparent `g`, which goes below it to the right.
proof fn lemma_settle_right<K, V>(
    t0: RbRootCached<K, V>,
    t1: RbRootCached<K, V>,
    t2: RbRootCached<K, V>,
    z: int,
    p: int,
    g: int,
)
    requires
        linked(t0.nodes@, t0.shape@, t0.root),
        balanced(t0.nodes@, t0.shape@, None),
        reds_fine(t0.nodes@, Some(z as usize)),
        live(t0.nodes@, z),
        live(t0.nodes@, p),
        live(t0.nodes@, g),
        node(t0.nodes@, p).left == Some(z as usize),
        node(t0.nodes@, g).left == Some(p as usize),
        node(t0.nodes@, z).color == RbColor::Red,
        node(t0.nodes@, p).color == RbColor::Red,
        color_of(t0.nodes@, node(t0.nodes@, g).right) == RbColor::Black,
        recolored(t0, t1),
        forall|i: int|
            #[trigger] live(t1.nodes@, i) ==> node(t1.nodes@, i).color == if i == p {
                RbColor::Black
            } else if i == g {
                RbColor::Red
            } else {
                node(t0.nodes@, i).color
            },
        t1.shape@.bh == t0.shape@.bh.update(p, t0.shape@.bh[p] + 1).update(
            g,
            t0.shape@.bh[g] - 1,
        ),
        turned_right(t1, t2, g, p),
    ensures
        balanced(t2.nodes@, t2.shape@, None),
        reds_fine(t2.nodes@, Some(z as usize)),
        live(t2.nodes@, z),
        node(t2.nodes@, z).parent == Some(p as usize),
        node(t2.nodes@, z).color == RbColor::Red,
        node(t2.nodes@, p).color == RbColor::Black,
{
    let on = t0.nodes@;
    let os = t0.shape@;
    let mid = t1.nodes@;
    let n = t2.nodes@;
    let s = t2.shape@;
    lemma_around(on, os, t0.root, z);
    lemma_around(on, os, t0.root, p);
    lemma_around(on, os, t0.root, g);
    assert(live(mid, z) && live(mid, p) && live(mid, g));
    assert(live(n, z) && live(n, p) && live(n, g));
    assert(node_balanced(on, os, None, p));
    assert(node_balanced(on, os, None, g));
    assert(red_fine(on, Some(z as usize), p));
    assert(red_fine(on, Some(z as usize), g));
    assert(node(on, g).color == RbColor::Black);
    assert forall|i: int| live(n, i) implies #[trigger] node_balanced(n, s, None, i) by {
        assert(live(mid, i));
        assert(live(on, i));
        lemma_around(on, os, t0.root, i);
        assert(node_balanced(on, os, None, i));
    }
    assert forall|i: int| live(n, i) implies #[trigger] red_fine(n, Some(z as usize), i) by {
        assert(live(mid, i));
        assert(live(on, i));
        lemma_around(on, os, t0.root, i);
        assert(red_fine(on, Some(z as usize), i));
        if let Some(j) = node(on, i).left {
            assert(live(n, j as int) && live(mid, j as int));
        }
        if let Some(j) = node(on, i).right {
            assert(live(n, j as int) && live(mid, j as int));
        }
        if let Some(j) = node(on, p).right {
            assert(live(n, j as int) && live(mid, j as int));
        }
        if let Some(j) = node(on, g).right {
            assert(live(n, j as int) && live(mid, j as int));
        }
    }
}

/// With a black uncle, the red parent `p` of `z` takes the place and the colour
/// of the grandparent `g`, which goes below it to the left.
proof fn lemma_settle_left<K, V>(
    t0: RbRootCached<K, V>,
    t1: RbRootCached<K, V>,
    t2: RbRootCached<K, V>,
    z: int,
    p: int,
    g: int,
)
    requires
        linked(t0.nodes@, t0.shape@, t0.root),
        balanced(t0.nodes@, t0.shape@, None),
        reds_fine(t0.nodes@, Some(z as usize)),
        live(t0.nodes@, z),
        live(t0.nodes@, p),
        live(t0.nodes@, g),
        node(t0.nodes@, p).right == Some(z as usize),
        node(t0.nodes@, g).right == Some(p as usize),
        node(t0.nodes@, z).color == RbColor::Red,
        node(t0.nodes@, p).color == RbColor::Red,
        color_of(t0.nodes@, node(t0.nodes@, g).left) == RbColor::Black,
        recolored(t0, t1),
        forall|i: int|
            #[trigger] live(t1.nodes@, i) ==> node(t1.nodes@, i).color == if i == p {
                RbColor::Black
            } else if i == g {
                RbColor::Red
            } else {
                node(t0.nodes@, i).color
            },
        t1.shape@.bh == t0.shape@.bh.update(p, t0.shape@.bh[p] + 1).update(
            g,
            t0.shape@.bh[g] - 1,
        ),
        turned_left(t1, t2, g, p),
    ensures
        balanced(t2.nodes@, t2.shape@, None),
        reds_fine(t2.nodes@, Some(z as usize)),
        live(t2.nodes@, z),
        node(t2.nodes@, z).parent == Some(p as usize),
        node(t2.nodes@, z).color == RbColor::Red,
        node(t2.nodes@, p).color == RbColor::Black,
{
    let on = t0.nodes@;
    let os = t0.shape@;
    let mid = t1.nodes@;
    let n = t2.nodes@;
    let s = t2.shape@;
    lemma_around(on, os, t0.root, z);
    lemma_around(on, os, t0.root, p);
    lemma_around(on, os, t0.root, g);
    assert(live(mid, z) && live(mid, p) && live(mid, g));
    assert(live(n, z) && live(n, p) && live(n, g));
    assert(node_balanced(on, os, None, p));
    assert(node_balanced(on, os, None, g));
    assert(red_fine(on, Some(z as usize), p));
    assert(red_fine(on, Some(z as usize), g));
    assert(node(on, g).color == RbColor::Black);
    assert forall|i: int| live(n, i) implies #[trigger] node_balanced(n, s, None, i) by {
        assert(live(mid, i));
        assert(live(on, i));
        lemma_around(on, os, t0.root, i);
        assert(node_balanced(on, os, None, i));
    }
    assert forall|i: int| live(n, i) implies #[trigger] red_fine(n, Some(z as usize), i) by {
        assert(live(mid, i));
        assert(live(on, i));
        lemma_around(on, os, t0.root, i);
        assert(red_fine(on, Some(z as usize), i));
        if let Some(j) = node(on, i).right {
            assert(live(n, j as int) && live(mid, j as int));
        }
        if let Some(j) = node(on, i).left {
            assert(live(n, j as int) && live(mid, j as int));
        }
        if let Some(j) = node(on, p).left {
            assert(live(n, j as int) && live(mid, j as int));
        }
        if let Some(j) = node(on, g).left {
            assert(live(n, j as int) && live(mid, j as int));
        }
    }
}

impl<K: SortKey, V> RbRootCached<K, V> {
    /// Adds a pair behind the pairs whose keys do not come after its own.
    pub fn insert(&mut self, key: K, value: V)
        requires
            old(self).wf(),
            old(self)@.len() < usize::MAX,
        ensures
            final(self).wf(),
            exists|k: int|
                0 <= k <= old(self)@.len() && final(self)@ == #[trigger] old(self)@.insert(
                    k,
                    (key, value),
                ) && (forall|j: int|
                    0 <= j < k ==> (#[trigger] old(self)@[j]).0.rank() <= key.rank()) && (forall|
                    j: int,
                |
                    k <= j < old(self)@.len() ==> (#[trigger] old(self)@[j]).0.rank() > key.rank()),
            final(self).slots() == if old(self).slots() > old(self)@.len() {
                old(self).slots()
            } else {
                old(self).slots() + 1
            },
    {
        let ghost nodes = self.nodes@;
        let ghost s = self.shape@;
        let ghost root = self.root;
        let ghost mut a: int = 0;
        let ghost mut b: int = s.order.len() as int;
        let mut parent: Option<usize> = None;
        let mut on_left: bool = false;
        let mut cursor: Option<usize> = self.root;
        proof {
            if let Some(r) = root {
                lemma_around(nodes, s, root, r as int);
            }
        }
        while cursor.is_some()
            invariant
                *self == *old(self),
                nodes == self.nodes@,
                s == self.shape@,
                root == self.root,
                linked(nodes, s, root),
                keys_sorted(nodes, s),
                0 <= a <= b <= s.order.len(),
                match cursor {
                    None => a == b,
                    Some(c) => live(nodes, c as int) && s.lo[c as int] == a && s.hi[c as int] == b,
                },
                match parent {
                    None => cursor == root,
                    Some(q) => live(nodes, q as int) && if on_left {
                        cursor == node(nodes, q as int).left && b == s.pos[q as int]
                    } else {
                        cursor == node(nodes, q as int).right && a == s.pos[q as int] + 1
                    },
                },
                parent is None ==> a == 0 && b == s.order.len() && root == self.root,
                forall|k: int|
                    0 <= k < a ==> (#[trigger] key_at(nodes, s, k)).rank() <= key.rank(),
                forall|k: int|
                    b <= k < s.order.len() ==> (#[trigger] key_at(nodes, s, k)).rank()
                        > key.rank(),
            decreases b - a,
        {
            if let Some(index) = cursor {
                proof {
                    lemma_around(nodes, s, root, index as int);
                    assert(key_at(nodes, s, s.pos[index as int]) == node(nodes, index as int).key);
                }
                parent = Some(index);
                on_left = self.key_is_before(&key, index);
                if on_left {
                    cursor = self.left(index);
                    proof {
                        b = s.pos[index as int];
                    }
                } else {
                    cursor = self.right(index);
                    proof {
                        a = s.pos[index as int] + 1;
                    }
                }
            }
        }
        let ghost leaf = RbNode {
            key,
            value,
            parent,
            left: None,
            right: None,
            color: RbColor::Red,
        };
        let new = RbNode { key, value, parent, left: None, right: None, color: RbColor::Red };
        let index: usize = match self.free_slots.pop() {
            Some(slot) => {
                self.nodes[slot] = Some(new);
                slot
            },
            None => {
                let slot: usize = self.nodes.len();
                self.nodes.push(Some(new));
                slot
            },
        };
        let early: bool = match self.leftmost {
            None => true,
            Some(l) => self.key_is_before(&key, l),
        };
        if let Some(q) = parent {
            if on_left {
                self.set_left(q, Some(index));
            } else {
                self.set_right(q, Some(index));
            }
        } else {
            self.root = Some(index);
        }
        if early {
            self.leftmost = Some(index);
        }
        self.len = self.len + 1;
        self.shape = Ghost(
            shape_with_leaf(s, self.nodes@.len(), index as int, a, parent is Some && !on_left),
        );
        proof {
            if let Some(q) = parent {
                lemma_around(nodes, s, root, q as int);
            }
            assert(self.nodes.len() <= usize::MAX);
            lemma_leaf_added_linked(*old(self), *self, index as int, a, parent, on_left, leaf);
            lemma_leaf_added_pairs(*old(self), *self, index as int, a, parent, on_left, leaf);
            lemma_leaf_added_colors(*old(self), *self, index as int, a, parent, on_left, leaf);
            assert forall|j: int| 0 <= j < a implies (#[trigger] old(self)@[j]).0.rank()
                <= key.rank() by {
                assert(key_at(nodes, s, j) == old(self)@[j].0);
            }
            assert forall|j: int| a <= j < s.order.len() implies (#[trigger] old(self)@[j]).0.rank()
                > key.rank() by {
                assert(key_at(nodes, s, j) == old(self)@[j].0);
            }
        }
        proof {
            let t = self.shape@;
            if s.order.len() > 0 {
                assert(live(nodes, s.order[0]));
                assert(key_at(nodes, s, 0) == node(nodes, s.order[0]).key);
                assert(early == (a == 0));
            }
            assert(t.order[0] == if a == 0 {
                index as int
            } else {
                s.order[0]
            });
            assert(slots_free(self.nodes@, self.free_slots@)) by {
                assert forall|k: int| 0 <= k < self.free_slots@.len() implies
                    #[trigger] self.free_slots@[k] < self.nodes@.len()
                    && self.nodes@[self.free_slots@[k] as int] is None by {
                    assert(old(self).free_slots@[k] == self.free_slots@[k]);
                    assert(!live(nodes, self.free_slots@[k] as int));
                    assert(live(self.nodes@, self.free_slots@[k] as int) == live(
                        nodes,
                        self.free_slots@[k] as int,
                    ));
                }
            }
            assert(self.ordered());
        }
        self.insert_fixup(index);
        assert(self@ == old(self)@.insert(a, (key, value)));
    }

    /// Tells whether `key` comes before the key of a node.
    fn key_is_before(&self, key: &K, index: usize) -> (b: bool)
        requires
            live(self.nodes@, index as int),
        ensures
            b == (key.rank() < node(self.nodes@, index as int).key.rank()),
    {
        match &self.nodes[index] {
            None => false,
            Some(n) => key.before(&n.key),
        }
    }

    /// Makes a red parent and a red uncle black, and the grandparent red.
    fn push_up(&mut self, z: usize, p: usize, uncle: Option<usize>, g: usize)
        requires
            old(self).ordered(),
            balanced(old(self).nodes@, old(self).shape@, None),
            reds_fine(old(self).nodes@, Some(z)),
            live(old(self).nodes@, z as int),
            live(old(self).nodes@, p as int),
            live(old(self).nodes@, g as int),
            uncle is Some,
            live(old(self).nodes@, uncle->Some_0 as int),
            uncle != Some(p),
            node(old(self).nodes@, z as int).parent == Some(p),
            node(old(self).nodes@, p as int).parent == Some(g),
            node(old(self).nodes@, uncle->Some_0 as int).parent == Some(g),
            node(old(self).nodes@, p as int).color == RbColor::Red,
            color_of(old(self).nodes@, uncle) == RbColor::Red,
            color_of(old(self).nodes@, old(self).root) == RbColor::Black,
        ensures
            final(self).ordered(),
            final(self)@ == old(self)@,
            final(self).slots() == old(self).slots(),
            balanced(final(self).nodes@, final(self).shape@, None),
            reds_fine(final(self).nodes@, Some(g)),
            live(final(self).nodes@, g as int),
            node(final(self).nodes@, g as int).color == RbColor::Red,
            color_of(final(self).nodes@, final(self).root) == RbColor::Red ==> final(self).root
                == Some(g),
            final(self).shape@.lo == old(self).shape@.lo,
            final(self).shape@.hi == old(self).shape@.hi,
            final(self).shape@.order == old(self).shape@.order,
    {
        let ghost before = *self;
        self.set_color(Some(p), RbColor::Black);
        self.set_color(uncle, RbColor::Black);
        self.set_color(Some(g), RbColor::Red);
        let ghost u = uncle->Some_0 as int;
        let ghost s = before.shape@;
        self.shape = Ghost(
            Shape { bh: s.bh.update(p as int, s.bh[p as int] + 1).update(u, s.bh[u] + 1), ..s },
        );
        proof {
            lemma_around(before.nodes@, before.shape@, before.root, p as int);
            lemma_around(before.nodes@, before.shape@, before.root, g as int);
            lemma_recolored_linked(before, *self);
            lemma_same_items(before, *self);
            lemma_push_up(before, *self, z as int, p as int, u, g as int);
            assert(live(self.nodes@, g as int));
            if let Some(r) = before.root {
                assert(live(before.nodes@, r as int));
                assert(live(self.nodes@, r as int));
            }
        }
    }

    /// Makes the red left parent of `z` black, its grandparent red, and turns right there.
    fn settle_right(&mut self, z: usize, g: usize)
        requires
            old(self).ordered(),
            balanced(old(self).nodes@, old(self).shape@, None),
            reds_fine(old(self).nodes@, Some(z)),
            live(old(self).nodes@, z as int),
            live(old(self).nodes@, g as int),
            node(old(self).nodes@, g as int).left is Some,
            node(old(self).nodes@, node(old(self).nodes@, g as int).left->Some_0 as int).left
                == Some(z),
            node(old(self).nodes@, z as int).color == RbColor::Red,
            color_of(old(self).nodes@, node(old(self).nodes@, g as int).left) == RbColor::Red,
            color_of(old(self).nodes@, node(old(self).nodes@, g as int).right) == RbColor::Black,
            color_of(old(self).nodes@, old(self).root) == RbColor::Black,
        ensures
            final(self).ordered(),
            final(self)@ == old(self)@,
            final(self).slots() == old(self).slots(),
            balanced(final(self).nodes@, final(self).shape@, None),
            reds_fine(final(self).nodes@, Some(z)),
            live(final(self).nodes@, z as int),
            node(final(self).nodes@, z as int).color == RbColor::Red,
            color_of(final(self).nodes@, node(final(self).nodes@, z as int).parent)
                == RbColor::Black,
            color_of(final(self).nodes@, final(self).root) == RbColor::Black,
    {
        let ghost t0 = *self;
        proof {
            lemma_around(t0.nodes@, t0.shape@, t0.root, g as int);
        }
        if let Some(p) = self.left(g) {
            proof {
                lemma_around(t0.nodes@, t0.shape@, t0.root, p as int);
                assert(red_fine(t0.nodes@, Some(z), g as int));
            }
            self.set_color(Some(p), RbColor::Black);
            self.set_color(Some(g), RbColor::Red);
            let ghost s = t0.shape@;
            self.shape = Ghost(
                Shape {
                    bh: s.bh.update(p as int, s.bh[p as int] + 1).update(
                        g as int,
                        s.bh[g as int] - 1,
                    ),
                    ..s
                },
            );
            let ghost t1 = *self;
            proof {
                lemma_recolored_linked(t0, t1);
                lemma_same_items(t0, t1);
                assert(live(t1.nodes@, g as int));
                assert(live(t1.nodes@, p as int));
            }
            self.rotate_right(g);
            proof {
                lemma_same_items(t1, *self);
                lemma_settle_right(t0, t1, *self, z as int, p as int, g as int);
                assert(live(self.nodes@, p as int));
                if let Some(r) = t0.root {
                    assert(live(t0.nodes@, r as int));
                    assert(live(t1.nodes@, r as int));
                    assert(live(self.nodes@, r as int));
                }
            }
        }
    }

    /// Makes the red right parent of `z` black, its grandparent red, and turns left there.
    fn settle_left(&mut self, z: usize, g: usize)
        requires
            old(self).ordered(),
            balanced(old(self).nodes@, old(self).shape@, None),
            reds_fine(old(self).nodes@, Some(z)),
            live(old(self).nodes@, z as int),
            live(old(self).nodes@, g as int),
            node(old(self).nodes@, g as int).right is Some,
            node(old(self).nodes@, node(old(self).nodes@, g as int).right->Some_0 as int).right
                == Some(z),
            node(old(self).nodes@, z as int).color == RbColor::Red,
            color_of(old(self).nodes@, node(old(self).nodes@, g as int).right) == RbColor::Red,
            color_of(old(self).nodes@, node(old(self).nodes@, g as int).left) == RbColor::Black,
            color_of(old(self).nodes@, old(self).root) == RbColor::Black,
        ensures
            final(self).ordered(),
            final(self)@ == old(self)@,
            final(self).slots() == old(self).slots(),
            balanced(final(self).nodes@, final(self).shape@, None),
            reds_fine(final(self).nodes@, Some(z)),
            live(final(self).nodes@, z as int),
            node(final(self).nodes@, z as int).color == RbColor::Red,
            color_of(final(self).nodes@, node(final(self).nodes@, z as int).parent)
                == RbColor::Black,
            color_of(final(self).nodes@, final(self).root) == RbColor::Black,
    {
        let ghost t0 = *self;
        proof {
            lemma_around(t0.nodes@, t0.shape@, t0.root, g as int);
        }
        if let Some(p) = self.right(g) {
            proof {
                lemma_around(t0.nodes@, t0.shape@, t0.root, p as int);
                assert(red_fine(t0.nodes@, Some(z), g as int));
            }
            self.set_color(Some(p), RbColor::Black);
            self.set_color(Some(g), RbColor::Red);
            let ghost s = t0.shape@;
            self.shape = Ghost(
                Shape {
                    bh: s.bh.update(p as int, s.bh[p as int] + 1).update(
                        g as int,
                        s.bh[g as int] - 1,
                    ),
                    ..s
                },
            );
            let ghost t1 = *self;
            proof {
                lemma_recolored_linked(t0, t1);
                lemma_same_items(t0, t1);
                assert(live(t1.nodes@, g as int));
                assert(live(t1.nodes@, p as int));
            }
            self.rotate_left(g);
            proof {
                lemma_same_items(t1, *self);
                lemma_settle_left(t0, t1, *self, z as int, p as int, g as int);
                assert(live(self.nodes@, p as int));
                if let Some(r) = t0.root {
                    assert(live(t0.nodes@, r as int));
                    assert(live(t1.nodes@, r as int));
                    assert(live(self.nodes@, r as int));
                }
            }
        }
    }

    /// Restores the colour rules above a red node whose parent may be red.
    fn insert_fixup(&mut self, start: usize)
        requires
            old(self).ordered(),
            balanced(old(self).nodes@, old(self).shape@, None),
            live(old(self).nodes@, start as int),
            node(old(self).nodes@, start as int).color == RbColor::Red,
            reds_fine(old(self).nodes@, Some(start)),
            color_of(old(self).nodes@, old(self).root) == RbColor::Red ==> old(self).root == Some(
                start,
            ),
        ensures
            final(self).wf(),
            final(self)@ == old(self)@,
            final(self).slots() == old(self).slots(),
    {
        let mut z: usize = start;
        loop
            invariant
                self.ordered(),
                self@ == old(self)@,
                self.slots() == old(self).slots(),
                balanced(self.nodes@, self.shape@, None),
                reds_fine(self.nodes@, Some(z)),
                live(self.nodes@, z as int),
                node(self.nodes@, z as int).color == RbColor::Red,
                color_of(self.nodes@, self.root) == RbColor::Red ==> self.root == Some(z),
            ensures
                self.ordered(),
                self@ == old(self)@,
                self.slots() == old(self).slots(),
                balanced(self.nodes@, self.shape@, None),
                reds_fine(self.nodes@, None),
            decreases
                if color_of(self.nodes@, node(self.nodes@, z as int).parent) == RbColor::Red {
                    1 + self.shape@.order.len() - (self.shape@.hi[z as int]
                        - self.shape@.lo[z as int])
                } else {
                    0
                },
        {
            proof {
                lemma_around(self.nodes@, self.shape@, self.root, z as int);
            }
            let parent = self.parent(z);
            if self.color(parent) == RbColor::Black {
                proof {
                    assert forall|i: int| live(self.nodes@, i) implies #[trigger] red_fine(
                        self.nodes@,
                        None,
                        i,
                    ) by {
                        assert(red_fine(self.nodes@, Some(z), i));
                        lemma_around(self.nodes@, self.shape@, self.root, i);
                    }
                }
                break;
            }
            if let Some(p) = parent {
                proof {
                    lemma_around(self.nodes@, self.shape@, self.root, p as int);
                    assert(red_fine(self.nodes@, Some(z), p as int));
                }
                if let Some(g) = self.parent(p) {
                    proof {
                        lemma_around(self.nodes@, self.shape@, self.root, g as int);
                        assert(red_fine(self.nodes@, Some(z), g as int));
                    }
                    let ghost start_z = z;
                    if self.left(g) == Some(p) {
                        let uncle = self.right(g);
                        if self.color(uncle) == RbColor::Red {
                            self.push_up(z, p, uncle, g);
                            z = g;
                        } else {
                            if self.right(p) == Some(z) {
                                z = p;
                                let ghost before = *self;
                                self.rotate_left(z);
                                proof {
                                    lemma_lean_left(before, *self, p as int, start_z as int);
                                    lemma_same_items(before, *self);
                                }
                            }
                            self.settle_right(z, g);
                        }
                    } else {
                        let uncle = self.left(g);
                        if self.color(uncle) == RbColor::Red {
                            self.push_up(z, p, uncle, g);
                            z = g;
                        } else {
                            if self.left(p) == Some(z) {
                                z = p;
                                let ghost before = *self;
                                self.rotate_right(z);
                                proof {
                                    lemma_lean_right(before, *self, p as int, start_z as int);
                                    lemma_same_items(before, *self);
                                }
                            }
                            self.settle_left(z, g);
                        }
                    }
                }
            }
        }
        let ghost t0 = *self;
        let root = self.root;
        if let Some(r) = root {
            proof {
                lemma_around(self.nodes@, self.shape@, self.root, r as int);
            }
            let red: bool = self.color(root) == RbColor::Red;
            self.set_color(root, RbColor::Black);
            if red {
                let ghost s = t0.shape@;
                self.shape = Ghost(Shape { bh: s.bh.update(r as int, s.bh[r as int] + 1), ..s });
            }
            proof {
                lemma_fine_around(t0.nodes@, Some(r));
                lemma_blackened(t0, *self, r as int, None);
                assert(live(self.nodes@, r as int));
                lemma_recolored_linked(t0, *self);
                lemma_same_items(t0, *self);
            }
        }
    }
}

/// The link of a node after `t` gave its place to `c`.
spec fn link_past(link: Option<usize>, t: int, c: Option<usize>) -> Option<usize> {
    if link == Some(t as usize) {
        c
    } else {
        link
    }
}

/// The shape without position `p`; spans that begin behind `from` move up.
spec fn shape_without(s: Shape, p: int, from: int) -> Shape {
    Shape {
        order: s.order.remove(p),
        pos: Seq::new(
            s.pos.len(),
            |i: int|
                if s.pos[i] > p {
                    s.pos[i] - 1
                } else {
                    s.pos[i]
                },
        ),
        lo: Seq::new(
            s.lo.len(),
            |i: int|
                if s.lo[i] > from {
                    s.lo[i] - 1
                } else {
                    s.lo[i]
                },
        ),
        hi: Seq::new(
            s.hi.len(),
            |i: int|
                if s.hi[i] > p {
                    s.hi[i] - 1
                } else {
                    s.hi[i]
                },
        ),
        bh: s.bh,
    }
}

/// `after` is `before` without node `t`, whose only child `c` took its place.
spec fn cut_out<K, V>(
    before: RbRootCached<K, V>,
    after: RbRootCached<K, V>,
    t: int,
    c: Option<usize>,
) -> bool {
    let on = before.nodes@;
    let n = after.nodes@;
    let up = node(on, t).parent;
    &&& live(on, t)
    &&& (node(on, t).left is None && node(on, t).right == c) || (node(on, t).right is None && node(
        on,
        t,
    ).left == c)
    &&& n.len() == on.len()
    &&& forall|i: int| #[trigger] live(n, i) == (live(on, i) && i != t)
    &&& forall|i: int|
        #[trigger] live(n, i) ==> {
            let o = node(on, i);
            node(n, i) == (RbNode {
                left: link_past(o.left, t, c),
                right: link_past(o.right, t, c),
                parent: if c == Some(i as usize) {
                    up
                } else {
                    o.parent
                },
                ..o
            })
        }
    &&& after.root == if up is None {
        c
    } else {
        before.root
    }
    &&& after.shape@ == shape_without(before.shape@, before.shape@.pos[t], before.shape@.pos[t])
}

#[verifier::spinoff_prover]
#[verifier::rlimit(60)]
proof fn lemma_cut_out_linked<K, V>(
    before: RbRootCached<K, V>,
    after: RbRootCached<K, V>,
    t: int,
    c: Option<usize>,
)
    requires
        linked(before.nodes@, before.shape@, before.root),
        cut_out(before, after, t, c),
    ensures
        linked(after.nodes@, after.shape@, after.root),
{
    let on = before.nodes@;
    let os = before.shape@;
    let n = after.nodes@;
    let s = after.shape@;
    lemma_around(on, os, before.root, t);
    if let Some(j) = c {
        lemma_around(on, os, before.root, j as int);
    }
    assert forall|i: int| live(n, i) implies #[trigger] node_linked(n, s, after.root, i) by {
        assert(live(on, i));
        lemma_around(on, os, before.root, i);
        let o = node(on, i);
        if let Some(j) = o.left {
            if j != t {
                assert(live(n, j as int));
            }
        }
        if let Some(j) = o.right {
            if j != t {
                assert(live(n, j as int));
            }
        }
        if let Some(j) = o.parent {
            if j != t {
                assert(live(n, j as int));
            }
        }
        if let Some(j) = c {
            assert(live(n, j as int));
        }
        if let Some(j) = node(on, t).parent {
            assert(live(n, j as int));
        }
    }
    assert forall|k: int| 0 <= k < s.order.len() implies live(n, #[trigger] s.order[k])
        && s.pos[s.order[k]] == k by {
        let p = os.pos[t];
        if k < p {
            assert(s.order[k] == os.order[k]);
            assert(live(on, os.order[k]));
        } else {
            assert(s.order[k] == os.order[k + 1]);
            assert(live(on, os.order[k + 1]));
        }
        assert(live(n, s.order[k]));
    }
    if let Some(r) = before.root {
        lemma_around(on, os, before.root, r as int);
    }
    if let Some(r) = after.root {
        assert(live(n, r as int));
    }
}

/// Node `i` after the successor `m` of `t` left its own place to its right child.
spec fn freed_node<K, V>(on: Seq<Option<RbNode<K, V>>>, t: int, m: int, i: int) -> RbNode<K, V> {
    let c = node(on, m).right;
    let o = node(on, i);
    if node(on, t).right == Some(m as usize) {
        o
    } else if i == m {
        RbNode { right: node(on, t).right, ..o }
    } else {
        RbNode {
            left: link_past(o.left, m, c),
            parent: if node(on, t).right == Some(i as usize) {
                Some(m as usize)
            } else if c == Some(i as usize) {
                node(on, m).parent
            } else {
                o.parent
            },
            ..o
        }
    }
}

/// Node `i` after the successor `m` of `t` has filled the place of `t`.
spec fn filled_node<K, V>(
    on: Seq<Option<RbNode<K, V>>>,
    t: int,
    m: int,
    i: int,
) -> RbNode<K, V> {
    let up = node(on, t).parent;
    let c = node(on, m).right;
    let near = node(on, t).right == Some(m as usize);
    let o = node(on, i);
    if i == m {
                RbNode {
                    left: node(on, t).left,
                    right: if near {
                        c
                    } else {
                        node(on, t).right
                    },
                    parent: up,
                    color: node(on, t).color,
                    ..o
                }
            } else {
                RbNode {
                    left: if o.left == Some(t as usize) {
                        Some(m as usize)
                    } else {
                        link_past(o.left, m, c)
                    },
                    right: if o.right == Some(t as usize) {
                        Some(m as usize)
                    } else {
                        o.right
                    },
                    parent: if o.parent == Some(t as usize) {
                        Some(m as usize)
                    } else if c == Some(i as usize) && !near {
                        node(on, m).parent
                    } else {
                        o.parent
                    },
                    ..o
                }
            }
}

/// `after` is `before` without node `t`, whose successor `m` took its place:
/// `m` is the first node of the right subtree, and its right child took its own.
spec fn filled_by_next<K, V>(
    before: RbRootCached<K, V>,
    after: RbRootCached<K, V>,
    t: int,
    m: int,
) -> bool {
    let on = before.nodes@;
    let n = after.nodes@;
    let os = before.shape@;
    let up = node(on, t).parent;
    &&& live(on, t)
    &&& live(on, m)
    &&& node(on, t).left is Some
    &&& node(on, t).right is Some
    &&& node(on, m).left is None
    &&& os.pos[m] == os.pos[t] + 1
    &&& n.len() == on.len()
    &&& forall|i: int| #[trigger] live(n, i) == (live(on, i) && i != t)
    &&& forall|i: int|
        #[trigger] live(n, i) ==> {
            node(n, i) == filled_node(on, t, m, i)
        }
    &&& after.root == if up is None {
        Some(m as usize)
    } else {
        before.root
    }
    &&& after.shape@ == {
        let s = shape_without(os, os.pos[t], os.pos[t] + 1);
        Shape {
            lo: s.lo.update(m, os.lo[t]),
            hi: s.hi.update(m, os.hi[t] - 1),
            bh: os.bh.update(m, os.bh[t]),
            ..s
        }
    }
}

#[verifier::spinoff_prover]
#[verifier::rlimit(100)]
proof fn lemma_filled_by_next_linked<K, V>(
    before: RbRootCached<K, V>,
    after: RbRootCached<K, V>,
    t: int,
    m: int,
)
    requires
        linked(before.nodes@, before.shape@, before.root),
        filled_by_next(before, after, t, m),
    ensures
        linked(after.nodes@, after.shape@, after.root),
{
    let on = before.nodes@;
    let os = before.shape@;
    let n = after.nodes@;
    let s = after.shape@;
    lemma_around(on, os, before.root, t);
    lemma_around(on, os, before.root, m);
    lemma_around(on, os, before.root, node(on, t).right->Some_0 as int);
    lemma_around(on, os, before.root, node(on, t).left->Some_0 as int);
    assert(live(n, m));
    if let Some(u) = node(on, m).parent {
        lemma_around(on, os, before.root, u as int);
    }
    assert forall|i: int| live(n, i) implies #[trigger] node_linked(n, s, after.root, i) by {
        assert(live(on, i));
        lemma_around(on, os, before.root, i);
        let o = node(on, i);
        if let Some(j) = o.left {
            if j != t {
                assert(live(n, j as int));
            }
        }
        if let Some(j) = o.right {
            if j != t {
                assert(live(n, j as int));
            }
        }
        if let Some(j) = o.parent {
            if j != t {
                assert(live(n, j as int));
            }
        }
        if let Some(j) = node(on, m).right {
            assert(live(n, j as int));
        }
        if let Some(j) = node(on, m).parent {
            if j != t {
                assert(live(n, j as int));
            }
        }
        if let Some(j) = node(on, t).parent {
            assert(live(n, j as int));
        }
        assert(live(n, node(on, t).left->Some_0 as int));
        assert(live(n, node(on, t).right->Some_0 as int));
    }
    assert forall|k: int| 0 <= k < s.order.len() implies live(n, #[trigger] s.order[k])
        && s.pos[s.order[k]] == k by {
        let p = os.pos[t];
        if k < p {
            assert(s.order[k] == os.order[k]);
            assert(live(on, os.order[k]));
        } else {
            assert(s.order[k] == os.order[k + 1]);
            assert(live(on, os.order[k + 1]));
        }
        assert(live(n, s.order[k]));
    }
    if let Some(r) = before.root {
        lemma_around(on, os, before.root, r as int);
    }
    if let Some(r) = after.root {
        assert(live(n, r as int));
    }
}

/// Taking a node out of the order takes its pair out of the pairs.
proof fn lemma_removed_pairs<K: SortKey, V>(
    before: RbRootCached<K, V>,
    after: RbRootCached<K, V>,
    t: int,
)
    requires
        linked(before.nodes@, before.shape@, before.root),
        linked(after.nodes@, after.shape@, after.root),
        keys_sorted(before.nodes@, before.shape@),
        live(before.nodes@, t),
        forall|i: int| #[trigger] live(after.nodes@, i) ==> live(before.nodes@, i) && node(
            after.nodes@,
            i,
        ).key == node(before.nodes@, i).key && node(after.nodes@, i).value == node(
            before.nodes@,
            i,
        ).value,
        after.shape@.order == before.shape@.order.remove(before.shape@.pos[t]),
    ensures
        keys_sorted(after.nodes@, after.shape@),
        pairs(after.nodes@, after.shape@) == pairs(before.nodes@, before.shape@).remove(
            before.shape@.pos[t],
        ),
{
    let on = before.nodes@;
    let os = before.shape@;
    let n = after.nodes@;
    let s = after.shape@;
    let p = os.pos[t];
    lemma_around(on, os, before.root, t);
    assert forall|k: int| 0 <= k < s.order.len() implies #[trigger] s.order[k] == os.order[if k
        < p {
        k
    } else {
        k + 1
    }] && live(n, s.order[k]) && node(n, s.order[k]).key == node(on, s.order[k]).key && node(
        n,
        s.order[k],
    ).value == node(on, s.order[k]).value by {
        assert(live(n, s.order[k]));
    }
    assert forall|j: int, k: int| 0 <= j <= k < s.order.len() implies (#[trigger] key_at(
        n,
        s,
        j,
    )).rank() <= (#[trigger] key_at(n, s, k)).rank() by {
        let j0 = if j < p {
            j
        } else {
            j + 1
        };
        let k0 = if k < p {
            k
        } else {
            k + 1
        };
        assert(key_at(n, s, j) == key_at(on, os, j0));
        assert(key_at(n, s, k) == key_at(on, os, k0));
    }
    assert(pairs(n, s) =~= pairs(on, os).remove(p));
}

/// Every red node but `z` has black children, `z` not being counted.
spec fn reds_fine_around<K, V>(nodes: Seq<Option<RbNode<K, V>>>, z: Option<usize>) -> bool {
    forall|i: int| live(nodes, i) && z != Some(i as usize) ==> #[trigger] red_fine(nodes, z, i)
}

/// What is missing where `t` gave its place to a child.
spec fn missing_at<K, V>(nodes: Seq<Option<RbNode<K, V>>>, t: int) -> Option<(int, bool)> {
    match node(nodes, t).parent {
        None => None,
        Some(q) => if node(nodes, t).color == RbColor::Red {
            None
        } else {
            Some((q as int, node(nodes, q as int).left == Some(t as usize)))
        },
    }
}

/// Without a node, the paths through its place lack the black that it had.
proof fn lemma_cut_out_colors<K, V>(
    before: RbRootCached<K, V>,
    after: RbRootCached<K, V>,
    t: int,
    c: Option<usize>,
)
    requires
        linked(before.nodes@, before.shape@, before.root),
        cut_out(before, after, t, c),
        balanced(before.nodes@, before.shape@, None),
        reds_fine(before.nodes@, None),
    ensures
        balanced(after.nodes@, after.shape@, missing_at(before.nodes@, t)),
        reds_fine_around(after.nodes@, c),
        node(before.nodes@, t).color == RbColor::Red ==> reds_fine(after.nodes@, None),
        missing_at(before.nodes@, t) matches Some((q, on_left)) ==> live(after.nodes@, q) && c
            == if on_left {
            node(after.nodes@, q).left
        } else {
            node(after.nodes@, q).right
        },
{
    let on = before.nodes@;
    let os = before.shape@;
    let n = after.nodes@;
    let s = after.shape@;
    let short = missing_at(on, t);
    lemma_around(on, os, before.root, t);
    assert(node_balanced(on, os, None, t));
    assert(red_fine(on, None, t));
    if let Some(q) = node(on, t).parent {
        assert(live(n, q as int));
        assert(red_fine(on, None, q as int));
    }
    assert forall|i: int| live(n, i) implies #[trigger] node_balanced(n, s, short, i) by {
        assert(live(on, i));
        lemma_around(on, os, before.root, i);
        assert(node_balanced(on, os, None, i));
    }
    assert forall|i: int| live(n, i) implies #[trigger] red_fine(n, c, i) by {
        assert(live(on, i));
        lemma_around(on, os, before.root, i);
        assert(red_fine(on, None, i));
        if let Some(j) = node(n, i).left {
            assert(live(n, j as int) || j == t);
        }
        if let Some(j) = node(n, i).right {
            assert(live(n, j as int) || j == t);
        }
    }
    if node(on, t).color == RbColor::Red {
        assert forall|i: int| live(n, i) implies #[trigger] red_fine(n, None, i) by {
            assert(red_fine(n, c, i));
            if let Some(j) = c {
                assert(live(n, j as int));
            }
        }
    }
}

/// What is missing where the successor `m` of `t` stood.
spec fn missing_at_next<K, V>(
    nodes: Seq<Option<RbNode<K, V>>>,
    t: int,
    m: int,
) -> Option<(int, bool)> {
    if node(nodes, m).color == RbColor::Red {
        None
    } else if node(nodes, t).right == Some(m as usize) {
        Some((m, false))
    } else {
        Some((node(nodes, m).parent->Some_0 as int, true))
    }
}

/// The successor takes over the colour too, so only its old place lacks a black.
#[verifier::spinoff_prover]
#[verifier::rlimit(60)]
proof fn lemma_filled_by_next_colors<K, V>(
    before: RbRootCached<K, V>,
    after: RbRootCached<K, V>,
    t: int,
    m: int,
)
    requires
        linked(before.nodes@, before.shape@, before.root),
        filled_by_next(before, after, t, m),
        balanced(before.nodes@, before.shape@, None),
        reds_fine(before.nodes@, None),
    ensures
        balanced(after.nodes@, after.shape@, missing_at_next(before.nodes@, t, m)),
        reds_fine_around(after.nodes@, node(before.nodes@, m).right),
        node(before.nodes@, m).color == RbColor::Red ==> reds_fine(after.nodes@, None),
        missing_at_next(before.nodes@, t, m) matches Some((q, on_left)) ==> 0 <= q <= usize::MAX
            && live(after.nodes@, q) && node(before.nodes@, m).right == if on_left {
            node(after.nodes@, q).left
        } else {
            node(after.nodes@, q).right
        },
{
    let on = before.nodes@;
    let os = before.shape@;
    let n = after.nodes@;
    let s = after.shape@;
    let short = missing_at_next(on, t, m);
    let c = node(on, m).right;
    lemma_around(on, os, before.root, t);
    lemma_around(on, os, before.root, m);
    assert(node_balanced(on, os, None, t));
    assert(node_balanced(on, os, None, m));
    assert(red_fine(on, None, t));
    assert(red_fine(on, None, m));
    let u = node(on, m).parent->Some_0;
    lemma_around(on, os, before.root, u as int);
    assert(live(n, m));
    assert(u != t ==> live(n, u as int));
    assert(node_balanced(on, os, None, u as int));
    assert(red_fine(on, None, u as int));
    assert(live(n, node(on, t).left->Some_0 as int));
    assert(live(n, node(on, t).right->Some_0 as int));
    if let Some(j) = c {
        assert(live(n, j as int));
    }
    assert forall|i: int| live(n, i) implies #[trigger] node_balanced(n, s, short, i) by {
        assert(live(on, i));
        lemma_around(on, os, before.root, i);
        assert(node_balanced(on, os, None, i));
    }
    assert forall|i: int| live(n, i) implies #[trigger] red_fine(n, c, i) by {
        assert(live(on, i));
        lemma_around(on, os, before.root, i);
        assert(red_fine(on, None, i));
        if let Some(j) = node(on, i).left {
            assert(live(n, j as int) || j == t);
        }
        if let Some(j) = node(on, i).right {
            assert(live(n, j as int) || j == t);
        }
    }
    if node(on, m).color == RbColor::Red {
        assert forall|i: int| live(n, i) implies #[trigger] red_fine(n, None, i) by {
            assert(red_fine(n, c, i));
        }
    }
}

/// Below which node, and on which side of it, `q` stands.
spec fn short_side_of<K, V>(nodes: Seq<Option<RbNode<K, V>>>, q: int) -> Option<(int, bool)> {
    match node(nodes, q).parent {
        None => None,
        Some(u) => Some((u as int, node(nodes, u as int).left == Some(q as usize))),
    }
}

/// Where the colours are fine everywhere, they are fine around any node.
proof fn lemma_fine_around<K, V>(nodes: Seq<Option<RbNode<K, V>>>, z: Option<usize>)
    requires
        reds_fine(nodes, None),
    ensures
        reds_fine_around(nodes, z),
{
    assert forall|i: int| live(nodes, i) && z != Some(i as usize) implies #[trigger] red_fine(
        nodes,
        z,
        i,
    ) by {
        assert(red_fine(nodes, None, i));
    }
}

/// Around a black node nothing is left to except.
proof fn lemma_black_around<K, V>(nodes: Seq<Option<RbNode<K, V>>>, z: Option<usize>)
    requires
        nodes.len() <= usize::MAX,
        reds_fine_around(nodes, z),
        color_of(nodes, z) == RbColor::Black,
    ensures
        reds_fine(nodes, None),
{
    assert forall|i: int| live(nodes, i) implies #[trigger] red_fine(nodes, None, i) by {
        if z != Some(i as usize) {
            assert(red_fine(nodes, z, i));
        }
    }
}

/// The red sibling `w` on the right of a short side rises above `q`; the short
/// side gets a black sibling.
proof fn lemma_raise_right<K, V>(
    t0: RbRootCached<K, V>,
    t1: RbRootCached<K, V>,
    t2: RbRootCached<K, V>,
    q: int,
    w: int,
)
    requires
        linked(t0.nodes@, t0.shape@, t0.root),
        balanced(t0.nodes@, t0.shape@, Some((q, true))),
        reds_fine(t0.nodes@, None),
        live(t0.nodes@, q),
        live(t0.nodes@, w),
        node(t0.nodes@, q).right == Some(w as usize),
        node(t0.nodes@, w).color == RbColor::Red,
        color_of(t0.nodes@, node(t0.nodes@, q).left) == RbColor::Black,
        recolored(t0, t1),
        forall|i: int|
            #[trigger] live(t1.nodes@, i) ==> node(t1.nodes@, i).color == if i == w {
                RbColor::Black
            } else if i == q {
                RbColor::Red
            } else {
                node(t0.nodes@, i).color
            },
        t1.shape@.bh == t0.shape@.bh.update(w, t0.shape@.bh[w] + 1).update(
            q,
            t0.shape@.bh[q] - 1,
        ),
        turned_left(t1, t2, q, w),
    ensures
        balanced(t2.nodes@, t2.shape@, Some((q, true))),
        reds_fine(t2.nodes@, None),
        live(t2.nodes@, q),
        node(t2.nodes@, q).left == node(t0.nodes@, q).left,
        color_of(t2.nodes@, node(t2.nodes@, q).right) == RbColor::Black,
        color_of(t2.nodes@, node(t2.nodes@, q).left) == RbColor::Black,
        node(t2.nodes@, w).color == RbColor::Black,
        live(t2.nodes@, w),
{
    let on = t0.nodes@;
    let os = t0.shape@;
    let mid = t1.nodes@;
    let n = t2.nodes@;
    let s = t2.shape@;
    lemma_around(on, os, t0.root, q);
    lemma_around(on, os, t0.root, w);
    assert(live(mid, q) && live(mid, w) && live(n, q) && live(n, w));
    assert(node_balanced(on, os, Some((q, true)), q));
    assert(node_balanced(on, os, Some((q, true)), w));
    assert(red_fine(on, None, q));
    assert(red_fine(on, None, w));
    if let Some(j) = node(on, w).left {
        assert(live(n, j as int) && live(mid, j as int));
    }
    if let Some(j) = node(on, w).right {
        assert(live(n, j as int) && live(mid, j as int));
    }
    if let Some(j) = node(on, q).left {
        assert(live(n, j as int) && live(mid, j as int));
    }
    assert forall|i: int| live(n, i) implies #[trigger] node_balanced(n, s, Some((q, true)), i) by {
        assert(live(mid, i));
        assert(live(on, i));
        lemma_around(on, os, t0.root, i);
        assert(node_balanced(on, os, Some((q, true)), i));
    }
    assert forall|i: int| live(n, i) implies #[trigger] red_fine(n, None, i) by {
        assert(live(mid, i));
        assert(live(on, i));
        lemma_around(on, os, t0.root, i);
        assert(red_fine(on, None, i));
        if let Some(j) = node(on, i).left {
            assert(live(n, j as int) && live(mid, j as int));
        }
        if let Some(j) = node(on, i).right {
            assert(live(n, j as int) && live(mid, j as int));
        }
    }
}

/// The red sibling `w` on the left of a short side rises above `q`; the short
/// side gets a black sibling.
proof fn lemma_raise_left<K, V>(
    t0: RbRootCached<K, V>,
    t1: RbRootCached<K, V>,
    t2: RbRootCached<K, V>,
    q: int,
    w: int,
)
    requires
        linked(t0.nodes@, t0.shape@, t0.root),
        balanced(t0.nodes@, t0.shape@, Some((q, false))),
        reds_fine(t0.nodes@, None),
        live(t0.nodes@, q),
        live(t0.nodes@, w),
        node(t0.nodes@, q).left == Some(w as usize),
        node(t0.nodes@, w).color == RbColor::Red,
        color_of(t0.nodes@, node(t0.nodes@, q).right) == RbColor::Black,
        recolored(t0, t1),
        forall|i: int|
            #[trigger] live(t1.nodes@, i) ==> node(t1.nodes@, i).color == if i == w {
                RbColor::Black
            } else if i == q {
                RbColor::Red
            } else {
                node(t0.nodes@, i).color
            },
        t1.shape@.bh == t0.shape@.bh.update(w, t0.shape@.bh[w] + 1).update(
            q,
            t0.shape@.bh[q] - 1,
        ),
        turned_right(t1, t2, q, w),
    ensures
        balanced(t2.nodes@, t2.shape@, Some((q, false))),
        reds_fine(t2.nodes@, None),
        live(t2.nodes@, q),
        node(t2.nodes@, q).right == node(t0.nodes@, q).right,
        color_of(t2.nodes@, node(t2.nodes@, q).left) == RbColor::Black,
        color_of(t2.nodes@, node(t2.nodes@, q).right) == RbColor::Black,
        node(t2.nodes@, w).color == RbColor::Black,
        live(t2.nodes@, w),
{
    let on = t0.nodes@;
    let os = t0.shape@;
    let mid = t1.nodes@;
    let n = t2.nodes@;
    let s = t2.shape@;
    lemma_around(on, os, t0.root, q);
    lemma_around(on, os, t0.root, w);
    assert(live(mid, q) && live(mid, w) && live(n, q) && live(n, w));
    assert(node_balanced(on, os, Some((q, false)), q));
    assert(node_balanced(on, os, Some((q, false)), w));
    assert(red_fine(on, None, q));
    assert(red_fine(on, None, w));
    if let Some(j) = node(on, w).right {
        assert(live(n, j as int) && live(mid, j as int));
    }
    if let Some(j) = node(on, w).left {
        assert(live(n, j as int) && live(mid, j as int));
    }
    if let Some(j) = node(on, q).right {
        assert(live(n, j as int) && live(mid, j as int));
    }
    assert forall|i: int| live(n, i) implies #[trigger] node_balanced(n, s, Some((q, false)), i) by {
        assert(live(mid, i));
        assert(live(on, i));
        lemma_around(on, os, t0.root, i);
        assert(node_balanced(on, os, Some((q, false)), i));
    }
    assert forall|i: int| live(n, i) implies #[trigger] red_fine(n, None, i) by {
        assert(live(mid, i));
        assert(live(on, i));
        lemma_around(on, os, t0.root, i);
        assert(red_fine(on, None, i));
        if let Some(j) = node(on, i).right {
            assert(live(n, j as int) && live(mid, j as int));
        }
        if let Some(j) = node(on, i).left {
            assert(live(n, j as int) && live(mid, j as int));
        }
    }
}

/// A black sibling with black children turns red: both sides of `q` are short
/// now, so the side of `q` is.
proof fn lemma_pass_up_right<K, V>(
    t0: RbRootCached<K, V>,
    t1: RbRootCached<K, V>,
    q: int,
    w: int,
)
    requires
        linked(t0.nodes@, t0.shape@, t0.root),
        balanced(t0.nodes@, t0.shape@, Some((q, true))),
        reds_fine(t0.nodes@, None),
        live(t0.nodes@, q),
        live(t0.nodes@, w),
        node(t0.nodes@, q).right == Some(w as usize),
        node(t0.nodes@, w).color == RbColor::Black,
        color_of(t0.nodes@, node(t0.nodes@, w).left) == RbColor::Black,
        color_of(t0.nodes@, node(t0.nodes@, w).right) == RbColor::Black,
        recolored(t0, t1),
        forall|i: int|
            #[trigger] live(t1.nodes@, i) ==> node(t1.nodes@, i).color == if i == w {
                RbColor::Red
            } else {
                node(t0.nodes@, i).color
            },
        t1.shape@.bh == t0.shape@.bh.update(w, t0.shape@.bh[w] - 1).update(
            q,
            t0.shape@.bh[q] - 1,
        ),
    ensures
        balanced(t1.nodes@, t1.shape@, short_side_of(t0.nodes@, q)),
        reds_fine_around(t1.nodes@, Some(q as usize)),
{
    let on = t0.nodes@;
    let os = t0.shape@;
    let n = t1.nodes@;
    let s = t1.shape@;
    let short = short_side_of(on, q);
    lemma_around(on, os, t0.root, q);
    lemma_around(on, os, t0.root, w);
    assert(live(n, q) && live(n, w));
    assert(node_balanced(on, os, Some((q, true)), q));
    assert(node_balanced(on, os, Some((q, true)), w));
    assert forall|i: int| live(n, i) implies #[trigger] node_balanced(n, s, short, i) by {
        assert(live(on, i));
        lemma_around(on, os, t0.root, i);
        assert(node_balanced(on, os, Some((q, true)), i));
    }
    assert forall|i: int| live(n, i) && i != q implies #[trigger] red_fine(
        n,
        Some(q as usize),
        i,
    ) by {
        assert(live(on, i));
        lemma_around(on, os, t0.root, i);
        assert(red_fine(on, None, i));
        if let Some(j) = node(on, i).left {
            assert(live(n, j as int));
        }
        if let Some(j) = node(on, i).right {
            assert(live(n, j as int));
        }
    }
}

/// A black sibling with black children turns red: both sides of `q` are short
/// now, so the side of `q` is.
proof fn lemma_pass_up_left<K, V>(
    t0: RbRootCached<K, V>,
    t1: RbRootCached<K, V>,
    q: int,
    w: int,
)
    requires
        linked(t0.nodes@, t0.shape@, t0.root),
        balanced(t0.nodes@, t0.shape@, Some((q, false))),
        reds_fine(t0.nodes@, None),
        live(t0.nodes@, q),
        live(t0.nodes@, w),
        node(t0.nodes@, q).left == Some(w as usize),
        node(t0.nodes@, w).color == RbColor::Black,
        color_of(t0.nodes@, node(t0.nodes@, w).right) == RbColor::Black,
        color_of(t0.nodes@, node(t0.nodes@, w).left) == RbColor::Black,
        recolored(t0, t1),
        forall|i: int|
            #[trigger] live(t1.nodes@, i) ==> node(t1.nodes@, i).color == if i == w {
                RbColor::Red
            } else {
                node(t0.nodes@, i).color
            },
        t1.shape@.bh == t0.shape@.bh.update(w, t0.shape@.bh[w] - 1).update(
            q,
            t0.shape@.bh[q] - 1,
        ),
    ensures
        balanced(t1.nodes@, t1.shape@, short_side_of(t0.nodes@, q)),
        reds_fine_around(t1.nodes@, Some(q as usize)),
{
    let on = t0.nodes@;
    let os = t0.shape@;
    let n = t1.nodes@;
    let s = t1.shape@;
    let short = short_side_of(on, q);
    lemma_around(on, os, t0.root, q);
    lemma_around(on, os, t0.root, w);
    assert(live(n, q) && live(n, w));
    assert(node_balanced(on, os, Some((q, false)), q));
    assert(node_balanced(on, os, Some((q, false)), w));
    assert forall|i: int| live(n, i) implies #[trigger] node_balanced(n, s, short, i) by {
        assert(live(on, i));
        lemma_around(on, os, t0.root, i);
        assert(node_balanced(on, os, Some((q, false)), i));
    }
    assert forall|i: int| live(n, i) && i != q implies #[trigger] red_fine(
        n,
        Some(q as usize),
        i,
    ) by {
        assert(live(on, i));
        lemma_around(on, os, t0.root, i);
        assert(red_fine(on, None, i));
        if let Some(j) = node(on, i).right {
            assert(live(n, j as int));
        }
        if let Some(j) = node(on, i).left {
            assert(live(n, j as int));
        }
    }
}

/// A black sibling `w` whose inner child `v` is red and whose outer child is
/// black gives way to `v`.
proof fn lemma_unfold_right<K, V>(
    t0: RbRootCached<K, V>,
    t1: RbRootCached<K, V>,
    t2: RbRootCached<K, V>,
    q: int,
    w: int,
    v: int,
)
    requires
        linked(t0.nodes@, t0.shape@, t0.root),
        balanced(t0.nodes@, t0.shape@, Some((q, true))),
        reds_fine(t0.nodes@, None),
        live(t0.nodes@, q),
        live(t0.nodes@, w),
        live(t0.nodes@, v),
        node(t0.nodes@, q).right == Some(w as usize),
        node(t0.nodes@, w).left == Some(v as usize),
        node(t0.nodes@, w).color == RbColor::Black,
        node(t0.nodes@, v).color == RbColor::Red,
        color_of(t0.nodes@, node(t0.nodes@, w).right) == RbColor::Black,
        recolored(t0, t1),
        forall|i: int|
            #[trigger] live(t1.nodes@, i) ==> node(t1.nodes@, i).color == if i == v {
                RbColor::Black
            } else if i == w {
                RbColor::Red
            } else {
                node(t0.nodes@, i).color
            },
        t1.shape@.bh == t0.shape@.bh.update(v, t0.shape@.bh[v] + 1).update(
            w,
            t0.shape@.bh[w] - 1,
        ),
        turned_right(t1, t2, w, v),
    ensures
        balanced(t2.nodes@, t2.shape@, Some((q, true))),
        reds_fine(t2.nodes@, None),
        live(t2.nodes@, q),
        live(t2.nodes@, v),
        live(t2.nodes@, w),
        node(t2.nodes@, q).left == node(t0.nodes@, q).left,
        color_of(t2.nodes@, node(t2.nodes@, q).left) == color_of(
            t0.nodes@,
            node(t0.nodes@, q).left,
        ),
        node(t2.nodes@, q).right == Some(v as usize),
        node(t2.nodes@, v).color == RbColor::Black,
        node(t2.nodes@, v).right == Some(w as usize),
        node(t2.nodes@, w).color == RbColor::Red,
{
    let on = t0.nodes@;
    let os = t0.shape@;
    let mid = t1.nodes@;
    let n = t2.nodes@;
    let s = t2.shape@;
    lemma_around(on, os, t0.root, q);
    lemma_around(on, os, t0.root, w);
    lemma_around(on, os, t0.root, v);
    assert(live(mid, q) && live(mid, w) && live(mid, v));
    assert(live(n, q) && live(n, w) && live(n, v));
    assert(node_balanced(on, os, Some((q, true)), q));
    assert(node_balanced(on, os, Some((q, true)), w));
    assert(node_balanced(on, os, Some((q, true)), v));
    assert(red_fine(on, None, q));
    assert(red_fine(on, None, v));
    if let Some(j) = node(on, v).left {
        assert(live(n, j as int) && live(mid, j as int));
    }
    if let Some(j) = node(on, v).right {
        assert(live(n, j as int) && live(mid, j as int));
    }
    if let Some(j) = node(on, w).right {
        assert(live(n, j as int) && live(mid, j as int));
    }
    if let Some(j) = node(on, q).left {
        assert(live(n, j as int) && live(mid, j as int));
    }
    assert forall|i: int| live(n, i) implies #[trigger] node_balanced(n, s, Some((q, true)), i) by {
        assert(live(mid, i));
        assert(live(on, i));
        lemma_around(on, os, t0.root, i);
        assert(node_balanced(on, os, Some((q, true)), i));
    }
    assert forall|i: int| live(n, i) implies #[trigger] red_fine(n, None, i) by {
        assert(live(mid, i));
        assert(live(on, i));
        lemma_around(on, os, t0.root, i);
        assert(red_fine(on, None, i));
        if let Some(j) = node(on, i).left {
            assert(live(n, j as int) && live(mid, j as int));
        }
        if let Some(j) = node(on, i).right {
            assert(live(n, j as int) && live(mid, j as int));
        }
    }
}

/// A black sibling `w` whose inner child `v` is red and whose outer child is
/// black gives way to `v`.
proof fn lemma_unfold_left<K, V>(
    t0: RbRootCached<K, V>,
    t1: RbRootCached<K, V>,
    t2: RbRootCached<K, V>,
    q: int,
    w: int,
    v: int,
)
    requires
        linked(t0.nodes@, t0.shape@, t0.root),
        balanced(t0.nodes@, t0.shape@, Some((q, false))),
        reds_fine(t0.nodes@, None),
        live(t0.nodes@, q),
        live(t0.nodes@, w),
        live(t0.nodes@, v),
        node(t0.nodes@, q).left == Some(w as usize),
        node(t0.nodes@, w).right == Some(v as usize),
        node(t0.nodes@, w).color == RbColor::Black,
        node(t0.nodes@, v).color == RbColor::Red,
        color_of(t0.nodes@, node(t0.nodes@, w).left) == RbColor::Black,
        recolored(t0, t1),
        forall|i: int|
            #[trigger] live(t1.nodes@, i) ==> node(t1.nodes@, i).color == if i == v {
                RbColor::Black
            } else if i == w {
                RbColor::Red
            } else {
                node(t0.nodes@, i).color
            },
        t1.shape@.bh == t0.shape@.bh.update(v, t0.shape@.bh[v] + 1).update(
            w,
            t0.shape@.bh[w] - 1,
        ),
        turned_left(t1, t2, w, v),
    ensures
        balanced(t2.nodes@, t2.shape@, Some((q, false))),
        reds_fine(t2.nodes@, None),
        live(t2.nodes@, q),
        live(t2.nodes@, v),
        live(t2.nodes@, w),
        node(t2.nodes@, q).right == node(t0.nodes@, q).right,
        color_of(t2.nodes@, node(t2.nodes@, q).right) == color_of(
            t0.nodes@,
            node(t0.nodes@, q).right,
        ),
        node(t2.nodes@, q).left == Some(v as usize),
        node(t2.nodes@, v).color == RbColor::Black,
        node(t2.nodes@, v).left == Some(w as usize),
        node(t2.nodes@, w).color == RbColor::Red,
{
    let on = t0.nodes@;
    let os = t0.shape@;
    let mid = t1.nodes@;
    let n = t2.nodes@;
    let s = t2.shape@;
    lemma_around(on, os, t0.root, q);
    lemma_around(on, os, t0.root, w);
    lemma_around(on, os, t0.root, v);
    assert(live(mid, q) && live(mid, w) && live(mid, v));
    assert(live(n, q) && live(n, w) && live(n, v));
    assert(node_balanced(on, os, Some((q, false)), q));
    assert(node_balanced(on, os, Some((q, false)), w));
    assert(node_balanced(on, os, Some((q, false)), v));
    assert(red_fine(on, None, q));
    assert(red_fine(on, None, v));
    if let Some(j) = node(on, v).right {
        assert(live(n, j as int) && live(mid, j as int));
    }
    if let Some(j) = node(on, v).left {
        assert(live(n, j as int) && live(mid, j as int));
    }
    if let Some(j) = node(on, w).left {
        assert(live(n, j as int) && live(mid, j as int));
    }
    if let Some(j) = node(on, q).right {
        assert(live(n, j as int) && live(mid, j as int));
    }
    assert forall|i: int| live(n, i) implies #[trigger] node_balanced(n, s, Some((q, false)), i) by {
        assert(live(mid, i));
        assert(live(on, i));
        lemma_around(on, os, t0.root, i);
        assert(node_balanced(on, os, Some((q, false)), i));
    }
    assert forall|i: int| live(n, i) implies #[trigger] red_fine(n, None, i) by {
        assert(live(mid, i));
        assert(live(on, i));
        lemma_around(on, os, t0.root, i);
        assert(red_fine(on, None, i));
        if let Some(j) = node(on, i).right {
            assert(live(n, j as int) && live(mid, j as int));
        }
        if let Some(j) = node(on, i).left {
            assert(live(n, j as int) && live(mid, j as int));
        }
    }
}

/// A black sibling `w` with a red outer child `o` takes the place and colour of
/// `q`, which goes down to the short side as the black that was missing.
#[verifier::spinoff_prover]
#[verifier::rlimit(80)]
proof fn lemma_refill_right<K, V>(
    t0: RbRootCached<K, V>,
    t1: RbRootCached<K, V>,
    t2: RbRootCached<K, V>,
    q: int,
    w: int,
    o: int,
)
    requires
        linked(t0.nodes@, t0.shape@, t0.root),
        balanced(t0.nodes@, t0.shape@, Some((q, true))),
        reds_fine(t0.nodes@, None),
        live(t0.nodes@, q),
        live(t0.nodes@, w),
        live(t0.nodes@, o),
        node(t0.nodes@, q).right == Some(w as usize),
        node(t0.nodes@, w).right == Some(o as usize),
        node(t0.nodes@, w).color == RbColor::Black,
        node(t0.nodes@, o).color == RbColor::Red,
        recolored(t0, t1),
        forall|i: int|
            #[trigger] live(t1.nodes@, i) ==> node(t1.nodes@, i).color == if i == o || i == q {
                RbColor::Black
            } else if i == w {
                node(t0.nodes@, q).color
            } else {
                node(t0.nodes@, i).color
            },
        t1.shape@.bh == t0.shape@.bh.update(o, t0.shape@.bh[o] + 1).update(
            w,
            t0.shape@.bh[q],
        ).update(q, t0.shape@.bh[o] + 1),
        turned_left(t1, t2, q, w),
    ensures
        balanced(t2.nodes@, t2.shape@, None),
        reds_fine(t2.nodes@, None),
        live(t2.nodes@, w),
        node(t2.nodes@, w).color == node(t0.nodes@, q).color,
{
    let on = t0.nodes@;
    let os = t0.shape@;
    let mid = t1.nodes@;
    let n = t2.nodes@;
    let s = t2.shape@;
    lemma_around(on, os, t0.root, q);
    lemma_around(on, os, t0.root, w);
    lemma_around(on, os, t0.root, o);
    assert(live(mid, q) && live(mid, w) && live(mid, o));
    assert(live(n, q) && live(n, w) && live(n, o));
    assert(node_balanced(on, os, Some((q, true)), q));
    assert(node_balanced(on, os, Some((q, true)), w));
    assert(node_balanced(on, os, Some((q, true)), o));
    assert(red_fine(on, None, q));
    assert(red_fine(on, None, o));
    if let Some(j) = node(on, w).left {
        assert(live(n, j as int) && live(mid, j as int));
    }
    assert forall|i: int| live(n, i) implies #[trigger] node_balanced(n, s, None, i) by {
        assert(live(mid, i));
        assert(live(on, i));
        lemma_around(on, os, t0.root, i);
        assert(node_balanced(on, os, Some((q, true)), i));
    }
    assert forall|i: int| live(n, i) implies #[trigger] red_fine(n, None, i) by {
        assert(live(mid, i));
        assert(live(on, i));
        lemma_around(on, os, t0.root, i);
        assert(red_fine(on, None, i));
        if let Some(j) = node(on, i).left {
            assert(live(n, j as int) && live(mid, j as int));
        }
        if let Some(j) = node(on, i).right {
            assert(live(n, j as int) && live(mid, j as int));
        }
    }
}

/// A black sibling `w` with a red outer child `o` takes the place and colour of
/// `q`, which goes down to the short side as the black that was missing.
#[verifier::spinoff_prover]
#[verifier::rlimit(80)]
proof fn lemma_refill_left<K, V>(
    t0: RbRootCached<K, V>,
    t1: RbRootCached<K, V>,
    t2: RbRootCached<K, V>,
    q: int,
    w: int,
    o: int,
)
    requires
        linked(t0.nodes@, t0.shape@, t0.root),
        balanced(t0.nodes@, t0.shape@, Some((q, false))),
        reds_fine(t0.nodes@, None),
        live(t0.nodes@, q),
        live(t0.nodes@, w),
        live(t0.nodes@, o),
        node(t0.nodes@, q).left == Some(w as usize),
        node(t0.nodes@, w).left == Some(o as usize),
        node(t0.nodes@, w).color == RbColor::Black,
        node(t0.nodes@, o).color == RbColor::Red,
        recolored(t0, t1),
        forall|i: int|
            #[trigger] live(t1.nodes@, i) ==> node(t1.nodes@, i).color == if i == o || i == q {
                RbColor::Black
            } else if i == w {
                node(t0.nodes@, q).color
            } else {
                node(t0.nodes@, i).color
            },
        t1.shape@.bh == t0.shape@.bh.update(o, t0.shape@.bh[o] + 1).update(
            w,
            t0.shape@.bh[q],
        ).update(q, t0.shape@.bh[o] + 1),
        turned_right(t1, t2, q, w),
    ensures
        balanced(t2.nodes@, t2.shape@, None),
        reds_fine(t2.nodes@, None),
        live(t2.nodes@, w),
        node(t2.nodes@, w).color == node(t0.nodes@, q).color,
{
    let on = t0.nodes@;
    let os = t0.shape@;
    let mid = t1.nodes@;
    let n = t2.nodes@;
    let s = t2.shape@;
    lemma_around(on, os, t0.root, q);
    lemma_around(on, os, t0.root, w);
    lemma_around(on, os, t0.root, o);
    assert(live(mid, q) && live(mid, w) && live(mid, o));
    assert(live(n, q) && live(n, w) && live(n, o));
    assert(node_balanced(on, os, Some((q, false)), q));
    assert(node_balanced(on, os, Some((q, false)), w));
    assert(node_balanced(on, os, Some((q, false)), o));
    assert(red_fine(on, None, q));
    assert(red_fine(on, None, o));
    if let Some(j) = node(on, w).right {
        assert(live(n, j as int) && live(mid, j as int));
    }
    assert forall|i: int| live(n, i) implies #[trigger] node_balanced(n, s, None, i) by {
        assert(live(mid, i));
        assert(live(on, i));
        lemma_around(on, os, t0.root, i);
        assert(node_balanced(on, os, Some((q, false)), i));
    }
    assert forall|i: int| live(n, i) implies #[trigger] red_fine(n, None, i) by {
        assert(live(mid, i));
        assert(live(on, i));
        lemma_around(on, os, t0.root, i);
        assert(red_fine(on, None, i));
        if let Some(j) = node(on, i).right {
            assert(live(n, j as int) && live(mid, j as int));
        }
        if let Some(j) = node(on, i).left {
            assert(live(n, j as int) && live(mid, j as int));
        }
    }
}

/// Black counts are not negative.
proof fn lemma_height_positive<K: SortKey, V>(
    t: RbRootCached<K, V>,
    short: Option<(int, bool)>,
    i: int,
)
    requires
        linked(t.nodes@, t.shape@, t.root),
        balanced(t.nodes@, t.shape@, short),
        live(t.nodes@, i),
    ensures
        t.shape@.bh[i] >= 0,
    decreases t.shape@.hi[i] - t.shape@.lo[i],
{
    lemma_around(t.nodes@, t.shape@, t.root, i);
    assert(node_balanced(t.nodes@, t.shape@, short, i));
    if let Some(j) = node(t.nodes@, i).left {
        lemma_height_positive(t, short, j as int);
    }
}

/// Making the red top of a short side black supplies what is missing.
proof fn lemma_blackened<K, V>(
    before: RbRootCached<K, V>,
    after: RbRootCached<K, V>,
    x: int,
    short: Option<(int, bool)>,
)
    requires
        linked(before.nodes@, before.shape@, before.root),
        balanced(before.nodes@, before.shape@, short),
        reds_fine_around(before.nodes@, Some(x as usize)),
        live(before.nodes@, x),
        match short {
            None => before.root == Some(x as usize),
            Some((q, on_left)) => live(before.nodes@, q) && node(before.nodes@, x).color
                == RbColor::Red && Some(x as usize) == if on_left {
                node(before.nodes@, q).left
            } else {
                node(before.nodes@, q).right
            },
        },
        recolored(before, after),
        forall|i: int|
            #[trigger] live(after.nodes@, i) ==> node(after.nodes@, i).color == if i == x {
                RbColor::Black
            } else {
                node(before.nodes@, i).color
            },
        after.shape@.bh == if node(before.nodes@, x).color == RbColor::Red {
            before.shape@.bh.update(x, before.shape@.bh[x] + 1)
        } else {
            before.shape@.bh
        },
    ensures
        balanced(after.nodes@, after.shape@, None),
        reds_fine(after.nodes@, None),
{
    let on = before.nodes@;
    let os = before.shape@;
    let n = after.nodes@;
    let s = after.shape@;
    lemma_around(on, os, before.root, x);
    assert(live(n, x));
    if let Some((q, on_left)) = short {
        lemma_around(on, os, before.root, q);
    }
    assert forall|i: int| live(n, i) implies #[trigger] node_balanced(n, s, None, i) by {
        assert(live(on, i));
        lemma_around(on, os, before.root, i);
        assert(node_balanced(on, os, short, i));
    }
    assert forall|i: int| live(n, i) implies #[trigger] red_fine(n, None, i) by {
        assert(live(on, i));
        lemma_around(on, os, before.root, i);
        if i != x {
            assert(red_fine(on, Some(x as usize), i));
        }
        if let Some(j) = node(on, i).left {
            assert(live(n, j as int));
        }
        if let Some(j) = node(on, i).right {
            assert(live(n, j as int));
        }
    }
}

/// The sibling of a short side on the left is there.
proof fn lemma_sibling_right<K: SortKey, V>(t: RbRootCached<K, V>, q: int)
    requires
        linked(t.nodes@, t.shape@, t.root),
        balanced(t.nodes@, t.shape@, Some((q, true))),
        live(t.nodes@, q),
    ensures
        node(t.nodes@, q).right is Some,
        live(t.nodes@, node(t.nodes@, q).right->Some_0 as int),
        node(t.nodes@, q).left != node(t.nodes@, q).right,
        node(t.nodes@, node(t.nodes@, q).right->Some_0 as int).left matches Some(j) ==> live(
            t.nodes@,
            j as int,
        ),
        node(t.nodes@, node(t.nodes@, q).right->Some_0 as int).right matches Some(j) ==> live(
            t.nodes@,
            j as int,
        ),
{
    lemma_around(t.nodes@, t.shape@, t.root, q);
    assert(node_balanced(t.nodes@, t.shape@, Some((q, true)), q));
    if let Some(j) = node(t.nodes@, q).left {
        lemma_height_positive(t, Some((q, true)), j as int);
    }
    lemma_around(t.nodes@, t.shape@, t.root, node(t.nodes@, q).right->Some_0 as int);
}

/// The sibling of a short side on the right is there.
proof fn lemma_sibling_left<K: SortKey, V>(t: RbRootCached<K, V>, q: int)
    requires
        linked(t.nodes@, t.shape@, t.root),
        balanced(t.nodes@, t.shape@, Some((q, false))),
        live(t.nodes@, q),
    ensures
        node(t.nodes@, q).left is Some,
        live(t.nodes@, node(t.nodes@, q).left->Some_0 as int),
        node(t.nodes@, q).right != node(t.nodes@, q).left,
        node(t.nodes@, node(t.nodes@, q).left->Some_0 as int).right matches Some(j) ==> live(
            t.nodes@,
            j as int,
        ),
        node(t.nodes@, node(t.nodes@, q).left->Some_0 as int).left matches Some(j) ==> live(
            t.nodes@,
            j as int,
        ),
{
    lemma_around(t.nodes@, t.shape@, t.root, q);
    assert(node_balanced(t.nodes@, t.shape@, Some((q, false)), q));
    if let Some(j) = node(t.nodes@, q).right {
        lemma_height_positive(t, Some((q, false)), j as int);
    }
    lemma_around(t.nodes@, t.shape@, t.root, node(t.nodes@, q).left->Some_0 as int);
}

impl<K: SortKey, V> RbRootCached<K, V> {
    /// Turns the short side's red sibling, the right child of `q`, above `q`.
    fn raise_right(&mut self, q: usize, w: usize)
        requires
            old(self).ordered(),
            balanced(old(self).nodes@, old(self).shape@, Some((q as int, true))),
            reds_fine(old(self).nodes@, None),
            live(old(self).nodes@, q as int),
            node(old(self).nodes@, q as int).right == Some(w),
            node(old(self).nodes@, w as int).color == RbColor::Red,
            color_of(old(self).nodes@, node(old(self).nodes@, q as int).left) == RbColor::Black,
            color_of(old(self).nodes@, old(self).root) == RbColor::Black,
        ensures
            final(self).ordered(),
            final(self)@ == old(self)@,
            final(self).slots() == old(self).slots(),
            balanced(final(self).nodes@, final(self).shape@, Some((q as int, true))),
            reds_fine(final(self).nodes@, None),
            live(final(self).nodes@, q as int),
            node(final(self).nodes@, q as int).left == node(old(self).nodes@, q as int).left,
            color_of(final(self).nodes@, node(final(self).nodes@, q as int).right)
                == RbColor::Black,
            color_of(final(self).nodes@, node(final(self).nodes@, q as int).left)
                == RbColor::Black,
            color_of(final(self).nodes@, final(self).root) == RbColor::Black,
            forall|i: int|
                live(old(self).nodes@, i) && i != q && i != w ==> #[trigger] final(self).shape@.lo[i] == old(self).shape@.lo[i]
                    && final(self).shape@.hi[i] == old(self).shape@.hi[i],
    {
        let ghost t0 = *self;
        proof {
            lemma_around(t0.nodes@, t0.shape@, t0.root, q as int);
        }
        self.set_color(Some(w), RbColor::Black);
        self.set_color(Some(q), RbColor::Red);
        let ghost s = t0.shape@;
        self.shape = Ghost(
            Shape {
                bh: s.bh.update(w as int, s.bh[w as int] + 1).update(q as int, s.bh[q as int] - 1),
                ..s
            },
        );
        let ghost t1 = *self;
        proof {
            lemma_recolored_linked(t0, t1);
            lemma_same_items(t0, t1);
            assert(live(t1.nodes@, q as int));
            assert(live(t1.nodes@, w as int));
        }
        self.rotate_left(q);
        proof {
            lemma_same_items(t1, *self);
            lemma_raise_right(t0, t1, *self, q as int, w as int);
            if let Some(r) = t0.root {
                assert(live(t0.nodes@, r as int));
                assert(live(t1.nodes@, r as int));
                assert(live(self.nodes@, r as int));
            }
        }
    }

    /// Turns the red inner child of the right child of `q` into the sibling.
    fn unfold_right(&mut self, q: usize, w: usize)
        requires
            old(self).ordered(),
            balanced(old(self).nodes@, old(self).shape@, Some((q as int, true))),
            reds_fine(old(self).nodes@, None),
            live(old(self).nodes@, q as int),
            node(old(self).nodes@, q as int).right == Some(w),
            live(old(self).nodes@, w as int),
            node(old(self).nodes@, w as int).color == RbColor::Black,
            color_of(old(self).nodes@, node(old(self).nodes@, w as int).left) == RbColor::Red,
            color_of(old(self).nodes@, node(old(self).nodes@, w as int).right) == RbColor::Black,
            color_of(old(self).nodes@, old(self).root) == RbColor::Black,
        ensures
            final(self).ordered(),
            final(self)@ == old(self)@,
            final(self).slots() == old(self).slots(),
            balanced(final(self).nodes@, final(self).shape@, Some((q as int, true))),
            reds_fine(final(self).nodes@, None),
            live(final(self).nodes@, q as int),
            node(final(self).nodes@, q as int).left == node(old(self).nodes@, q as int).left,
            node(final(self).nodes@, q as int).right is Some,
            color_of(final(self).nodes@, node(final(self).nodes@, q as int).right)
                == RbColor::Black,
            color_of(
                final(self).nodes@,
                node(
                    final(self).nodes@,
                    node(final(self).nodes@, q as int).right->Some_0 as int,
                ).right,
            ) == RbColor::Red,
            color_of(final(self).nodes@, final(self).root) == RbColor::Black,
    {
        let ghost t0 = *self;
        proof {
            lemma_around(t0.nodes@, t0.shape@, t0.root, q as int);
            lemma_around(t0.nodes@, t0.shape@, t0.root, w as int);
        }
        if let Some(v) = self.left(w) {
            self.set_color(Some(v), RbColor::Black);
            self.set_color(Some(w), RbColor::Red);
            let ghost s = t0.shape@;
            self.shape = Ghost(
                Shape {
                    bh: s.bh.update(v as int, s.bh[v as int] + 1).update(
                        w as int,
                        s.bh[w as int] - 1,
                    ),
                    ..s
                },
            );
            let ghost t1 = *self;
            proof {
                lemma_recolored_linked(t0, t1);
                lemma_same_items(t0, t1);
                assert(live(t1.nodes@, v as int));
                assert(live(t1.nodes@, w as int));
            }
            self.rotate_right(w);
            proof {
                lemma_same_items(t1, *self);
                lemma_unfold_right(t0, t1, *self, q as int, w as int, v as int);
                if let Some(r) = t0.root {
                    assert(live(t0.nodes@, r as int));
                    assert(live(t1.nodes@, r as int));
                    assert(live(self.nodes@, r as int));
                }
            }
        }
    }

    /// Turns the black right child of `q`, whose outer child is red, above `q`:
    /// the short side is short no more.
    fn refill_right(&mut self, q: usize, w: usize)
        requires
            old(self).ordered(),
            balanced(old(self).nodes@, old(self).shape@, Some((q as int, true))),
            reds_fine(old(self).nodes@, None),
            live(old(self).nodes@, q as int),
            node(old(self).nodes@, q as int).right == Some(w),
            live(old(self).nodes@, w as int),
            node(old(self).nodes@, w as int).color == RbColor::Black,
            color_of(old(self).nodes@, node(old(self).nodes@, w as int).right) == RbColor::Red,
            color_of(old(self).nodes@, old(self).root) == RbColor::Black,
        ensures
            final(self).ordered(),
            final(self)@ == old(self)@,
            final(self).slots() == old(self).slots(),
            balanced(final(self).nodes@, final(self).shape@, None),
            reds_fine(final(self).nodes@, None),
            color_of(final(self).nodes@, final(self).root) == RbColor::Black,
            final(self).root is Some,
    {
        let ghost t0 = *self;
        proof {
            lemma_around(t0.nodes@, t0.shape@, t0.root, q as int);
            lemma_around(t0.nodes@, t0.shape@, t0.root, w as int);
        }
        let outer = self.right(w);
        if let Some(o) = outer {
            let color = self.color(Some(q));
            self.set_color(Some(w), color);
            self.set_color(Some(q), RbColor::Black);
            self.set_color(outer, RbColor::Black);
            let ghost s = t0.shape@;
            self.shape = Ghost(
                Shape {
                    bh: s.bh.update(o as int, s.bh[o as int] + 1).update(
                        w as int,
                        s.bh[q as int],
                    ).update(q as int, s.bh[o as int] + 1),
                    ..s
                },
            );
            let ghost t1 = *self;
            proof {
                lemma_recolored_linked(t0, t1);
                lemma_same_items(t0, t1);
                assert(live(t1.nodes@, q as int));
                assert(live(t1.nodes@, w as int));
            }
            self.rotate_left(q);
            proof {
                lemma_same_items(t1, *self);
                lemma_refill_right(t0, t1, *self, q as int, w as int, o as int);
                if let Some(r) = t0.root {
                    assert(live(t0.nodes@, r as int));
                    assert(live(t1.nodes@, r as int));
                    assert(live(self.nodes@, r as int));
                }
            }
        }
    }

    /// Makes the black right child of `q`, whose children are black, red.
    fn pass_up_right(&mut self, q: usize, w: usize)
        requires
            old(self).ordered(),
            balanced(old(self).nodes@, old(self).shape@, Some((q as int, true))),
            reds_fine(old(self).nodes@, None),
            live(old(self).nodes@, q as int),
            node(old(self).nodes@, q as int).right == Some(w),
            live(old(self).nodes@, w as int),
            node(old(self).nodes@, w as int).color == RbColor::Black,
            color_of(old(self).nodes@, node(old(self).nodes@, w as int).left) == RbColor::Black,
            color_of(old(self).nodes@, node(old(self).nodes@, w as int).right) == RbColor::Black,
            color_of(old(self).nodes@, old(self).root) == RbColor::Black,
        ensures
            final(self).ordered(),
            final(self)@ == old(self)@,
            final(self).slots() == old(self).slots(),
            balanced(
                final(self).nodes@,
                final(self).shape@,
                short_side_of(final(self).nodes@, q as int),
            ),
            reds_fine_around(final(self).nodes@, Some(q)),
            live(final(self).nodes@, q as int),
            color_of(final(self).nodes@, final(self).root) == RbColor::Black,
            final(self).shape@.lo == old(self).shape@.lo,
            final(self).shape@.hi == old(self).shape@.hi,
    {
        let ghost t0 = *self;
        proof {
            lemma_around(t0.nodes@, t0.shape@, t0.root, q as int);
        }
        self.set_color(Some(w), RbColor::Red);
        let ghost s = t0.shape@;
        self.shape = Ghost(
            Shape {
                bh: s.bh.update(w as int, s.bh[w as int] - 1).update(q as int, s.bh[q as int] - 1),
                ..s
            },
        );
        proof {
            lemma_recolored_linked(t0, *self);
            lemma_same_items(t0, *self);
            lemma_pass_up_right(t0, *self, q as int, w as int);
            assert(live(self.nodes@, q as int));
            if let Some(u) = node(t0.nodes@, q as int).parent {
                assert(live(self.nodes@, u as int));
            }
            if let Some(r) = t0.root {
                assert(live(t0.nodes@, r as int));
                assert(live(self.nodes@, r as int));
                lemma_around(t0.nodes@, t0.shape@, t0.root, w as int);
                lemma_around(t0.nodes@, t0.shape@, t0.root, r as int);
            }
        }
    }

    /// Turns the short side's red sibling, the left child of `q`, above `q`.
    fn raise_left(&mut self, q: usize, w: usize)
        requires
            old(self).ordered(),
            balanced(old(self).nodes@, old(self).shape@, Some((q as int, false))),
            reds_fine(old(self).nodes@, None),
            live(old(self).nodes@, q as int),
            node(old(self).nodes@, q as int).left == Some(w),
            node(old(self).nodes@, w as int).color == RbColor::Red,
            color_of(old(self).nodes@, node(old(self).nodes@, q as int).right) == RbColor::Black,
            color_of(old(self).nodes@, old(self).root) == RbColor::Black,
        ensures
            final(self).ordered(),
            final(self)@ == old(self)@,
            final(self).slots() == old(self).slots(),
            balanced(final(self).nodes@, final(self).shape@, Some((q as int, false))),
            reds_fine(final(self).nodes@, None),
            live(final(self).nodes@, q as int),
            node(final(self).nodes@, q as int).right == node(old(self).nodes@, q as int).right,
            color_of(final(self).nodes@, node(final(self).nodes@, q as int).left)
                == RbColor::Black,
            color_of(final(self).nodes@, node(final(self).nodes@, q as int).right)
                == RbColor::Black,
            color_of(final(self).nodes@, final(self).root) == RbColor::Black,
            forall|i: int|
                live(old(self).nodes@, i) && i != q && i != w ==> #[trigger] final(self).shape@.lo[i] == old(self).shape@.lo[i]
                    && final(self).shape@.hi[i] == old(self).shape@.hi[i],
    {
        let ghost t0 = *self;
        proof {
            lemma_around(t0.nodes@, t0.shape@, t0.root, q as int);
        }
        self.set_color(Some(w), RbColor::Black);
        self.set_color(Some(q), RbColor::Red);
        let ghost s = t0.shape@;
        self.shape = Ghost(
            Shape {
                bh: s.bh.update(w as int, s.bh[w as int] + 1).update(q as int, s.bh[q as int] - 1),
                ..s
            },
        );
        let ghost t1 = *self;
        proof {
            lemma_recolored_linked(t0, t1);
            lemma_same_items(t0, t1);
            assert(live(t1.nodes@, q as int));
            assert(live(t1.nodes@, w as int));
        }
        self.rotate_right(q);
        proof {
            lemma_same_items(t1, *self);
            lemma_raise_left(t0, t1, *self, q as int, w as int);
            if let Some(r) = t0.root {
                assert(live(t0.nodes@, r as int));
                assert(live(t1.nodes@, r as int));
                assert(live(self.nodes@, r as int));
            }
        }
    }

    /// Turns the red inner child of the left child of `q` into the sibling.
    fn unfold_left(&mut self, q: usize, w: usize)
        requires
            old(self).ordered(),
            balanced(old(self).nodes@, old(self).shape@, Some((q as int, false))),
            reds_fine(old(self).nodes@, None),
            live(old(self).nodes@, q as int),
            node(old(self).nodes@, q as int).left == Some(w),
            live(old(self).nodes@, w as int),
            node(old(self).nodes@, w as int).color == RbColor::Black,
            color_of(old(self).nodes@, node(old(self).nodes@, w as int).right) == RbColor::Red,
            color_of(old(self).nodes@, node(old(self).nodes@, w as int).left) == RbColor::Black,
            color_of(old(self).nodes@, old(self).root) == RbColor::Black,
        ensures
            final(self).ordered(),
            final(self)@ == old(self)@,
            final(self).slots() == old(self).slots(),
            balanced(final(self).nodes@, final(self).shape@, Some((q as int, false))),
            reds_fine(final(self).nodes@, None),
            live(final(self).nodes@, q as int),
            node(final(self).nodes@, q as int).right == node(old(self).nodes@, q as int).right,
            node(final(self).nodes@, q as int).left is Some,
            color_of(final(self).nodes@, node(final(self).nodes@, q as int).left)
                == RbColor::Black,
            color_of(
                final(self).nodes@,
                node(
                    final(self).nodes@,
                    node(final(self).nodes@, q as int).left->Some_0 as int,
                ).left,
            ) == RbColor::Red,
            color_of(final(self).nodes@, final(self).root) == RbColor::Black,
    {
        let ghost t0 = *self;
        proof {
            lemma_around(t0.nodes@, t0.shape@, t0.root, q as int);
            lemma_around(t0.nodes@, t0.shape@, t0.root, w as int);
        }
        if let Some(v) = self.right(w) {
            self.set_color(Some(v), RbColor::Black);
            self.set_color(Some(w), RbColor::Red);
            let ghost s = t0.shape@;
            self.shape = Ghost(
                Shape {
                    bh: s.bh.update(v as int, s.bh[v as int] + 1).update(
                        w as int,
                        s.bh[w as int] - 1,
                    ),
                    ..s
                },
            );
            let ghost t1 = *self;
            proof {
                lemma_recolored_linked(t0, t1);
                lemma_same_items(t0, t1);
                assert(live(t1.nodes@, v as int));
                assert(live(t1.nodes@, w as int));
            }
            self.rotate_left(w);
            proof {
                lemma_same_items(t1, *self);
                lemma_unfold_left(t0, t1, *self, q as int, w as int, v as int);
                if let Some(r) = t0.root {
                    assert(live(t0.nodes@, r as int));
                    assert(live(t1.nodes@, r as int));
                    assert(live(self.nodes@, r as int));
                }
            }
        }
    }

    /// Turns the black left child of `q`, whose outer child is red, above `q`:
    /// the short side is short no more.
    fn refill_left(&mut self, q: usize, w: usize)
        requires
            old(self).ordered(),
            balanced(old(self).nodes@, old(self).shape@, Some((q as int, false))),
            reds_fine(old(self).nodes@, None),
            live(old(self).nodes@, q as int),
            node(old(self).nodes@, q as int).left == Some(w),
            live(old(self).nodes@, w as int),
            node(old(self).nodes@, w as int).color == RbColor::Black,
            color_of(old(self).nodes@, node(old(self).nodes@, w as int).left) == RbColor::Red,
            color_of(old(self).nodes@, old(self).root) == RbColor::Black,
        ensures
            final(self).ordered(),
            final(self)@ == old(self)@,
            final(self).slots() == old(self).slots(),
            balanced(final(self).nodes@, final(self).shape@, None),
            reds_fine(final(self).nodes@, None),
            color_of(final(self).nodes@, final(self).root) == RbColor::Black,
            final(self).root is Some,
    {
        let ghost t0 = *self;
        proof {
            lemma_around(t0.nodes@, t0.shape@, t0.root, q as int);
            lemma_around(t0.nodes@, t0.shape@, t0.root, w as int);
        }
        let outer = self.left(w);
        if let Some(o) = outer {
            let color = self.color(Some(q));
            self.set_color(Some(w), color);
            self.set_color(Some(q), RbColor::Black);
            self.set_color(outer, RbColor::Black);
            let ghost s = t0.shape@;
            self.shape = Ghost(
                Shape {
                    bh: s.bh.update(o as int, s.bh[o as int] + 1).update(
                        w as int,
                        s.bh[q as int],
                    ).update(q as int, s.bh[o as int] + 1),
                    ..s
                },
            );
            let ghost t1 = *self;
            proof {
                lemma_recolored_linked(t0, t1);
                lemma_same_items(t0, t1);
                assert(live(t1.nodes@, q as int));
                assert(live(t1.nodes@, w as int));
            }
            self.rotate_right(q);
            proof {
                lemma_same_items(t1, *self);
                lemma_refill_left(t0, t1, *self, q as int, w as int, o as int);
                if let Some(r) = t0.root {
                    assert(live(t0.nodes@, r as int));
                    assert(live(t1.nodes@, r as int));
                    assert(live(self.nodes@, r as int));
                }
            }
        }
    }

    /// Makes the black left child of `q`, whose children are black, red.
    fn pass_up_left(&mut self, q: usize, w: usize)
        requires
            old(self).ordered(),
            balanced(old(self).nodes@, old(self).shape@, Some((q as int, false))),
            reds_fine(old(self).nodes@, None),
            live(old(self).nodes@, q as int),
            node(old(self).nodes@, q as int).left == Some(w),
            live(old(self).nodes@, w as int),
            node(old(self).nodes@, w as int).color == RbColor::Black,
            color_of(old(self).nodes@, node(old(self).nodes@, w as int).right) == RbColor::Black,
            color_of(old(self).nodes@, node(old(self).nodes@, w as int).left) == RbColor::Black,
            color_of(old(self).nodes@, old(self).root) == RbColor::Black,
        ensures
            final(self).ordered(),
            final(self)@ == old(self)@,
            final(self).slots() == old(self).slots(),
            balanced(
                final(self).nodes@,
                final(self).shape@,
                short_side_of(final(self).nodes@, q as int),
            ),
            reds_fine_around(final(self).nodes@, Some(q)),
            live(final(self).nodes@, q as int),
            color_of(final(self).nodes@, final(self).root) == RbColor::Black,
            final(self).shape@.lo == old(self).shape@.lo,
            final(self).shape@.hi == old(self).shape@.hi,
    {
        let ghost t0 = *self;
        proof {
            lemma_around(t0.nodes@, t0.shape@, t0.root, q as int);
        }
        self.set_color(Some(w), RbColor::Red);
        let ghost s = t0.shape@;
        self.shape = Ghost(
            Shape {
                bh: s.bh.update(w as int, s.bh[w as int] - 1).update(q as int, s.bh[q as int] - 1),
                ..s
            },
        );
        proof {
            lemma_recolored_linked(t0, *self);
            lemma_same_items(t0, *self);
            lemma_pass_up_left(t0, *self, q as int, w as int);
            assert(live(self.nodes@, q as int));
            if let Some(u) = node(t0.nodes@, q as int).parent {
                assert(live(self.nodes@, u as int));
            }
            if let Some(r) = t0.root {
                assert(live(t0.nodes@, r as int));
                assert(live(self.nodes@, r as int));
                lemma_around(t0.nodes@, t0.shape@, t0.root, w as int);
                lemma_around(t0.nodes@, t0.shape@, t0.root, r as int);
            }
        }
    }

    /// Restores the black counts where the subtree at `start` lacks a black.
    ///
    /// An empty leaf has no parent link, so its parent comes along.
    fn delete_fixup(&mut self, start: Option<usize>, above: Option<usize>, Ghost(on_left): Ghost<bool>)
        requires
            old(self).ordered(),
            start is Some ==> live(old(self).nodes@, start->Some_0 as int),
            reds_fine_around(old(self).nodes@, start),
            old(self).root == start || color_of(old(self).nodes@, old(self).root)
                == RbColor::Black,
            match above {
                None => start == old(self).root && balanced(
                    old(self).nodes@,
                    old(self).shape@,
                    None,
                ),
                Some(q) => live(old(self).nodes@, q as int) && start != old(self).root && balanced(
                    old(self).nodes@,
                    old(self).shape@,
                    Some((q as int, on_left)),
                ) && start == if on_left {
                    node(old(self).nodes@, q as int).left
                } else {
                    node(old(self).nodes@, q as int).right
                },
            },
        ensures
            final(self).wf(),
            final(self)@ == old(self)@,
            final(self).slots() == old(self).slots(),
    {
        let mut top: Option<usize> = start;
        let mut parent: Option<usize> = above;
        let ghost mut side: bool = on_left;
        loop
            invariant
                self.ordered(),
                self@ == old(self)@,
                self.slots() == old(self).slots(),
                top is Some ==> live(self.nodes@, top->Some_0 as int),
                reds_fine_around(self.nodes@, top),
                self.root == top || color_of(self.nodes@, self.root) == RbColor::Black,
                match parent {
                    None => top == self.root && balanced(self.nodes@, self.shape@, None),
                    Some(q) => live(self.nodes@, q as int) && top != self.root && balanced(
                        self.nodes@,
                        self.shape@,
                        Some((q as int, side)),
                    ) && top == if side {
                        node(self.nodes@, q as int).left
                    } else {
                        node(self.nodes@, q as int).right
                    },
                },
            ensures
                self.ordered(),
                self@ == old(self)@,
                self.slots() == old(self).slots(),
                top is Some ==> live(self.nodes@, top->Some_0 as int),
                reds_fine_around(self.nodes@, top),
                self.root == top || color_of(self.nodes@, self.root) == RbColor::Black,
                match parent {
                    None => top == self.root && balanced(self.nodes@, self.shape@, None),
                    Some(q) => live(self.nodes@, q as int) && top is Some && balanced(
                        self.nodes@,
                        self.shape@,
                        Some((q as int, side)),
                    ) && top == if side {
                        node(self.nodes@, q as int).left
                    } else {
                        node(self.nodes@, q as int).right
                    } && color_of(self.nodes@, top) == RbColor::Red,
                },
            decreases
                if parent is None {
                    0
                } else {
                    1 + self.shape@.order.len() - match top {
                        None => 0,
                        Some(i) => self.shape@.hi[i as int] - self.shape@.lo[i as int],
                    }
                },
        {
            let ghost span = match top {
                None => 0,
                Some(i) => self.shape@.hi[i as int] - self.shape@.lo[i as int],
            };
            let ghost count = self.shape@.order.len();
            assert(count == self@.len());
            if self.color(top) == RbColor::Red {
                break;
            }
            proof {
                lemma_black_around(self.nodes@, top);
            }
            if let Some(q) = parent {
                proof {
                    lemma_around(self.nodes@, self.shape@, self.root, q as int);
                    if side {
                        lemma_sibling_right(*self, q as int);
                    } else {
                        lemma_sibling_left(*self, q as int);
                    }
                    if let Some(i) = top {
                        lemma_around(self.nodes@, self.shape@, self.root, i as int);
                    }
                }
                if top == self.left(q) {
                    let mut sibling = self.right(q);
                    if self.color(sibling) == RbColor::Red {
                        if let Some(w) = sibling {
                            self.raise_right(q, w);
                            proof {
                                lemma_sibling_right(*self, q as int);
                            }
                            sibling = self.right(q);
                        }
                    }
                    if let Some(w) = sibling {
                        if self.color(self.left_of(sibling)) == RbColor::Black && self.color(
                            self.right_of(sibling),
                        ) == RbColor::Black {
                            proof {
                                lemma_around(self.nodes@, self.shape@, self.root, q as int);
                                if let Some(i) = top {
                                    assert(self.shape@.lo[i as int] >= 0 && self.shape@.hi[i as int] - self.shape@.lo[i as int] < self.shape@.hi[q as int] - self.shape@.lo[q as int]);
                                }
                            }
                            self.pass_up_right(q, w);
                            top = Some(q);
                            parent = self.parent(q);
                            proof {
                                lemma_around(self.nodes@, self.shape@, self.root, q as int);
                                side = match parent {
                                    None => false,
                                    Some(u) => node(self.nodes@, u as int).left == Some(q),
                                };
                            }
                        } else {
                            if self.color(self.right_of(sibling)) == RbColor::Black {
                                self.unfold_right(q, w);
                                sibling = self.right(q);
                                proof {
                                    lemma_sibling_right(*self, q as int);
                                }
                            }
                            if let Some(w2) = sibling {
                                self.refill_right(q, w2);
                            }
                            top = self.root;
                            parent = None;
                            proof {
                                lemma_fine_around(self.nodes@, top);
                            }
                        }
                    }
                } else {
                    let mut sibling = self.left(q);
                    if self.color(sibling) == RbColor::Red {
                        if let Some(w) = sibling {
                            self.raise_left(q, w);
                            proof {
                                lemma_sibling_left(*self, q as int);
                            }
                            sibling = self.left(q);
                        }
                    }
                    if let Some(w) = sibling {
                        if self.color(self.right_of(sibling)) == RbColor::Black && self.color(
                            self.left_of(sibling),
                        ) == RbColor::Black {
                            proof {
                                lemma_around(self.nodes@, self.shape@, self.root, q as int);
                                if let Some(i) = top {
                                    assert(self.shape@.lo[i as int] >= 0 && self.shape@.hi[i as int] - self.shape@.lo[i as int] < self.shape@.hi[q as int] - self.shape@.lo[q as int]);
                                }
                            }
                            self.pass_up_left(q, w);
                            top = Some(q);
                            parent = self.parent(q);
                            proof {
                                lemma_around(self.nodes@, self.shape@, self.root, q as int);
                                side = match parent {
                                    None => false,
                                    Some(u) => node(self.nodes@, u as int).left == Some(q),
                                };
                            }
                        } else {
                            if self.color(self.left_of(sibling)) == RbColor::Black {
                                self.unfold_left(q, w);
                                sibling = self.left(q);
                                proof {
                                    lemma_sibling_left(*self, q as int);
                                }
                            }
                            if let Some(w2) = sibling {
                                self.refill_left(q, w2);
                            }
                            top = self.root;
                            parent = None;
                            proof {
                                lemma_fine_around(self.nodes@, top);
                            }
                        }
                    }
                }
                assert(self.shape@.order.len() == self@.len());
                assert(parent is Some ==> top == Some(q) && span < self.shape@.hi[q as int]
                    - self.shape@.lo[q as int]);
                assert(span <= count);
            } else {
                break;
            }
        }
        let ghost t0 = *self;
        if let Some(i) = top {
            let red: bool = self.color(top) == RbColor::Red;
            self.set_color(top, RbColor::Black);
            if red {
                let ghost s = t0.shape@;
                self.shape = Ghost(Shape { bh: s.bh.update(i as int, s.bh[i as int] + 1), ..s });
            }
            proof {
                lemma_recolored_linked(t0, *self);
                lemma_same_items(t0, *self);
                lemma_blackened(
                    t0,
                    *self,
                    i as int,
                    match parent {
                        None => None,
                        Some(q) => Some((q as int, side)),
                    },
                );
                assert(live(self.nodes@, i as int));
                if let Some(r) = t0.root {
                    assert(live(self.nodes@, r as int));
                }
            }
        }
    }
}

impl<K: SortKey, V> RbRootCached<K, V> {
    /// Hangs `replacement` where `index` hangs.
    fn transplant(&mut self, index: usize, replacement: Option<usize>)
        requires
            live(old(self).nodes@, index as int),
            replacement is Some ==> live(old(self).nodes@, replacement->Some_0 as int),
            node(old(self).nodes@, index as int).parent matches Some(q) ==> live(
                old(self).nodes@,
                q as int,
            ) && q != index && replacement != Some(q),
        ensures
            final(self).leftmost == old(self).leftmost,
            final(self).free_slots == old(self).free_slots,
            final(self).len == old(self).len,
            final(self).shape == old(self).shape,
            final(self).root == if node(old(self).nodes@, index as int).parent is None {
                replacement
            } else {
                old(self).root
            },
            final(self).nodes@.len() == old(self).nodes@.len(),
            forall|i: int| #[trigger]
                live(final(self).nodes@, i) == live(old(self).nodes@, i),
            forall|i: int| #[trigger]
                live(final(self).nodes@, i) ==> {
                    let o = node(old(self).nodes@, i);
                    let up = node(old(self).nodes@, index as int).parent;
                    let on_left = o.left == Some(index);
                    node(final(self).nodes@, i) == (RbNode {
                        left: if up == Some(i as usize) && on_left {
                            replacement
                        } else {
                            o.left
                        },
                        right: if up == Some(i as usize) && !on_left {
                            replacement
                        } else {
                            o.right
                        },
                        parent: if replacement == Some(i as usize) {
                            up
                        } else {
                            o.parent
                        },
                        ..o
                    })
                },
    {
        let parent = self.parent(index);
        if let Some(q) = parent {
            if self.left(q) == Some(index) {
                self.set_left(q, replacement);
            } else {
                self.set_right(q, replacement);
            }
        } else {
            self.root = replacement;
        }
        self.set_parent(replacement, parent);
        assert(self.nodes@.len() == self.nodes.len());
    }

    /// Empties a slot.
    fn take_slot(&mut self, index: usize) -> (value: V)
        requires
            live(old(self).nodes@, index as int),
        ensures
            value == node(old(self).nodes@, index as int).value,
            final(self).nodes@ == old(self).nodes@.update(index as int, None),
            final(self).root == old(self).root,
            final(self).leftmost == old(self).leftmost,
            final(self).free_slots == old(self).free_slots,
            final(self).len == old(self).len,
            final(self).shape == old(self).shape,
    {
        let mut taken: Option<RbNode<K, V>> = None;
        let slot = &mut self.nodes[index];
        std::mem::swap(slot, &mut taken);
        match taken {
            Some(n) => n.value,
            None => vstd::pervasive::unreached(),
        }
    }

    /// Finds a node with the given key.
    fn find(&self, key: &K) -> (found: Option<usize>)
        requires
            self.ordered(),
        ensures
            match found {
                None => forall|j: int|
                    0 <= j < self@.len() ==> (#[trigger] self@[j]).0.rank() != key.rank(),
                Some(i) => live(self.nodes@, i as int) && node(
                    self.nodes@,
                    i as int,
                ).key.rank() == key.rank(),
            },
    {
        let ghost nodes = self.nodes@;
        let ghost s = self.shape@;
        let ghost mut a: int = 0;
        let ghost mut b: int = s.order.len() as int;
        let mut cursor: Option<usize> = self.root;
        proof {
            if let Some(r) = self.root {
                lemma_around(nodes, s, self.root, r as int);
            }
        }
        while cursor.is_some()
            invariant
                nodes == self.nodes@,
                s == self.shape@,
                linked(nodes, s, self.root),
                keys_sorted(nodes, s),
                0 <= a <= b <= s.order.len(),
                match cursor {
                    None => a == b,
                    Some(c) => live(nodes, c as int) && s.lo[c as int] == a && s.hi[c as int] == b,
                },
                forall|k: int|
                    0 <= k < a ==> (#[trigger] key_at(nodes, s, k)).rank() < key.rank(),
                forall|k: int|
                    b <= k < s.order.len() ==> (#[trigger] key_at(nodes, s, k)).rank()
                        > key.rank(),
            decreases b - a,
        {
            if let Some(index) = cursor {
                proof {
                    lemma_around(nodes, s, self.root, index as int);
                    assert(key_at(nodes, s, s.pos[index as int]) == node(nodes, index as int).key);
                }
                if self.key_is_before(key, index) {
                    cursor = self.left(index);
                    proof {
                        b = s.pos[index as int];
                    }
                } else if self.key_is_behind(key, index) {
                    cursor = self.right(index);
                    proof {
                        a = s.pos[index as int] + 1;
                    }
                } else {
                    return Some(index);
                }
            }
        }
        proof {
            assert forall|j: int| 0 <= j < self@.len() implies (#[trigger] self@[j]).0.rank()
                != key.rank() by {
                assert(key_at(nodes, s, j) == self@[j].0);
            }
        }
        None
    }

    /// Tells whether `key` comes behind the key of a node.
    fn key_is_behind(&self, key: &K, index: usize) -> (b: bool)
        requires
            live(self.nodes@, index as int),
        ensures
            b == (key.rank() > node(self.nodes@, index as int).key.rank()),
    {
        match &self.nodes[index] {
            None => false,
            Some(n) => n.key.before(key),
        }
    }

    /// Takes out a node with at most one child.
    fn cut(&mut self, t: usize, c: Option<usize>) -> (value: V)
        requires
            linked(old(self).nodes@, old(self).shape@, old(self).root),
            live(old(self).nodes@, t as int),
            (node(old(self).nodes@, t as int).left is None && node(
                old(self).nodes@,
                t as int,
            ).right == c) || (node(old(self).nodes@, t as int).right is None && node(
                old(self).nodes@,
                t as int,
            ).left == c),
        ensures
            cut_out(*old(self), *final(self), t as int, c),
            value == node(old(self).nodes@, t as int).value,
            final(self).free_slots == old(self).free_slots,
            final(self).len == old(self).len,
    {
        let ghost t0 = *self;
        proof {
            lemma_around(t0.nodes@, t0.shape@, t0.root, t as int);
            if let Some(q) = node(t0.nodes@, t as int).parent {
                lemma_around(t0.nodes@, t0.shape@, t0.root, q as int);
            }
        }
        self.transplant(t, c);
        let ghost t1 = *self;
        assert(live(t1.nodes@, t as int));
        let value = self.take_slot(t);
        self.shape = Ghost(
            shape_without(t0.shape@, t0.shape@.pos[t as int], t0.shape@.pos[t as int]),
        );
        proof {
            assert forall|i: int| #[trigger] live(self.nodes@, i) implies {
                let o = node(t0.nodes@, i);
                node(self.nodes@, i) == (RbNode {
                    left: link_past(o.left, t as int, c),
                    right: link_past(o.right, t as int, c),
                    parent: if c == Some(i as usize) {
                        node(t0.nodes@, t as int).parent
                    } else {
                        o.parent
                    },
                    ..o
                })
            } by {
                assert(live(t1.nodes@, i));
                assert(live(t0.nodes@, i));
                lemma_around(t0.nodes@, t0.shape@, t0.root, i);
            }
            assert forall|i: int| #[trigger] live(self.nodes@, i) == (live(t0.nodes@, i) && i
                != t) by {
                assert(live(t1.nodes@, i) == live(t0.nodes@, i));
            }
        }
        value
    }

    /// Takes out a node with two children, whose place its successor `m` fills.
    #[verifier::spinoff_prover]
    #[verifier::rlimit(60)]
    fn fill(&mut self, t: usize, m: usize) -> (value: V)
        requires
            linked(old(self).nodes@, old(self).shape@, old(self).root),
            live(old(self).nodes@, t as int),
            live(old(self).nodes@, m as int),
            node(old(self).nodes@, t as int).left is Some,
            node(old(self).nodes@, t as int).right is Some,
            node(old(self).nodes@, m as int).left is None,
            old(self).shape@.pos[m as int] == old(self).shape@.pos[t as int] + 1,
            node(old(self).nodes@, m as int).parent is Some,
        ensures
            filled_by_next(*old(self), *final(self), t as int, m as int),
            value == node(old(self).nodes@, t as int).value,
            final(self).free_slots == old(self).free_slots,
            final(self).len == old(self).len,
    {
        let ghost t0 = *self;
        let ghost on = t0.nodes@;
        proof {
            lemma_around(on, t0.shape@, t0.root, t as int);
            lemma_around(on, t0.shape@, t0.root, m as int);
            lemma_around(on, t0.shape@, t0.root, node(on, m as int).parent->Some_0 as int);
            if let Some(q) = node(on, t as int).parent {
                lemma_around(on, t0.shape@, t0.root, q as int);
            }
        }
        let c = self.right(m);
        if self.parent(m) == Some(t) {
            self.set_parent(c, Some(m));
        } else {
            self.transplant(m, c);
            let ghost near = *self;
            assert(live(near.nodes@, t as int));
            assert(live(near.nodes@, m as int));
            let right = self.right(t);
            assert(live(near.nodes@, right->Some_0 as int));
            self.set_right(m, right);
            self.set_parent(right, Some(m));
            assert forall|i: int| #[trigger] live(self.nodes@, i) == live(on, i) by {
                assert(live(near.nodes@, i) == live(on, i));
            }
            assert forall|i: int| #[trigger] live(self.nodes@, i) implies node(self.nodes@, i)
                == freed_node(on, t as int, m as int, i) by {
                assert(live(near.nodes@, i));
                assert(live(on, i));
                lemma_around(on, t0.shape@, t0.root, i);
            }
        }
        let ghost t1 = *self;
        proof {
            assert forall|i: int| #[trigger] live(t1.nodes@, i) == live(on, i) by {}
            assert forall|i: int| #[trigger] live(t1.nodes@, i) implies node(t1.nodes@, i)
                == freed_node(on, t as int, m as int, i) by {
                assert(live(on, i));
                lemma_around(on, t0.shape@, t0.root, i);
            }
            assert(live(t1.nodes@, t as int));
            assert(live(t1.nodes@, m as int));
            if let Some(q) = node(on, t as int).parent {
                assert(live(t1.nodes@, q as int));
            }
            assert(live(t1.nodes@, node(on, t as int).left->Some_0 as int));
        }
        self.transplant(t, Some(m));
        let ghost t2 = *self;
        assert(live(t2.nodes@, t as int));
        assert(live(t2.nodes@, m as int));
        assert(live(t2.nodes@, node(on, t as int).left->Some_0 as int));
        let left = self.left(t);
        self.set_left(m, left);
        self.set_parent(left, Some(m));
        let color = self.color(Some(t));
        self.set_color(Some(m), color);
        let ghost t3 = *self;
        let value = self.take_slot(t);
        let ghost os = t0.shape@;
        let ghost s = shape_without(os, os.pos[t as int], os.pos[t as int] + 1);
        self.shape = Ghost(
            Shape {
                lo: s.lo.update(m as int, os.lo[t as int]),
                hi: s.hi.update(m as int, os.hi[t as int] - 1),
                bh: os.bh.update(m as int, os.bh[t as int]),
                ..s
            },
        );
        proof {
            assert forall|i: int| #[trigger] live(self.nodes@, i) == (live(on, i) && i != t) by {
                assert(live(t2.nodes@, i) == live(t1.nodes@, i));
            }
            assert forall|i: int| #[trigger] live(self.nodes@, i) implies node(self.nodes@, i)
                == filled_node(on, t as int, m as int, i) by {
                assert(live(t2.nodes@, i));
                assert(live(t1.nodes@, i));
                assert(live(on, i));
                lemma_around(on, os, t0.root, i);
            }
        }
        value
    }
}

impl<K: SortKey, V> RbRootCached<K, V> {
    /// Takes out a pair with the given key and returns its value.
    ///
    /// Where several pairs have the key, the tree's shape decides which one goes.
    pub fn remove(&mut self, key: K) -> (value: Option<V>)
        requires
            old(self).wf(),
        ensures
            final(self).wf(),
            final(self).slots() == old(self).slots(),
            match value {
                None => final(self)@ == old(self)@ && forall|j: int|
                    0 <= j < old(self)@.len() ==> (#[trigger] old(self)@[j]).0.rank() != key.rank(),
                Some(v) => exists|k: int|
                    0 <= k < old(self)@.len() && (#[trigger] old(self)@[k]).0.rank() == key.rank()
                        && v == old(self)@[k].1 && final(self)@ == old(self)@.remove(k),
            },
    {
        match self.find(&key) {
            None => None,
            Some(t) => Some(self.remove_node(t)),
        }
    }

    /// Takes out the node in slot `t`.
    fn remove_node(&mut self, t: usize) -> (value: V)
        requires
            old(self).wf(),
            live(old(self).nodes@, t as int),
        ensures
            final(self).wf(),
            final(self).slots() == old(self).slots(),
            0 <= old(self).shape@.pos[t as int] < old(self)@.len(),
            old(self)@[old(self).shape@.pos[t as int]] == (
                node(old(self).nodes@, t as int).key,
                value,
            ),
            final(self)@ == old(self)@.remove(old(self).shape@.pos[t as int]),
    {
        let ghost t0 = *self;
        let ghost mut short: Option<(int, bool)> = None;
        proof {
            lemma_around(t0.nodes@, t0.shape@, t0.root, t as int);
        }
        let left = self.left(t);
        let right = self.right(t);
        let replacement: Option<usize>;
        let above: Option<usize>;
        let lost: RbColor;
        let value: V;
        if left.is_none() || right.is_none() {
            replacement = if left.is_none() {
                right
            } else {
                left
            };
            above = self.parent(t);
            lost = self.color(Some(t));
            value = self.cut(t, replacement);
            proof {
                lemma_cut_out_linked(t0, *self, t as int, replacement);
                lemma_cut_out_colors(t0, *self, t as int, replacement);
                short = missing_at(t0.nodes@, t as int);
            }
        } else {
            let m: usize = self.minimum(right.unwrap());
            proof {
                lemma_around(t0.nodes@, t0.shape@, t0.root, m as int);
                lemma_around(t0.nodes@, t0.shape@, t0.root, right->Some_0 as int);
            }
            lost = self.color(Some(m));
            replacement = self.right(m);
            above = if self.parent(m) == Some(t) {
                Some(m)
            } else {
                self.parent(m)
            };
            value = self.fill(t, m);
            proof {
                lemma_filled_by_next_linked(t0, *self, t as int, m as int);
                lemma_filled_by_next_colors(t0, *self, t as int, m as int);
                short = missing_at_next(t0.nodes@, t as int, m as int);
            }
        }
        let ghost t1 = *self;
        proof {
            assert forall|i: int| #[trigger] live(t1.nodes@, i) implies live(t0.nodes@, i) && node(
                t1.nodes@,
                i,
            ).key == node(t0.nodes@, i).key && node(t1.nodes@, i).value == node(
                t0.nodes@,
                i,
            ).value by {}
            lemma_removed_pairs(t0, t1, t as int);
            if let Some(r) = t1.root {
                lemma_around(t1.nodes@, t1.shape@, t1.root, r as int);
            }
        }
        self.free_slots.push(t);
        self.len = self.len - 1;
        self.leftmost = match self.root {
            None => None,
            Some(r) => Some(self.minimum(r)),
        };
        proof {
            if let Some(l) = self.leftmost {
                lemma_around(self.nodes@, self.shape@, self.root, l as int);
            }
            assert(slots_free(self.nodes@, self.free_slots@)) by {
                let free = self.free_slots@;
                assert(!live(self.nodes@, t as int));
                assert forall|k: int| 0 <= k < free.len() implies #[trigger] free[k]
                    < self.nodes@.len() && self.nodes@[free[k] as int] is None by {
                    assert(live(self.nodes@, free[k] as int) ==> live(
                        t0.nodes@,
                        free[k] as int,
                    ));
                    if k < free.len() - 1 {
                        assert(free[k] == t0.free_slots@[k]);
                    }
                }
                assert forall|j: int, k: int| 0 <= j < k < free.len() implies #[trigger] free[j]
                    != #[trigger] free[k] by {
                    assert(free[j] == t0.free_slots@[j]);
                    if k < free.len() - 1 {
                        assert(free[k] == t0.free_slots@[k]);
                    }
                }
            }
            assert(self.ordered());
            if let Some(r) = self.root {
                assert(live(t1.nodes@, r as int));
                assert(live(t0.nodes@, r as int));
            }
        }
        if lost == RbColor::Black {
            self.delete_fixup(
                replacement,
                above,
                Ghost(
                    match short {
                        None => false,
                        Some((q, on_left)) => on_left,
                    },
                ),
            );
        }
        value
    }

    /// Takes out the first pair and returns its value.
    pub fn pop_first(&mut self) -> (value: Option<V>)
        requires
            old(self).wf(),
        ensures
            final(self).wf(),
            final(self).slots() == old(self).slots(),
            match value {
                None => old(self)@.len() == 0 && final(self)@ == old(self)@,
                Some(v) => old(self)@.len() > 0 && v == old(self)@[0].1 && final(self)@ == old(self)@.remove(0),
            },
    {
        match self.leftmost {
            None => None,
            Some(t) => {
                assert(live(self.nodes@, self.shape@.order[0]) && self.shape@.pos[self.shape@.order[0]] == 0);
                Some(self.remove_node(t))
            },
        }
    }

    /// Takes out the first pair that `predicate` accepts, in the order of the slots.
    pub fn remove_where<F: Fn(&V) -> bool>(&mut self, predicate: F) -> (value: Option<V>)
        requires
            old(self).wf(),
            forall|j: int|
                0 <= j < old(self)@.len() ==> call_requires(
                    predicate,
                    (&(#[trigger] old(self)@[j]).1,),
                ),
        ensures
            final(self).wf(),
            final(self).slots() == old(self).slots(),
            match value {
                None => final(self)@ == old(self)@ && forall|j: int|
                    0 <= j < old(self)@.len() ==> call_ensures(
                        predicate,
                        (&(#[trigger] old(self)@[j]).1,),
                        false,
                    ),
                Some(v) => exists|k: int|
                    0 <= k < old(self)@.len() && call_ensures(
                        predicate,
                        (&(#[trigger] old(self)@[k]).1,),
                        true,
                    ) && v == old(self)@[k].1 && final(self)@ == old(self)@.remove(k) && forall|j: int|
                        0 <= j < old(self)@.len() && old(self).slot_of(j) < old(self).slot_of(k)
                            ==> call_ensures(predicate, (&(#[trigger] old(self)@[j]).1,), false),
            },
    {
        let ghost before = self@;
        let mut i: usize = 0;
        while i < self.nodes.len()
            invariant
                *self == *old(self),
                before == self@,
                self.wf(),
                i <= self.nodes@.len(),
                forall|j: int|
                    0 <= j < before.len() ==> call_requires(
                        predicate,
                        (&(#[trigger] before[j]).1,),
                    ),
                forall|j: int|
                    0 <= j < before.len() && self.shape@.order[j] < i ==> call_ensures(
                        predicate,
                        (&(#[trigger] before[j]).1,),
                        false,
                    ),
            decreases self.nodes@.len() - i,
        {
            let ghost p = self.shape@.pos[i as int];
            proof {
                if live(self.nodes@, i as int) {
                    lemma_around(self.nodes@, self.shape@, self.root, i as int);
                    assert(before[p] == (
                        node(self.nodes@, i as int).key,
                        node(self.nodes@, i as int).value,
                    ));
                }
            }
            let accepted: bool = match &self.nodes[i] {
                None => false,
                Some(n) => predicate(&n.value),
            };
            if accepted {
                let value = self.remove_node(i);
                assert(old(self).slot_of(p) == i);
                assert(call_ensures(predicate, (&old(self)@[p].1,), true));
                return Some(value);
            }
            proof {
                assert forall|j: int| 0 <= j < before.len() && self.shape@.order[j] < i + 1 implies
                    call_ensures(predicate, (&(#[trigger] before[j]).1,), false) by {
                    if self.shape@.order[j] == i {
                        assert(live(self.nodes@, self.shape@.order[j]));
                        assert(j == p);
                    }
                }
            }
            i = i + 1;
        }
        proof {
            assert forall|j: int| 0 <= j < before.len() implies call_ensures(
                predicate,
                (&(#[trigger] before[j]).1,),
                false,
            ) by {
                assert(live(self.nodes@, self.shape@.order[j]));
            }
        }
        None
    }
}

/// The pairs of a tree stand in the order of their keys.
pub proof fn law_pairs_sorted<K: SortKey, V>(tree: RbRootCached<K, V>, i: int, j: int)
    requires
        tree.wf(),
        0 <= i <= j < tree@.len(),
    ensures
        tree@[i].0.rank() <= tree@[j].0.rank(),
{
    assert(key_at(tree.nodes@, tree.shape@, i) == tree@[i].0);
    assert(key_at(tree.nodes@, tree.shape@, j) == tree@[j].0);
}

} // verus!
