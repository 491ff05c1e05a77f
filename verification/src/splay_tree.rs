//! A splay tree kept in two arenas (nodes and values) with parent links.
//!
//! Every node of the tree has a place in the in-order sequence of the tree and
//! its subtree covers a contiguous stretch of that sequence; a `Shape`
//! records both.  A tree is well formed when some `Shape` describes it, and
//! its contents are the values of its in-order sequence.
use core::cmp::Ordering;
use vstd::prelude::*;

use crate::order::{
    agrees, equivalent, first_index, is_comparator, lemma_first_after, lemma_first_index_facts,
    lemma_strict_chain, lemma_total_order_facts, orders, sorted_by, strictly_precedes,
};
use crate::vec_ops::{pos, slen};

verus! {

/// A handle on a node of a `SplayTree`: a copy of its value and its arena index.
#[derive(PartialEq, Eq, Debug)]
pub struct NodeRef<T> {
    pub value: T,
    pub id: usize,
}

/// The links of one node of a `SplayTree`.
#[derive(PartialEq, Eq, Debug, Clone, Copy)]
pub struct SplayTreeNode {
    pub parent: Option<usize>,
    pub left: Option<usize>,
    pub right: Option<usize>,
}

impl SplayTreeNode {
    /// A node without links.
    pub open spec fn dangling_spec() -> SplayTreeNode {
        SplayTreeNode { parent: None, left: None, right: None }
    }

    pub fn new(parent: Option<usize>, left: Option<usize>, right: Option<usize>) -> (n: Self)
        ensures
            n == (SplayTreeNode { parent, left, right }),
    {
        Self { parent, left, right }
    }

    /// A node without a parent, with the given children.
    pub fn root(left: Option<usize>, right: Option<usize>) -> (n: Self)
        ensures
            n == (SplayTreeNode { parent: None, left, right }),
    {
        Self { parent: None, left, right }
    }

    /// A node without parent or children: a tree of one node.
    pub fn root_no_child() -> (n: Self)
        ensures
            n == (SplayTreeNode { parent: None, left: None, right: None }),
    {
        Self { parent: None, left: None, right: None }
    }

    /// The links that a removed node is left with: none.
    pub fn dangling() -> (n: Self)
        ensures
            n == (SplayTreeNode { parent: None, left: None, right: None }),
    {
        Self { parent: None, left: None, right: None }
    }

    /// A leaf under `parent`.
    pub fn leaf_with_parent(parent: usize) -> (n: Self)
        ensures
            n == (SplayTreeNode { parent: Some(parent), left: None, right: None }),
    {
        Self { parent: Some(parent), left: None, right: None }
    }
}

/// A splay tree: `node_arena[i]` links the node whose value is
/// `value_arena[i]`; `root` is the top node.  Removed nodes stay in the arenas.
#[derive(PartialEq, Eq, Debug)]
pub struct SplayTree<T> {
    pub node_arena: Vec<SplayTreeNode>,
    pub value_arena: Vec<T>,
    pub root: Option<usize>,
}

/// The in-order layout of a tree: `ids` lists the nodes in order; node `y`
/// sits at `ids[ix[y]]`, and its subtree covers `ids[lo[y]..hi[y]]`.  The
/// nodes of the tree are the keys of `ix`.
pub struct Shape {
    pub ids: Seq<usize>,
    pub ix: Map<usize, int>,
    pub lo: spec_fn(usize) -> int,
    pub hi: spec_fn(usize) -> int,
}

/// The in-order sequence of the nodes below `at`, walking at most `fuel`
/// levels down.
pub open spec fn inorder(nodes: Seq<SplayTreeNode>, at: Option<usize>, fuel: int) -> Seq<usize>
    decreases fuel,
{
    match at {
        None => Seq::empty(),
        Some(y) => if fuel <= 0 || y >= nodes.len() {
            Seq::empty()
        } else {
            inorder(nodes, nodes[pos(y)].left, fuel - 1) + seq![y] + inorder(
                nodes,
                nodes[pos(y)].right,
                fuel - 1,
            )
        },
    }
}

/// The links of node `id` in `nodes`.
pub open spec fn link(nodes: Seq<SplayTreeNode>, id: usize) -> SplayTreeNode {
    nodes[pos(id)]
}

/// Node `y` agrees with the layout `w`: it sits where `w` says, its children
/// cover the parts of its stretch left and right of it and link back to it,
/// and its parent links down to it (or it is the root).
pub open spec fn fits(nodes: Seq<SplayTreeNode>, root: Option<usize>, w: Shape, y: usize) -> bool {
    let nd = link(nodes, y);
    let i = w.ix[y];
    &&& y < nodes.len()
    &&& 0 <= (w.lo)(y) <= i < (w.hi)(y) <= w.ids.len()
    &&& w.ids[i] == y
    &&& match nd.left {
        None => (w.lo)(y) == i,
        Some(c) => w.ix.dom().contains(c) && link(nodes, c).parent == Some(y) && (w.lo)(c) == (w.lo)(y)
            && (w.hi)(c) == i,
    }
    &&& match nd.right {
        None => (w.hi)(y) == i + 1,
        Some(c) => w.ix.dom().contains(c) && link(nodes, c).parent == Some(y) && (w.lo)(c) == i + 1
            && (w.hi)(c) == (w.hi)(y),
    }
    &&& match nd.parent {
        None => root == Some(y),
        Some(p) => w.ix.dom().contains(p) && (link(nodes, p).left == Some(y) || link(nodes, p).right
            == Some(y)),
    }
}

/// The layout `w` describes the whole tree held in `nodes` under `root`.
pub open spec fn laid_out(nodes: Seq<SplayTreeNode>, root: Option<usize>, w: Shape) -> bool {
    &&& w.ids.len() <= nodes.len()
    &&& forall|i: int|
        0 <= i < w.ids.len() ==> w.ix.dom().contains(#[trigger] w.ids[i]) && w.ix[w.ids[i]] == i
    &&& forall|y: usize| w.ix.dom().contains(y) ==> #[trigger] fits(nodes, root, w, y)
    &&& match root {
        None => w.ids.len() == 0,
        Some(r) => w.ix.dom().contains(r) && (w.lo)(r) == 0 && (w.hi)(r) == w.ids.len() && link(
            nodes,
            r,
        ).parent is None,
    }
}

/// `nodes` after `x`, the left child of `p`, is rotated above `p`: `x` takes
/// `p`'s place, `p` becomes `x`'s right child and takes `x`'s right subtree
/// as its left one.
pub open spec fn rot_right(nodes: Seq<SplayTreeNode>, root: Option<usize>, x: usize, p: usize) -> (
    Seq<SplayTreeNode>,
    Option<usize>,
) {
    let nx = link(nodes, x);
    let np = link(nodes, p);
    let n1 = nodes.update(pos(x), SplayTreeNode { parent: np.parent, left: nx.left, right: Some(p) }).update(
        pos(p),
        SplayTreeNode { parent: Some(x), left: nx.right, right: np.right },
    );
    let n2 = match nx.right {
        Some(b) => n1.update(pos(b), SplayTreeNode { parent: Some(p), ..link(nodes, b) }),
        None => n1,
    };
    match np.parent {
        None => (n2, Some(x)),
        Some(q) => (
            n2.update(
                pos(q),
                if link(nodes, q).left == Some(p) {
                    SplayTreeNode { left: Some(x), ..link(nodes, q) }
                } else {
                    SplayTreeNode { right: Some(x), ..link(nodes, q) }
                },
            ),
            root,
        ),
    }
}

/// `nodes` after `x`, the right child of `p`, is rotated above `p`.
pub open spec fn rot_left(nodes: Seq<SplayTreeNode>, root: Option<usize>, x: usize, p: usize) -> (
    Seq<SplayTreeNode>,
    Option<usize>,
) {
    let nx = link(nodes, x);
    let np = link(nodes, p);
    let n1 = nodes.update(pos(x), SplayTreeNode { parent: np.parent, left: Some(p), right: nx.right }).update(
        pos(p),
        SplayTreeNode { parent: Some(x), left: np.left, right: nx.left },
    );
    let n2 = match nx.left {
        Some(b) => n1.update(pos(b), SplayTreeNode { parent: Some(p), ..link(nodes, b) }),
        None => n1,
    };
    match np.parent {
        None => (n2, Some(x)),
        Some(q) => (
            n2.update(
                pos(q),
                if link(nodes, q).left == Some(p) {
                    SplayTreeNode { left: Some(x), ..link(nodes, q) }
                } else {
                    SplayTreeNode { right: Some(x), ..link(nodes, q) }
                },
            ),
            root,
        ),
    }
}

/// One step of a splay of `x`: a single rotation when its parent is the
/// root, else the double rotation (zig-zig or zig-zag) that its place under
/// its grandparent calls for.
pub open spec fn splay_step(nodes: Seq<SplayTreeNode>, root: Option<usize>, x: usize) -> (
    Seq<SplayTreeNode>,
    Option<usize>,
) {
    match link(nodes, x).parent {
        None => (nodes, root),
        Some(p) => match link(nodes, p).parent {
            None => if link(nodes, p).left == Some(x) {
                rot_right(nodes, root, x, p)
            } else {
                rot_left(nodes, root, x, p)
            },
            Some(g) => {
                let p_left = link(nodes, g).left == Some(p);
                let x_left = link(nodes, p).left == Some(x);
                if p_left && x_left {
                    let (n1, r1) = rot_right(nodes, root, p, g);
                    rot_right(n1, r1, x, p)
                } else if !p_left && !x_left {
                    let (n1, r1) = rot_left(nodes, root, p, g);
                    rot_left(n1, r1, x, p)
                } else if p_left {
                    let (n1, r1) = rot_left(nodes, root, x, p);
                    rot_right(n1, r1, x, g)
                } else {
                    let (n1, r1) = rot_right(nodes, root, x, p);
                    rot_left(n1, r1, x, g)
                }
            },
        },
    }
}

/// The links and root once `x` is splayed to the root, taking at most
/// `fuel` steps.
pub open spec fn splayed(nodes: Seq<SplayTreeNode>, root: Option<usize>, x: usize, fuel: int) -> (
    Seq<SplayTreeNode>,
    Option<usize>,
)
    decreases fuel,
{
    if fuel <= 0 || link(nodes, x).parent is None {
        (nodes, root)
    } else {
        let (n1, r1) = splay_step(nodes, root, x);
        splayed(n1, r1, x, fuel - 1)
    }
}

/// Where the walk down from node `at` ends for value `v`, with the
/// comparator answering as `ord`: the node under which `v` is hung, and
/// whether as its left child (`v` comes strictly before it) or its right.
pub open spec fn walk_end<T>(
    nodes: Seq<SplayTreeNode>,
    values: Seq<T>,
    at: usize,
    v: T,
    ord: spec_fn(T, T) -> Ordering,
    fuel: int,
) -> (usize, bool)
    decreases fuel,
{
    if fuel <= 0 {
        (at, false)
    } else if ord(v, values[pos(at)]) == Ordering::Less {
        match link(nodes, at).left {
            Some(c) => walk_end(nodes, values, c, v, ord, fuel - 1),
            None => (at, true),
        }
    } else {
        match link(nodes, at).right {
            Some(c) => walk_end(nodes, values, c, v, ord, fuel - 1),
            None => (at, false),
        }
    }
}

/// The links and root once `v` is inserted as node `id` (the arena's next
/// place) into the tree with links `nodes`, values `values` and root
/// `root`: alone at the root of an empty tree, else hung where the walk from
/// the root ends and splayed to the root.
pub open spec fn inserted_links<T>(
    nodes: Seq<SplayTreeNode>,
    values: Seq<T>,
    root: Option<usize>,
    v: T,
    ord: spec_fn(T, T) -> Ordering,
    id: usize,
) -> (Seq<SplayTreeNode>, Option<usize>) {
    match root {
        None => (nodes.push(SplayTreeNode { parent: None, left: None, right: None }), Some(id)),
        Some(r) => {
            let (cur, left) = walk_end(nodes, values, r, v, ord, slen(nodes));
            splayed(with_leaf(nodes, cur, id, left), root, id, slen(nodes) + 1)
        },
    }
}

/// Facts about a node of a laid-out tree and its neighbours.
proof fn lemma_fits(nodes: Seq<SplayTreeNode>, root: Option<usize>, w: Shape, y: usize)
    requires
        laid_out(nodes, root, w),
        w.ix.dom().contains(y),
    ensures
        fits(nodes, root, w, y),
        link(nodes, y).left matches Some(c) ==> fits(nodes, root, w, c),
        link(nodes, y).right matches Some(c) ==> fits(nodes, root, w, c),
        link(nodes, y).parent matches Some(p) ==> fits(nodes, root, w, p),
        root matches Some(r) ==> fits(nodes, root, w, r),
{
    assert(fits(nodes, root, w, y));
    match link(nodes, y).left {
        Some(c) => assert(fits(nodes, root, w, c)),
        None => {},
    }
    match link(nodes, y).right {
        Some(c) => assert(fits(nodes, root, w, c)),
        None => {},
    }
    match link(nodes, y).parent {
        Some(p) => assert(fits(nodes, root, w, p)),
        None => {},
    }
    match root {
        Some(r) => assert(fits(nodes, root, w, r)),
        None => {},
    }
}

/// A node whose children and stretch did not change, whose children still
/// link back to it and cover the same stretches, and whose parent still
/// links down to it, still agrees with the new layout.
proof fn lemma_keep(
    nodes: Seq<SplayTreeNode>,
    root: Option<usize>,
    w: Shape,
    nodes2: Seq<SplayTreeNode>,
    root2: Option<usize>,
    w2: Shape,
    y: usize,
)
    requires
        fits(nodes, root, w, y),
        w2.ids == w.ids,
        w2.ix == w.ix,
        nodes2.len() == nodes.len(),
        link(nodes2, y).left == link(nodes, y).left,
        link(nodes2, y).right == link(nodes, y).right,
        (w2.lo)(y) == (w.lo)(y),
        (w2.hi)(y) == (w.hi)(y),
        link(nodes2, y).left matches Some(c) ==> link(nodes2, c).parent == Some(y) && (w2.lo)(c) == (w.lo)(c)
            && (w2.hi)(c) == (w.hi)(c),
        link(nodes2, y).right matches Some(c) ==> link(nodes2, c).parent == Some(y) && (w2.lo)(c) == (w.lo)(c)
            && (w2.hi)(c) == (w.hi)(c),
        match link(nodes2, y).parent {
            None => root2 == Some(y),
            Some(q) => w.ix.dom().contains(q) && (link(nodes2, q).left == Some(y) || link(nodes2, q).right == Some(y)),
        },
    ensures
        fits(nodes2, root2, w2, y),
{
}

/// Rotating the left child `x` of `p` above it keeps the tree laid out: `x`
/// takes over `p`'s stretch, `p` keeps the part right of `x`.
#[verifier::rlimit(40)]
proof fn lemma_rot_right(nodes: Seq<SplayTreeNode>, root: Option<usize>, w: Shape, x: usize, p: usize) -> (w2: Shape)
    requires
        laid_out(nodes, root, w),
        w.ix.dom().contains(p),
        link(nodes, p).left == Some(x),
    ensures
        laid_out(rot_right(nodes, root, x, p).0, rot_right(nodes, root, x, p).1, w2),
        rot_right(nodes, root, x, p).0.len() == nodes.len(),
        w2.ids == w.ids,
        w2.ix == w.ix,
        (w2.lo)(x) == (w.lo)(p),
        (w2.hi)(x) == (w.hi)(p),
        forall|z: usize| z != x && z != p ==> #[trigger] (w2.lo)(z) == (w.lo)(z),
        forall|z: usize| z != x && z != p ==> #[trigger] (w2.hi)(z) == (w.hi)(z),
{
    let w2 = Shape {
        ids: w.ids,
        ix: w.ix,
        lo: |z: usize|
            if z == x {
                (w.lo)(p)
            } else if z == p {
                w.ix[x] + 1
            } else {
                (w.lo)(z)
            },
        hi: |z: usize|
            if z == x {
                (w.hi)(p)
            } else {
                (w.hi)(z)
            },
    };
    let (n2, r2) = rot_right(nodes, root, x, p);
    lemma_fits(nodes, root, w, p);
    lemma_fits(nodes, root, w, x);
    let b = link(nodes, x).right;
    let gg = link(nodes, p).parent;
    assert forall|y: usize| w2.ix.dom().contains(y) implies #[trigger] fits(n2, r2, w2, y) by {
        lemma_fits(nodes, root, w, y);
        if y == x || y == p || b == Some(y) || gg == Some(y) {
        } else {
            lemma_keep(nodes, root, w, n2, r2, w2, y);
        }
    }
    w2
}

/// Rotating the right child `x` of `p` above it keeps the tree laid out:
/// `x` takes over `p`'s stretch, `p` keeps the part left of `x`.
#[verifier::rlimit(40)]
proof fn lemma_rot_left(nodes: Seq<SplayTreeNode>, root: Option<usize>, w: Shape, x: usize, p: usize) -> (w2: Shape)
    requires
        laid_out(nodes, root, w),
        w.ix.dom().contains(p),
        link(nodes, p).right == Some(x),
    ensures
        laid_out(rot_left(nodes, root, x, p).0, rot_left(nodes, root, x, p).1, w2),
        rot_left(nodes, root, x, p).0.len() == nodes.len(),
        w2.ids == w.ids,
        w2.ix == w.ix,
        (w2.lo)(x) == (w.lo)(p),
        (w2.hi)(x) == (w.hi)(p),
        forall|z: usize| z != x && z != p ==> #[trigger] (w2.lo)(z) == (w.lo)(z),
        forall|z: usize| z != x && z != p ==> #[trigger] (w2.hi)(z) == (w.hi)(z),
{
    let w2 = Shape {
        ids: w.ids,
        ix: w.ix,
        lo: |z: usize|
            if z == x {
                (w.lo)(p)
            } else {
                (w.lo)(z)
            },
        hi: |z: usize|
            if z == x {
                (w.hi)(p)
            } else if z == p {
                w.ix[x]
            } else {
                (w.hi)(z)
            },
    };
    let (n2, r2) = rot_left(nodes, root, x, p);
    lemma_fits(nodes, root, w, p);
    lemma_fits(nodes, root, w, x);
    let b = link(nodes, x).left;
    let gg = link(nodes, p).parent;
    assert forall|y: usize| w2.ix.dom().contains(y) implies #[trigger] fits(n2, r2, w2, y) by {
        lemma_fits(nodes, root, w, y);
        if y == x || y == p || b == Some(y) || gg == Some(y) {
        } else {
            lemma_keep(nodes, root, w, n2, r2, w2, y);
        }
    }
    w2
}

/// `nodes` with a new leaf `id == nodes.len()` hung under `cur`, on the left
/// or on the right.
pub open spec fn with_leaf(nodes: Seq<SplayTreeNode>, cur: usize, id: usize, left: bool) -> Seq<
    SplayTreeNode,
> {
    nodes.push(SplayTreeNode { parent: Some(cur), left: None, right: None }).update(
        pos(cur),
        if left {
            SplayTreeNode { left: Some(id), ..link(nodes, cur) }
        } else {
            SplayTreeNode { right: Some(id), ..link(nodes, cur) }
        },
    )
}

/// Hanging a new leaf under a node with a free place keeps the tree laid out;
/// the leaf comes just before `cur` (left) or just after it (right) in order.
#[verifier::rlimit(60)]
proof fn lemma_add_leaf(
    nodes: Seq<SplayTreeNode>,
    root: Option<usize>,
    w: Shape,
    cur: usize,
    id: usize,
    left: bool,
) -> (w1: Shape)
    requires
        laid_out(nodes, root, w),
        root is Some,
        w.ix.dom().contains(cur),
        id == nodes.len(),
        left ==> link(nodes, cur).left is None,
        !left ==> link(nodes, cur).right is None,
    ensures
        laid_out(with_leaf(nodes, cur, id, left), root, w1),
        w1.ids == w.ids.insert(if left { w.ix[cur] } else { w.ix[cur] + 1 }, id),
        w1.ix.dom().contains(id),
{
    lemma_fits(nodes, root, w, cur);
    let i_cur = w.ix[cur];
    let k = if left {
        i_cur
    } else {
        i_cur + 1
    };
    let spans = |y: usize| (w.lo)(y) <= i_cur && i_cur < (w.hi)(y);
    let w1 = Shape {
        ids: w.ids.insert(k, id),
        ix: Map::new(
            |y: usize| w.ix.dom().contains(y) || y == id,
            |y: usize|
                if y == id {
                    k
                } else if w.ix[y] >= k {
                    w.ix[y] + 1
                } else {
                    w.ix[y]
                },
        ),
        lo: |y: usize|
            if y == id {
                k
            } else if !spans(y) && (w.lo)(y) >= k {
                (w.lo)(y) + 1
            } else {
                (w.lo)(y)
            },
        hi: |y: usize|
            if y == id {
                k + 1
            } else if spans(y) || (w.lo)(y) >= k {
                (w.hi)(y) + 1
            } else {
                (w.hi)(y)
            },
    };
    let n1 = with_leaf(nodes, cur, id, left);
    assert forall|y: usize| w.ix.dom().contains(y) implies y != id by {
        lemma_fits(nodes, root, w, y);
    }
    assert forall|i: int| 0 <= i < w1.ids.len() implies w1.ix.dom().contains(#[trigger] w1.ids[i])
        && w1.ix[w1.ids[i]] == i by {
        if i < k {
            assert(w1.ids[i] == w.ids[i]);
        } else if i > k {
            assert(w1.ids[i] == w.ids[i - 1]);
        }
    }
    assert forall|y: usize| w1.ix.dom().contains(y) implies #[trigger] fits(n1, root, w1, y) by {
        if y == id {
        } else {
            lemma_fits(nodes, root, w, y);
            let i = w.ix[y];
            assert(w1.ids[w1.ix[y]] == y) by {
                if i >= k {
                    assert(w1.ids[i + 1] == w.ids[i]);
                } else {
                    assert(w1.ids[i] == w.ids[i]);
                }
            }
            if y == cur {
            } else {
                assert(link(n1, y) == link(nodes, y));
            }
        }
    }
    w1
}

/// A position boundary after the item at `at` is taken out of the sequence.
pub open spec fn shift_down(b: int, at: int) -> int {
    if b > at {
        b - 1
    } else {
        b
    }
}

/// `nodes` after node `y`, which has at most one child, is taken out: its
/// child (if any) takes its place under its parent (or as the root), and `y`
/// is left without links.
pub open spec fn spliced(nodes: Seq<SplayTreeNode>, root: Option<usize>, y: usize) -> (
    Seq<SplayTreeNode>,
    Option<usize>,
) {
    let ny = link(nodes, y);
    let child = if ny.left is Some {
        ny.left
    } else {
        ny.right
    };
    let n1 = nodes.update(pos(y), SplayTreeNode { parent: None, left: None, right: None });
    let n2 = match child {
        Some(c) => n1.update(pos(c), SplayTreeNode { parent: ny.parent, ..link(nodes, c) }),
        None => n1,
    };
    match ny.parent {
        None => (n2, child),
        Some(p) => (
            n2.update(
                pos(p),
                if link(nodes, p).left == Some(y) {
                    SplayTreeNode { left: child, ..link(nodes, p) }
                } else {
                    SplayTreeNode { right: child, ..link(nodes, p) }
                },
            ),
            root,
        ),
    }
}

/// Taking out a node with at most one child keeps the tree laid out, with
/// the node gone from the in-order sequence.
#[verifier::rlimit(60)]
proof fn lemma_splice_out(nodes: Seq<SplayTreeNode>, root: Option<usize>, w: Shape, y: usize) -> (w2: Shape)
    requires
        laid_out(nodes, root, w),
        w.ix.dom().contains(y),
        link(nodes, y).left is None || link(nodes, y).right is None,
    ensures
        laid_out(spliced(nodes, root, y).0, spliced(nodes, root, y).1, w2),
        spliced(nodes, root, y).0.len() == nodes.len(),
        w2.ids == w.ids.remove(w.ix[y]),
        w2.ix.dom() == w.ix.dom().remove(y),
{
    lemma_fits(nodes, root, w, y);
    let iy = w.ix[y];
    let ny = link(nodes, y);
    let w2 = Shape {
        ids: w.ids.remove(iy),
        ix: Map::new(|z: usize| w.ix.dom().contains(z) && z != y, |z: usize| shift_down(w.ix[z], iy)),
        lo: |z: usize| shift_down((w.lo)(z), iy),
        hi: |z: usize| shift_down((w.hi)(z), iy),
    };
    let (n2, r2) = spliced(nodes, root, y);
    assert forall|i: int| 0 <= i < w2.ids.len() implies w2.ix.dom().contains(#[trigger] w2.ids[i])
        && w2.ix[w2.ids[i]] == i by {
        if i < iy {
            assert(w2.ids[i] == w.ids[i]);
            assert(w.ix[w.ids[i]] == i);
        } else {
            assert(w2.ids[i] == w.ids[i + 1]);
            assert(w.ix[w.ids[i + 1]] == i + 1);
        }
    }
    assert forall|z: usize| w2.ix.dom().contains(z) implies #[trigger] fits(n2, r2, w2, z) by {
        lemma_fits(nodes, root, w, z);
        let iz = w.ix[z];
        assert(w2.ids[w2.ix[z]] == z) by {
            if iz > iy {
                assert(w2.ids[iz - 1] == w.ids[iz]);
            } else {
                assert(w2.ids[iz] == w.ids[iz]);
            }
        }
        if ny.parent == Some(z) {
        } else if ny.left == Some(z) || ny.right == Some(z) {
        } else {
            assert(link(n2, z) == link(nodes, z));
        }
    }
    match r2 {
        Some(r) => {
            lemma_fits(nodes, root, w, r);
        },
        None => {},
    }
    w2
}

/// `nodes` with the parent link of node `i` set to `v`.
pub open spec fn set_parent(n: Seq<SplayTreeNode>, i: usize, v: Option<usize>) -> Seq<SplayTreeNode> {
    n.update(pos(i), SplayTreeNode { parent: v, ..link(n, i) })
}

/// `nodes` with the left link of node `i` set to `v`.
pub open spec fn set_left(n: Seq<SplayTreeNode>, i: usize, v: Option<usize>) -> Seq<SplayTreeNode> {
    n.update(pos(i), SplayTreeNode { left: v, ..link(n, i) })
}

/// `nodes` with the right link of node `i` set to `v`.
pub open spec fn set_right(n: Seq<SplayTreeNode>, i: usize, v: Option<usize>) -> Seq<SplayTreeNode> {
    n.update(pos(i), SplayTreeNode { right: v, ..link(n, i) })
}

/// `nodes` with the node below `parent` that is `old_child` replaced by
/// `new_child` (or the root, when there is no parent).
pub open spec fn relink(
    n: Seq<SplayTreeNode>,
    root: Option<usize>,
    parent: Option<usize>,
    old_child: usize,
    new_child: usize,
) -> (Seq<SplayTreeNode>, Option<usize>) {
    match parent {
        None => (n, Some(new_child)),
        Some(p) => if link(n, p).left == Some(old_child) {
            (set_left(n, p, Some(new_child)), root)
        } else {
            (set_right(n, p, Some(new_child)), root)
        },
    }
}

/// `nodes` after node `y`, which has two children, is taken out and its
/// predecessor `q` (the last node of its left subtree) moved into its place.
#[verifier::opaque]
pub open spec fn lifted(nodes: Seq<SplayTreeNode>, root: Option<usize>, y: usize, q: usize) -> (
    Seq<SplayTreeNode>,
    Option<usize>,
) {
    let ny = link(nodes, y);
    let nq = link(nodes, q);
    if Some(q) == ny.left {
        let n1 = set_right(set_parent(nodes, q, ny.parent), q, ny.right);
        let (n2, r2) = relink(n1, root, ny.parent, y, q);
        let n3 = match ny.right {
            Some(r) => set_parent(n2, r, Some(q)),
            None => n2,
        };
        (n3.update(pos(y), SplayTreeNode { parent: None, left: None, right: None }), r2)
    } else {
        let qp = nq.parent.unwrap();
        let n1 = set_right(nodes, qp, nq.left);
        let n2 = match nq.left {
            Some(l) => set_parent(n1, l, Some(qp)),
            None => n1,
        };
        let n3 = set_right(set_left(set_parent(n2, q, ny.parent), q, ny.left), q, ny.right);
        let (n4, r4) = relink(n3, root, ny.parent, y, q);
        let n5 = match ny.left {
            Some(l) => set_parent(n4, l, Some(q)),
            None => n4,
        };
        let n6 = match ny.right {
            Some(r) => set_parent(n5, r, Some(q)),
            None => n5,
        };
        (n6.update(pos(y), SplayTreeNode { parent: None, left: None, right: None }), r4)
    }
}

/// The layout after node `y` is taken out and its predecessor `q` moved into
/// its place: positions after `y` move down by one, `q` takes over `y`'s
/// stretch, and the nodes whose stretch ended at `y` lose `q`.
pub open spec fn lifted_shape(w: Shape, y: usize, q: usize) -> Shape {
    let iy = w.ix[y];
    Shape {
        ids: w.ids.remove(iy),
        ix: Map::new(|z: usize| w.ix.dom().contains(z) && z != y, |z: usize| shift_down(w.ix[z], iy)),
        lo: |z: usize|
            if z == q {
                (w.lo)(y)
            } else {
                shift_down((w.lo)(z), iy)
            },
        hi: |z: usize|
            if z == q {
                (w.hi)(y) - 1
            } else if (w.hi)(z) == iy {
                iy - 1
            } else {
                shift_down((w.hi)(z), iy)
            },
    }
}

/// The in-order part of laying out the tree after `y` is taken out: every
/// position names a node that sits there, and every node sits where it is
/// named.
proof fn lemma_removed_positions(nodes: Seq<SplayTreeNode>, root: Option<usize>, w: Shape, y: usize, q: usize)
    requires
        laid_out(nodes, root, w),
        w.ix.dom().contains(y),
    ensures
        forall|i: int|
            0 <= i < lifted_shape(w, y, q).ids.len() ==> lifted_shape(w, y, q).ix.dom().contains(
                #[trigger] lifted_shape(w, y, q).ids[i],
            ) && lifted_shape(w, y, q).ix[lifted_shape(w, y, q).ids[i]] == i,
        forall|z: usize|
            #[trigger] lifted_shape(w, y, q).ix.dom().contains(z) ==> lifted_shape(w, y, q).ids[lifted_shape(
                w,
                y,
                q,
            ).ix[z]] == z,
{
    let w2 = lifted_shape(w, y, q);
    lemma_fits(nodes, root, w, y);
    let iy = w.ix[y];
    assert forall|i: int| 0 <= i < w2.ids.len() implies w2.ix.dom().contains(#[trigger] w2.ids[i])
        && w2.ix[w2.ids[i]] == i by {
        if i < iy {
            assert(w2.ids[i] == w.ids[i]);
            assert(w.ix[w.ids[i]] == i);
        } else {
            assert(w2.ids[i] == w.ids[i + 1]);
            assert(w.ix[w.ids[i + 1]] == i + 1);
        }
    }
    assert forall|z: usize| #[trigger] w2.ix.dom().contains(z) implies w2.ids[w2.ix[z]] == z by {
        lemma_fits(nodes, root, w, z);
        let iz = w.ix[z];
        if iz > iy {
            assert(w2.ids[iz - 1] == w.ids[iz]);
        } else {
            assert(w2.ids[iz] == w.ids[iz]);
        }
    }
}

/// Taking out a node whose left child is its predecessor keeps the tree laid
/// out.
#[verifier::rlimit(100)]
proof fn lemma_lift_child(nodes: Seq<SplayTreeNode>, root: Option<usize>, w: Shape, y: usize, q: usize)
    requires
        laid_out(nodes, root, w),
        w.ix.dom().contains(y),
        link(nodes, y).left == Some(q),
        link(nodes, y).right is Some,
        link(nodes, q).right is None,
    ensures
        laid_out(lifted(nodes, root, y, q).0, lifted(nodes, root, y, q).1, lifted_shape(w, y, q)),
        lifted(nodes, root, y, q).0.len() == nodes.len(),
{
    reveal(lifted);
    lemma_fits(nodes, root, w, y);
    lemma_fits(nodes, root, w, q);
    let w2 = lifted_shape(w, y, q);
    let (n2, r2) = lifted(nodes, root, y, q);
    let ny = link(nodes, y);
    let yr = ny.right.unwrap();
    lemma_fits(nodes, root, w, yr);
    lemma_removed_positions(nodes, root, w, y, q);
    assert(link(n2, q) == SplayTreeNode { parent: ny.parent, left: link(nodes, q).left, right: ny.right });
    assert(link(n2, yr) == SplayTreeNode { parent: Some(q), ..link(nodes, yr) });
    assert forall|z: usize| w2.ix.dom().contains(z) implies #[trigger] fits(n2, r2, w2, z) by {
        lemma_fits(nodes, root, w, z);
        if z == q || z == yr || ny.parent == Some(z) {
        } else {
            assert(link(n2, z) == link(nodes, z));
            if let Some(c) = link(nodes, z).left {
                lemma_fits(nodes, root, w, c);
            }
            if let Some(c) = link(nodes, z).right {
                lemma_fits(nodes, root, w, c);
            }
        }
    }
}

/// The links after a deep predecessor `q` of `y` is moved into `y`'s place.
#[verifier::rlimit(60)]
proof fn lemma_lift_deep_links(nodes: Seq<SplayTreeNode>, root: Option<usize>, w: Shape, y: usize, q: usize)
    requires
        laid_out(nodes, root, w),
        w.ix.dom().contains(y),
        w.ix.dom().contains(q),
        link(nodes, y).left is Some,
        link(nodes, y).left != Some(q),
        link(nodes, y).right is Some,
        (w.hi)(q) == w.ix[y],
        link(nodes, q).right is None,
    ensures
        ({
            let (n2, r2) = lifted(nodes, root, y, q);
            let ny = link(nodes, y);
            let nq = link(nodes, q);
            let yl = ny.left.unwrap();
            let yr = ny.right.unwrap();
            let qp = nq.parent.unwrap();
            &&& n2.len() == nodes.len()
            &&& nq.parent is Some
            &&& link(nodes, qp).right == Some(q)
            &&& link(n2, q) == SplayTreeNode { parent: ny.parent, left: ny.left, right: ny.right }
            &&& link(n2, yr) == SplayTreeNode { parent: Some(q), ..link(nodes, yr) }
            &&& qp == yl ==> link(n2, qp) == SplayTreeNode { parent: Some(q), left: link(nodes, qp).left, right: nq.left }
            &&& qp != yl ==> link(n2, qp) == SplayTreeNode { right: nq.left, ..link(nodes, qp) }
            &&& qp != yl ==> link(n2, yl) == SplayTreeNode { parent: Some(q), ..link(nodes, yl) }
            &&& nq.left matches Some(l) ==> link(n2, l) == SplayTreeNode { parent: Some(qp), ..link(nodes, l) }
            &&& match ny.parent {
                None => r2 == Some(q),
                Some(p) => r2 == root && link(n2, p) == if link(nodes, p).left == Some(y) {
                    SplayTreeNode { left: Some(q), ..link(nodes, p) }
                } else {
                    SplayTreeNode { right: Some(q), ..link(nodes, p) }
                },
            }
            &&& forall|z: usize|
                z < nodes.len() && z != y && z != q && z != yr && z != yl && z != qp && nq.left != Some(z)
                    && ny.parent != Some(z) ==> #[trigger] link(n2, z) == link(nodes, z)
        }),
{
    reveal(lifted);
    lemma_fits(nodes, root, w, y);
    lemma_fits(nodes, root, w, q);
    let nq = link(nodes, q);
    let ny = link(nodes, y);
    let qp = nq.parent.unwrap();
    lemma_fits(nodes, root, w, ny.left.unwrap());
    lemma_fits(nodes, root, w, ny.right.unwrap());
    lemma_fits(nodes, root, w, qp);
    if let Some(l) = nq.left {
        lemma_fits(nodes, root, w, l);
    }
    if let Some(p) = ny.parent {
        lemma_fits(nodes, root, w, p);
    }
}

/// Taking out a node whose predecessor lies deeper in its left subtree keeps
/// the tree laid out.
#[verifier::rlimit(100)]
proof fn lemma_lift_deep(nodes: Seq<SplayTreeNode>, root: Option<usize>, w: Shape, y: usize, q: usize)
    requires
        laid_out(nodes, root, w),
        w.ix.dom().contains(y),
        w.ix.dom().contains(q),
        link(nodes, y).left is Some,
        link(nodes, y).left != Some(q),
        link(nodes, y).right is Some,
        (w.hi)(q) == w.ix[y],
        link(nodes, q).right is None,
    ensures
        laid_out(lifted(nodes, root, y, q).0, lifted(nodes, root, y, q).1, lifted_shape(w, y, q)),
        lifted(nodes, root, y, q).0.len() == nodes.len(),
{
    lemma_lift_deep_links(nodes, root, w, y, q);
    lemma_fits(nodes, root, w, y);
    lemma_fits(nodes, root, w, q);
    let w2 = lifted_shape(w, y, q);
    let (n2, r2) = lifted(nodes, root, y, q);
    let ny = link(nodes, y);
    let nq = link(nodes, q);
    let yl = ny.left.unwrap();
    let yr = ny.right.unwrap();
    let qp = nq.parent.unwrap();
    lemma_fits(nodes, root, w, yl);
    lemma_fits(nodes, root, w, yr);
    lemma_fits(nodes, root, w, qp);
    if let Some(l) = nq.left {
        lemma_fits(nodes, root, w, l);
    }
    lemma_removed_positions(nodes, root, w, y, q);
    assert forall|z: usize| w2.ix.dom().contains(z) implies #[trigger] fits(n2, r2, w2, z) by {
        lemma_fits(nodes, root, w, z);
        if z == q || z == yr || z == yl || z == qp || nq.left == Some(z) || ny.parent == Some(z) {
        } else {
            if let Some(c) = link(nodes, z).left {
                lemma_fits(nodes, root, w, c);
            }
            if let Some(c) = link(nodes, z).right {
                lemma_fits(nodes, root, w, c);
            }
        }
    }
}

/// Where a value goes in a sequence sorted by `ord`: before the first item
/// it comes strictly before.
pub open spec fn insert_pos<T>(s: Seq<T>, ord: spec_fn(T, T) -> Ordering, v: T) -> int {
    first_index(s, |e: T| ord(v, e) == Ordering::Less)
}

impl<T> View for SplayTree<T> {
    type V = Seq<T>;

    /// The values of the tree, in order.
    open spec fn view(&self) -> Seq<T> {
        self.order().map_values(|id: usize| self.value_arena@[pos(id)])
    }
}

impl<T> SplayTree<T> {
    /// The links of node `id`.
    pub open spec fn node(&self, id: usize) -> SplayTreeNode {
        link(self.node_arena@, id)
    }

    /// The value of node `id`.
    pub open spec fn value_of(&self, id: usize) -> T {
        self.value_arena@[pos(id)]
    }

    /// The nodes of the tree, in order.
    pub open spec fn order(&self) -> Seq<usize> {
        inorder(self.node_arena@, self.root, self.node_arena@.len() as int)
    }

    /// Node `y` agrees with the layout `w`.
    pub open spec fn node_ok(&self, w: Shape, y: usize) -> bool {
        fits(self.node_arena@, self.root, w, y)
    }

    /// The layout `w` describes the whole tree, and there is a value for
    /// every node.
    pub open spec fn shaped_by(&self, w: Shape) -> bool {
        &&& self.value_arena@.len() == self.node_arena@.len()
        &&& laid_out(self.node_arena@, self.root, w)
    }

    /// The arenas hold a binary tree with parent links.
    pub open spec fn wf(&self) -> bool {
        exists|w: Shape| self.shaped_by(w)
    }

    /// Node `id` is in the tree.
    pub open spec fn contains_node(&self, id: usize) -> bool {
        self.order().contains(id)
    }

    /// The view lists the values of the nodes of `order()`, position by
    /// position.
    pub proof fn lemma_view(&self)
        ensures
            self@.len() == self.order().len(),
            forall|i: int| 0 <= i < self@.len() ==> #[trigger] self@[i] == self.value_of(self.order()[i]),
    {
    }

    /// Facts about a node of a tree and its neighbours that `shaped_by` holds.
    proof fn lemma_node(&self, w: Shape, y: usize)
        requires
            self.shaped_by(w),
            w.ix.dom().contains(y),
        ensures
            self.node_ok(w, y),
            self.node(y).left matches Some(c) ==> self.node_ok(w, c),
            self.node(y).right matches Some(c) ==> self.node_ok(w, c),
            self.node(y).parent matches Some(p) ==> self.node_ok(w, p),
            0 <= w.ix[y] < w.ids.len(),
            self.order() == w.ids,
    {
        assert(self.node_ok(w, y));
        match self.node(y).left {
            Some(c) => assert(self.node_ok(w, c)),
            None => {},
        }
        match self.node(y).right {
            Some(c) => assert(self.node_ok(w, c)),
            None => {},
        }
        match self.node(y).parent {
            Some(p) => assert(self.node_ok(w, p)),
            None => {},
        }
        self.lemma_order(w);
    }

    /// The node at position `i` of the in-order sequence is in the layout,
    /// at `i`.
    proof fn lemma_at(&self, w: Shape, i: int)
        requires
            self.shaped_by(w),
            0 <= i < w.ids.len(),
        ensures
            w.ix.dom().contains(w.ids[i]),
            w.ix[w.ids[i]] == i,
            self.node_ok(w, w.ids[i]),
    {
        assert(w.ix.dom().contains(w.ids[i]));
        assert(self.node_ok(w, w.ids[i]));
    }

    /// A node of the tree sits at exactly one position of the in-order sequence.
    proof fn lemma_position(&self, w: Shape, id: usize, i: int)
        requires
            self.shaped_by(w),
            0 <= i < w.ids.len(),
            w.ids[i] == id,
        ensures
            w.ix.dom().contains(id),
            w.ix[id] == i,
            forall|j: int| 0 <= j < w.ids.len() && w.ids[j] == id ==> j == i,
    {
        self.lemma_at(w, i);
        assert forall|j: int| 0 <= j < w.ids.len() && w.ids[j] == id implies j == i by {
            self.lemma_at(w, j);
        }
    }

    proof fn lemma_empty_shape(&self)
        requires
            self.root is None,
            self.value_arena@.len() == self.node_arena@.len(),
        ensures
            self.shaped_by(Shape { ids: Seq::empty(), ix: Map::empty(), lo: |z: usize| 0int, hi: |z: usize| 0int }),
            self.wf(),
            self@ == Seq::<T>::empty(),
            self.order() == Seq::<usize>::empty(),
    {
        let w = Shape { ids: Seq::empty(), ix: Map::empty(), lo: |z: usize| 0int, hi: |z: usize| 0int };
        assert(self.shaped_by(w));
        self.lemma_order(w);
        assert(self@ =~= Seq::<T>::empty());
    }

    pub fn new() -> (tree: Self)
        ensures
            tree.wf(),
            tree@ == Seq::<T>::empty(),
            tree.node_arena@.len() == 0,
            tree.value_arena@.len() == 0,
            tree.root is None,
    {
        let tree = Self { node_arena: Vec::new(), value_arena: Vec::new(), root: None };
        proof {
            tree.lemma_empty_shape();
        }
        tree
    }

    /// Empties the tree and both arenas.
    pub fn clear(&mut self)
        ensures
            final(self).wf(),
            final(self)@ == Seq::<T>::empty(),
            final(self).node_arena@.len() == 0,
    {
        self.node_arena.clear();
        self.value_arena.clear();
        self.root = None;
        proof {
            self.lemma_empty_shape();
        }
    }

    /// The number of nodes below `id` (none for `None`).
    fn len_inner(&self, id: Option<usize>, Ghost(w): Ghost<Shape>) -> (n: usize)
        requires
            self.shaped_by(w),
            id matches Some(y) ==> w.ix.dom().contains(y),
            w.ids.len() <= usize::MAX,
        ensures
            n == match id {
                Some(y) => (w.hi)(y) - (w.lo)(y),
                None => 0,
            },
        decreases match id {
            Some(y) => (w.hi)(y) - (w.lo)(y),
            None => 0,
        },
    {
        if let Some(id) = id {
            proof {
                self.lemma_node(w, id);
            }
            self.len_inner(self.node_arena[id].left, Ghost(w)) + self.len_inner(
                self.node_arena[id].right,
                Ghost(w),
            ) + 1
        } else {
            0
        }
    }

    /// The number of values in the tree, counted by walking it.
    pub fn len(&self) -> (n: usize)
        requires
            self.wf(),
        ensures
            n == self@.len(),
    {
        let ghost w = choose|w: Shape| self.shaped_by(w);
        let arena_len = self.node_arena.len();
        proof {
            self.lemma_order(w);
            if let Some(r) = self.root {
                self.lemma_node(w, r);
            }
        }
        self.len_inner(self.root, Ghost(w))
    }

    pub fn is_empty(&self) -> (b: bool)
        requires
            self.wf(),
        ensures
            b <==> self@.len() == 0,
    {
        let ghost w = choose|w: Shape| self.shaped_by(w);
        proof {
            self.lemma_order(w);
            if let Some(r) = self.root {
                self.lemma_node(w, r);
            }
        }
        self.root.is_none()
    }

    //       p                 x
    //      / \               / \
    //     x   C    ==>      A   p
    //    / \                   / \
    //   A   B                 B   C
    fn zig_left_to_right(&mut self, x: usize, p: usize, Ghost(w): Ghost<Shape>)
        requires
            old(self).shaped_by(w),
            w.ix.dom().contains(p),
            old(self).node(p).parent is None,
            old(self).node(p).left == Some(x),
        ensures
            (final(self).node_arena@, final(self).root) == rot_right(old(self).node_arena@, old(self).root, x, p),
            final(self).value_arena@ == old(self).value_arena@,
    {
        proof {
            lemma_fits(self.node_arena@, self.root, w, p);
            lemma_fits(self.node_arena@, self.root, w, x);
        }
        let b = self.node_arena[x].right;
        self.node_arena[x].right = Some(p);
        self.node_arena[p].left = b;
        self.node_arena[p].parent = Some(x);
        if let Some(b) = b {
            self.node_arena[b].parent = Some(p);
        }
        self.node_arena[x].parent = None;
        self.root = Some(x);
        proof {
            assert(self.node_arena@ =~= rot_right(old(self).node_arena@, old(self).root, x, p).0);
        }
    }

    //    p                     x
    //   / \                   / \
    //  A   x      ==>        p   C
    //     / \               / \
    //    B   C             A   B
    fn zig_right_to_left(&mut self, x: usize, p: usize, Ghost(w): Ghost<Shape>)
        requires
            old(self).shaped_by(w),
            w.ix.dom().contains(p),
            old(self).node(p).parent is None,
            old(self).node(p).right == Some(x),
        ensures
            (final(self).node_arena@, final(self).root) == rot_left(old(self).node_arena@, old(self).root, x, p),
            final(self).value_arena@ == old(self).value_arena@,
    {
        proof {
            lemma_fits(self.node_arena@, self.root, w, p);
            lemma_fits(self.node_arena@, self.root, w, x);
        }
        let b = self.node_arena[x].left;
        self.node_arena[x].left = Some(p);
        self.node_arena[p].right = b;
        self.node_arena[p].parent = Some(x);
        if let Some(b) = b {
            self.node_arena[b].parent = Some(p);
        }
        self.node_arena[x].parent = None;
        self.root = Some(x);
        proof {
            assert(self.node_arena@ =~= rot_left(old(self).node_arena@, old(self).root, x, p).0);
        }
    }

    //        g           x
    //       / \         / \
    //      p   D       A   p
    //     / \             / \
    //    x   C    ==>    B   g
    //   / \                 / \
    //  A   B               C   D
    fn zig_zig_left_to_right(&mut self, x: usize, p: usize, g: usize, Ghost(w): Ghost<Shape>)
        requires
            old(self).shaped_by(w),
            w.ix.dom().contains(g),
            old(self).node(g).left == Some(p),
            old(self).node(p).left == Some(x),
        ensures
            ({
                let (n1, r1) = rot_right(old(self).node_arena@, old(self).root, p, g);
                (final(self).node_arena@, final(self).root) == rot_right(n1, r1, x, p)
            }),
            final(self).value_arena@ == old(self).value_arena@,
    {
        proof {
            let (n0, r0) = (self.node_arena@, self.root);
            lemma_fits(n0, r0, w, g);
            lemma_fits(n0, r0, w, p);
            lemma_fits(n0, r0, w, x);
        }
        let gg = self.node_arena[g].parent;
        let b = self.node_arena[x].right;
        let c = self.node_arena[p].right;
        self.node_arena[p].right = Some(g);
        self.node_arena[g].left = c;
        self.node_arena[x].right = Some(p);
        self.node_arena[p].left = b;
        self.node_arena[x].parent = gg;
        self.node_arena[p].parent = Some(x);
        self.node_arena[g].parent = Some(p);
        if let Some(b) = b {
            self.node_arena[b].parent = Some(p);
        }
        if let Some(c) = c {
            self.node_arena[c].parent = Some(g);
        }
        if let Some(gg) = gg {
            if self.node_arena[gg].left == Some(g) {
                self.node_arena[gg].left = Some(x);
            } else {
                self.node_arena[gg].right = Some(x);
            }
        } else {
            self.root = Some(x);
        }
        proof {
            let (n1, r1) = rot_right(old(self).node_arena@, old(self).root, p, g);
            if let Some(q) = gg {
                lemma_fits(old(self).node_arena@, old(self).root, w, q);
            }
            assert(self.node_arena@ =~= rot_right(n1, r1, x, p).0);
        }
    }

    //   g                 x
    //  / \               / \
    // A   p             p   D
    //    / \    ==>    / \
    //   B   x         g   C
    //      / \       / \
    //     C   D     A   B
    fn zig_zig_right_to_left(&mut self, x: usize, p: usize, g: usize, Ghost(w): Ghost<Shape>)
        requires
            old(self).shaped_by(w),
            w.ix.dom().contains(g),
            old(self).node(g).right == Some(p),
            old(self).node(p).right == Some(x),
        ensures
            ({
                let (n1, r1) = rot_left(old(self).node_arena@, old(self).root, p, g);
                (final(self).node_arena@, final(self).root) == rot_left(n1, r1, x, p)
            }),
            final(self).value_arena@ == old(self).value_arena@,
    {
        proof {
            let (n0, r0) = (self.node_arena@, self.root);
            lemma_fits(n0, r0, w, g);
            lemma_fits(n0, r0, w, p);
            lemma_fits(n0, r0, w, x);
        }
        let gg = self.node_arena[g].parent;
        let b = self.node_arena[x].left;
        let c = self.node_arena[p].left;
        self.node_arena[p].left = Some(g);
        self.node_arena[g].right = c;
        self.node_arena[x].left = Some(p);
        self.node_arena[p].right = b;
        self.node_arena[x].parent = gg;
        self.node_arena[p].parent = Some(x);
        self.node_arena[g].parent = Some(p);
        if let Some(b) = b {
            self.node_arena[b].parent = Some(p);
        }
        if let Some(c) = c {
            self.node_arena[c].parent = Some(g);
        }
        if let Some(gg) = gg {
            if self.node_arena[gg].right == Some(g) {
                self.node_arena[gg].right = Some(x);
            } else {
                self.node_arena[gg].left = Some(x);
            }
        } else {
            self.root = Some(x);
        }
        proof {
            let (n1, r1) = rot_left(old(self).node_arena@, old(self).root, p, g);
            if let Some(q) = gg {
                lemma_fits(old(self).node_arena@, old(self).root, w, q);
            }
            assert(self.node_arena@ =~= rot_left(n1, r1, x, p).0);
        }
    }

    //     g             x
    //    / \           / \
    //   p   D         /   \
    //  / \     ==>   p     g
    // A   x         / \   / \
    //    / \       A   B C   D
    //   B   C
    fn zig_zag_left_to_right(&mut self, x: usize, p: usize, g: usize, Ghost(w): Ghost<Shape>)
        requires
            old(self).shaped_by(w),
            w.ix.dom().contains(g),
            old(self).node(g).left == Some(p),
            old(self).node(p).right == Some(x),
        ensures
            ({
                let (n1, r1) = rot_left(old(self).node_arena@, old(self).root, x, p);
                (final(self).node_arena@, final(self).root) == rot_right(n1, r1, x, g)
            }),
            final(self).value_arena@ == old(self).value_arena@,
    {
        proof {
            let (n0, r0) = (self.node_arena@, self.root);
            lemma_fits(n0, r0, w, g);
            lemma_fits(n0, r0, w, p);
            lemma_fits(n0, r0, w, x);
        }
        let gg = self.node_arena[g].parent;
        let b = self.node_arena[x].left;
        let c = self.node_arena[x].right;
        self.node_arena[x].left = Some(p);
        self.node_arena[p].right = b;
        self.node_arena[x].right = Some(g);
        self.node_arena[g].left = c;
        self.node_arena[x].parent = gg;
        self.node_arena[p].parent = Some(x);
        self.node_arena[g].parent = Some(x);
        if let Some(b) = b {
            self.node_arena[b].parent = Some(p);
        }
        if let Some(c) = c {
            self.node_arena[c].parent = Some(g);
        }
        if let Some(gg) = gg {
            if self.node_arena[gg].left == Some(g) {
                self.node_arena[gg].left = Some(x);
            } else {
                self.node_arena[gg].right = Some(x);
            }
        } else {
            self.root = Some(x);
        }
        proof {
            let (n1, r1) = rot_left(old(self).node_arena@, old(self).root, x, p);
            if let Some(q) = gg {
                lemma_fits(old(self).node_arena@, old(self).root, w, q);
            }
            assert(self.node_arena@ =~= rot_right(n1, r1, x, g).0);
        }
    }

    //   g                x
    //  / \              / \
    // A   p            /   \
    //    / \   ==>    g     p
    //   x   D        / \   / \
    //  / \          A   B C   D
    // B   C
    fn zig_zag_right_to_left(&mut self, x: usize, p: usize, g: usize, Ghost(w): Ghost<Shape>)
        requires
            old(self).shaped_by(w),
            w.ix.dom().contains(g),
            old(self).node(g).right == Some(p),
            old(self).node(p).left == Some(x),
        ensures
            ({
                let (n1, r1) = rot_right(old(self).node_arena@, old(self).root, x, p);
                (final(self).node_arena@, final(self).root) == rot_left(n1, r1, x, g)
            }),
            final(self).value_arena@ == old(self).value_arena@,
    {
        proof {
            let (n0, r0) = (self.node_arena@, self.root);
            lemma_fits(n0, r0, w, g);
            lemma_fits(n0, r0, w, p);
            lemma_fits(n0, r0, w, x);
        }
        let gg = self.node_arena[g].parent;
        let b = self.node_arena[x].right;
        let c = self.node_arena[x].left;
        self.node_arena[x].right = Some(p);
        self.node_arena[p].left = b;
        self.node_arena[x].left = Some(g);
        self.node_arena[g].right = c;
        self.node_arena[x].parent = gg;
        self.node_arena[p].parent = Some(x);
        self.node_arena[g].parent = Some(x);
        if let Some(b) = b {
            self.node_arena[b].parent = Some(p);
        }
        if let Some(c) = c {
            self.node_arena[c].parent = Some(g);
        }
        if let Some(gg) = gg {
            if self.node_arena[gg].right == Some(g) {
                self.node_arena[gg].right = Some(x);
            } else {
                self.node_arena[gg].left = Some(x);
            }
        } else {
            self.root = Some(x);
        }
        proof {
            let (n1, r1) = rot_right(old(self).node_arena@, old(self).root, x, p);
            if let Some(q) = gg {
                lemma_fits(old(self).node_arena@, old(self).root, w, q);
            }
            assert(self.node_arena@ =~= rot_left(n1, r1, x, g).0);
        }
    }

    /// Rotates node `id` up until it is the root; the in-order sequence does
    /// not change.
    fn splay(&mut self, id: usize, Ghost(w): Ghost<Shape>)
        requires
            old(self).shaped_by(w),
            w.ix.dom().contains(id),
        ensures
            exists|w2: Shape| #[trigger] final(self).shaped_by(w2) && w2.ids == w.ids && w2.ix == w.ix,
            final(self).root == Some(id),
            final(self).value_arena@ == old(self).value_arena@,
            final(self).node_arena@.len() == old(self).node_arena@.len(),
            (final(self).node_arena@, final(self).root) == splayed(
                old(self).node_arena@,
                old(self).root,
                id,
                slen(old(self).node_arena@),
            ),
    {
        let ghost mut wc = w;
        let ghost mut fuel: int = slen(self.node_arena@);
        proof {
            lemma_fits(self.node_arena@, self.root, wc, id);
        }
        loop
            invariant
                self.shaped_by(wc),
                wc.ids == w.ids,
                wc.ix == w.ix,
                w.ix.dom().contains(id),
                self.value_arena@ == old(self).value_arena@,
                self.node_arena@.len() == old(self).node_arena@.len(),
                fuel >= wc.ids.len() - ((wc.hi)(id) - (wc.lo)(id)) + 1,
                splayed(self.node_arena@, self.root, id, fuel) == splayed(
                    old(self).node_arena@,
                    old(self).root,
                    id,
                    slen(old(self).node_arena@),
                ),
            ensures
                self.shaped_by(wc),
                wc.ids == w.ids,
                wc.ix == w.ix,
                self.root == Some(id),
                self.value_arena@ == old(self).value_arena@,
                self.node_arena@.len() == old(self).node_arena@.len(),
                (self.node_arena@, self.root) == splayed(
                    old(self).node_arena@,
                    old(self).root,
                    id,
                    slen(old(self).node_arena@),
                ),
            decreases wc.ids.len() - ((wc.hi)(id) - (wc.lo)(id)),
        {
            proof {
                lemma_fits(self.node_arena@, self.root, wc, id);
            }
            let ghost n0 = self.node_arena@;
            let ghost r0 = self.root;
            let ghost size0 = (wc.hi)(id) - (wc.lo)(id);
            let ghost w0 = wc;
            proof {
                if link(n0, id).parent is Some {
                    assert(splayed(n0, r0, id, fuel) == splayed(splay_step(n0, r0, id).0, splay_step(n0, r0, id).1, id, fuel - 1));
                }
            }
            match self.node_arena[id].parent {
                None => {
                    break ;
                },
                Some(parent_id) => {
                    proof {
                        lemma_fits(n0, r0, wc, parent_id);
                    }
                    if self.node_arena[parent_id].parent.is_none() {
                        if self.node_arena[parent_id].left == Some(id) {
                            self.zig_left_to_right(id, parent_id, Ghost(wc));
                            proof {
                                wc = lemma_rot_right(n0, r0, wc, id, parent_id);
                                assert((wc.hi)(id) - (wc.lo)(id) > size0);
                            }
                        } else {
                            self.zig_right_to_left(id, parent_id, Ghost(wc));
                            proof {
                                wc = lemma_rot_left(n0, r0, wc, id, parent_id);
                                assert((wc.hi)(id) - (wc.lo)(id) > size0);
                            }
                        }
                    } else {
                        let grandparent_id = self.node_arena[parent_id].parent.unwrap();
                        proof {
                            lemma_fits(n0, r0, wc, grandparent_id);
                        }
                        let is_p_left = self.node_arena[grandparent_id].left == Some(parent_id);
                        let is_x_left = self.node_arena[parent_id].left == Some(id);
                        match (is_p_left, is_x_left) {
                            (true, true) => {
                                self.zig_zig_left_to_right(id, parent_id, grandparent_id, Ghost(wc));
                                proof {
                                    let w1 = lemma_rot_right(n0, r0, wc, parent_id, grandparent_id);
                                    let (n1, r1) = rot_right(n0, r0, parent_id, grandparent_id);
                                    wc = lemma_rot_right(n1, r1, w1, id, parent_id);
                                    assert((wc.hi)(id) - (wc.lo)(id) > size0);
                                }
                            },
                            (false, false) => {
                                self.zig_zig_right_to_left(id, parent_id, grandparent_id, Ghost(wc));
                                proof {
                                    let w1 = lemma_rot_left(n0, r0, wc, parent_id, grandparent_id);
                                    let (n1, r1) = rot_left(n0, r0, parent_id, grandparent_id);
                                    wc = lemma_rot_left(n1, r1, w1, id, parent_id);
                                    assert((wc.hi)(id) - (wc.lo)(id) > size0);
                                }
                            },
                            (true, false) => {
                                self.zig_zag_left_to_right(id, parent_id, grandparent_id, Ghost(wc));
                                proof {
                                    let w1 = lemma_rot_left(n0, r0, wc, id, parent_id);
                                    let (n1, r1) = rot_left(n0, r0, id, parent_id);
                                    wc = lemma_rot_right(n1, r1, w1, id, grandparent_id);
                                    assert((wc.hi)(id) - (wc.lo)(id) > size0);
                                }
                            },
                            (false, true) => {
                                self.zig_zag_right_to_left(id, parent_id, grandparent_id, Ghost(wc));
                                proof {
                                    let w1 = lemma_rot_right(n0, r0, wc, id, parent_id);
                                    let (n1, r1) = rot_right(n0, r0, id, parent_id);
                                    wc = lemma_rot_left(n1, r1, w1, id, grandparent_id);
                                    assert((wc.hi)(id) - (wc.lo)(id) > size0);
                                }
                            },
                        }
                    }
                },
            }
            proof {
                assert((self.node_arena@, self.root) == splay_step(n0, r0, id));
                fuel = fuel - 1;
            }
        }
    }

    proof fn lemma_inorder(&self, w: Shape, y: usize, fuel: int)
        requires
            self.shaped_by(w),
            w.ix.dom().contains(y),
            fuel >= (w.hi)(y) - (w.lo)(y),
        ensures
            inorder(self.node_arena@, Some(y), fuel) == w.ids.subrange((w.lo)(y), (w.hi)(y)),
        decreases fuel,
    {
        assert(self.node_ok(w, y));
        let nd = self.node(y);
        let i = w.ix[y];
        match nd.left {
            Some(c) => {
                assert(self.node_ok(w, c));
                self.lemma_inorder(w, c, fuel - 1);
            },
            None => {},
        }
        match nd.right {
            Some(c) => {
                assert(self.node_ok(w, c));
                self.lemma_inorder(w, c, fuel - 1);
            },
            None => {},
        }
        assert(inorder(self.node_arena@, nd.left, fuel - 1) =~= w.ids.subrange((w.lo)(y), i));
        assert(inorder(self.node_arena@, nd.right, fuel - 1) =~= w.ids.subrange(i + 1, (w.hi)(y)));
        assert(inorder(self.node_arena@, Some(y), fuel) == inorder(self.node_arena@, nd.left, fuel - 1)
            + seq![y] + inorder(self.node_arena@, nd.right, fuel - 1));
        assert(w.ids.subrange((w.lo)(y), (w.hi)(y)) =~= w.ids.subrange((w.lo)(y), i) + seq![y]
            + w.ids.subrange(i + 1, (w.hi)(y)));
    }

    /// The in-order sequence of a tree is the one its layout lists.
    proof fn lemma_order(&self, w: Shape)
        requires
            self.shaped_by(w),
        ensures
            self.order() == w.ids,
            self@.len() == w.ids.len(),
            forall|i: int| 0 <= i < w.ids.len() ==> #[trigger] self@[i] == self.value_of(w.ids[i]),
    {
        match self.root {
            Some(r) => {
                self.lemma_inorder(w, r, self.node_arena@.len() as int);
                assert(w.ids.subrange(0, w.ids.len() as int) =~= w.ids);
            },
            None => {
                assert(self.order() =~= w.ids);
            },
        }
    }
}

impl<T: Clone> SplayTree<T> {
    /// A handle on node `id`, with a clone of its value.
    fn node_ref(&self, id: usize) -> (r: NodeRef<T>)
        requires
            id < self.value_arena@.len(),
        ensures
            r.id == id,
            cloned(self.value_of(id), r.value),
    {
        NodeRef { value: self.value_arena[id].clone(), id }
    }

    /// Clones of the values of the tree, in order.
    pub fn to_vec(&self) -> (r: Vec<T>)
        requires
            self.wf(),
        ensures
            r@.len() == self@.len(),
            forall|i: int| 0 <= i < self@.len() ==> cloned(#[trigger] self@[i], r@[i]),
    {
        let ghost w = choose|w: Shape| self.shaped_by(w);
        proof {
            self.lemma_order(w);
        }
        let mut result = Vec::new();
        if let Some(root_id) = self.root {
            proof {
                self.lemma_node(w, root_id);
            }
            self.to_vec_inner(Some(root_id), &mut result, Ghost(w));
            proof {
                assert forall|i: int| 0 <= i < self@.len() implies cloned(#[trigger] self@[i], result@[i]) by {
                    assert(result@[i] == result@[0 + i]);
                }
            }
        }
        result
    }

    /// Appends clones of the values below `node_id`, in order.
    fn to_vec_inner(&self, node_id: Option<usize>, result: &mut Vec<T>, Ghost(w): Ghost<Shape>)
        requires
            self.shaped_by(w),
            node_id matches Some(y) ==> w.ix.dom().contains(y),
        ensures
            ({
                let (a, b) = match node_id {
                    Some(y) => ((w.lo)(y), (w.hi)(y)),
                    None => (0, 0),
                };
                &&& final(result)@.len() == old(result)@.len() + (b - a)
                &&& forall|j: int| 0 <= j < old(result)@.len() ==> final(result)@[j] == old(result)@[j]
                &&& forall|j: int|
                    0 <= j < b - a ==> cloned(
                        self.value_of(w.ids[a + j]),
                        #[trigger] final(result)@[old(result)@.len() + j],
                    )
            }),
        decreases match node_id {
            Some(y) => (w.hi)(y) - (w.lo)(y),
            None => 0,
        },
    {
        if let Some(id) = node_id {
            proof {
                self.lemma_node(w, id);
            }
            let ghost r0 = result@;
            self.to_vec_inner(self.node_arena[id].left, result, Ghost(w));
            let ghost r1 = result@;
            result.push(self.value_arena[id].clone());
            let ghost r2 = result@;
            self.to_vec_inner(self.node_arena[id].right, result, Ghost(w));
            proof {
                let a = (w.lo)(id);
                let i = w.ix[id];
                let b = (w.hi)(id);
                assert forall|j: int| 0 <= j < b - a implies cloned(
                    self.value_of(w.ids[a + j]),
                    #[trigger] result@[r0.len() + j],
                ) by {
                    if j < i - a {
                        assert(result@[r0.len() + j] == r1[r0.len() + j]);
                    } else if j == i - a {
                        assert(result@[r0.len() + j] == r2.last());
                    } else {
                        assert(r0.len() + j == r2.len() + (j - (i - a) - 1));
                    }
                }
            }
        }
    }

    /// Looks `value` up by walking down from the root, comparing
    /// `cmp(value, node)`; returns a node whose value `cmp` finds equal to it,
    /// or `None` when the walk ends without one (when the tree is sorted by a
    /// total order that `cmp` answers as, when there is none).  The tree is
    /// not changed.
    pub fn find_static<F: Fn(&T, &T) -> Ordering>(&self, value: &T, cmp: F) -> (r: Option<
        NodeRef<T>,
    >)
        requires
            self.wf(),
            is_comparator(cmp),
        ensures
            r matches Some(x) ==> self.contains_node(x.id) && forall|i: int|
                0 <= i < self.order().len() && self.order()[i] == x.id ==> cloned(self@[i], x.value)
                    && forall|ord: spec_fn(T, T) -> Ordering|
                    #[trigger] agrees(cmp, ord) ==> equivalent(ord, *value, self@[i]),
            r is None ==> forall|ord: spec_fn(T, T) -> Ordering|
                #[trigger] orders(cmp, ord) && sorted_by(self@, ord) ==> forall|i: int|
                    0 <= i < self@.len() ==> !equivalent(ord, *value, #[trigger] self@[i]),
    {
        let ghost w = choose|w: Shape| self.shaped_by(w);
        proof {
            self.lemma_order(w);
        }
        let mut cur = match self.root {
            Some(r) => r,
            None => return None,
        };
        loop
            invariant
                self.shaped_by(w),
                is_comparator(cmp),
                self.order() == w.ids,
                self@.len() == w.ids.len(),
                forall|i: int| 0 <= i < w.ids.len() ==> #[trigger] self@[i] == self.value_of(w.ids[i]),
                w.ix.dom().contains(cur),
                forall|ord: spec_fn(T, T) -> Ordering|
                    #[trigger] orders(cmp, ord) && sorted_by(self@, ord) ==> forall|j: int|
                        0 <= j < w.ids.len() && !((w.lo)(cur) <= j < (w.hi)(cur)) ==> !equivalent(
                            ord,
                            *value,
                            #[trigger] self@[j],
                        ),
            decreases (w.hi)(cur) - (w.lo)(cur),
        {
            proof {
                self.lemma_node(w, cur);
            }
            let ghost i = w.ix[cur];
            let o = cmp(value, &self.value_arena[cur]);
            proof {
                assert(self@[i] == self.value_of(cur));
            }
            match o {
                Ordering::Less => {
                    proof {
                        assert forall|ord: spec_fn(T, T) -> Ordering|
                            #[trigger] orders(cmp, ord) && sorted_by(self@, ord) implies forall|j: int|
                            i <= j < (w.hi)(cur) ==> !equivalent(ord, *value, #[trigger] self@[j]) by {
                            assert(o == ord(*value, self@[i]));
                            assert forall|j: int| i <= j < (w.hi)(cur) implies !equivalent(
                                ord,
                                *value,
                                #[trigger] self@[j],
                            ) by {
                                lemma_strict_chain(ord, *value, self@[i], self@[j]);
                                lemma_total_order_facts(ord, self@[i], self@[j]);
                            }
                        }
                    }
                    match self.node_arena[cur].left {
                        Some(id) => cur = id,
                        None => return None,
                    }
                },
                Ordering::Equal => {
                    proof {
                        self.lemma_position(w, cur, i);
                    }
                    return Some(self.node_ref(cur));
                },
                Ordering::Greater => {
                    proof {
                        assert forall|ord: spec_fn(T, T) -> Ordering|
                            #[trigger] orders(cmp, ord) && sorted_by(self@, ord) implies forall|j: int|
                            (w.lo)(cur) <= j <= i ==> !equivalent(ord, *value, #[trigger] self@[j]) by {
                            assert(o == ord(*value, self@[i]));
                            assert forall|j: int| (w.lo)(cur) <= j <= i implies !equivalent(
                                ord,
                                *value,
                                #[trigger] self@[j],
                            ) by {
                                lemma_strict_chain(ord, self@[i], *value, *value);
                                lemma_strict_chain(ord, self@[j], self@[i], *value);
                                lemma_total_order_facts(ord, self@[j], self@[i]);
                                lemma_strict_chain(ord, *value, self@[j], *value);
                            }
                        }
                    }
                    match self.node_arena[cur].right {
                        Some(id) => cur = id,
                        None => return None,
                    }
                },
            }
        }
    }

    /// Looks `value` up like `find_static` and splays the node found to the
    /// root; the contents do not change.
    pub fn find<F: Fn(&T, &T) -> Ordering>(&mut self, value: &T, cmp: F) -> (r: Option<NodeRef<T>>)
        requires
            old(self).wf(),
            is_comparator(cmp),
        ensures
            final(self).wf(),
            final(self).order() == old(self).order(),
            final(self)@ == old(self)@,
            r matches Some(x) ==> final(self).root == Some(x.id) && old(self).contains_node(x.id)
                && forall|i: int|
                0 <= i < old(self).order().len() && old(self).order()[i] == x.id ==> cloned(
                    old(self)@[i],
                    x.value,
                ) && forall|ord: spec_fn(T, T) -> Ordering|
                    #[trigger] agrees(cmp, ord) ==> equivalent(ord, *value, old(self)@[i]),
            r is None ==> *final(self) == *old(self),
            r is None ==> forall|ord: spec_fn(T, T) -> Ordering|
                #[trigger] orders(cmp, ord) && sorted_by(old(self)@, ord) ==> forall|i: int|
                    0 <= i < old(self)@.len() ==> !equivalent(ord, *value, #[trigger] old(self)@[i]),
    {
        if let Some(node) = self.find_static(value, cmp) {
            let ghost w = choose|w: Shape| self.shaped_by(w);
            proof {
                self.lemma_order(w);
                let i = choose|i: int| 0 <= i < self.order().len() && self.order()[i] == node.id;
                self.lemma_position(w, node.id, i);
            }
            self.splay(node.id, Ghost(w));
            proof {
                let w2 = choose|w2: Shape| self.shaped_by(w2) && w2.ids == w.ids && w2.ix == w.ix;
                self.lemma_order(w2);
                assert(self@ =~= old(self)@);
            }
            Some(node)
        } else {
            None
        }
    }

    /// Hangs a new node holding `value` below the node where the walk from the
    /// root ends (left when `cmp(value, node)` is `Less`, right otherwise),
    /// then splays it to the root.  When the tree is sorted by a total order,
    /// the new value comes, in order, after every value it does not come
    /// strictly before, and the tree stays sorted.
    pub fn insert<F: Fn(&T, &T) -> Ordering>(&mut self, value: T, cmp: F) -> (r: NodeRef<T>)
        requires
            old(self).wf(),
            is_comparator(cmp),
        ensures
            final(self).wf(),
            exists|k: int|
                #![trigger old(self)@.insert(k, value)]
                0 <= k <= old(self)@.len() && final(self)@ == old(self)@.insert(k, value) && final(self).order()
                    == old(self).order().insert(k, r.id) && forall|ord: spec_fn(T, T) -> Ordering|
                    #[trigger] orders(cmp, ord) && sorted_by(old(self)@, ord) ==> k == insert_pos(
                        old(self)@,
                        ord,
                        value,
                    ),
            forall|ord: spec_fn(T, T) -> Ordering|
                #[trigger] orders(cmp, ord) && sorted_by(old(self)@, ord) ==> sorted_by(final(self)@, ord),
            r.id == old(self).node_arena@.len(),
            final(self).node_arena@.len() == old(self).node_arena@.len() + 1,
            final(self).value_arena@ == old(self).value_arena@.push(value),
            final(self).root == Some(r.id),
            forall|ord: spec_fn(T, T) -> Ordering|
                #[trigger] agrees(cmp, ord) ==> (final(self).node_arena@, final(self).root) == inserted_links(
                    old(self).node_arena@,
                    old(self).value_arena@,
                    old(self).root,
                    value,
                    ord,
                    r.id,
                ),
            cloned(value, r.value),
    {
        let ghost w = choose|w: Shape| self.shaped_by(w);
        proof {
            self.lemma_order(w);
            assert forall|ord: spec_fn(T, T) -> Ordering|
                #[trigger] orders(cmp, ord) && sorted_by(self@, ord) implies {
                &&& forall|i: int| 0 <= i < self@.len() ==> (strictly_precedes(ord, value, #[trigger] self@[i])
                    <==> insert_pos(self@, ord, value) <= i)
                &&& 0 <= insert_pos(self@, ord, value) <= self@.len()
            } by {
                lemma_first_after(self@, value, ord);
            }
        }
        if self.root.is_none() {
            let id = self.node_arena.len();
            self.value_arena.push(value);
            self.node_arena.push(SplayTreeNode::root_no_child());
            self.root = Some(id);
            proof {
                let w1 = Shape {
                    ids: seq![id],
                    ix: Map::empty().insert(id, 0int),
                    lo: |z: usize| 0int,
                    hi: |z: usize| 1int,
                };
                assert(fits(self.node_arena@, self.root, w1, id));
                assert(self.shaped_by(w1));
                self.lemma_order(w1);
                assert(self@ =~= old(self)@.insert(0, value));
                assert(self.order() =~= old(self).order().insert(0, id));
                assert forall|ord: spec_fn(T, T) -> Ordering|
                    #[trigger] orders(cmp, ord) && sorted_by(old(self)@, ord) implies sorted_by(self@, ord)
                    && 0 == insert_pos(old(self)@, ord, value) by {
                    lemma_first_after(old(self)@, value, ord);
                }
            }
            return NodeRef { value: self.value_arena[id].clone(), id };
        }
        let mut cur = self.root.unwrap();
        let mut insert_left = false;
        let ghost mut fuel: int = slen(self.node_arena@);
        let ghost root0 = cur;
        proof {
            lemma_fits(self.node_arena@, self.root, w, cur);
        }
        loop
            invariant_except_break
                fuel >= (w.hi)(cur) - (w.lo)(cur),
                forall|ord: spec_fn(T, T) -> Ordering|
                    #[trigger] agrees(cmp, ord) ==> walk_end(
                        self.node_arena@,
                        self.value_arena@,
                        root0,
                        value,
                        ord,
                        slen(self.node_arena@),
                    ) == walk_end(self.node_arena@, self.value_arena@, cur, value, ord, fuel),
            invariant
                self.shaped_by(w),
                *self == *old(self),
                self.root is Some,
                is_comparator(cmp),
                self@.len() == w.ids.len(),
                forall|i: int| 0 <= i < w.ids.len() ==> #[trigger] self@[i] == self.value_of(w.ids[i]),
                w.ix.dom().contains(cur),
                forall|ord: spec_fn(T, T) -> Ordering|
                    #[trigger] orders(cmp, ord) && sorted_by(self@, ord) ==> {
                        &&& forall|i: int| 0 <= i < self@.len() ==> (strictly_precedes(ord, value, #[trigger] self@[i])
                            <==> insert_pos(self@, ord, value) <= i)
                        &&& (w.lo)(cur) <= insert_pos(self@, ord, value) <= (w.hi)(cur)
                    },
            ensures
                forall|ord: spec_fn(T, T) -> Ordering|
                    #[trigger] agrees(cmp, ord) ==> walk_end(
                        self.node_arena@,
                        self.value_arena@,
                        root0,
                        value,
                        ord,
                        slen(self.node_arena@),
                    ) == (cur, insert_left),
                self.shaped_by(w),
                *self == *old(self),
                w.ix.dom().contains(cur),
                cur < self.node_arena@.len(),
                insert_left ==> self.node(cur).left is None,
                !insert_left ==> self.node(cur).right is None,
                forall|ord: spec_fn(T, T) -> Ordering|
                    #[trigger] orders(cmp, ord) && sorted_by(self@, ord) ==> insert_pos(self@, ord, value) == if insert_left {
                        w.ix[cur]
                    } else {
                        w.ix[cur] + 1
                    },
            decreases (w.hi)(cur) - (w.lo)(cur),
        {
            proof {
                lemma_fits(self.node_arena@, self.root, w, cur);
            }
            let ghost i = w.ix[cur];
            let ghost c0 = cur;
            let o = cmp(&value, &self.value_arena[cur]);
            proof {
                assert forall|ord: spec_fn(T, T) -> Ordering| #[trigger] agrees(cmp, ord) implies walk_end(
                    self.node_arena@,
                    self.value_arena@,
                    c0,
                    value,
                    ord,
                    fuel,
                ) == if o == Ordering::Less {
                    match self.node(c0).left {
                        Some(c) => walk_end(self.node_arena@, self.value_arena@, c, value, ord, fuel - 1),
                        None => (c0, true),
                    }
                } else {
                    match self.node(c0).right {
                        Some(c) => walk_end(self.node_arena@, self.value_arena@, c, value, ord, fuel - 1),
                        None => (c0, false),
                    }
                } by {
                    assert(o == ord(value, self.value_arena@[pos(c0)]));
                }
                fuel = fuel - 1;
            }
            proof {
                assert(self@[i] == self.value_of(cur));
            }
            match o {
                Ordering::Less => match self.node_arena[cur].left {
                    Some(id) => {
                        cur = id;
                        proof {
                            assert forall|ord: spec_fn(T, T) -> Ordering|
                                #[trigger] orders(cmp, ord) && sorted_by(self@, ord) implies (w.lo)(cur)
                                <= insert_pos(self@, ord, value) <= (w.hi)(cur) by {
                                assert(o == ord(value, self@[i]));
                            }
                        }
                    },
                    None => {
                        insert_left = true;
                        proof {
                            assert forall|ord: spec_fn(T, T) -> Ordering|
                                #[trigger] orders(cmp, ord) && sorted_by(self@, ord) implies insert_pos(self@, ord, value)
                                == w.ix[cur] by {
                                assert(o == ord(value, self@[i]));
                            }
                        }
                        break ;
                    },
                },
                Ordering::Equal | Ordering::Greater => match self.node_arena[cur].right {
                    Some(id) => {
                        cur = id;
                        proof {
                            assert forall|ord: spec_fn(T, T) -> Ordering|
                                #[trigger] orders(cmp, ord) && sorted_by(self@, ord) implies (w.lo)(cur)
                                <= insert_pos(self@, ord, value) <= (w.hi)(cur) by {
                                assert(o == ord(value, self@[i]));
                            }
                        }
                    },
                    None => {
                        insert_left = false;
                        proof {
                            assert forall|ord: spec_fn(T, T) -> Ordering|
                                #[trigger] orders(cmp, ord) && sorted_by(self@, ord) implies insert_pos(self@, ord, value)
                                == w.ix[cur] + 1 by {
                                assert(o == ord(value, self@[i]));
                            }
                        }
                        break ;
                    },
                },
            }
        }
        let ghost kk = if insert_left {
            w.ix[cur]
        } else {
            w.ix[cur] + 1
        };
        let id = self.node_arena.len();
        let ghost n0 = self.node_arena@;
        let ghost r0 = self.root;
        self.value_arena.push(value);
        self.node_arena.push(SplayTreeNode::leaf_with_parent(cur));
        if insert_left {
            self.node_arena[cur].left = Some(id);
        } else {
            self.node_arena[cur].right = Some(id);
        }
        let ghost w1 = lemma_add_leaf(n0, r0, w, cur, id, insert_left);
        proof {
            assert(self.node_arena@ =~= with_leaf(n0, cur, id, insert_left));
            lemma_fits(n0, r0, w, cur);
            assert(0 <= kk <= w.ids.len());
            assert(w1.ids == w.ids.insert(kk, id));
        }
        self.splay(id, Ghost(w1));
        proof {
            let w2 = choose|w2: Shape| self.shaped_by(w2) && w2.ids == w1.ids && w2.ix == w1.ix;
            self.lemma_order(w2);
            old(self).lemma_order(w);
            assert forall|j: int| 0 <= j < w1.ids.len() implies #[trigger] self@[j] == old(self)@.insert(kk, value)[j] by {
                if j < kk {
                    lemma_fits(n0, r0, w, w.ids[j]);
                } else if j > kk {
                    lemma_fits(n0, r0, w, w.ids[j - 1]);
                }
            }
            assert(self@ =~= old(self)@.insert(kk, value));
            assert forall|ord: spec_fn(T, T) -> Ordering|
                #[trigger] orders(cmp, ord) && sorted_by(old(self)@, ord) implies sorted_by(self@, ord) by {
                lemma_first_after(old(self)@, value, ord);
            }
        }
        NodeRef { value: self.value_arena[id].clone(), id }
    }

    /// After node `y` (at position `i`) is spliced out, the tree is whole
    /// again without it.
    proof fn lemma_spliced(&self, old_t: &Self, w: Shape, y: usize, i: int)
        requires
            old_t.shaped_by(w),
            0 <= i < old_t.order().len(),
            old_t.order()[i] == y,
            link(old_t.node_arena@, y).left is None || link(old_t.node_arena@, y).right is None,
            (self.node_arena@, self.root) == spliced(old_t.node_arena@, old_t.root, y),
            self.value_arena@ == old_t.value_arena@,
        ensures
            self.wf(),
            self.order() == old_t.order().remove(i),
            self@ == old_t@.remove(i),
            self.node(y) == (SplayTreeNode { parent: None, left: None, right: None }),
    {
        old_t.lemma_order(w);
        old_t.lemma_position(w, y, i);
        let w2 = lemma_splice_out(old_t.node_arena@, old_t.root, w, y);
        assert(self.shaped_by(w2));
        self.lemma_order(w2);
        assert forall|j: int| 0 <= j < w2.ids.len() implies #[trigger] self@[j] == old_t@.remove(i)[j] by {
            if j < i {
                old_t.lemma_at(w, j);
            } else {
                old_t.lemma_at(w, j + 1);
            }
        }
        assert(self@ =~= old_t@.remove(i));
        if let Some(c) = link(old_t.node_arena@, y).left {
            old_t.lemma_node(w, y);
        }
        if let Some(c) = link(old_t.node_arena@, y).right {
            old_t.lemma_node(w, y);
        }
        if let Some(q) = link(old_t.node_arena@, y).parent {
            old_t.lemma_node(w, y);
        }
    }

    /// Unlinks node `node_id`, which has no children; it is left without links.
    pub fn remove_node_has_zero_children(&mut self, node_id: usize)
        requires
            old(self).wf(),
            old(self).contains_node(node_id),
            old(self).node(node_id).left is None,
            old(self).node(node_id).right is None,
        ensures
            final(self).wf(),
            (final(self).node_arena@, final(self).root) == spliced(old(self).node_arena@, old(self).root, node_id),
            final(self).value_arena@ == old(self).value_arena@,
            final(self).node(node_id) == SplayTreeNode::dangling_spec(),
            forall|i: int|
                0 <= i < old(self).order().len() && old(self).order()[i] == node_id ==> {
                    &&& final(self).order() == old(self).order().remove(i)
                    &&& final(self)@ == old(self)@.remove(i)
                },
    {
        let ghost w = choose|w: Shape| self.shaped_by(w);
        let ghost i = choose|i: int| 0 <= i < self.order().len() && self.order()[i] == node_id;
        proof {
            self.lemma_order(w);
            self.lemma_position(w, node_id, i);
            self.lemma_node(w, node_id);
        }
        let node = &self.node_arena[node_id];
        if let Some(parent) = node.parent {
            if self.node_arena[parent].left == Some(node_id) {
                self.node_arena[parent].left = None;
            } else {
                self.node_arena[parent].right = None;
            }
        } else {
            self.root = None;
        }
        self.node_arena[node_id].parent = None;
        proof {
            assert(self.node_arena@ =~= spliced(old(self).node_arena@, old(self).root, node_id).0);
            self.lemma_spliced(old(self), w, node_id, i);
            assert forall|j: int| 0 <= j < old(self).order().len() && old(self).order()[j] == node_id implies j == i by {
                old(self).lemma_position(w, node_id, i);
            }
        }
    }

    /// Unlinks node `node_id`, which has exactly one child; the child takes its
    /// place, and the node is left without links.
    pub fn remove_node_has_one_children(&mut self, node_id: usize)
        requires
            old(self).wf(),
            old(self).contains_node(node_id),
            old(self).node(node_id).left is Some != old(self).node(node_id).right is Some,
        ensures
            final(self).wf(),
            (final(self).node_arena@, final(self).root) == spliced(old(self).node_arena@, old(self).root, node_id),
            final(self).value_arena@ == old(self).value_arena@,
            final(self).node(node_id) == SplayTreeNode::dangling_spec(),
            forall|i: int|
                0 <= i < old(self).order().len() && old(self).order()[i] == node_id ==> {
                    &&& final(self).order() == old(self).order().remove(i)
                    &&& final(self)@ == old(self)@.remove(i)
                },
    {
        let ghost w = choose|w: Shape| self.shaped_by(w);
        let ghost i = choose|i: int| 0 <= i < self.order().len() && self.order()[i] == node_id;
        proof {
            self.lemma_order(w);
            self.lemma_position(w, node_id, i);
            self.lemma_node(w, node_id);
        }
        let node = SplayTreeNode::new(
            self.node_arena[node_id].parent,
            self.node_arena[node_id].left,
            self.node_arena[node_id].right,
        );
        let child = match node.left {
            Some(c) => c,
            None => node.right.unwrap(),
        };
        self.node_arena[child].parent = node.parent;
        self.node_arena[node_id].left = None;
        self.node_arena[node_id].right = None;
        self.node_arena[node_id].parent = None;
        if let Some(parent) = node.parent {
            if self.node_arena[parent].left == Some(node_id) {
                self.node_arena[parent].left = Some(child);
            } else {
                self.node_arena[parent].right = Some(child);
            }
        } else {
            self.root = Some(child);
        }
        proof {
            assert(self.node_arena@ =~= spliced(old(self).node_arena@, old(self).root, node_id).0);
            self.lemma_spliced(old(self), w, node_id, i);
            assert forall|j: int| 0 <= j < old(self).order().len() && old(self).order()[j] == node_id implies j == i by {
                old(self).lemma_position(w, node_id, i);
            }
        }
    }

    /// Unlinks node `node_id`, which has two children, by moving its
    /// predecessor (the last node of its left subtree) into its place; the
    /// node is left without links.  Returns the node to splay next: the
    /// predecessor's old parent, or the predecessor itself when it was the
    /// left child and the removed node had a parent, else `None`.
    pub fn remove_node_has_two_children(&mut self, node_id: usize) -> (to_splay: Option<usize>)
        requires
            old(self).wf(),
            old(self).contains_node(node_id),
            old(self).node(node_id).left is Some,
            old(self).node(node_id).right is Some,
        ensures
            final(self).wf(),
            final(self).value_arena@ == old(self).value_arena@,
            final(self).node(node_id) == SplayTreeNode::dangling_spec(),
            forall|i: int|
                0 <= i < old(self).order().len() && old(self).order()[i] == node_id ==> {
                    let q = old(self).order()[i - 1];
                    &&& i > 0
                    &&& (final(self).node_arena@, final(self).root) == lifted(old(self).node_arena@, old(self).root, node_id, q)
                    &&& final(self).order() == old(self).order().remove(i)
                    &&& final(self)@ == old(self)@.remove(i)
                    &&& to_splay == if Some(q) == old(self).node(node_id).left {
                        if old(self).node(node_id).parent is Some {
                            Some(q)
                        } else {
                            None
                        }
                    } else {
                        old(self).node(q).parent
                    }
                },
            to_splay matches Some(z) ==> final(self).contains_node(z),
    {
        let ghost w = choose|w: Shape| self.shaped_by(w);
        let ghost i = choose|i: int| 0 <= i < self.order().len() && self.order()[i] == node_id;
        proof {
            self.lemma_order(w);
            self.lemma_position(w, node_id, i);
            self.lemma_node(w, node_id);
        }
        let node = SplayTreeNode::new(
            self.node_arena[node_id].parent,
            self.node_arena[node_id].left,
            self.node_arena[node_id].right,
        );
        let mut predecessor = node.left.unwrap();
        loop
            invariant
                self.shaped_by(w),
                *self == *old(self),
                w.ix.dom().contains(predecessor),
                (w.hi)(predecessor) == i,
            ensures
                w.ix.dom().contains(predecessor),
                (w.hi)(predecessor) == i,
                self.node(predecessor).right is None,
                predecessor < self.node_arena@.len(),
            decreases (w.hi)(predecessor) - w.ix[predecessor],
        {
            proof {
                self.lemma_node(w, predecessor);
            }
            if let Some(right) = self.node_arena[predecessor].right {
                predecessor = right;
            } else {
                break ;
            }
        }
        let ghost q = predecessor;
        let ghost n0 = self.node_arena@;
        let ghost r0 = self.root;
        proof {
            self.lemma_node(w, q);
            assert(w.ix[q] == i - 1);
        }
        let mut to_splay = None;
        if predecessor == node.left.unwrap() {
            self.node_arena[predecessor].parent = node.parent;
            self.node_arena[predecessor].right = node.right;
            if let Some(parent) = node.parent {
                if self.node_arena[parent].left == Some(node_id) {
                    self.node_arena[parent].left = Some(predecessor);
                } else {
                    self.node_arena[parent].right = Some(predecessor);
                }
                to_splay = Some(predecessor);
            } else {
                self.root = Some(predecessor);
            }
            if let Some(right) = node.right {
                self.node_arena[right].parent = Some(predecessor);
            }
        } else {
            let predecessor_parent = self.node_arena[predecessor].parent.unwrap();
            let predecessor_left = self.node_arena[predecessor].left;
            proof {
                lemma_lift_deep_links(n0, r0, w, node_id, q);
                lemma_fits(n0, r0, w, predecessor_parent);
                if let Some(l) = predecessor_left {
                    lemma_fits(n0, r0, w, l);
                }
            }
            self.node_arena[predecessor_parent].right = predecessor_left;
            if let Some(id) = predecessor_left {
                self.node_arena[id].parent = Some(predecessor_parent);
            }
            self.node_arena[predecessor].parent = node.parent;
            self.node_arena[predecessor].left = node.left;
            self.node_arena[predecessor].right = node.right;
            if let Some(parent) = node.parent {
                if self.node_arena[parent].left == Some(node_id) {
                    self.node_arena[parent].left = Some(predecessor);
                } else {
                    self.node_arena[parent].right = Some(predecessor);
                }
            } else {
                self.root = Some(predecessor);
            }
            if let Some(left) = node.left {
                self.node_arena[left].parent = Some(predecessor);
            }
            if let Some(right) = node.right {
                self.node_arena[right].parent = Some(predecessor);
            }
            to_splay = Some(predecessor_parent);
        }
        self.node_arena[node_id].parent = None;
        self.node_arena[node_id].left = None;
        self.node_arena[node_id].right = None;
        proof {
            reveal(lifted);
            assert(self.node_arena@ =~= lifted(n0, r0, node_id, q).0);
            if Some(q) == link(n0, node_id).left {
                lemma_lift_child(n0, r0, w, node_id, q);
            } else {
                lemma_lift_deep(n0, r0, w, node_id, q);
            }
            let w2 = lifted_shape(w, node_id, q);
            assert(self.shaped_by(w2));
            self.lemma_order(w2);
            old(self).lemma_order(w);
            assert forall|j: int| 0 <= j < w2.ids.len() implies #[trigger] self@[j] == old(self)@.remove(i)[j] by {
                if j < i {
                    old(self).lemma_at(w, j);
                } else {
                    old(self).lemma_at(w, j + 1);
                }
            }
            assert(self@ =~= old(self)@.remove(i));
            assert forall|j: int| 0 <= j < old(self).order().len() && old(self).order()[j] == node_id implies j == i by {
                old(self).lemma_position(w, node_id, i);
            }
            if let Some(z) = to_splay {
                assert(w2.ix.dom().contains(z));
                self.lemma_node(w2, z);
                assert(self.order()[w2.ix[z]] == z);
            }
        }
        to_splay
    }

    /// Unlinks the node of `node_ref`; when it had two children, the node that
    /// `remove_node_has_two_children` names is then splayed to the root.
    pub fn remove(&mut self, node_ref: NodeRef<T>)
        requires
            old(self).wf(),
            old(self).contains_node(node_ref.id),
        ensures
            final(self).wf(),
            forall|i: int|
                0 <= i < old(self).order().len() && old(self).order()[i] == node_ref.id ==> {
                    &&& final(self).order() == old(self).order().remove(i)
                    &&& final(self)@ == old(self)@.remove(i)
                },
    {
        proof {
            let w = choose|w: Shape| self.shaped_by(w);
            let i = choose|i: int| 0 <= i < self.order().len() && self.order()[i] == node_ref.id;
            self.lemma_order(w);
            self.lemma_position(w, node_ref.id, i);
            self.lemma_node(w, node_ref.id);
        }
        let (left, right) = (self.node_arena[node_ref.id].left, self.node_arena[node_ref.id].right);
        match (left.is_some(), right.is_some()) {
            (false, false) => {
                self.remove_node_has_zero_children(node_ref.id);
                if let Some(parent) = self.node_arena[node_ref.id].parent {
                    let ghost w = choose|w: Shape| self.shaped_by(w);
                    self.splay(parent, Ghost(w));
                }
            },
            (false, true) | (true, false) => {
                self.remove_node_has_one_children(node_ref.id);
                if let Some(parent) = self.node_arena[node_ref.id].parent {
                    let ghost w = choose|w: Shape| self.shaped_by(w);
                    self.splay(parent, Ghost(w));
                }
            },
            (true, true) => {
                if let Some(splay_node) = self.remove_node_has_two_children(node_ref.id) {
                    let ghost w = choose|w: Shape| self.shaped_by(w);
                    let ghost before = *self;
                    proof {
                        self.lemma_order(w);
                        let j = choose|j: int| 0 <= j < self.order().len() && self.order()[j] == splay_node;
                        self.lemma_position(w, splay_node, j);
                    }
                    self.splay(splay_node, Ghost(w));
                    proof {
                        let w2 = choose|w2: Shape| self.shaped_by(w2) && w2.ids == w.ids && w2.ix == w.ix;
                        self.lemma_order(w2);
                        before.lemma_order(w);
                        assert(self@ =~= before@);
                    }
                }
            },
        }
    }

    /// A handle on the first node in order, or `None` when the tree is empty.
    pub fn min(&self) -> (r: Option<NodeRef<T>>)
        requires
            self.wf(),
        ensures
            self@.len() == 0 ==> r is None,
            self@.len() > 0 ==> (r matches Some(x) && x.id == self.order()[0] && cloned(self@[0], x.value)),
    {
        let ghost w = choose|w: Shape| self.shaped_by(w);
        proof {
            self.lemma_order(w);
        }
        let mut cur = match self.root {
            Some(r) => r,
            None => return None,
        };
        loop
            invariant
                self.shaped_by(w),
                w.ix.dom().contains(cur),
                (w.lo)(cur) == 0,
            decreases w.ix[cur] - (w.lo)(cur),
        {
            proof {
                self.lemma_node(w, cur);
            }
            if let Some(left) = self.node_arena[cur].left {
                cur = left;
            } else {
                return Some(self.node_ref(cur));
            }
        }
    }

    /// A handle on the last node in order, or `None` when the tree is empty.
    pub fn max(&self) -> (r: Option<NodeRef<T>>)
        requires
            self.wf(),
        ensures
            self@.len() == 0 ==> r is None,
            self@.len() > 0 ==> (r matches Some(x) && x.id == self.order().last() && cloned(self@.last(), x.value)),
    {
        let ghost w = choose|w: Shape| self.shaped_by(w);
        proof {
            self.lemma_order(w);
        }
        let mut cur = match self.root {
            Some(r) => r,
            None => return None,
        };
        loop
            invariant
                self.shaped_by(w),
                w.ix.dom().contains(cur),
                (w.hi)(cur) == w.ids.len(),
            decreases (w.hi)(cur) - w.ix[cur],
        {
            proof {
                self.lemma_node(w, cur);
            }
            if let Some(right) = self.node_arena[cur].right {
                cur = right;
            } else {
                return Some(self.node_ref(cur));
            }
        }
    }

    /// A handle on the node before `node_ref`'s in order, or `None` when it is
    /// the first.
    pub fn prev(&self, node_ref: &NodeRef<T>) -> (r: Option<NodeRef<T>>)
        requires
            self.wf(),
            self.contains_node(node_ref.id),
        ensures
            forall|i: int|
                0 <= i < self.order().len() && self.order()[i] == node_ref.id ==> {
                    &&& i > 0 ==> (r matches Some(x) && x.id == self.order()[i - 1] && cloned(
                        self@[i - 1],
                        x.value,
                    ))
                    &&& i == 0 ==> r is None
                },
    {
        let ghost w = choose|w: Shape| self.shaped_by(w);
        let ghost i = choose|i: int| 0 <= i < self.order().len() && self.order()[i] == node_ref.id;
        proof {
            self.lemma_order(w);
            self.lemma_position(w, node_ref.id, i);
            self.lemma_node(w, node_ref.id);
        }
        if let Some(mut predecessor) = self.node_arena[node_ref.id].left {
            loop
                invariant
                    self.shaped_by(w),
                    0 <= i < w.ids.len(),
                    w.ids[i] == node_ref.id,
                    w.ix.dom().contains(predecessor),
                    (w.hi)(predecessor) == i,
                ensures
                    self.shaped_by(w),
                    w.ix.dom().contains(predecessor),
                    (w.hi)(predecessor) == i,
                    self.node(predecessor).right is None,
                decreases (w.hi)(predecessor) - w.ix[predecessor],
            {
                proof {
                    self.lemma_node(w, predecessor);
                }
                if let Some(right) = self.node_arena[predecessor].right {
                    predecessor = right;
                } else {
                    break ;
                }
            }
            proof {
                self.lemma_node(w, predecessor);
                self.lemma_order(w);
                self.lemma_position(w, node_ref.id, i);
            }
            Some(self.node_ref(predecessor))
        } else {
            let mut child_id = node_ref.id;
            loop
                invariant
                    self.shaped_by(w),
                    0 <= i < w.ids.len(),
                    w.ids[i] == node_ref.id,
                    w.ix.dom().contains(child_id),
                    (w.lo)(child_id) == i,
                decreases w.ids.len() - ((w.hi)(child_id) - (w.lo)(child_id)),
            {
                proof {
                    self.lemma_node(w, child_id);
                }
                match self.node_arena[child_id].parent {
                    Some(parent) => {
                        proof {
                            self.lemma_node(w, parent);
                        }
                        if self.node_arena[parent].right == Some(child_id) {
                            proof {
                                self.lemma_order(w);
                                self.lemma_position(w, node_ref.id, i);
                            }
                            return Some(self.node_ref(parent));
                        }
                        child_id = parent;
                    },
                    None => {
                        proof {
                            self.lemma_order(w);
                            self.lemma_position(w, node_ref.id, i);
                        }
                        return None;
                    },
                }
            }
        }
    }

    /// A handle on the node after `node_ref`'s in order, or `None` when it is
    /// the last.
    pub fn next(&self, node_ref: &NodeRef<T>) -> (r: Option<NodeRef<T>>)
        requires
            self.wf(),
            self.contains_node(node_ref.id),
        ensures
            forall|i: int|
                0 <= i < self.order().len() && self.order()[i] == node_ref.id ==> {
                    &&& i + 1 < self.order().len() ==> (r matches Some(x) && x.id == self.order()[i
                        + 1] && cloned(self@[i + 1], x.value))
                    &&& i + 1 == self.order().len() ==> r is None
                },
    {
        let ghost w = choose|w: Shape| self.shaped_by(w);
        let ghost i = choose|i: int| 0 <= i < self.order().len() && self.order()[i] == node_ref.id;
        proof {
            self.lemma_order(w);
            self.lemma_position(w, node_ref.id, i);
            self.lemma_node(w, node_ref.id);
        }
        if let Some(mut successor) = self.node_arena[node_ref.id].right {
            loop
                invariant
                    self.shaped_by(w),
                    0 <= i < w.ids.len(),
                    w.ids[i] == node_ref.id,
                    w.ix.dom().contains(successor),
                    (w.lo)(successor) == i + 1,
                ensures
                    self.shaped_by(w),
                    w.ix.dom().contains(successor),
                    (w.lo)(successor) == i + 1,
                    self.node(successor).left is None,
                decreases w.ix[successor] - (w.lo)(successor),
            {
                proof {
                    self.lemma_node(w, successor);
                }
                if let Some(left) = self.node_arena[successor].left {
                    successor = left;
                } else {
                    break ;
                }
            }
            proof {
                self.lemma_node(w, successor);
                self.lemma_order(w);
                self.lemma_position(w, node_ref.id, i);
            }
            Some(self.node_ref(successor))
        } else {
            let mut child_id = node_ref.id;
            loop
                invariant
                    self.shaped_by(w),
                    0 <= i < w.ids.len(),
                    w.ids[i] == node_ref.id,
                    w.ix.dom().contains(child_id),
                    (w.hi)(child_id) == i + 1,
                decreases w.ids.len() - ((w.hi)(child_id) - (w.lo)(child_id)),
            {
                proof {
                    self.lemma_node(w, child_id);
                }
                match self.node_arena[child_id].parent {
                    Some(parent) => {
                        proof {
                            self.lemma_node(w, parent);
                        }
                        if self.node_arena[parent].left == Some(child_id) {
                            proof {
                                self.lemma_order(w);
                                self.lemma_position(w, node_ref.id, i);
                            }
                            return Some(self.node_ref(parent));
                        }
                        child_id = parent;
                    },
                    None => {
                        proof {
                            self.lemma_order(w);
                            self.lemma_position(w, node_ref.id, i);
                        }
                        return None;
                    },
                }
            }
        }
    }
}

} // verus!

verus! {

impl<T> SplayTree<T> {
    /// Removing the node that an insert handed out gives the tree's contents
    /// back as they were before the insert, with the same nodes in order.
    pub proof fn law_remove_undoes_insert(
        before: Self,
        inserted: Self,
        removed: Self,
        r: NodeRef<T>,
        k: int,
        value: T,
    )
        requires
            0 <= k <= before@.len(),
            inserted@ == before@.insert(k, value),
            inserted.order() == before.order().insert(k, r.id),
            forall|i: int|
                0 <= i < inserted.order().len() && inserted.order()[i] == r.id ==> {
                    &&& removed.order() == inserted.order().remove(i)
                    &&& removed@ == inserted@.remove(i)
                },
        ensures
            removed@ == before@,
            removed.order() == before.order(),
    {
        assert(before@.len() == before.order().len());
        assert(inserted.order()[k] == r.id);
        assert(before.order().insert(k, r.id).remove(k) =~= before.order());
        assert(before@.insert(k, value).remove(k) =~= before@);
    }
}

} // verus!
