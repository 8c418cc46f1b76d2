//! Document order is pre-order: a walk from a position, which visits each
//! node before its children and each child's whole subtree before the next
//! child, meets the nodes in the order of their indices.

use vstd::prelude::*;
use crate::document::{
    has_ancestor, lemma_ancestor_before, lemma_ancestor_transitive, lemma_subtree_contiguous,
    well_formed, NodeModel, Position,
};
use crate::matcher::{
    below, descendants_or_self, descendants_upto, parent_position, valid_position,
};
use crate::selection::{all_positions, lemma_below_root, lemma_descendants};

verus! {

/// What decreases as a walk goes down from a position.
pub open spec fn depth_left(nodes: Seq<NodeModel>, pos: Position) -> int {
    match pos {
        Position::Root => nodes.len() as int + 1,
        Position::Node(p) => nodes.len() as int - p as int,
    }
}

/// The pre-order walk of the subtree of the node `j`: the node itself, then
/// the walks of its children, one after the other.
pub open spec fn walk(nodes: Seq<NodeModel>, j: int) -> Seq<Position>
    decreases nodes.len() - j, nodes.len() + 1,
{
    if 0 <= j < nodes.len() <= usize::MAX {
        seq![Position::Node(j as usize)] + walk_children(nodes, Position::Node(j as usize), j + 1)
    } else {
        Seq::empty()
    }
}

/// The pre-order walks of the children of the position that have the index
/// `c` or a later one, one after the other.
pub open spec fn walk_children(nodes: Seq<NodeModel>, pos: Position, c: int) -> Seq<Position>
    decreases depth_left(nodes, pos), nodes.len() - c,
{
    if 0 <= c < nodes.len() && (pos matches Position::Node(p) ==> p < c) {
        if parent_position(nodes, c) == pos {
            walk(nodes, c) + walk_children(nodes, pos, c + 1)
        } else {
            walk_children(nodes, pos, c + 1)
        }
    } else {
        Seq::empty()
    }
}

/// The pre-order walk from a position: the position itself, then the walks
/// of its children.
pub open spec fn preorder(nodes: Seq<NodeModel>, pos: Position) -> Seq<Position> {
    match pos {
        Position::Root => seq![pos] + walk_children(nodes, pos, 0),
        Position::Node(j) => walk(nodes, j as int),
    }
}

/// Whether the node `k` is the node `d` or stands below it.
pub open spec fn at_or_below(nodes: Seq<NodeModel>, k: int, d: int) -> bool {
    k == d || has_ancestor(nodes, k, d)
}

/// Whether the node `k` is, or stands below, a child of the position with
/// the index `c` or a later one.
pub open spec fn under_child_from(nodes: Seq<NodeModel>, pos: Position, c: int, k: int) -> bool {
    exists|d: int|
        c <= d <= k && d < nodes.len() && parent_position(nodes, d) == pos && #[trigger] at_or_below(
            nodes,
            k,
            d,
        )
}

/// Whether the sequence holds nodes only, in the order of their indices.
pub open spec fn ascending(s: Seq<Position>) -> bool {
    &&& forall|i: int| 0 <= i < s.len() ==> #[trigger] s[i] is Node
    &&& forall|i: int, j: int| 0 <= i < j < s.len() ==> s[i]->0 < s[j]->0
}

/// A child of a position does not stand below another child of it.
proof fn lemma_children_apart(nodes: Seq<NodeModel>, pos: Position, c: int, d: int)
    requires
        well_formed(nodes),
        0 <= c < nodes.len(),
        0 <= d < nodes.len(),
        parent_position(nodes, c) == pos,
        parent_position(nodes, d) == pos,
    ensures
        !has_ancestor(nodes, d, c),
{
    if has_ancestor(nodes, d, c) {
        lemma_ancestor_before(nodes, d, c);
        match nodes[d].parent {
            Some(p) => {
                assert(nodes[c].parent == Some(p));
                if p as int != c {
                    lemma_ancestor_before(nodes, p as int, c);
                }
            },
            None => {},
        }
    }
}

/// What the walks hold, and in which order.
proof fn lemma_walk(nodes: Seq<NodeModel>, j: int)
    requires
        well_formed(nodes),
        0 <= j < nodes.len() <= usize::MAX,
    ensures
        ascending(walk(nodes, j)),
        holds_subtree(nodes, walk(nodes, j), j),
    decreases nodes.len() - j, nodes.len() + 1,
{
    let here = Position::Node(j as usize);
    let rest = walk_children(nodes, here, j + 1);
    let all = walk(nodes, j);
    lemma_walk_children(nodes, here, j + 1);
    assert(all == seq![here] + rest);
    assert forall|i: int| 0 <= i < all.len() implies #[trigger] all[i] is Node by {
        if i > 0 {
            assert(all[i] == rest[i - 1]);
        }
    }
    assert forall|a: int, b: int| 0 <= a < b < all.len() implies all[a]->0 < all[b]->0 by {
        assert(all[b] == rest[b - 1]);
        assert(rest.contains(rest[b - 1]));
        let k = rest[b - 1]->0;
        assert(rest.contains(Position::Node(k)));
        assert(under_child_from(nodes, here, j + 1, k as int));
        if a > 0 {
            assert(all[a] == rest[a - 1]);
        }
    }
    assert forall|k: usize| #[trigger]
        all.contains(Position::Node(k)) <==> k < nodes.len() && at_or_below(
            nodes,
            k as int,
            j,
        ) by {
        let x = Position::Node(k);
        if all.contains(x) {
            let i = choose|i: int| 0 <= i < all.len() && all[i] == x;
            if i > 0 {
                assert(rest[i - 1] == x);
                assert(rest.contains(x));
                let d = choose|d: int|
                    j + 1 <= d <= k && d < nodes.len() && parent_position(nodes, d) == here
                        && #[trigger] at_or_below(nodes, k as int, d);
                assert(has_ancestor(nodes, d, j));
                if d != k {
                    lemma_ancestor_transitive(nodes, k as int, d, j);
                }
            }
        }
        if k < nodes.len() && at_or_below(nodes, k as int, j) {
            if k == j {
                assert(all[0] == x);
            } else {
                lemma_top_child(nodes, here, k as int);
                let d = choose|d: int|
                    0 <= d <= k && parent_position(nodes, d) == here && #[trigger] at_or_below(
                        nodes,
                        k as int,
                        d,
                    );
                assert(nodes[d].parent == Some(j as usize));
                assert(under_child_from(nodes, here, j + 1, k as int));
                assert(rest.contains(x));
                let i = choose|i: int| 0 <= i < rest.len() && rest[i] == x;
                assert(all[i + 1] == x);
            }
        }
    }
}

/// Whether the sequence holds exactly the node `c` and the nodes below it.
spec fn holds_subtree(nodes: Seq<NodeModel>, s: Seq<Position>, c: int) -> bool {
    forall|k: usize|
        #[trigger] s.contains(Position::Node(k)) <==> k < nodes.len() && at_or_below(
            nodes,
            k as int,
            c,
        )
}

/// Whether the sequence holds exactly the nodes that are, or stand below,
/// the children of the position from the index `c` on.
spec fn holds_children(nodes: Seq<NodeModel>, s: Seq<Position>, pos: Position, c: int) -> bool {
    forall|k: usize|
        #[trigger] s.contains(Position::Node(k)) <==> k < nodes.len() && under_child_from(
            nodes,
            pos,
            c,
            k as int,
        )
}

/// The subtree of a child stands before the subtrees of the later
/// children.
proof fn lemma_subtree_before_later(
    nodes: Seq<NodeModel>,
    pos: Position,
    c: int,
    k: int,
    m: int,
)
    requires
        well_formed(nodes),
        0 <= c < nodes.len(),
        parent_position(nodes, c) == pos,
        0 <= k < nodes.len(),
        at_or_below(nodes, k, c),
        0 <= m < nodes.len(),
        under_child_from(nodes, pos, c + 1, m),
    ensures
        k < m,
{
    let d = choose|d: int|
        c + 1 <= d <= m && d < nodes.len() && parent_position(nodes, d) == pos
            && #[trigger] at_or_below(nodes, m, d);
    lemma_children_apart(nodes, pos, c, d);
    if d < k {
        lemma_subtree_contiguous(nodes, c, d, k);
    }
}

/// The walk of a child and the walks of the later children, one behind the
/// other, are in the order of the indices.
proof fn lemma_join_ascending(
    nodes: Seq<NodeModel>,
    pos: Position,
    c: int,
    first: Seq<Position>,
    later: Seq<Position>,
)
    requires
        well_formed(nodes),
        0 <= c < nodes.len(),
        parent_position(nodes, c) == pos,
        ascending(first),
        ascending(later),
        holds_subtree(nodes, first, c),
        holds_children(nodes, later, pos, c + 1),
    ensures
        ascending(first + later),
{
    let all = first + later;
    assert forall|i: int| 0 <= i < all.len() implies #[trigger] all[i] is Node by {
        if i < first.len() {
            assert(all[i] == first[i]);
        } else {
            assert(all[i] == later[i - first.len()]);
        }
    }
    assert forall|a: int, b: int| 0 <= a < b < all.len() implies all[a]->0 < all[b]->0 by {
        if b < first.len() {
            assert(all[a] == first[a] && all[b] == first[b]);
        } else if a >= first.len() {
            assert(all[a] == later[a - first.len()] && all[b] == later[b - first.len()]);
        } else {
            assert(all[a] == first[a]);
            assert(all[b] == later[b - first.len()]);
            let k = first[a]->0;
            let m = later[b - first.len()]->0;
            assert(first[a] is Node);
            assert(later[b - first.len()] is Node);
            assert(first.contains(Position::Node(k)));
            assert(later.contains(Position::Node(m)));
            lemma_subtree_before_later(nodes, pos, c, k as int, m as int);
        }
    }
}

/// The walk of a child and the walks of the later children hold what
/// stands at or below the children from that child on.
proof fn lemma_join_holds(
    nodes: Seq<NodeModel>,
    pos: Position,
    c: int,
    first: Seq<Position>,
    later: Seq<Position>,
)
    requires
        well_formed(nodes),
        0 <= c < nodes.len(),
        parent_position(nodes, c) == pos,
        holds_subtree(nodes, first, c),
        holds_children(nodes, later, pos, c + 1),
    ensures
        holds_children(nodes, first + later, pos, c),
{
    let all = first + later;
    assert forall|k: usize| #[trigger]
        all.contains(Position::Node(k)) <==> k < nodes.len() && under_child_from(
            nodes,
            pos,
            c,
            k as int,
        ) by {
        let x = Position::Node(k);
        if all.contains(x) {
            let i = choose|i: int| 0 <= i < all.len() && all[i] == x;
            if i < first.len() {
                assert(first[i] == x);
                assert(first.contains(x));
                if k != c {
                    lemma_ancestor_before(nodes, k as int, c);
                }
                assert(at_or_below(nodes, k as int, c));
            } else {
                assert(later[i - first.len()] == x);
                assert(later.contains(x));
                let d = choose|d: int|
                    c + 1 <= d <= k && d < nodes.len() && parent_position(nodes, d) == pos
                        && #[trigger] at_or_below(nodes, k as int, d);
                assert(at_or_below(nodes, k as int, d));
            }
        }
        if k < nodes.len() && under_child_from(nodes, pos, c, k as int) {
            let d = choose|d: int|
                c <= d <= k && d < nodes.len() && parent_position(nodes, d) == pos
                    && #[trigger] at_or_below(nodes, k as int, d);
            if d == c {
                assert(first.contains(x));
                let i = choose|i: int| 0 <= i < first.len() && first[i] == x;
                assert(all[i] == x);
            } else {
                assert(at_or_below(nodes, k as int, d));
                assert(under_child_from(nodes, pos, c + 1, k as int));
                assert(later.contains(x));
                let i = choose|i: int| 0 <= i < later.len() && later[i] == x;
                assert(all[i + first.len()] == x);
            }
        }
    }
}

/// Where the node `c` is no child of the position, the children from `c` on
/// are the children behind `c`.
proof fn lemma_skip_holds(nodes: Seq<NodeModel>, pos: Position, c: int, later: Seq<Position>)
    requires
        0 <= c < nodes.len(),
        parent_position(nodes, c) != pos,
        holds_children(nodes, later, pos, c + 1),
    ensures
        holds_children(nodes, later, pos, c),
{
    assert forall|k: usize| #[trigger]
        later.contains(Position::Node(k)) <==> k < nodes.len() && under_child_from(
            nodes,
            pos,
            c,
            k as int,
        ) by {
        if k < nodes.len() && under_child_from(nodes, pos, c, k as int) {
            let d = choose|d: int|
                c <= d <= k && d < nodes.len() && parent_position(nodes, d) == pos
                    && #[trigger] at_or_below(nodes, k as int, d);
            assert(at_or_below(nodes, k as int, d));
            assert(under_child_from(nodes, pos, c + 1, k as int));
        }
        if later.contains(Position::Node(k)) {
            let d = choose|d: int|
                c + 1 <= d <= k && d < nodes.len() && parent_position(nodes, d) == pos
                    && #[trigger] at_or_below(nodes, k as int, d);
            assert(at_or_below(nodes, k as int, d));
        }
    }
}

/// What the walks of the children hold, and in which order.
proof fn lemma_walk_children(nodes: Seq<NodeModel>, pos: Position, c: int)
    requires
        well_formed(nodes),
        nodes.len() <= usize::MAX,
        valid_position(nodes, pos),
        0 <= c,
        pos matches Position::Node(p) ==> p < c,
    ensures
        ascending(walk_children(nodes, pos, c)),
        holds_children(nodes, walk_children(nodes, pos, c), pos, c),
    decreases depth_left(nodes, pos), nodes.len() - c,
{
    if c < nodes.len() {
        let later = walk_children(nodes, pos, c + 1);
        lemma_walk_children(nodes, pos, c + 1);
        if parent_position(nodes, c) == pos {
            let first = walk(nodes, c);
            lemma_walk(nodes, c);
            lemma_join_ascending(nodes, pos, c, first, later);
            lemma_join_holds(nodes, pos, c, first, later);
        } else {
            lemma_skip_holds(nodes, pos, c, later);
        }
    }
}

/// A node below a position is a child of it or stands below one.
proof fn lemma_top_child(nodes: Seq<NodeModel>, pos: Position, k: int)
    requires
        well_formed(nodes),
        0 <= k < nodes.len(),
        below(nodes, k, pos),
    ensures
        exists|d: int|
            0 <= d <= k && parent_position(nodes, d) == pos && #[trigger] at_or_below(nodes, k, d),
    decreases k,
{
    if parent_position(nodes, k) == pos {
        assert(at_or_below(nodes, k, k));
    } else {
        let q = nodes[k].parent->0 as int;
        assert(nodes[k].parent is Some);
        assert(below(nodes, q, pos));
        lemma_top_child(nodes, pos, q);
        let d = choose|d: int|
            0 <= d <= q && parent_position(nodes, d) == pos && #[trigger] at_or_below(nodes, q, d);
        if d != q {
            assert(has_ancestor(nodes, k, d));
        }
        assert(at_or_below(nodes, k, d));
    }
}

/// Two sequences of nodes in the order of their indices that hold the same
/// nodes are the same.
proof fn lemma_ascending_equal(a: Seq<Position>, b: Seq<Position>)
    requires
        ascending(a),
        ascending(b),
        forall|x: Position| a.contains(x) <==> b.contains(x),
    ensures
        a == b,
    decreases a.len(),
{
    if a.len() == 0 {
        if b.len() > 0 {
            assert(b.contains(b[0]));
        }
        assert(a =~= b);
    } else {
        let x = a.last();
        assert(a.contains(x));
        if b.len() == 0 {
            assert(false);
        }
        let y = b.last();
        assert(b.contains(y));
        let i = choose|i: int| 0 <= i < b.len() && b[i] == x;
        let j = choose|j: int| 0 <= j < a.len() && a[j] == y;
        assert(x == y);
        let a1 = a.drop_last();
        let b1 = b.drop_last();
        assert forall|z: Position| a1.contains(z) <==> b1.contains(z) by {
            if a1.contains(z) {
                let n = choose|n: int| 0 <= n < a1.len() && a1[n] == z;
                assert(a[n] == z);
                assert(a.contains(z));
                let m = choose|m: int| 0 <= m < b.len() && b[m] == z;
                assert(b1[m] == z);
            }
            if b1.contains(z) {
                let n = choose|n: int| 0 <= n < b1.len() && b1[n] == z;
                assert(b[n] == z);
                assert(b.contains(z));
                let m = choose|m: int| 0 <= m < a.len() && a[m] == z;
                assert(a1[m] == z);
            }
        }
        lemma_ascending_equal(a1, b1);
        assert(a =~= a1.push(x));
        assert(b =~= b1.push(y));
    }
}

/// In a document, a position and everything below it, in the order of the
/// indices, is the pre-order walk from that position: each node before its
/// children, and the whole subtree of each child before the next child.
pub proof fn lemma_document_order_is_preorder(nodes: Seq<NodeModel>, pos: Position)
    requires
        well_formed(nodes),
        nodes.len() <= usize::MAX,
        valid_position(nodes, pos),
    ensures
        descendants_or_self(nodes, pos) == preorder(nodes, pos),
{
    let n = nodes.len() as int;
    let listed = descendants_upto(nodes, pos, n);
    let start = match pos {
        Position::Root => 0,
        Position::Node(p) => p + 1,
    };
    let walked = walk_children(nodes, pos, start);
    lemma_descendants(nodes, pos, n);
    lemma_walk_children(nodes, pos, start);
    assert forall|x: Position| listed.contains(x) <==> walked.contains(x) by {
        if listed.contains(x) {
            let i = choose|i: int| 0 <= i < listed.len() && listed[i] == x;
            let k = x->0;
            assert(listed[i] is Node);
            assert(x == Position::Node(k));
            lemma_top_child(nodes, pos, k as int);
            let d = choose|d: int|
                0 <= d <= k && parent_position(nodes, d) == pos && #[trigger] at_or_below(
                    nodes,
                    k as int,
                    d,
                );
            assert(under_child_from(nodes, pos, start, k as int));
        }
        if walked.contains(x) {
            let i = choose|i: int| 0 <= i < walked.len() && walked[i] == x;
            assert(walked[i] is Node);
            let k = x->0;
            assert(x == Position::Node(k));
            let d = choose|d: int|
                start <= d <= k && d < nodes.len() && parent_position(nodes, d) == pos
                    && #[trigger] at_or_below(nodes, k as int, d);
            if let Position::Node(p) = pos {
                assert(has_ancestor(nodes, d, p as int));
                if d != k {
                    lemma_ancestor_transitive(nodes, k as int, d, p as int);
                }
            }
        }
    }
    assert(ascending(listed));
    lemma_ascending_equal(listed, walked);
}

/// All positions of a document, the root and then the nodes in the order of
/// their indices, are the pre-order walk from the root.
pub proof fn lemma_all_positions_are_preorder(nodes: Seq<NodeModel>)
    requires
        well_formed(nodes),
        nodes.len() <= usize::MAX,
    ensures
        all_positions(nodes) == preorder(nodes, Position::Root),
{
    lemma_below_root(nodes, nodes.len() as int);
    lemma_document_order_is_preorder(nodes, Position::Root);
}

} // verus!
