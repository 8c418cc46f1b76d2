//! What holds of every run of a step or a path on a document.

use vstd::prelude::*;
use crate::document::{NodeModel, Position};
use crate::grammar::leading_step;
use crate::matcher::{
    apply, below, candidates, children, children_upto, descendants_or_self, descendants_upto,
    distinct, keeps, kept_at, kept_from, kept_upto, nodes_upto, parent_position, run_from,
    selected, valid_context, valid_position,
};
use crate::path::{Axis, SelectorModel, StepModel};

verus! {

/// Dropping repeats keeps every position that occurs, and adds none.
pub proof fn lemma_distinct_contains(s: Seq<Position>, x: Position)
    ensures
        distinct(s).contains(x) <==> s.contains(x),
    decreases s.len(),
{
    if s.len() > 0 {
        let front = s.drop_last();
        lemma_distinct_contains(front, x);
        lemma_distinct_contains(front, s.last());
        let d = distinct(front);
        if s.contains(x) {
            let i = choose|i: int| 0 <= i < s.len() && s[i] == x;
            if i < front.len() {
                assert(front[i] == x);
            } else {
                if !d.contains(s.last()) {
                    assert(d.push(s.last())[d.len() as int] == x);
                }
            }
        }
        if distinct(s).contains(x) {
            let i = choose|i: int| 0 <= i < distinct(s).len() && distinct(s)[i] == x;
            if i < d.len() {
                assert(d[i] == x);
                let j = choose|j: int| 0 <= j < front.len() && front[j] == x;
                assert(s[j] == x);
            } else {
                assert(s[s.len() - 1] == x);
            }
        }
        if d.contains(x) && !d.contains(s.last()) {
            let i = choose|i: int| 0 <= i < d.len() && d[i] == x;
            assert(d.push(s.last())[i] == x);
        }
    }
}

/// Dropping repeats leaves no position twice.
pub proof fn lemma_distinct_no_duplicates(s: Seq<Position>)
    ensures
        distinct(s).no_duplicates(),
    decreases s.len(),
{
    if s.len() > 0 {
        lemma_distinct_no_duplicates(s.drop_last());
    }
}

/// Dropping repeats changes nothing where there are none.
pub proof fn lemma_distinct_unchanged(s: Seq<Position>)
    requires
        s.no_duplicates(),
    ensures
        distinct(s) == s,
    decreases s.len(),
{
    if s.len() > 0 {
        let front = s.drop_last();
        lemma_distinct_unchanged(front);
        if front.contains(s.last()) {
            let i = choose|i: int| 0 <= i < front.len() && front[i] == s.last();
            assert(s[i] == s[s.len() - 1]);
        }
        assert(front.push(s.last()) =~= s);
    }
}

/// Dropping repeats keeps the order of first occurrences: what the first
/// `n` positions leave stands first in what all of them leave.
pub proof fn lemma_distinct_prefix(s: Seq<Position>, n: int)
    requires
        0 <= n <= s.len(),
    ensures
        distinct(s.take(n)).is_prefix_of(distinct(s)),
    decreases s.len() - n,
{
    if n < s.len() {
        lemma_distinct_prefix(s, n + 1);
        assert(s.take(n + 1).drop_last() =~= s.take(n));
    } else {
        assert(s.take(n) =~= s);
    }
}

/// A sequence with one more position at its end holds that position and
/// what it held before.
proof fn lemma_push_contains(s: Seq<Position>, y: Position, x: Position)
    ensures
        s.push(y).contains(x) <==> s.contains(x) || x == y,
{
    let t = s.push(y);
    assert(t[s.len() as int] == y);
    if s.contains(x) {
        let i = choose|i: int| 0 <= i < s.len() && s[i] == x;
        assert(t[i] == x);
    }
    if t.contains(x) {
        let i = choose|i: int| 0 <= i < t.len() && t[i] == x;
        if i < s.len() {
            assert(s[i] == x);
        }
    }
}

/// The children of a position are the nodes whose parent it is, each once,
/// in the order of their indices.
pub proof fn lemma_children(nodes: Seq<NodeModel>, pos: Position, n: int)
    requires
        0 <= n <= nodes.len() <= usize::MAX,
    ensures
        forall|j: usize|
            j < n ==> (parent_position(nodes, j as int) == pos <==> #[trigger] children_upto(
                nodes,
                pos,
                n,
            ).contains(Position::Node(j))),
        forall|k: int|
            0 <= k < children_upto(nodes, pos, n).len() ==> (#[trigger] children_upto(
                nodes,
                pos,
                n,
            )[k] matches Position::Node(j) && j < n && parent_position(nodes, j as int) == pos),
        forall|a: int, b: int|
            0 <= a < b < children_upto(nodes, pos, n).len() ==> children_upto(
                nodes,
                pos,
                n,
            )[a]->0 < children_upto(nodes, pos, n)[b]->0,
        children_upto(nodes, pos, n).no_duplicates(),
    decreases n,
{
    if n > 0 {
        lemma_children(nodes, pos, n - 1);
        let before = children_upto(nodes, pos, n - 1);
        let all = children_upto(nodes, pos, n);
        let last = Position::Node((n - 1) as usize);
        if parent_position(nodes, n - 1) == pos {
            assert(all == before.push(last));
            assert forall|j: usize| j < n implies (parent_position(nodes, j as int) == pos
                <==> #[trigger] all.contains(Position::Node(j))) by {
                lemma_push_contains(before, last, Position::Node(j));
            }
        } else {
            assert forall|j: usize| j < n implies (parent_position(nodes, j as int) == pos
                <==> #[trigger] all.contains(Position::Node(j))) by {
                if j == n - 1 && all.contains(Position::Node(j)) {
                    let i = choose|i: int| 0 <= i < all.len() && all[i] == Position::Node(j);
                    assert(all[i]->0 < n - 1);
                }
            }
        }
    }
}

/// The nodes below a position are listed each once, in the order of their
/// indices, which is document order.
pub proof fn lemma_descendants(nodes: Seq<NodeModel>, pos: Position, n: int)
    requires
        0 <= n <= nodes.len() <= usize::MAX,
    ensures
        forall|j: usize|
            j < n ==> (below(nodes, j as int, pos) <==> #[trigger] descendants_upto(
                nodes,
                pos,
                n,
            ).contains(Position::Node(j))),
        forall|k: int|
            0 <= k < descendants_upto(nodes, pos, n).len() ==> (#[trigger] descendants_upto(
                nodes,
                pos,
                n,
            )[k] matches Position::Node(j) && j < n && below(nodes, j as int, pos)),
        forall|a: int, b: int|
            0 <= a < b < descendants_upto(nodes, pos, n).len() ==> descendants_upto(
                nodes,
                pos,
                n,
            )[a]->0 < descendants_upto(nodes, pos, n)[b]->0,
    decreases n,
{
    if n > 0 {
        lemma_descendants(nodes, pos, n - 1);
        let before = descendants_upto(nodes, pos, n - 1);
        let all = descendants_upto(nodes, pos, n);
        let last = Position::Node((n - 1) as usize);
        if below(nodes, n - 1, pos) {
            assert(all == before.push(last));
            assert forall|j: usize| j < n implies (below(nodes, j as int, pos)
                <==> #[trigger] all.contains(Position::Node(j))) by {
                lemma_push_contains(before, last, Position::Node(j));
            }
        } else {
            assert forall|j: usize| j < n implies (below(nodes, j as int, pos)
                <==> #[trigger] all.contains(Position::Node(j))) by {
                if j == n - 1 && all.contains(Position::Node(j)) {
                    let i = choose|i: int| 0 <= i < all.len() && all[i] == Position::Node(j);
                    assert(all[i]->0 < n - 1);
                }
            }
        }
    }
}

/// A step that keeps every candidate keeps them as they are.
proof fn lemma_kept_all(nodes: Seq<NodeModel>, step: StepModel, cands: Seq<Position>, n: int)
    requires
        0 <= n <= cands.len(),
        forall|k: int| 0 <= k < cands.len() ==> keeps(nodes, step, #[trigger] cands[k]),
    ensures
        kept_upto(nodes, step, cands, n) == cands.take(n),
    decreases n,
{
    if n > 0 {
        lemma_kept_all(nodes, step, cands, n - 1);
        assert(cands.take(n - 1).push(cands[n - 1]) =~= cands.take(n));
    } else {
        assert(cands.take(0) =~= Seq::<Position>::empty());
    }
}

/// From a single position, a step along the child axis that selects any
/// node and has no predicate gives the children of that position: as many
/// positions as the position has children.
pub proof fn lemma_child_step(nodes: Seq<NodeModel>, step: StepModel, pos: Position)
    requires
        nodes.len() <= usize::MAX,
        step.axis is Child || step.axis is ImplicitChild,
        step.selector is Any,
        step.predicate is None,
    ensures
        apply(nodes, step, seq![pos]) == children(nodes, pos),
        apply(nodes, step, seq![pos]).len() == children(nodes, pos).len(),
{
    let context = seq![pos];
    let cands = candidates(nodes, step, pos);
    assert(cands == children(nodes, pos));
    lemma_kept_all(nodes, step, cands, cands.len() as int);
    assert(cands.take(cands.len() as int) =~= cands);
    assert(kept_from(nodes, step, context, 0) =~= Seq::<Position>::empty());
    assert(kept_from(nodes, step, context, 1) =~= cands);
    lemma_children(nodes, pos, nodes.len() as int);
    lemma_distinct_unchanged(cands);
}

/// What a step keeps of some candidates, it keeps.
proof fn lemma_kept_upto_keeps(
    nodes: Seq<NodeModel>,
    step: StepModel,
    cands: Seq<Position>,
    n: int,
    x: Position,
)
    requires
        0 <= n <= cands.len(),
        kept_upto(nodes, step, cands, n).contains(x),
    ensures
        keeps(nodes, step, x),
        cands.contains(x),
    decreases n,
{
    if n > 0 {
        let before = kept_upto(nodes, step, cands, n - 1);
        let all = kept_upto(nodes, step, cands, n);
        let i = choose|i: int| 0 <= i < all.len() && all[i] == x;
        if i < before.len() {
            assert(before[i] == x);
            lemma_kept_upto_keeps(nodes, step, cands, n - 1, x);
        }
    }
}

/// Every position in the context behind a step is a candidate of the step
/// at some position of the context before it, and one that the step keeps.
pub proof fn lemma_apply_keeps(
    nodes: Seq<NodeModel>,
    step: StepModel,
    context: Seq<Position>,
    x: Position,
)
    requires
        apply(nodes, step, context).contains(x),
    ensures
        keeps(nodes, step, x),
        exists|k: int|
            0 <= k < context.len() && candidates(nodes, step, #[trigger] context[k]).contains(x),
{
    let raw = kept_from(nodes, step, context, context.len() as int);
    lemma_distinct_contains(raw, x);
    lemma_kept_from_keeps(nodes, step, context, context.len() as int, x);
}

/// What a step keeps from a context, it keeps of the candidates at one of
/// the context's positions.
proof fn lemma_kept_from_keeps(
    nodes: Seq<NodeModel>,
    step: StepModel,
    context: Seq<Position>,
    n: int,
    x: Position,
)
    requires
        0 <= n <= context.len(),
        kept_from(nodes, step, context, n).contains(x),
    ensures
        keeps(nodes, step, x),
        exists|k: int|
            0 <= k < context.len() && candidates(nodes, step, #[trigger] context[k]).contains(x),
    decreases n,
{
    if n > 0 {
        let before = kept_from(nodes, step, context, n - 1);
        let here = kept_at(nodes, step, context[n - 1]);
        let i = choose|i: int| 0 <= i < (before + here).len() && (before + here)[i] == x;
        if i < before.len() {
            assert(before[i] == x);
            lemma_kept_from_keeps(nodes, step, context, n - 1, x);
        } else {
            assert(here[i - before.len()] == x);
            let cands = candidates(nodes, step, context[n - 1]);
            lemma_kept_upto_keeps(nodes, step, cands, cands.len() as int, x);
        }
    }
}

/// A step that selects by name gives nodes of that name only: never the
/// document root, and never a node of another name.
pub proof fn lemma_named_step(
    nodes: Seq<NodeModel>,
    step: StepModel,
    context: Seq<Position>,
    name: Seq<char>,
    k: int,
)
    requires
        step.selector == SelectorModel::Named(name),
        0 <= k < apply(nodes, step, context).len(),
    ensures
        apply(nodes, step, context)[k] matches Position::Node(j) && nodes[j as int].name == name,
{
    let x = apply(nodes, step, context)[k];
    lemma_apply_keeps(nodes, step, context, x);
}

/// The context behind a step holds no position twice.
pub proof fn lemma_apply_no_duplicates(
    nodes: Seq<NodeModel>,
    step: StepModel,
    context: Seq<Position>,
)
    ensures
        apply(nodes, step, context).no_duplicates(),
{
    lemma_distinct_no_duplicates(kept_from(nodes, step, context, context.len() as int));
}

/// What a step keeps from the first positions of a context does not depend
/// on the positions behind them.
proof fn lemma_kept_from_take(
    nodes: Seq<NodeModel>,
    step: StepModel,
    context: Seq<Position>,
    n: int,
    m: int,
)
    requires
        0 <= m <= n <= context.len(),
    ensures
        kept_from(nodes, step, context.take(n), m) == kept_from(nodes, step, context, m),
        kept_from(nodes, step, context, m).is_prefix_of(kept_from(nodes, step, context, n)),
    decreases n, m,
{
    if m > 0 {
        lemma_kept_from_take(nodes, step, context, n, m - 1);
        assert(context.take(n)[m - 1] == context[m - 1]);
    }
    if m < n {
        lemma_kept_from_take(nodes, step, context, n - 1, m);
    }
}

/// The positions come in the order in which the run meets them: what a step
/// gives for the first positions of a context stands first in what it gives
/// for the whole context, in the same order.
pub proof fn lemma_apply_prefix(
    nodes: Seq<NodeModel>,
    step: StepModel,
    context: Seq<Position>,
    n: int,
)
    requires
        0 <= n <= context.len(),
    ensures
        apply(nodes, step, context.take(n)).is_prefix_of(apply(nodes, step, context)),
{
    let part = kept_from(nodes, step, context, n);
    let whole = kept_from(nodes, step, context, context.len() as int);
    lemma_kept_from_take(nodes, step, context, n, n);
    lemma_kept_from_take(nodes, step, context, context.len() as int, n);
    assert(whole.take(part.len() as int) =~= part);
    lemma_distinct_prefix(whole, part.len() as int);
}

/// The nodes of a context without repeats are without repeats.
proof fn lemma_nodes_no_duplicates(context: Seq<Position>, n: int)
    requires
        context.no_duplicates(),
        0 <= n <= context.len(),
    ensures
        nodes_upto(context, n).no_duplicates(),
        forall|k: int|
            0 <= k < nodes_upto(context, n).len() ==> exists|i: int|
                0 <= i < n && context[i] == Position::Node(#[trigger] nodes_upto(context, n)[k]),
    decreases n,
{
    if n > 0 {
        lemma_nodes_no_duplicates(context, n - 1);
        let before = nodes_upto(context, n - 1);
        let all = nodes_upto(context, n);
        match context[n - 1] {
            Position::Node(j) => {
                assert(all == before.push(j));
                assert forall|k: int| 0 <= k < all.len() implies exists|i: int|
                    0 <= i < n && context[i] == Position::Node(#[trigger] all[k]) by {
                    if k < before.len() {
                        let i = choose|i: int|
                            0 <= i < n - 1 && context[i] == Position::Node(before[k]);
                        assert(context[i] == Position::Node(all[k]));
                    } else {
                        assert(context[n - 1] == Position::Node(all[k]));
                    }
                }
                assert forall|a: int, b: int| 0 <= a < b < all.len() implies all[a] != all[b] by {
                    if b == before.len() {
                        let i = choose|i: int|
                            0 <= i < n - 1 && context[i] == Position::Node(before[a]);
                        assert(context[i] != context[n - 1]);
                    }
                }
            },
            Position::Root => {},
        }
    }
}

/// The context behind the steps of a path holds no position twice, if the
/// context before them does not.
proof fn lemma_run_no_duplicates(
    nodes: Seq<NodeModel>,
    steps: Seq<StepModel>,
    k: int,
    context: Seq<Position>,
)
    requires
        context.no_duplicates(),
    ensures
        run_from(nodes, steps, k, context).no_duplicates(),
    decreases steps.len() - k,
{
    if 0 <= k < steps.len() {
        lemma_apply_no_duplicates(nodes, steps[k], context);
        lemma_run_no_duplicates(nodes, steps, k + 1, apply(nodes, steps[k], context));
    }
}

/// No node is selected twice.
pub proof fn lemma_selected_no_duplicates(nodes: Seq<NodeModel>, steps: Seq<StepModel>)
    ensures
        selected(nodes, steps).no_duplicates(),
{
    let start = seq![Position::Root];
    lemma_run_no_duplicates(nodes, steps, 0, start);
    let last = run_from(nodes, steps, 0, start);
    lemma_nodes_no_duplicates(last, last.len() as int);
}

/// The nodes of a document, each by its index, in document order.
pub open spec fn all_nodes(nodes: Seq<NodeModel>) -> Seq<usize> {
    Seq::new(nodes.len(), |i: int| i as usize)
}

/// Every position of a document: the root, then the nodes in document
/// order.
pub open spec fn all_positions(nodes: Seq<NodeModel>) -> Seq<Position> {
    seq![Position::Root] + Seq::new(nodes.len(), |i: int| Position::Node(i as usize))
}

/// Below the root stands every node.
pub proof fn lemma_below_root(nodes: Seq<NodeModel>, n: int)
    requires
        0 <= n <= nodes.len(),
    ensures
        descendants_upto(nodes, Position::Root, n) == Seq::new(
            n as nat,
            |i: int| Position::Node(i as usize),
        ),
    decreases n,
{
    if n > 0 {
        lemma_below_root(nodes, n - 1);
    }
    assert(descendants_upto(nodes, Position::Root, n) =~= Seq::new(
        n as nat,
        |i: int| Position::Node(i as usize),
    ));
}

/// The nodes among all positions are all nodes.
proof fn lemma_nodes_of_all(nodes: Seq<NodeModel>, n: int)
    requires
        0 <= n <= nodes.len(),
    ensures
        nodes_upto(all_positions(nodes), n + 1) == Seq::new(n as nat, |i: int| i as usize),
    decreases n,
{
    let all = all_positions(nodes);
    if n > 0 {
        lemma_nodes_of_all(nodes, n - 1);
        assert(all[n] == Position::Node((n - 1) as usize));
    } else {
        assert(all[0] == Position::Root);
        assert(nodes_upto(all, 0) =~= Seq::<usize>::empty());
    }
    assert(nodes_upto(all, n + 1) =~= Seq::new(n as nat, |i: int| i as usize));
}

/// A step along the descendant-or-self axis that keeps every candidate
/// gives, from a context that starts at the document root, every position
/// of the document in document order: the root, then each node before its
/// children and a child's whole subtree before the next child.
pub proof fn lemma_sweep(nodes: Seq<NodeModel>, step: StepModel, context: Seq<Position>)
    requires
        nodes.len() <= usize::MAX,
        step.axis is DescendantOrSelf,
        step.selector is Any || step.selector is Anywhere || step.selector is Parent,
        step.predicate is None,
        valid_context(nodes, context),
        context.len() > 0,
        context[0] == Position::Root,
    ensures
        apply(nodes, step, context) == all_positions(nodes),
{
    let n = nodes.len() as int;
    let all = all_positions(nodes);
    let raw = kept_from(nodes, step, context, context.len() as int);
    let found = distinct(raw);
    lemma_below_root(nodes, n);
    assert(candidates(nodes, step, Position::Root) == all);
    lemma_kept_all(nodes, step, all, all.len() as int);
    assert(all.take(all.len() as int) =~= all);
    assert(kept_from(nodes, step, context, 0) =~= Seq::<Position>::empty());
    assert(kept_from(nodes, step, context, 1) =~= all);
    lemma_kept_from_take(nodes, step, context, context.len() as int, 1);
    assert(raw.take(all.len() as int) =~= all);
    lemma_distinct_prefix(raw, all.len() as int);
    assert(all.no_duplicates());
    lemma_distinct_unchanged(all);
    lemma_distinct_no_duplicates(raw);
    assert(all.is_prefix_of(found));
    if found.len() > all.len() {
        let x = found[all.len() as int];
        assert(found.contains(x));
        lemma_distinct_contains(raw, x);
        lemma_kept_from_keeps(nodes, step, context, context.len() as int, x);
        let k = choose|k: int|
            0 <= k < context.len() && candidates(nodes, step, #[trigger] context[k]).contains(x);
        let pos = context[k];
        assert(valid_position(nodes, pos));
        let listed = descendants_upto(nodes, pos, n);
        lemma_descendants(nodes, pos, n);
        let i = choose|i: int|
            0 <= i < (seq![pos] + listed).len() && (seq![pos] + listed)[i] == x;
        if i > 0 {
            assert(listed[i - 1] == x);
        }
        assert(valid_position(nodes, x));
        match x {
            Position::Root => {
                assert(all[0] == x);
                assert(found[0] == x);
            },
            Position::Node(j) => {
                assert(all[j + 1] == x);
                assert(found[j + 1] == x);
            },
        }
        assert(false);
    }
    assert(found =~= all);
}

/// The path that `//*` spells selects every node of a document, each once,
/// in document order; so does the path that `//` alone spells.
pub proof fn lemma_anywhere_selects_all(nodes: Seq<NodeModel>)
    requires
        nodes.len() <= usize::MAX,
    ensures
        selected(
            nodes,
            seq![
                leading_step(Axis::DescendantOrSelf),
                StepModel {
                    axis: Axis::DescendantOrSelf,
                    selector: SelectorModel::Any,
                    predicate: None,
                },
            ],
        ) == all_nodes(nodes),
        selected(nodes, seq![leading_step(Axis::DescendantOrSelf)]) == all_nodes(nodes),
{
    let anywhere = leading_step(Axis::DescendantOrSelf);
    let any = StepModel {
        axis: Axis::DescendantOrSelf,
        selector: SelectorModel::Any,
        predicate: None,
    };
    let start = seq![Position::Root];
    let all = all_positions(nodes);
    lemma_sweep(nodes, anywhere, start);
    assert(all[0] == Position::Root);
    assert(valid_context(nodes, all)) by {
        assert forall|k: int| 0 <= k < all.len() implies valid_position(nodes, #[trigger] all[k]) by {
            if k > 0 {
                assert(all[k] == Position::Node((k - 1) as usize));
            }
        }
    }
    lemma_sweep(nodes, any, all);
    lemma_nodes_of_all(nodes, nodes.len() as int);
    let two = seq![anywhere, any];
    let one = seq![anywhere];
    reveal_with_fuel(run_from, 3);
    assert(two[0] == anywhere && two[1] == any);
    assert(run_from(nodes, two, 0, start) == all);
    assert(one[0] == anywhere);
    assert(run_from(nodes, one, 0, start) == all);
}

} // verus!
