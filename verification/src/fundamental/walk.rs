//! Walks, cycles and processing orders over the child references of a store.
use vstd::prelude::*;
use vstd::set_lib::{lemma_int_range, lemma_len_subset, set_int_range};

use super::sort::seen;
use super::unit::Node;
use super::Unit;

verus! {

/// `b` is recorded as a child of `a`.
pub open spec fn edge(units: Seq<Node>, a: Unit, b: Unit) -> bool {
    a.0 < units.len() && units[a.0 as int].children.contains(b)
}

/// Each element of `w` is followed by one of its children.
pub open spec fn is_walk(units: Seq<Node>, w: Seq<Unit>) -> bool {
    w.len() > 0 && forall|i: int| 0 <= i < w.len() - 1 ==> edge(units, #[trigger] w[i], w[i + 1])
}

/// Some walk leads from `from` to `to`.
pub open spec fn reaches(units: Seq<Node>, from: Unit, to: Unit) -> bool {
    exists|w: Seq<Unit>| is_walk(units, w) && w[0] == from && w.last() == to
}

/// Some walk from `root` passes a node twice: `root` reaches a node that
/// reaches itself.
pub open spec fn cyclic_from(units: Seq<Node>, root: Unit) -> bool {
    exists|w: Seq<Unit>| is_walk(units, w) && w[0] == root && !w.no_duplicates()
}

/// `order` lists nodes that `root` reaches, each once and after all of its
/// children, and ends with `root`.
pub open spec fn children_first(units: Seq<Node>, root: Unit, order: Seq<Unit>) -> bool {
    &&& order.len() > 0
    &&& order.last() == root
    &&& order.no_duplicates()
    &&& forall|i: int|
        0 <= i < order.len() ==> (#[trigger] order[i]).0 < units.len() && reaches(
            units,
            root,
            order[i],
        )
    &&& forall|i: int, c: Unit|
        0 <= i < order.len() && #[trigger] edge(units, order[i], c) ==> seen(order, i, c)
}

/// `j` is the position of the first of `children` that is not in `done`.
pub open spec fn first_open(children: Seq<Unit>, done: Seq<Unit>, j: int) -> bool {
    &&& 0 <= j < children.len()
    &&& !done.contains(children[j])
    &&& forall|i: int| 0 <= i < j ==> done.contains(#[trigger] children[i])
}

/// The node that is reached from `n` by going, at most `fuel` times, to the
/// first child that is not in `done`, until there is none.
pub open spec fn descend(units: Seq<Node>, n: Unit, done: Seq<Unit>, fuel: nat) -> Unit
    decreases fuel,
{
    let children = units[n.0 as int].children;
    if fuel > 0 && exists|j: int| first_open(children, done, j) {
        let j = choose|j: int| first_open(children, done, j);
        descend(units, children[j], done, (fuel - 1) as nat)
    } else {
        n
    }
}

/// `order` is the order in which a depth-first search from `root` that
/// takes children as they are listed finishes nodes: each node of `order`
/// is the one reached from `root` by going to the first child that is not
/// listed before it, for as long as there is one.
pub open spec fn depth_first(units: Seq<Node>, root: Unit, order: Seq<Unit>) -> bool {
    forall|i: int|
        0 <= i < order.len() ==> #[trigger] order[i] == descend(
            units,
            root,
            order.take(i),
            units.len(),
        )
}

/// Two depth-first orders that begin alike go on alike.
proof fn lemma_depth_first_agrees(units: Seq<Node>, root: Unit, a: Seq<Unit>, b: Seq<Unit>, i: int)
    requires
        depth_first(units, root, a),
        depth_first(units, root, b),
        0 <= i <= a.len(),
        i <= b.len(),
    ensures
        a.take(i) == b.take(i),
    decreases i,
{
    if i > 0 {
        lemma_depth_first_agrees(units, root, a, b, i - 1);
        assert(a[i - 1] == b[i - 1]);
        assert(a.take(i) =~= a.take(i - 1).push(a[i - 1]));
        assert(b.take(i) =~= b.take(i - 1).push(b[i - 1]));
    } else {
        assert(a.take(0) =~= b.take(0));
    }
}

/// There is one order that is both depth-first and children-first.
pub proof fn lemma_depth_first_is_unique(units: Seq<Node>, root: Unit, a: Seq<Unit>, b: Seq<Unit>)
    requires
        children_first(units, root, a),
        depth_first(units, root, a),
        children_first(units, root, b),
        depth_first(units, root, b),
    ensures
        a == b,
{
    let n = if a.len() <= b.len() {
        a.len() as int
    } else {
        b.len() as int
    };
    lemma_depth_first_agrees(units, root, a, b, n);
    assert(a.take(n)[n - 1] == b.take(n)[n - 1]);
    if a.len() < b.len() {
        assert(b[n - 1] == root && b[b.len() - 1] == root);
    }
    if b.len() < a.len() {
        assert(a[n - 1] == root && a[a.len() - 1] == root);
    }
    assert(a.take(n) =~= a);
    assert(b.take(n) =~= b);
}

/// `order` read backwards is [`children_first`]: it begins with `root`.
pub open spec fn root_first(units: Seq<Node>, root: Unit, order: Seq<Unit>) -> bool {
    children_first(units, root, order.reverse())
}

/// A walk can be continued along an edge.
pub proof fn lemma_reach_step(units: Seq<Node>, root: Unit, a: Unit, b: Unit)
    requires
        reaches(units, root, a),
        edge(units, a, b),
    ensures
        reaches(units, root, b),
{
    let w = choose|w: Seq<Unit>| is_walk(units, w) && w[0] == root && w.last() == a;
    let longer = w.push(b);
    assert forall|i: int| 0 <= i < longer.len() - 1 implies edge(
        units,
        #[trigger] longer[i],
        longer[i + 1],
    ) by {
        if i < w.len() - 1 {
            assert(edge(units, w[i], w[i + 1]));
        }
    }
    assert(is_walk(units, longer) && longer[0] == root && longer.last() == b);
}

/// Every node reaches itself.
pub proof fn lemma_reach_self(units: Seq<Node>, root: Unit)
    ensures
        reaches(units, root, root),
{
    let w = seq![root];
    assert(is_walk(units, w) && w[0] == root && w.last() == root);
}

/// Distinct nodes of a store are no more than the store holds.
pub proof fn lemma_distinct_fit(s: Seq<Unit>, n: nat)
    requires
        s.no_duplicates(),
        forall|i: int| 0 <= i < s.len() ==> (#[trigger] s[i]).0 < n,
    ensures
        s.len() <= n,
{
    let ints = Seq::new(s.len(), |i: int| s[i].0 as int);
    assert(ints.no_duplicates()) by {
        assert forall|i: int, j: int|
            0 <= i < ints.len() && 0 <= j < ints.len() && i != j implies ints[i] != ints[j] by {
            assert(s[i] != s[j]);
        }
    }
    ints.unique_seq_to_set();
    lemma_int_range(0, n as int);
    assert(ints.to_set().subset_of(set_int_range(0, n as int))) by {
        assert forall|x: int| ints.to_set().contains(x) implies set_int_range(0, n as int).contains(
            x,
        ) by {
            assert(ints.contains(x));
            let i = choose|i: int| 0 <= i < ints.len() && ints[i] == x;
            assert(s[i].0 < n);
        }
    }
    lemma_len_subset(ints.to_set(), set_int_range(0, n as int));
}

/// Along a walk from the root, positions in a children-first order only
/// fall.
proof fn lemma_walk_descends(units: Seq<Node>, root: Unit, order: Seq<Unit>, w: Seq<Unit>, t: int)
    requires
        children_first(units, root, order),
        is_walk(units, w),
        w[0] == root,
        0 <= t < w.len(),
    ensures
        order.contains(w[t]),
        forall|s: int| 0 <= s < t ==> order.index_of(w[t]) < order.index_of(#[trigger] w[s]),
    decreases t,
{
    if t == 0 {
        assert(order[order.len() - 1] == root);
    } else {
        lemma_walk_descends(units, root, order, w, t - 1);
        let a = order.index_of(w[t - 1]);
        assert(edge(units, w[t - 1], w[t]));
        assert(edge(units, order[a], w[t]));
        assert(seen(order, a, w[t]));
        let p = choose|p: int| 0 <= p < a && order[p] == w[t];
        assert(order.index_of(w[t]) == p);
    }
}

/// Where a children-first order exists, no walk from the root passes a node
/// twice.
pub proof fn lemma_ordered_means_acyclic(units: Seq<Node>, root: Unit, order: Seq<Unit>)
    requires
        children_first(units, root, order),
    ensures
        !cyclic_from(units, root),
{
    if cyclic_from(units, root) {
        let w = choose|w: Seq<Unit>| is_walk(units, w) && w[0] == root && !w.no_duplicates();
        let (i, j) = choose|i: int, j: int|
            0 <= i < w.len() && 0 <= j < w.len() && i != j && w[i] == w[j];
        if i < j {
            lemma_walk_descends(units, root, order, w, j);
            assert(order.index_of(w[j]) < order.index_of(w[i]));
        } else {
            lemma_walk_descends(units, root, order, w, i);
            assert(order.index_of(w[i]) < order.index_of(w[j]));
        }
    }
}

/// Where a root-first order exists, the root is a child of none of its
/// nodes.
pub proof fn lemma_root_is_no_child(units: Seq<Node>, root: Unit, order: Seq<Unit>, i: int)
    requires
        root_first(units, root, order),
        0 <= i < order.len(),
    ensures
        order[i].0 < units.len(),
        !edge(units, order[i], root),
{
    let back = order.reverse();
    assert(back[order.len() - 1 - i] == order[i]);
    assert(reaches(units, root, back[order.len() - 1 - i]));
    if edge(units, order[i], root) {
        let w = choose|w: Seq<Unit>| is_walk(units, w) && w[0] == root && w.last() == order[i];
        let longer = w.push(root);
        assert forall|j: int| 0 <= j < longer.len() - 1 implies edge(
            units,
            #[trigger] longer[j],
            longer[j + 1],
        ) by {
            if j < w.len() - 1 {
                assert(edge(units, w[j], w[j + 1]));
            }
        }
        assert(longer[0] == longer[w.len() as int]);
        assert(is_walk(units, longer) && longer[0] == root && !longer.no_duplicates());
        lemma_ordered_means_acyclic(units, root, back);
    }
}

/// A children-first order holds every node that the root reaches.
pub proof fn lemma_ordered_covers(units: Seq<Node>, root: Unit, order: Seq<Unit>, v: Unit)
    requires
        children_first(units, root, order),
        reaches(units, root, v),
    ensures
        order.contains(v),
{
    let w = choose|w: Seq<Unit>| is_walk(units, w) && w[0] == root && w.last() == v;
    lemma_walk_descends(units, root, order, w, w.len() - 1);
}

/// In a root-first order every node comes after each of its parents that
/// the root reaches: when a node hands its gradient on, all that it will
/// ever receive has arrived.
pub proof fn lemma_parents_first(
    units: Seq<Node>,
    root: Unit,
    order: Seq<Unit>,
    i: int,
    parent: Unit,
)
    requires
        root_first(units, root, order),
        0 <= i < order.len(),
        reaches(units, root, parent),
        edge(units, parent, order[i]),
    ensures
        seen(order, i, parent),
{
    let back = order.reverse();
    lemma_ordered_covers(units, root, back, parent);
    let p = choose|p: int| 0 <= p < back.len() && back[p] == parent;
    assert(edge(units, back[p], order[i]));
    assert(seen(back, p, order[i]));
    let q = choose|q: int| 0 <= q < p && back[q] == order[i];
    assert(back[q] == order[order.len() - 1 - q]);
    assert(back[order.len() - 1 - i] == order[i]);
    assert(q == order.len() - 1 - i);
    assert(order[order.len() - 1 - p] == parent);
}

} // verus!
