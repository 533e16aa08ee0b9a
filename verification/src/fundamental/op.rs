//! Operation constructors, the traversal and the backward pass.
use std::collections::HashSet;
use vstd::prelude::*;

pub use super::sort::topological_sort;
use super::sort::seen;
use super::unit::{
    fed_by_none, lemma_swept_changes_operands, new_unit, propagated, same_but_gradients, swept,
    Node, _Unit,
};
use super::walk::{
    children_first, cyclic_from, depth_first, descend, edge, first_open, is_walk,
    lemma_distinct_fit, lemma_ordered_covers, lemma_ordered_means_acyclic, lemma_reach_self,
    lemma_reach_step, lemma_root_is_no_child, reaches, root_first,
};
use super::{
    compares_positive, compares_zero, is_positive, is_power, is_product, is_sum, is_tanh, is_zero,
    sound_at, well_formed, with_grad, Arithmetic, CyclicGraph, DivisionByZero, Graph, Operation,
    Unit, MINUS_ONE, ONE, ZERO,
};

verus! {

broadcast use vstd::std_specs::hash::group_hash_axioms;

/// A node under exploration and the number of its children looked at.
type Frame = (usize, usize);

/// The node of some frame is `v`.
spec fn on_trail(frames: Seq<Frame>, v: int) -> bool {
    exists|k: int| 0 <= k < frames.len() && (#[trigger] frames[k]).0 == v
}

/// The nodes of the frames, from the root down.
spec fn trail(frames: Seq<Frame>) -> Seq<Unit> {
    Seq::new(frames.len(), |k: int| Unit(frames[k].0))
}

/// The number of children of frame `k` that are known to be finished: all
/// that were looked at, but for the one under exploration.
spec fn finished(frames: Seq<Frame>, k: int) -> int {
    if k == frames.len() - 1 {
        frames[k].1 as int
    } else {
        frames[k].1 - 1
    }
}

/// The frames are a walk from the root over distinct nodes: each frame's
/// node is the child that the frame before it looked at last.
spec fn frames_sound(units: Seq<Node>, root: Unit, frames: Seq<Frame>) -> bool {
    &&& forall|k: int|
        0 <= k < frames.len() ==> (#[trigger] frames[k]).0 < units.len() && frames[k].1
            <= units[frames[k].0 as int].children.len()
    &&& frames.len() > 0 ==> frames[0].0 == root.0
    &&& forall|k: int|
        0 <= k < frames.len() - 1 ==> (#[trigger] frames[k]).1 > 0
            && units[frames[k].0 as int].children[frames[k].1 - 1] == Unit(frames[k + 1].0)
    &&& forall|a: int, b: int|
        0 <= a < b < frames.len() ==> (#[trigger] frames[a]).0 != (#[trigger] frames[b]).0
    &&& forall|k: int| 0 <= k < frames.len() ==> reaches(units, root, Unit((#[trigger] frames[k]).0))
}

/// The children that a frame has looked at and is not exploring are
/// finished.
spec fn children_done(units: Seq<Node>, frames: Seq<Frame>, visited: Set<usize>) -> bool {
    forall|k: int, c: int|
        0 <= k < frames.len() && 0 <= c < finished(frames, k) ==> visited.contains((
        #[trigger] units[frames[k].0 as int].children[c]).0)
}

/// `on_stack` marks the nodes of the frames and `visited` those of
/// `result`; no node has both marks.
spec fn marks_sound(
    units: Seq<Node>,
    frames: Seq<Frame>,
    visited: Set<usize>,
    on_stack: Set<usize>,
    result: Seq<Unit>,
) -> bool {
    &&& forall|v: usize| #[trigger] on_stack.contains(v) <==> on_trail(frames, v as int)
    &&& forall|v: usize| #[trigger] visited.contains(v) <==> result.contains(Unit(v))
    &&& forall|v: usize| !(#[trigger] visited.contains(v) && on_stack.contains(v))
}

/// `result` holds nodes that the root reaches, each once and after all of
/// its children; once no frame is left it ends with the root.
spec fn result_sound(units: Seq<Node>, root: Unit, frames: Seq<Frame>, result: Seq<Unit>) -> bool {
    &&& result.no_duplicates()
    &&& forall|i: int|
        0 <= i < result.len() ==> (#[trigger] result[i]).0 < units.len() && reaches(
            units,
            root,
            result[i],
        )
    &&& forall|i: int, c: Unit|
        0 <= i < result.len() && #[trigger] edge(units, result[i], c) ==> seen(result, i, c)
    &&& depth_first(units, root, result)
    &&& frames.len() == 0 ==> result.len() > 0 && result.last() == root
}

/// What the traversal keeps.
spec fn exploring(
    units: Seq<Node>,
    root: Unit,
    frames: Seq<Frame>,
    visited: Set<usize>,
    on_stack: Set<usize>,
    result: Seq<Unit>,
) -> bool {
    &&& well_formed(units)
    &&& units.len() <= usize::MAX
    &&& frames_sound(units, root, frames)
    &&& children_done(units, frames, visited)
    &&& marks_sound(units, frames, visited, on_stack, result)
    &&& result_sound(units, root, frames, result)
}

/// The frames and the finished nodes together are no more than the store
/// holds.
proof fn lemma_room(
    units: Seq<Node>,
    root: Unit,
    frames: Seq<Frame>,
    visited: Set<usize>,
    on_stack: Set<usize>,
    result: Seq<Unit>,
)
    requires
        exploring(units, root, frames, visited, on_stack, result),
    ensures
        frames.len() + result.len() <= units.len(),
{
    let all = trail(frames) + result;
    assert forall|i: int, j: int| 0 <= i < all.len() && 0 <= j < all.len() && i != j implies all[i]
        != all[j] by {
        let lo = if i < j {
            i
        } else {
            j
        };
        let hi = if i < j {
            j
        } else {
            i
        };
        if hi < frames.len() {
            assert(frames[lo].0 != frames[hi].0);
        } else if lo >= frames.len() {
            assert(result[lo - frames.len()] != result[hi - frames.len()]);
        } else {
            let v = frames[lo].0;
            assert(on_trail(frames, v as int));
            assert(on_stack.contains(v));
            if all[lo] == all[hi] {
                assert(result[hi - frames.len()] == Unit(v));
                assert(result.contains(Unit(v)));
                assert(visited.contains(v));
                assert(false);
            }
        }
    }
    assert forall|i: int| 0 <= i < all.len() implies (#[trigger] all[i]).0 < units.len() by {
        if i < frames.len() {
            assert(frames[i].0 < units.len());
        } else {
            assert(result[i - frames.len()].0 < units.len());
        }
    }
    lemma_distinct_fit(all, units.len());
}

/// The traversal begins with the root alone on the stack.
proof fn lemma_start(units: Seq<Node>, root: Unit)
    requires
        well_formed(units),
        units.len() <= usize::MAX,
        root.0 < units.len(),
    ensures
        exploring(
            units,
            root,
            seq![(root.0, 0usize)],
            Set::empty(),
            Set::empty().insert(root.0),
            Seq::empty(),
        ),
{
    let frames = seq![(root.0, 0usize)];
    let marks = Set::<usize>::empty().insert(root.0);
    lemma_reach_self(units, root);
    assert(frames[0].0 == root.0);
    assert forall|v: usize| #[trigger] marks.contains(v) <==> on_trail(frames, v as int) by {
        if v == root.0 {
            assert(frames[0].0 == v);
        }
    }
}

/// Frames with the same nodes have the same trail.
proof fn lemma_same_trail(frames: Seq<Frame>, moved: Seq<Frame>)
    requires
        frames.len() == moved.len(),
        forall|k: int| 0 <= k < frames.len() ==> (#[trigger] moved[k]).0 == frames[k].0,
    ensures
        forall|v: int| on_trail(moved, v) <==> on_trail(frames, v),
{
    assert forall|v: int| on_trail(moved, v) <==> on_trail(frames, v) by {
        if on_trail(frames, v) {
            let k = choose|k: int| 0 <= k < frames.len() && (#[trigger] frames[k]).0 == v;
            assert(moved[k].0 == v);
        }
        if on_trail(moved, v) {
            let k = choose|k: int| 0 <= k < moved.len() && (#[trigger] moved[k]).0 == v;
            assert(frames[k].0 == v);
        }
    }
}

/// Counting one more child of the last frame as looked at keeps the frames
/// sound.
proof fn lemma_advance(units: Seq<Node>, root: Unit, frames: Seq<Frame>, advanced: usize)
    requires
        advanced == frames.last().1 + 1,
        frames_sound(units, root, frames),
        frames.len() > 0,
        frames.last().1 < units[frames.last().0 as int].children.len(),
    ensures
        frames_sound(
            units,
            root,
            frames.update(frames.len() - 1, (frames.last().0, advanced)),
        ),
{
    let top = frames.len() - 1;
    let moved = frames.update(top, (frames[top].0, advanced));
    assert forall|k: int| 0 <= k < moved.len() implies (#[trigger] moved[k]).0 < units.len()
        && moved[k].1 <= units[moved[k].0 as int].children.len() by {
        assert(frames[k].0 < units.len());
    }
    assert forall|k: int| 0 <= k < moved.len() - 1 implies (#[trigger] moved[k]).1 > 0
        && units[moved[k].0 as int].children[moved[k].1 - 1] == Unit(moved[k + 1].0) by {
        assert(frames[k].1 > 0);
        assert(moved[k] == frames[k]);
        assert(moved[k + 1].0 == frames[k + 1].0);
    }
    assert forall|a: int, b: int| 0 <= a < b < moved.len() implies (#[trigger] moved[a]).0 != (
    #[trigger] moved[b]).0 by {
        assert(frames[a].0 != frames[b].0);
    }
    assert forall|k: int| 0 <= k < moved.len() implies reaches(
        units,
        root,
        Unit((#[trigger] moved[k]).0),
    ) by {
        assert(reaches(units, root, Unit(frames[k].0)));
    }
    assert(moved[0].0 == frames[0].0);
}

/// Looking past a child that is finished.
proof fn lemma_skip(
    units: Seq<Node>,
    root: Unit,
    frames: Seq<Frame>,
    visited: Set<usize>,
    on_stack: Set<usize>,
    result: Seq<Unit>,
    advanced: usize,
)
    requires
        advanced == frames.last().1 + 1,
        exploring(units, root, frames, visited, on_stack, result),
        frames.len() > 0,
        frames.last().1 < units[frames.last().0 as int].children.len(),
        visited.contains(units[frames.last().0 as int].children[frames.last().1 as int].0),
    ensures
        exploring(
            units,
            root,
            frames.update(frames.len() - 1, (frames.last().0, advanced)),
            visited,
            on_stack,
            result,
        ),
{
    let top = frames.len() - 1;
    let moved = frames.update(top, (frames[top].0, advanced));
    lemma_advance(units, root, frames, advanced);
    assert(children_done(units, moved, visited)) by {
        assert forall|k: int, c: int|
            0 <= k < moved.len() && 0 <= c < finished(moved, k) implies visited.contains((
        #[trigger] units[moved[k].0 as int].children[c]).0) by {
            assert(moved[k].0 == frames[k].0);
            if c < finished(frames, k) {
                assert(visited.contains(units[frames[k].0 as int].children[c].0));
            }
        }
    }
    assert(marks_sound(units, moved, visited, on_stack, result)) by {
        lemma_same_trail(frames, moved);
        assert forall|v: usize| #[trigger] on_stack.contains(v) <==> on_trail(moved, v as int) by {
            assert(on_stack.contains(v) <==> on_trail(frames, v as int));
        }
    }
}

/// Going down into a child that has not been met keeps the frames sound.
proof fn lemma_descend_frames(units: Seq<Node>, root: Unit, frames: Seq<Frame>, advanced: usize)
    requires
        advanced == frames.last().1 + 1,
        frames_sound(units, root, frames),
        frames.len() > 0,
        frames.last().1 < units[frames.last().0 as int].children.len(),
        units[frames.last().0 as int].children[frames.last().1 as int].0 < units.len(),
        !on_trail(frames, units[frames.last().0 as int].children[frames.last().1 as int].0 as int),
    ensures
        frames_sound(
            units,
            root,
            frames.update(
                frames.len() - 1,
                (frames.last().0, advanced),
            ).push((units[frames.last().0 as int].children[frames.last().1 as int].0, 0usize)),
        ),
{
    let top = frames.len() - 1;
    let n = frames[top].0;
    let next = frames[top].1;
    let child = units[n as int].children[next as int];
    let moved = frames.update(top, (n, advanced));
    let deeper = moved.push((child.0, 0usize));
    lemma_advance(units, root, frames, advanced);
    assert(Unit(child.0) == child);
    assert forall|k: int| 0 <= k < deeper.len() implies (#[trigger] deeper[k]).0 < units.len()
        && deeper[k].1 <= units[deeper[k].0 as int].children.len() by {
        if k <= top {
            assert(moved[k].0 < units.len());
        }
    }
    assert forall|k: int| 0 <= k < deeper.len() - 1 implies (#[trigger] deeper[k]).1 > 0
        && units[deeper[k].0 as int].children[deeper[k].1 - 1] == Unit(deeper[k + 1].0) by {
        assert(deeper[k] == moved[k]);
        if k < top {
            assert(moved[k].1 > 0);
            assert(deeper[k + 1] == moved[k + 1]);
        } else {
            assert(moved[top] == (n, advanced));
            assert(deeper[top].1 - 1 == next);
            assert(deeper[top + 1] == (child.0, 0usize));
        }
    }
    assert forall|a: int, b: int| 0 <= a < b < deeper.len() implies (#[trigger] deeper[a]).0 != (
    #[trigger] deeper[b]).0 by {
        if b <= top {
            assert(moved[a].0 != moved[b].0);
        } else {
            assert(frames[a].0 == deeper[a].0);
        }
    }
    assert(reaches(units, root, Unit(frames[top].0)));
    assert(edge(units, Unit(n), child));
    lemma_reach_step(units, root, Unit(n), child);
    assert forall|k: int| 0 <= k < deeper.len() implies reaches(
        units,
        root,
        Unit((#[trigger] deeper[k]).0),
    ) by {
        if k <= top {
            assert(reaches(units, root, Unit(moved[k].0)));
        }
    }
    assert(deeper[0].0 == moved[0].0);
}

/// Going down into a child that has not been met.
proof fn lemma_descend(
    units: Seq<Node>,
    root: Unit,
    frames: Seq<Frame>,
    visited: Set<usize>,
    on_stack: Set<usize>,
    result: Seq<Unit>,
    advanced: usize,
)
    requires
        advanced == frames.last().1 + 1,
        exploring(units, root, frames, visited, on_stack, result),
        frames.len() > 0,
        frames.last().1 < units[frames.last().0 as int].children.len(),
        units[frames.last().0 as int].children[frames.last().1 as int].0 < units.len(),
        !visited.contains(units[frames.last().0 as int].children[frames.last().1 as int].0),
        !on_stack.contains(units[frames.last().0 as int].children[frames.last().1 as int].0),
    ensures
        exploring(
            units,
            root,
            frames.update(
                frames.len() - 1,
                (frames.last().0, advanced),
            ).push((units[frames.last().0 as int].children[frames.last().1 as int].0, 0usize)),
            visited,
            on_stack.insert(units[frames.last().0 as int].children[frames.last().1 as int].0),
            result,
        ),
{
    let top = frames.len() - 1;
    let n = frames[top].0;
    let next = frames[top].1;
    let child = units[n as int].children[next as int];
    let moved = frames.update(top, (n, advanced));
    let deeper = moved.push((child.0, 0usize));
    let marks = on_stack.insert(child.0);
    assert(!on_trail(frames, child.0 as int));
    lemma_descend_frames(units, root, frames, advanced);
    assert(children_done(units, deeper, visited)) by {
        assert forall|k: int, c: int|
            0 <= k < deeper.len() && 0 <= c < finished(deeper, k) implies visited.contains((
        #[trigger] units[deeper[k].0 as int].children[c]).0) by {
            if k <= top {
                assert(deeper[k].0 == frames[k].0);
                assert(c < finished(frames, k));
                assert(visited.contains(units[frames[k].0 as int].children[c].0));
            }
        }
    }
    assert(marks_sound(units, deeper, visited, marks, result)) by {
        lemma_same_trail(frames, moved);
        assert forall|v: usize| #[trigger] marks.contains(v) <==> on_trail(deeper, v as int) by {
            assert(on_stack.contains(v) <==> on_trail(frames, v as int));
            if on_trail(moved, v as int) {
                let k = choose|k: int| 0 <= k < moved.len() && (#[trigger] moved[k]).0 == v;
                assert(deeper[k].0 == v);
            }
            if v == child.0 {
                assert(deeper[top + 1].0 == v);
            }
            if on_trail(deeper, v as int) && v != child.0 {
                let k = choose|k: int| 0 <= k < deeper.len() && (#[trigger] deeper[k]).0 == v;
                assert(moved[k].0 == v);
            }
        }
    }
}

/// A child that is on the stack closes a cycle.
proof fn lemma_back_edge(
    units: Seq<Node>,
    root: Unit,
    frames: Seq<Frame>,
    visited: Set<usize>,
    on_stack: Set<usize>,
    result: Seq<Unit>,
)
    requires
        exploring(units, root, frames, visited, on_stack, result),
        frames.len() > 0,
        frames.last().1 < units[frames.last().0 as int].children.len(),
        units[frames.last().0 as int].children[frames.last().1 as int].0 < units.len(),
        on_stack.contains(units[frames.last().0 as int].children[frames.last().1 as int].0),
    ensures
        cyclic_from(units, root),
{
    let top = frames.len() - 1;
    let n = frames[top].0;
    let next = frames[top].1;
    let child = units[n as int].children[next as int];
    let w = trail(frames).push(child);
    assert(on_trail(frames, child.0 as int));
    let k = choose|k: int| 0 <= k < frames.len() && (#[trigger] frames[k]).0 == child.0;
    assert(w[k] == child && w[top + 1] == child);
    assert forall|i: int| 0 <= i < w.len() - 1 implies edge(units, #[trigger] w[i], w[i + 1]) by {
        assert(frames[i].0 < units.len());
        if i < top {
            assert(frames[i].1 > 0);
            assert(units[frames[i].0 as int].children[frames[i].1 - 1] == w[i + 1]);
        } else {
            assert(units[n as int].children[next as int] == w[i + 1]);
        }
    }
    assert(w[0] == root);
    assert(is_walk(units, w) && w[0] == root && !w.no_duplicates());
}

/// Dropping the last frame keeps the frames sound.
proof fn lemma_retreat_frames(units: Seq<Node>, root: Unit, frames: Seq<Frame>)
    requires
        frames_sound(units, root, frames),
        frames.len() > 0,
    ensures
        frames_sound(units, root, frames.drop_last()),
        forall|v: int| on_trail(frames.drop_last(), v) <==> on_trail(frames, v) && v != frames.last().0,
{
    let top = frames.len() - 1;
    let fewer = frames.drop_last();
    assert forall|k: int| 0 <= k < fewer.len() implies (#[trigger] fewer[k]).0 < units.len()
        && fewer[k].1 <= units[fewer[k].0 as int].children.len() by {
        assert(frames[k].0 < units.len());
    }
    assert forall|k: int| 0 <= k < fewer.len() - 1 implies (#[trigger] fewer[k]).1 > 0
        && units[fewer[k].0 as int].children[fewer[k].1 - 1] == Unit(fewer[k + 1].0) by {
        assert(frames[k].1 > 0);
        assert(fewer[k + 1] == frames[k + 1]);
    }
    assert forall|a: int, b: int| 0 <= a < b < fewer.len() implies (#[trigger] fewer[a]).0 != (
    #[trigger] fewer[b]).0 by {
        assert(frames[a].0 != frames[b].0);
    }
    assert forall|k: int| 0 <= k < fewer.len() implies reaches(
        units,
        root,
        Unit((#[trigger] fewer[k]).0),
    ) by {
        assert(reaches(units, root, Unit(frames[k].0)));
    }
    if fewer.len() > 0 {
        assert(fewer[0].0 == frames[0].0);
    }
    assert forall|v: int| on_trail(fewer, v) <==> on_trail(frames, v) && v != frames.last().0 by {
        if on_trail(frames, v) && v != frames[top].0 {
            let k = choose|k: int| 0 <= k < frames.len() && (#[trigger] frames[k]).0 == v;
            assert(fewer[k].0 == v);
        }
        if on_trail(fewer, v) {
            let k = choose|k: int| 0 <= k < fewer.len() && (#[trigger] fewer[k]).0 == v;
            assert(frames[k].0 == v);
            assert(frames[k].0 != frames[top].0);
        }
    }
}

/// Going from the node of frame `k` to the first child that is not
/// finished, again and again, leads down the frames to the node of the last
/// frame, once all of its children are finished.
proof fn lemma_follow(
    units: Seq<Node>,
    root: Unit,
    frames: Seq<Frame>,
    visited: Set<usize>,
    on_stack: Set<usize>,
    result: Seq<Unit>,
    k: int,
    fuel: nat,
)
    requires
        exploring(units, root, frames, visited, on_stack, result),
        frames.len() > 0,
        frames.last().1 == units[frames.last().0 as int].children.len(),
        0 <= k < frames.len(),
        fuel >= frames.len() - 1 - k,
    ensures
        descend(units, Unit(frames[k].0), result, fuel) == Unit(frames.last().0),
    decreases frames.len() - k,
{
    let top = frames.len() - 1;
    let n = frames[k].0;
    let children = units[n as int].children;
    assert(frames[k].0 < units.len());
    assert(sound_at(units, n as int));
    assert forall|c: int| 0 <= c < finished(frames, k) implies result.contains(
        #[trigger] children[c],
    ) by {
        assert(children[c].0 < units.len());
        assert(visited.contains(units[frames[k].0 as int].children[c].0));
        assert(visited.contains(children[c].0) <==> result.contains(Unit(children[c].0)));
        assert(Unit(children[c].0) == children[c]);
    }
    if k == top {
        assert forall|j: int| !first_open(children, result, j) by {
            if 0 <= j < children.len() {
                assert(result.contains(children[j]));
            }
        }
    } else {
        let open = frames[k].1 - 1;
        let child = children[open];
        assert(frames[k].1 > 0);
        assert(child == Unit(frames[k + 1].0));
        assert(!result.contains(child)) by {
            assert(frames[k + 1].0 < units.len());
            assert(on_trail(frames, frames[k + 1].0 as int));
            assert(on_stack.contains(frames[k + 1].0));
            assert(!(visited.contains(frames[k + 1].0) && on_stack.contains(frames[k + 1].0)));
            assert(visited.contains(frames[k + 1].0) <==> result.contains(child));
        }
        assert(first_open(children, result, open));
        let j = choose|j: int| first_open(children, result, j);
        assert(j == open) by {
            if j < open {
                assert(result.contains(children[j]));
            }
            if j > open {
                assert(result.contains(children[open]));
            }
        }
        lemma_follow(units, root, frames, visited, on_stack, result, k + 1, (fuel - 1) as nat);
    }
}

/// A node whose children are all in `result` can join it.
proof fn lemma_retreat_result(
    units: Seq<Node>,
    root: Unit,
    frames: Seq<Frame>,
    visited: Set<usize>,
    on_stack: Set<usize>,
    result: Seq<Unit>,
)
    requires
        exploring(units, root, frames, visited, on_stack, result),
        frames.len() > 0,
        frames.last().1 == units[frames.last().0 as int].children.len(),
    ensures
        result_sound(units, root, frames.drop_last(), result.push(Unit(frames.last().0))),
        !result.contains(Unit(frames.last().0)),
        forall|x: Unit|
            result.push(Unit(frames.last().0)).contains(x) <==> result.contains(x) || x == Unit(
                frames.last().0,
            ),
{
    let top = frames.len() - 1;
    let n = frames[top].0;
    let grown = result.push(Unit(n));
    assert(on_trail(frames, n as int));
    assert(frames[top].0 < units.len());
    assert(on_stack.contains(n) && !visited.contains(n));
    assert(!result.contains(Unit(n)));
    assert forall|x: Unit| grown.contains(x) <==> result.contains(x) || x == Unit(n) by {
        if result.contains(x) {
            let i = choose|i: int| 0 <= i < result.len() && result[i] == x;
            assert(grown[i] == x);
        }
        assert(grown[result.len() as int] == Unit(n));
        if grown.contains(x) && x != Unit(n) {
            let i = choose|i: int| 0 <= i < grown.len() && grown[i] == x;
            assert(result[i] == x);
        }
    }
    assert(grown.no_duplicates()) by {
        assert forall|i: int, j: int|
            0 <= i < grown.len() && 0 <= j < grown.len() && i != j implies grown[i] != grown[j] by {
            if i < result.len() && j < result.len() {
            } else if i < result.len() {
                assert(result.contains(result[i]));
            } else {
                assert(result.contains(result[j]));
            }
        }
    }
    assert(reaches(units, root, Unit(frames[top].0)));
    assert forall|i: int| 0 <= i < grown.len() implies (#[trigger] grown[i]).0 < units.len()
        && reaches(units, root, grown[i]) by {
        if i < result.len() {
            assert(result[i].0 < units.len());
        }
    }
    assert forall|i: int, c: Unit| 0 <= i < grown.len() && #[trigger] edge(
        units,
        grown[i],
        c,
    ) implies seen(grown, i, c) by {
        if i < result.len() {
            assert(edge(units, result[i], c));
            assert(seen(result, i, c));
            let p = choose|p: int| 0 <= p < i && result[p] == c;
            assert(grown[p] == c);
        } else {
            let j = choose|j: int|
                0 <= j < units[n as int].children.len() && units[n as int].children[j] == c;
            assert(j < finished(frames, top));
            assert(sound_at(units, n as int));
            assert(units[n as int].children[j].0 < units.len());
            assert(visited.contains(units[frames[top].0 as int].children[j].0));
            assert(Unit(c.0) == c);
            assert(visited.contains(c.0) <==> result.contains(Unit(c.0)));
            assert(result.contains(c));
            let p = choose|p: int| 0 <= p < result.len() && result[p] == c;
            assert(grown[p] == c);
        }
    }
    if frames.len() == 1 {
        assert(frames[0].0 == root.0);
        assert(grown.last() == root);
    }
    assert(depth_first(units, root, grown)) by {
        lemma_room(units, root, frames, visited, on_stack, result);
        lemma_follow(units, root, frames, visited, on_stack, result, 0, units.len());
        assert(Unit(frames[0].0) == root);
        assert forall|i: int| 0 <= i < grown.len() implies #[trigger] grown[i] == descend(
            units,
            root,
            grown.take(i),
            units.len(),
        ) by {
            if i < result.len() {
                assert(grown.take(i) =~= result.take(i));
                assert(result[i] == descend(units, root, result.take(i), units.len()));
            } else {
                assert(grown.take(i) =~= result);
            }
        }
    }
}

/// Leaving a node whose children are all finished: it is finished too.
proof fn lemma_retreat(
    units: Seq<Node>,
    root: Unit,
    frames: Seq<Frame>,
    visited: Set<usize>,
    on_stack: Set<usize>,
    result: Seq<Unit>,
)
    requires
        exploring(units, root, frames, visited, on_stack, result),
        frames.len() > 0,
        frames.last().1 == units[frames.last().0 as int].children.len(),
    ensures
        exploring(
            units,
            root,
            frames.drop_last(),
            visited.insert(frames.last().0),
            on_stack.remove(frames.last().0),
            result.push(Unit(frames.last().0)),
        ),
{
    let top = frames.len() - 1;
    let n = frames[top].0;
    let fewer = frames.drop_last();
    let done = visited.insert(n);
    let marks = on_stack.remove(n);
    let grown = result.push(Unit(n));
    assert(frames[top].0 < units.len());
    lemma_retreat_frames(units, root, frames);
    lemma_retreat_result(units, root, frames, visited, on_stack, result);
    assert(children_done(units, fewer, done)) by {
        assert forall|k: int, c: int|
            0 <= k < fewer.len() && 0 <= c < finished(fewer, k) implies done.contains((
        #[trigger] units[fewer[k].0 as int].children[c]).0) by {
            assert(frames[k] == fewer[k]);
            assert(frames[k].0 < units.len());
            assert(sound_at(units, frames[k].0 as int));
            assert(units[frames[k].0 as int].children[c].0 < units.len());
            if c < finished(frames, k) {
                assert(visited.contains(units[frames[k].0 as int].children[c].0));
            } else {
                assert(k == top - 1);
                assert(frames[k].1 > 0);
                assert(units[frames[k].0 as int].children[frames[k].1 - 1] == Unit(frames[k + 1].0));
                assert(units[frames[k].0 as int].children[c].0 == n);
            }
        }
    }
    assert(marks_sound(units, fewer, done, marks, grown)) by {
        assert forall|v: usize| #[trigger] marks.contains(v) <==> on_trail(fewer, v as int) by {
            assert(on_stack.contains(v) <==> on_trail(frames, v as int));
        }
        assert forall|v: usize| #[trigger] done.contains(v) <==> grown.contains(Unit(v)) by {
            assert(visited.contains(v) <==> result.contains(Unit(v)));
            assert(Unit(v) == Unit(n) <==> v == n);
        }
        assert forall|v: usize| !(#[trigger] done.contains(v) && marks.contains(v)) by {
            assert(!(visited.contains(v) && on_stack.contains(v)));
        }
    }
}

/// Explores what `node` reaches, depth first and with a stack of its own
/// instead of recursion. A child that is met while it is on the stack lies
/// on a cycle: the exploration stops and says so. A child that is finished
/// is a shared operand and is passed over. A node is finished, and joins
/// `result`, when all of its children are.
///
/// `stack` marks the nodes under exploration and `visited` the finished
/// ones. Where no cycle is met, `stack` is empty again at the end and
/// `visited` marks exactly the nodes of `result`, which are the nodes that
/// `node` reaches.
fn detect_cycle<K: Arithmetic>(
    g: &Graph<K>,
    node: &Unit,
    visited: &mut HashSet<usize>,
    stack: &mut HashSet<usize>,
    result: &mut Vec<Unit>,
) -> (cyclic: bool)
    requires
        g.wf(),
        g.contains(*node),
        old(visited)@ == Set::<usize>::empty(),
        old(stack)@ == Set::<usize>::empty(),
        old(result)@.len() == 0,
    ensures
        cyclic ==> cyclic_from(g@, *node),
        !cyclic ==> children_first(g@, *node, final(result)@),
        !cyclic ==> depth_first(g@, *node, final(result)@),
        !cyclic ==> final(stack)@ == Set::<usize>::empty(),
        !cyclic ==> forall|v: usize| #[trigger]
            final(visited)@.contains(v) <==> final(result)@.contains(Unit(v)),
        !cyclic ==> forall|v: usize| #[trigger]
            final(visited)@.contains(v) <==> reaches(g@, *node, Unit(v)),
{
    let mut frames: Vec<Frame> = Vec::new();
    proof {
        g.lemma_countable();
    }
    stack.insert(node.0);
    frames.push((node.0, 0));
    proof {
        lemma_start(g@, *node);
        assert(frames@ =~= seq![(node.0, 0usize)]);
        assert(result@ =~= Seq::empty());
        lemma_room(g@, *node, frames@, visited@, stack@, result@);
    }
    while frames.len() > 0
        invariant
            g.wf(),
            exploring(g@, *node, frames@, visited@, stack@, result@),
            frames@.len() + result@.len() <= g@.len(),
        decreases
                g@.len() - result@.len() - frames@.len(),
                frames@.len(),
                (if frames@.len() > 0 {
                    g@[frames@.last().0 as int].children.len() - frames@.last().1
                } else {
                    0
                }),
    {
        let top = frames.len() - 1;
        let (current, next) = frames[top];
        let children = &g.unit(&Unit(current)).children;
        if next < children.len() {
            let child = children[next];
            proof {
                assert(sound_at(g@, current as int));
                assert(g@[current as int].children[next as int] == child);
            }
            if stack.contains(&child.0) {
                proof {
                    lemma_back_edge(g@, *node, frames@, visited@, stack@, result@);
                }
                return true;
            }
            if visited.contains(&child.0) {
                proof {
                    lemma_skip(g@, *node, frames@, visited@, stack@, result@, (next + 1) as usize);
                }
                frames[top] = (current, next + 1);
            } else {
                proof {
                    lemma_descend(g@, *node, frames@, visited@, stack@, result@, (next + 1) as usize);
                }
                frames[top] = (current, next + 1);
                stack.insert(child.0);
                frames.push((child.0, 0));
                proof {
                    lemma_room(g@, *node, frames@, visited@, stack@, result@);
                }
            }
        } else {
            proof {
                lemma_retreat(g@, *node, frames@, visited@, stack@, result@);
            }
            frames.pop();
            stack.remove(&current);
            visited.insert(current);
            result.push(Unit(current));
        }
    }
    proof {
        assert(stack@ =~= Set::<usize>::empty()) by {
            assert forall|v: usize| !stack@.contains(v) by {
                assert(stack@.contains(v) <==> on_trail(frames@, v as int));
            }
        }
        assert forall|v: usize| #[trigger] visited@.contains(v) <==> reaches(
            g@,
            *node,
            Unit(v),
        ) by {
            if reaches(g@, *node, Unit(v)) {
                lemma_ordered_covers(g@, *node, result@, Unit(v));
            }
            if result@.contains(Unit(v)) {
                let i = choose|i: int| 0 <= i < result@.len() && result@[i] == Unit(v);
                assert(reaches(g@, *node, result@[i]));
            }
        }
    }
    false
}

/// The nodes that `node` reaches, each once and after all of its children,
/// `node` itself last; or `None` where `node` reaches a cycle.
///
/// A node that two others share is no cycle: it is listed once, before
/// both.
pub fn topological_sort_circle<K: Arithmetic>(g: &Graph<K>, node: &Unit) -> (r: Option<Vec<Unit>>)
    requires
        g.wf(),
        g.contains(*node),
    ensures
        r is None <==> cyclic_from(g@, *node),
        r matches Some(order) ==> children_first(g@, *node, order@) && depth_first(
            g@,
            *node,
            order@,
        ),
{
    let mut visited: HashSet<usize> = HashSet::new();
    let mut stack: HashSet<usize> = HashSet::new();
    let mut result: Vec<Unit> = Vec::new();
    if detect_cycle(g, node, &mut visited, &mut stack, &mut result) {
        return None;
    }
    proof {
        lemma_ordered_means_acyclic(g@, *node, result@);
    }
    Some(result)
}

/// The nodes that `u` reaches in the order in which a backward pass hands
/// gradients on: `u` first, every node after all of the nodes that it is a
/// child of; or `None` where `u` reaches a cycle.
pub fn rev_topological_sort_dfs<K: Arithmetic>(g: &Graph<K>, u: &Unit) -> (r: Option<Vec<Unit>>)
    requires
        g.wf(),
        g.contains(*u),
    ensures
        r is None <==> cyclic_from(g@, *u),
        r matches Some(order) ==> root_first(g@, *u, order@) && depth_first(
            g@,
            *u,
            order@.reverse(),
        ),
{
    let sorted = match topological_sort_circle(g, u) {
        Some(sorted) => sorted,
        None => { return None; },
    };
    let mut order: Vec<Unit> = Vec::new();
    let mut i: usize = sorted.len();
    while i > 0
        invariant
            i <= sorted.len(),
            order@.len() == sorted.len() - i,
            forall|j: int| 0 <= j < order@.len() ==> order@[j] == sorted@[sorted.len() - 1 - j],
        decreases i,
    {
        i -= 1;
        order.push(sorted[i]);
    }
    proof {
        assert(order@.reverse() =~= sorted@);
    }
    Some(order)
}

/// `units` with the gradient of `u` set to one.
pub open spec fn seeded(units: Seq<Node>, u: Unit) -> Seq<Node> {
    units.update(u.0 as int, with_grad(units[u.0 as int], ONE))
}

/// The gradient of `u` with respect to each node that `u` reaches is added
/// to that node's gradient.
///
/// The gradient of `u` itself is set to one. Where `u` reaches a cycle,
/// nothing else happens and `CyclicGraph` is returned. Otherwise every node
/// that `u` reaches hands its gradient on once (see [`propagated`]), in an
/// order that begins with `u` and in which a node's turn comes after the
/// turn of every node that has it as a child: the order in which a
/// depth-first search finishes the nodes, read backwards. Gradients are all
/// that changes, and that of `u` still reads one afterwards.
pub fn backward<K: Arithmetic>(g: &mut Graph<K>, u: &Unit) -> (r: Result<(), CyclicGraph>)
    requires
        old(g).wf(),
        old(g).contains(*u),
    ensures
        final(g).wf(),
        final(g).kernel() == old(g).kernel(),
        r is Err <==> cyclic_from(old(g)@, *u),
        r is Err ==> final(g)@ == seeded(old(g)@, *u),
        r is Ok ==> exists|order: Seq<Unit>| #[trigger]
            root_first(old(g)@, *u, order) && depth_first(old(g)@, *u, order.reverse()) && swept(
                &old(g).kernel(),
                order,
                seeded(old(g)@, *u),
                final(g)@,
            ),
        same_but_gradients(old(g)@, final(g)@),
        final(g)@[u.0 as int].grad == ONE,
{
    let topo_n = rev_topological_sort_dfs(g, u);
    g.set_grad(u, ONE);
    proof {
        assert(same_but_gradients(old(g)@, g@));
    }
    let topo_real = match topo_n {
        Some(topo_real) => topo_real,
        None => { return Err(CyclicGraph); },
    };
    let mut i: usize = 0;
    proof {
        assert(topo_real@.take(0).len() == 0);
    }
    while i < topo_real.len()
        invariant
            i <= topo_real.len(),
            g.wf(),
            g.kernel() == old(g).kernel(),
            g@.len() == old(g)@.len(),
            root_first(old(g)@, *u, topo_real@),
            depth_first(old(g)@, *u, topo_real@.reverse()),
            swept(&old(g).kernel(), topo_real@.take(i as int), seeded(old(g)@, *u), g@),
        decreases topo_real.len() - i,
    {
        let bu = topo_real[i];
        let ghost mid = g@;
        proof {
            let back = topo_real@.reverse();
            assert(back[topo_real.len() - 1 - i] == bu);
            assert(bu.0 < old(g)@.len());
        }
        _Unit::self_back_propagation(g, &bu);
        proof {
            let done = topo_real@.take(i + 1);
            assert(done.drop_last() =~= topo_real@.take(i as int));
            assert(done.last() == bu);
            assert(swept(&old(g).kernel(), done.drop_last(), seeded(old(g)@, *u), mid));
            assert(propagated(&old(g).kernel(), mid, done.last().0 as int, g@));
            assert(swept(&old(g).kernel(), done, seeded(old(g)@, *u), g@));
        }
        i += 1;
    }
    proof {
        let first = seeded(old(g)@, *u);
        assert(topo_real@.take(i as int) =~= topo_real@);
        assert forall|j: int| 0 <= j < topo_real@.len() implies (#[trigger] topo_real@[j]).0
            < first.len() && !first[topo_real@[j].0 as int].operands().contains(*u) by {
            lemma_root_is_no_child(old(g)@, *u, topo_real@, j);
            let n = topo_real@[j].0 as int;
            let operands = first[n].operands();
            if operands.contains(*u) {
                let p = choose|p: int| 0 <= p < operands.len() && operands[p] == *u;
                assert(sound_at(old(g)@, n));
                assert(old(g)@[n].operands()[p] == old(g)@[n].children[p]);
                assert(edge(old(g)@, topo_real@[j], *u));
            }
        }
        assert(fed_by_none(first, topo_real@, *u));
        lemma_swept_changes_operands(&old(g).kernel(), topo_real@, first, g@);
        assert(same_but_gradients(old(g)@, g@)) by {
            assert forall|n: int| 0 <= n < old(g)@.len() implies #[trigger] g@[n] == with_grad(
                old(g)@[n],
                g@[n].grad,
            ) by {
                assert(g@[n] == with_grad(first[n], g@[n].grad));
            }
        }
    }
    Ok(())
}

/// `after` is `before` with `count` nodes behind it.
pub open spec fn extends(before: Seq<Node>, after: Seq<Node>, count: nat) -> bool {
    after.len() == before.len() + count && after.subrange(0, before.len() as int) == before
}

/// `node` is what an operation constructor records: the operation with its
/// operands as the children, no gradient yet.
pub open spec fn derived_by(node: Node, op: Operation) -> bool {
    node.operation == Some(op) && node.children == op.operands() && node.grad == ZERO
}

/// Records a node with the given value, derived by `op`.
fn derive<K: Arithmetic>(g: &mut Graph<K>, data: u32, op: Operation, children: Vec<Unit>) -> (u:
    Unit)
    requires
        old(g).wf(),
        children@ == op.operands(),
        forall|j: int| 0 <= j < children@.len() ==> old(g).contains(#[trigger] children@[j]),
    ensures
        u.0 == old(g)@.len(),
        extends(old(g)@, final(g)@, 1),
        derived_by(final(g)@[u.0 as int], op),
        final(g)@[u.0 as int].data == data,
        final(g).kernel() == old(g).kernel(),
        final(g).wf(),
{
    let record = _Unit::new(data, Some(op), children);
    proof {
        let units = g@.push(record@);
        assert(record@.operands() == op.operands());
        assert(sound_at(units, g@.len() as int));
    }
    let u = Unit::new(g, record);
    proof {
        assert(g@.subrange(0, old(g)@.len() as int) =~= old(g)@);
    }
    u
}

/// A node whose value is the sum of the values of `l` and `r`.
pub fn add<K: Arithmetic>(g: &mut Graph<K>, l: &Unit, r: &Unit) -> (u: Unit)
    requires
        old(g).wf(),
        old(g).contains(*l),
        old(g).contains(*r),
    ensures
        u.0 == old(g)@.len(),
        extends(old(g)@, final(g)@, 1),
        derived_by(final(g)@[u.0 as int], Operation::Add(*l, *r)),
        is_sum(
            &old(g).kernel(),
            old(g)@[l.0 as int].data,
            old(g)@[r.0 as int].data,
            final(g)@[u.0 as int].data,
        ),
        final(g).kernel() == old(g).kernel(),
        final(g).wf(),
{
    let result = g.arithmetic().sum(g.unit(l).data, g.unit(r).data);
    assert(is_sum(&g.kernel(), g@[l.0 as int].data, g@[r.0 as int].data, result));
    let op = Operation::Add(*l, *r);
    derive(g, result, op, vec![*l, *r])
}

/// A node whose value is the product of the values of `l` and `r`.
pub fn mul<K: Arithmetic>(g: &mut Graph<K>, l: &Unit, r: &Unit) -> (u: Unit)
    requires
        old(g).wf(),
        old(g).contains(*l),
        old(g).contains(*r),
    ensures
        u.0 == old(g)@.len(),
        extends(old(g)@, final(g)@, 1),
        derived_by(final(g)@[u.0 as int], Operation::Mul(*l, *r)),
        is_product(
            &old(g).kernel(),
            old(g)@[l.0 as int].data,
            old(g)@[r.0 as int].data,
            final(g)@[u.0 as int].data,
        ),
        final(g).kernel() == old(g).kernel(),
        final(g).wf(),
{
    let result = g.arithmetic().product(g.unit(l).data, g.unit(r).data);
    assert(is_product(&g.kernel(), g@[l.0 as int].data, g@[r.0 as int].data, result));
    let op = Operation::Mul(*l, *r);
    derive(g, result, op, vec![*l, *r])
}

/// A node whose value is the value of `l` raised to `r`. The exponent is a
/// plain number, kept in the node's operation.
pub fn pow<K: Arithmetic>(g: &mut Graph<K>, l: &Unit, r: u32) -> (u: Unit)
    requires
        old(g).wf(),
        old(g).contains(*l),
    ensures
        u.0 == old(g)@.len(),
        extends(old(g)@, final(g)@, 1),
        derived_by(final(g)@[u.0 as int], Operation::Pow(*l, r)),
        is_power(&old(g).kernel(), old(g)@[l.0 as int].data, r, final(g)@[u.0 as int].data),
        final(g).kernel() == old(g).kernel(),
        final(g).wf(),
{
    let result = g.arithmetic().power(g.unit(l).data, r);
    assert(is_power(&g.kernel(), g@[l.0 as int].data, r, result));
    let op = Operation::Pow(*l, r);
    let children = vec![*l];
    assert(children@ =~= op.operands());
    derive(g, result, op, children)
}

/// A node whose value is the value of `x` negated, built as `x * (-1)`:
/// behind the nodes of `g` come a leaf of value minus one and the product of
/// `x` and that leaf, which is returned.
pub fn neg<K: Arithmetic>(g: &mut Graph<K>, x: &Unit) -> (u: Unit)
    requires
        old(g).wf(),
        old(g).contains(*x),
    ensures
        u.0 == old(g)@.len() + 1,
        extends(old(g)@, final(g)@, 2),
        final(g)@[old(g)@.len() as int].data == MINUS_ONE,
        final(g)@[old(g)@.len() as int].grad == ZERO,
        final(g)@[old(g)@.len() as int].operation is None,
        final(g)@[old(g)@.len() as int].children.len() == 0,
        derived_by(final(g)@[u.0 as int], Operation::Mul(*x, Unit((u.0 - 1) as usize))),
        is_product(
            &old(g).kernel(),
            old(g)@[x.0 as int].data,
            MINUS_ONE,
            final(g)@[u.0 as int].data,
        ),
        final(g).kernel() == old(g).kernel(),
        final(g).wf(),
{
    let minus_one = new_unit(g, MINUS_ONE);
    let ghost first = g@;
    let u = self::mul(g, x, &minus_one);
    proof {
        let n = old(g)@.len() as int;
        assert(g@[n] == first[n]) by {
            assert(g@.subrange(0, first.len() as int)[n] == g@[n]);
        }
        assert(first[x.0 as int] == old(g)@[x.0 as int]) by {
            assert(first.subrange(0, n)[x.0 as int] == first[x.0 as int]);
        }
        assert(g@.subrange(0, n) =~= old(g)@) by {
            assert forall|i: int| 0 <= i < n implies g@[i] == old(g)@[i] by {
                assert(g@.subrange(0, first.len() as int)[i] == g@[i]);
                assert(first.subrange(0, n)[i] == first[i]);
            }
        }
    }
    u
}

/// A node whose value is the value of `l` less that of `r`, built as
/// `l + (-r)`: behind the nodes of `g` come a leaf of value minus one, the
/// product of `r` and that leaf, and the sum of `l` and that product, which
/// is returned.
pub fn sub<K: Arithmetic>(g: &mut Graph<K>, l: &Unit, r: &Unit) -> (u: Unit)
    requires
        old(g).wf(),
        old(g).contains(*l),
        old(g).contains(*r),
    ensures
        u.0 == old(g)@.len() + 2,
        extends(old(g)@, final(g)@, 3),
        ({
            let n = old(g)@.len() as int;
            let minus_one = Unit(n as usize);
            let negated = Unit((n + 1) as usize);
            &&& final(g)@[n].operation is None
            &&& final(g)@[n].children.len() == 0
            &&& final(g)@[n].data == MINUS_ONE
            &&& final(g)@[n].grad == ZERO
            &&& derived_by(final(g)@[n + 1], Operation::Mul(*r, minus_one))
            &&& is_product(
                &old(g).kernel(),
                old(g)@[r.0 as int].data,
                MINUS_ONE,
                final(g)@[n + 1].data,
            )
            &&& derived_by(final(g)@[n + 2], Operation::Add(*l, negated))
            &&& is_sum(
                &old(g).kernel(),
                old(g)@[l.0 as int].data,
                final(g)@[n + 1].data,
                final(g)@[n + 2].data,
            )
        }),
        final(g).kernel() == old(g).kernel(),
        final(g).wf(),
{
    let negated = self::neg(g, r);
    let ghost second = g@;
    let u = self::add(g, l, &negated);
    proof {
        let n = old(g)@.len() as int;
        assert forall|i: int| 0 <= i < second.len() implies g@[i] == second[i] by {
            assert(g@.subrange(0, second.len() as int)[i] == g@[i]);
        }
        assert(second[l.0 as int] == old(g)@[l.0 as int]) by {
            assert(second.subrange(0, n)[l.0 as int] == second[l.0 as int]);
        }
        assert(g@.subrange(0, n) =~= old(g)@) by {
            assert forall|i: int| 0 <= i < n implies g@[i] == old(g)@[i] by {
                assert(second.subrange(0, n)[i] == second[i]);
            }
        }
    }
    u
}

/// A node whose value is the value of `l` divided by that of `r`, built as
/// `l * r ^ (-1)`: behind the nodes of `g` come the power and the product,
/// which is returned. A divisor that compares equal to zero is refused
/// before any node is recorded.
pub fn div<K: Arithmetic>(g: &mut Graph<K>, l: &Unit, r: &Unit) -> (u: Result<Unit, DivisionByZero>)
    requires
        old(g).wf(),
        old(g).contains(*l),
        old(g).contains(*r),
    ensures
        u is Err <==> is_zero(old(g)@[r.0 as int].data),
        u is Err ==> final(g)@ == old(g)@,
        u matches Ok(q) ==> {
            let n = old(g)@.len() as int;
            let inverse = Unit(n as usize);
            &&& q.0 == n + 1
            &&& extends(old(g)@, final(g)@, 2)
            &&& derived_by(final(g)@[n], Operation::Pow(*r, MINUS_ONE))
            &&& is_power(
                &old(g).kernel(),
                old(g)@[r.0 as int].data,
                MINUS_ONE,
                final(g)@[n].data,
            )
            &&& derived_by(final(g)@[n + 1], Operation::Mul(*l, inverse))
            &&& is_product(
                &old(g).kernel(),
                old(g)@[l.0 as int].data,
                final(g)@[n].data,
                final(g)@[n + 1].data,
            )
        },
        final(g).kernel() == old(g).kernel(),
        final(g).wf(),
{
    if compares_zero(g.unit(r).data) {
        return Err(DivisionByZero);
    }
    let inverse = self::pow(g, r, MINUS_ONE);
    let ghost first = g@;
    let q = self::mul(g, l, &inverse);
    proof {
        let n = old(g)@.len() as int;
        assert(g@[n] == first[n]) by {
            assert(g@.subrange(0, first.len() as int)[n] == g@[n]);
        }
        assert(first[l.0 as int] == old(g)@[l.0 as int]) by {
            assert(first.subrange(0, n)[l.0 as int] == first[l.0 as int]);
        }
        assert(g@.subrange(0, n) =~= old(g)@) by {
            assert forall|i: int| 0 <= i < n implies g@[i] == old(g)@[i] by {
                assert(g@.subrange(0, first.len() as int)[i] == g@[i]);
                assert(first.subrange(0, n)[i] == first[i]);
            }
        }
    }
    Ok(q)
}

/// A node whose value is the hyperbolic tangent of the value of `x`.
pub fn tanh<K: Arithmetic>(g: &mut Graph<K>, x: &Unit) -> (u: Unit)
    requires
        old(g).wf(),
        old(g).contains(*x),
    ensures
        u.0 == old(g)@.len(),
        extends(old(g)@, final(g)@, 1),
        derived_by(final(g)@[u.0 as int], Operation::Tanh(*x)),
        is_tanh(&old(g).kernel(), old(g)@[x.0 as int].data, final(g)@[u.0 as int].data),
        final(g).kernel() == old(g).kernel(),
        final(g).wf(),
{
    let result = g.arithmetic().tanh(g.unit(x).data);
    assert(is_tanh(&g.kernel(), g@[x.0 as int].data, result));
    let op = Operation::Tanh(*x);
    let children = vec![*x];
    assert(children@ =~= op.operands());
    derive(g, result, op, children)
}

/// The value that a rectifier gives: the argument where it is positive,
/// zero elsewhere.
pub open spec fn rectified(data: u32) -> u32 {
    if is_positive(data) {
        data
    } else {
        ZERO
    }
}

/// A node whose value is the value of `x` where that is positive, and zero
/// elsewhere.
pub fn relu<K: Arithmetic>(g: &mut Graph<K>, x: &Unit) -> (u: Unit)
    requires
        old(g).wf(),
        old(g).contains(*x),
    ensures
        u.0 == old(g)@.len(),
        extends(old(g)@, final(g)@, 1),
        derived_by(final(g)@[u.0 as int], Operation::ReLU(*x)),
        final(g)@[u.0 as int].data == rectified(old(g)@[x.0 as int].data),
        final(g).kernel() == old(g).kernel(),
        final(g).wf(),
{
    let result = if compares_positive(g.unit(x).data) {
        g.unit(x).data
    } else {
        ZERO
    };
    let op = Operation::ReLU(*x);
    let children = vec![*x];
    assert(children@ =~= op.operands());
    derive(g, result, op, children)
}

} // verus!
