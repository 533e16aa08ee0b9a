//! Topological sorting of an adjacency map by in-degrees.
use std::collections::{HashMap, VecDeque};
use vstd::prelude::*;
use vstd::set_lib::{lemma_len_subset, lemma_set_empty_equivalency_len, lemma_subset_equality};
use vstd::std_specs::hash::*;
use vstd::std_specs::iter::IteratorSpec;

verus! {

broadcast use vstd::std_specs::hash::group_hash_axioms;

/// `graph` lists `v` among the successors of `u`.
pub open spec fn arc(graph: Map<usize, Vec<usize>>, u: usize, v: usize) -> bool {
    graph.contains_key(u) && graph[u]@.contains(v)
}

/// `v` is a key of `graph` or a successor of one.
pub open spec fn is_vertex(graph: Map<usize, Vec<usize>>, v: usize) -> bool {
    graph.contains_key(v) || exists|u: usize| arc(graph, u, v)
}

/// `order` holds every vertex of `graph` once, each before all of its
/// successors.
pub open spec fn topologically_sorted(graph: Map<usize, Vec<usize>>, order: Seq<usize>) -> bool {
    &&& order.no_duplicates()
    &&& forall|v: usize| order.contains(v) <==> is_vertex(graph, v)
    &&& forall|i: int, j: int|
        0 <= i < order.len() && 0 <= j < order.len() && arc(graph, order[i], order[j]) ==> i < j
}

/// Each element of `w` is followed by one of its successors.
pub open spec fn is_route(graph: Map<usize, Vec<usize>>, w: Seq<usize>) -> bool {
    w.len() > 0 && forall|i: int| 0 <= i < w.len() - 1 ==> arc(graph, #[trigger] w[i], w[i + 1])
}

/// Some route of `graph` with at least one arc ends where it began.
pub open spec fn has_cycle(graph: Map<usize, Vec<usize>>) -> bool {
    exists|w: Seq<usize>| is_route(graph, w) && w.len() >= 2 && w[0] == w.last()
}

/// A place in an adjacency list: the key and the position in its list.
pub type Slot = (usize, int);

/// `s` is a place of `graph`.
pub open spec fn is_slot(graph: Map<usize, Vec<usize>>, s: Slot) -> bool {
    graph.contains_key(s.0) && 0 <= s.1 < graph[s.0]@.len()
}

/// Every place of `graph`.
pub open spec fn slots(graph: Map<usize, Vec<usize>>) -> Set<Slot> {
    Set::new(|s: Slot| is_slot(graph, s))
}

/// The successor that stands at `s`.
pub open spec fn target(graph: Map<usize, Vec<usize>>, s: Slot) -> usize {
    graph[s.0]@[s.1]
}

/// The places among `pending` at which `v` stands.
pub open spec fn incoming(graph: Map<usize, Vec<usize>>, pending: Set<Slot>, v: usize) -> Set<
    Slot,
> {
    Set::new(|s: Slot| pending.contains(s) && target(graph, s) == v)
}

/// `x` is among the first `i` elements of `keys`.
pub open spec fn seen<T>(keys: Seq<T>, i: int, x: T) -> bool {
    exists|p: int| 0 <= p < i && #[trigger] keys[p] == x
}

/// The places in the lists of the first `i` keys, and the first `j` places
/// in the list of the key after them.
pub open spec fn counted(graph: Map<usize, Vec<usize>>, keys: Seq<usize>, i: int, j: int) -> Set<
    Slot,
> {
    Set::new(
        |s: Slot|
            is_slot(graph, s) && (seen(keys, i, s.0) || (0 <= i < keys.len() && s.0 == keys[i]
                && s.1 < j)),
    )
}

/// The keys of `map`, each once, in the order in which the map hands them out.
fn keys_of<V>(map: &HashMap<usize, V>) -> (keys: Vec<usize>)
    ensures
        keys@.no_duplicates(),
        forall|k: usize| keys@.contains(k) <==> map@.contains_key(k),
        keys@.len() == map@.dom().len(),
{
    let mut keys: Vec<usize> = Vec::new();
    for pair in it: map.iter()
        invariant
            it.seq() == spec_hash_map_iter(map).remaining(),
            it.seq().no_duplicates(),
            keys@.len() == it.index(),
            forall|i: int| 0 <= i < keys@.len() ==> keys@[i] == *it.seq()[i].0,
    {
        keys.push(*pair.0);
    }
    proof {
        let seq = spec_hash_map_iter(map).remaining();
        assert forall|k: usize| map@.contains_key(k) implies keys@.contains(k) by {
            assert(seq.contains((&k, &map@[k])));
            let i = choose|i: int| 0 <= i < seq.len() && seq[i] == (&k, &map@[k]);
            assert(keys@[i] == k);
        }
        assert forall|i: int, j: int|
            0 <= i < keys@.len() && 0 <= j < keys@.len() && i != j implies keys@[i] != keys@[j] by {
            if keys@[i] == keys@[j] {
                assert(map@[*seq[i].0] == *seq[i].1);
                assert(map@[*seq[j].0] == *seq[j].1);
                assert(seq[i] == seq[j]);
            }
        }
        assert forall|k: usize| keys@.contains(k) implies map@.contains_key(k) by {
            let i = choose|i: int| 0 <= i < keys@.len() && keys@[i] == k;
            assert(map@.contains_key(*seq[i].0));
        }
    }
    keys
}

/// Counting one more place: the places at which `v` stands grow by `s`
/// where `v` stands at `s`, and stay as they are elsewhere.
proof fn lemma_count_one_more(graph: Map<usize, Vec<usize>>, pending: Set<Slot>, s: Slot, v: usize)
    requires
        pending.finite(),
        !pending.contains(s),
    ensures
        incoming(graph, pending, v).finite(),
        incoming(graph, pending, v).len() <= pending.len(),
        incoming(graph, pending.insert(s), v).len() == incoming(graph, pending, v).len() + if target(
            graph,
            s,
        ) == v {
            1int
        } else {
            0
        },
{
    lemma_len_subset(incoming(graph, pending, v), pending);
    if target(graph, s) == v {
        assert(incoming(graph, pending.insert(s), v) =~= incoming(graph, pending, v).insert(s));
    } else {
        assert(incoming(graph, pending.insert(s), v) =~= incoming(graph, pending, v));
    }
}

/// For every vertex of `graph`, the number of places at which it stands.
fn count_in_degrees(graph: &HashMap<usize, Vec<usize>>) -> (in_degrees: HashMap<usize, u128>)
    ensures
        forall|v: usize| #[trigger] in_degrees@.contains_key(v) <==> is_vertex(graph@, v),
        forall|v: usize| #[trigger]
            in_degrees@.contains_key(v) ==> in_degrees@[v] == incoming(
                graph@,
                slots(graph@),
                v,
            ).len(),
        slots(graph@).finite(),
{
    let keys = keys_of(graph);
    let mut in_degrees: HashMap<usize, u128> = HashMap::new();
    let mut i: usize = 0;
    proof {
        assert(counted(graph@, keys@, 0, 0) =~= Set::<Slot>::empty());
        assert forall|v: usize| incoming(graph@, Set::<Slot>::empty(), v) =~= Set::<Slot>::empty() by {}
    }
    while i < keys.len()
        invariant
            i <= keys.len(),
            keys@.no_duplicates(),
            forall|k: usize| keys@.contains(k) <==> graph@.contains_key(k),
            counted(graph@, keys@, i as int, 0).finite(),
            counted(graph@, keys@, i as int, 0).len() <= i * 0xffff_ffff_ffff_ffff,
            forall|v: usize|
                in_degrees@.contains_key(v) <==> seen(keys@, i as int, v) || exists|s: Slot|
                    counted(graph@, keys@, i as int, 0).contains(s) && target(graph@, s) == v,
            forall|v: usize| #[trigger]
                in_degrees@.contains_key(v) ==> in_degrees@[v] == incoming(
                    graph@,
                    counted(graph@, keys@, i as int, 0),
                    v,
                ).len(),
        decreases keys.len() - i,
    {
        let node = keys[i];
        assert(keys@.contains(node));
        let neighbors = graph.get(&node).unwrap();
        if !in_degrees.contains_key(&node) {
            in_degrees.insert(node, 0);
            proof {
                let pending = counted(graph@, keys@, i as int, 0);
                assert(incoming(graph@, pending, node) =~= Set::<Slot>::empty()) by {
                    assert forall|s: Slot| !(pending.contains(s) && target(graph@, s) == node) by {}
                }
            }
        }
        let mut j: usize = 0;
        while j < neighbors.len()
            invariant
                i < keys.len(),
                j <= neighbors.len(),
                node == keys@[i as int],
                graph@.contains_key(node),
                *neighbors == graph@[node],
                keys@.no_duplicates(),
                counted(graph@, keys@, i as int, j as int).finite(),
                counted(graph@, keys@, i as int, j as int).len() <= i * 0xffff_ffff_ffff_ffff + j,
                forall|v: usize|
                    in_degrees@.contains_key(v) <==> seen(keys@, i as int, v) || v == node
                        || exists|s: Slot|
                        counted(graph@, keys@, i as int, j as int).contains(s) && target(graph@, s)
                            == v,
                forall|v: usize| #[trigger]
                    in_degrees@.contains_key(v) ==> in_degrees@[v] == incoming(
                        graph@,
                        counted(graph@, keys@, i as int, j as int),
                        v,
                    ).len(),
            decreases neighbors.len() - j,
        {
            let neighbor = neighbors[j];
            let ghost pending = counted(graph@, keys@, i as int, j as int);
            let ghost slot: Slot = (node, j as int);
            proof {
                assert(!pending.contains(slot)) by {
                    if seen(keys@, i as int, node) {
                        let p = choose|p: int| 0 <= p < i && keys@[p] == node;
                        assert(keys@[p] == keys@[i as int]);
                    }
                }
                assert(counted(graph@, keys@, i as int, j + 1) =~= pending.insert(slot));
                assert forall|v: usize|
                    incoming(graph@, pending.insert(slot), v).len() == incoming(
                        graph@,
                        pending,
                        v,
                    ).len() + if neighbor == v {
                        1int
                    } else {
                        0
                    } && incoming(graph@, pending, v).len() <= pending.len() by {
                    lemma_count_one_more(graph@, pending, slot, v);
                }
            }
            let count: u128 = match in_degrees.get(&neighbor) {
                Some(c) => *c,
                None => 0,
            };
            proof {
                if !in_degrees@.contains_key(neighbor) {
                    assert(incoming(graph@, pending, neighbor) =~= Set::<Slot>::empty()) by {
                        assert forall|s: Slot|
                            !(pending.contains(s) && target(graph@, s) == neighbor) by {}
                    }
                }
            }
            proof {
                lemma_count_one_more(graph@, pending, slot, neighbor);
                assert(i <= 0xffff_ffff_ffff_ffff && j <= 0xffff_ffff_ffff_ffff);
            }
            let ghost before = in_degrees@;
            in_degrees.insert(neighbor, count + 1);
            proof {
                let grown = counted(graph@, keys@, i as int, j + 1);
                assert(grown.contains(slot) && target(graph@, slot) == neighbor);
                assert forall|v: usize|
                    in_degrees@.contains_key(v) <==> seen(keys@, i as int, v) || v == node
                        || exists|s: Slot| grown.contains(s) && target(graph@, s) == v by {
                    if before.contains_key(v) && !seen(keys@, i as int, v) && v != node {
                        let s = choose|s: Slot| pending.contains(s) && target(graph@, s) == v;
                        assert(grown.contains(s));
                    }
                    if exists|s: Slot| grown.contains(s) && target(graph@, s) == v {
                        let s = choose|s: Slot| grown.contains(s) && target(graph@, s) == v;
                        if s != slot {
                            assert(pending.contains(s));
                        }
                    }
                }
            }
            j += 1;
        }
        proof {
            assert forall|x: usize| seen(keys@, i + 1, x) <==> seen(keys@, i as int, x) || x
                == node by {
                if seen(keys@, i as int, x) {
                    let p = choose|p: int| 0 <= p < i && keys@[p] == x;
                    assert(0 <= p < i + 1 && keys@[p] == x);
                }
                if x == node {
                    assert(keys@[i as int] == x);
                }
            }
            assert(counted(graph@, keys@, i + 1, 0) =~= counted(graph@, keys@, i as int, j as int));
        }
        i += 1;
    }
    proof {
        let all = slots(graph@);
        assert forall|x: usize| seen(keys@, i as int, x) <==> graph@.contains_key(x) by {
            if graph@.contains_key(x) {
                assert(keys@.contains(x));
                let p = choose|p: int| 0 <= p < keys@.len() && keys@[p] == x;
                assert(0 <= p < i && keys@[p] == x);
            }
            if seen(keys@, i as int, x) {
                let p = choose|p: int| 0 <= p < i && keys@[p] == x;
                assert(keys@.contains(keys@[p]));
            }
        }
        assert(counted(graph@, keys@, i as int, 0) =~= all);
        assert forall|v: usize| #[trigger] in_degrees@.contains_key(v) <==> is_vertex(graph@, v) by {
            if in_degrees@.contains_key(v) && !graph@.contains_key(v) {
                let s = choose|s: Slot| all.contains(s) && target(graph@, s) == v;
                assert(graph@[s.0]@[s.1] == v);
                assert(arc(graph@, s.0, v));
            }
            if is_vertex(graph@, v) && !graph@.contains_key(v) {
                let u = choose|u: usize| arc(graph@, u, v);
                let j = choose|j: int| 0 <= j < graph@[u]@.len() && graph@[u]@[j] == v;
                assert(all.contains((u, j)) && target(graph@, (u, j)) == v);
            }
        }
    }
    in_degrees
}

/// The places in the lists of the keys that are not in `sorted`.
spec fn unsorted_slots(graph: Map<usize, Vec<usize>>, sorted: Seq<usize>) -> Set<Slot> {
    Set::new(|s: Slot| is_slot(graph, s) && !sorted.contains(s.0))
}

/// The places of [`unsorted_slots`], and those in the list of `node` from
/// position `j` on.
spec fn remaining(graph: Map<usize, Vec<usize>>, sorted: Seq<usize>, node: usize, j: int) -> Set<
    Slot,
> {
    Set::new(|s: Slot| is_slot(graph, s) && (!sorted.contains(s.0) || (s.0 == node && s.1 >= j)))
}

/// `v` has an in-degree, and it is zero.
spec fn ready(degrees: Map<usize, u128>, v: usize) -> bool {
    degrees.contains_key(v) && degrees[v] == 0
}

/// What the main loop keeps: each in-degree counts the places of `pending`
/// at which its vertex stands; the vertices that are sorted or queued are
/// those whose in-degree is zero, each once; and every sorted vertex comes
/// after all of its predecessors.
spec fn settled(
    graph: Map<usize, Vec<usize>>,
    degrees: Map<usize, u128>,
    sorted: Seq<usize>,
    queue: Seq<usize>,
    pending: Set<Slot>,
) -> bool {
    &&& pending.finite()
    &&& degrees.dom().finite()
    &&& forall|v: usize| #[trigger] degrees.contains_key(v) <==> is_vertex(graph, v)
    &&& forall|v: usize| #[trigger]
        degrees.contains_key(v) ==> degrees[v] == incoming(graph, pending, v).len()
    &&& (sorted + queue).no_duplicates()
    &&& forall|v: usize| #[trigger] (sorted + queue).contains(v) ==> ready(degrees, v)
    &&& forall|v: usize| #[trigger] ready(degrees, v) ==> (sorted + queue).contains(v)
    &&& forall|p: int, u: usize|
        0 <= p < sorted.len() && #[trigger] arc(graph, u, sorted[p]) ==> seen(sorted, p, u)
}

/// A vertex whose in-degree is zero stands at no place of `pending`.
proof fn lemma_zero_means_none(graph: Map<usize, Vec<usize>>, pending: Set<Slot>, v: usize, s: Slot)
    requires
        pending.finite(),
        incoming(graph, pending, v).len() == 0,
        target(graph, s) == v,
    ensures
        !pending.contains(s),
{
    lemma_len_subset(incoming(graph, pending, v), pending);
    if pending.contains(s) {
        assert(incoming(graph, pending, v).contains(s));
        incoming(graph, pending, v).lemma_len0_is_empty();
    }
}

/// Taking the head of the queue over to the sorted vertices keeps
/// [`settled`], and there was room for it.
proof fn lemma_pop(
    graph: Map<usize, Vec<usize>>,
    degrees: Map<usize, u128>,
    sorted: Seq<usize>,
    queue: Seq<usize>,
)
    requires
        settled(graph, degrees, sorted, queue, unsorted_slots(graph, sorted)),
        queue.len() > 0,
    ensures
        settled(
            graph,
            degrees,
            sorted.push(queue[0]),
            queue.subrange(1, queue.len() as int),
            remaining(graph, sorted.push(queue[0]), queue[0], 0),
        ),
        sorted.len() < degrees.dom().len(),
        !sorted.contains(queue[0]),
{
    let node = queue[0];
    let grown = sorted.push(node);
    let rest = queue.subrange(1, queue.len() as int);
    let all = sorted + queue;
    assert(all[sorted.len() as int] == node);
    assert(grown + rest =~= all);
    assert(!sorted.contains(node)) by {
        if sorted.contains(node) {
            let i = choose|i: int| 0 <= i < sorted.len() && sorted[i] == node;
            assert(all[i] == node);
        }
    }
    assert forall|x: usize| grown.contains(x) <==> sorted.contains(x) || x == node by {
        if sorted.contains(x) {
            let i = choose|i: int| 0 <= i < sorted.len() && sorted[i] == x;
            assert(grown[i] == x);
        }
        assert(grown[sorted.len() as int] == node);
    }
    assert(remaining(graph, grown, node, 0) =~= unsorted_slots(graph, sorted));
    assert(all.contains(node));
    assert(ready(degrees, node));
    assert forall|p: int, u: usize|
        0 <= p < grown.len() && #[trigger] arc(graph, u, grown[p]) implies seen(grown, p, u) by {
        if p < sorted.len() {
            assert(grown[p] == sorted[p]);
            assert(seen(sorted, p, u));
            let i = choose|i: int| 0 <= i < p && sorted[i] == u;
            assert(grown[i] == u);
        } else {
            let j = choose|j: int| 0 <= j < graph[u]@.len() && graph[u]@[j] == node;
            lemma_zero_means_none(graph, unsorted_slots(graph, sorted), node, (u, j));
            assert(sorted.contains(u));
            let i = choose|i: int| 0 <= i < sorted.len() && sorted[i] == u;
            assert(grown[i] == u);
        }
    }
    assert(grown.no_duplicates()) by {
        assert forall|i: int, j: int| 0 <= i < grown.len() && 0 <= j < grown.len() && i != j implies grown[i]
            != grown[j] by {
            assert(all[i] == grown[i] && all[j] == grown[j]);
        }
    }
    grown.unique_seq_to_set();
    assert(grown.to_set().subset_of(degrees.dom())) by {
        assert forall|x: usize| grown.to_set().contains(x) implies degrees.dom().contains(x) by {
            assert(grown.contains(x));
            let i = choose|i: int| 0 <= i < grown.len() && grown[i] == x;
            assert(all[i] == x);
            assert(all.contains(x));
            assert(ready(degrees, x));
        }
    }
    lemma_len_subset(grown.to_set(), degrees.dom());
}

/// Striking the place `(node, j)` off, with the in-degree of the vertex
/// that stands there lowered by one and that vertex queued if it reached
/// zero, keeps [`settled`].
proof fn lemma_strike(
    graph: Map<usize, Vec<usize>>,
    degrees: Map<usize, u128>,
    sorted: Seq<usize>,
    queue: Seq<usize>,
    node: usize,
    j: int,
)
    requires
        settled(graph, degrees, sorted, queue, remaining(graph, sorted, node, j)),
        sorted.contains(node),
        graph.contains_key(node),
        0 <= j < graph[node]@.len(),
    ensures
        degrees.contains_key(graph[node]@[j]),
        degrees[graph[node]@[j]] >= 1,
        ({
            let w = graph[node]@[j];
            let lowered = (degrees[w] - 1) as u128;
            settled(
                graph,
                degrees.insert(w, lowered),
                sorted,
                if lowered == 0 {
                    queue.push(w)
                } else {
                    queue
                },
                remaining(graph, sorted, node, j + 1),
            )
        }),
{
    let w = graph[node]@[j];
    let slot: Slot = (node, j);
    let pending = remaining(graph, sorted, node, j);
    let fewer = remaining(graph, sorted, node, j + 1);
    assert(arc(graph, node, w));
    assert(is_vertex(graph, w));
    assert(degrees.contains_key(w));
    assert(pending.contains(slot));
    assert(fewer =~= pending.remove(slot));
    lemma_len_subset(incoming(graph, pending, w), pending);
    assert(incoming(graph, pending, w).contains(slot));
    assert(incoming(graph, fewer, w) =~= incoming(graph, pending, w).remove(slot));
    assert(degrees[w] >= 1);
    let lowered = (degrees[w] - 1) as u128;
    let after = degrees.insert(w, lowered);
    let all = sorted + queue;
    let line = if lowered == 0 {
        queue.push(w)
    } else {
        queue
    };
    assert(after.dom() =~= degrees.dom());
    assert forall|v: usize| #[trigger] after.contains_key(v) <==> is_vertex(graph, v) by {
        assert(degrees.contains_key(v) <==> is_vertex(graph, v));
    }
    assert forall|v: usize| #[trigger] after.contains_key(v) implies after[v] == incoming(
        graph,
        fewer,
        v,
    ).len() by {
        assert(degrees.contains_key(v));
        if v != w {
            assert(incoming(graph, fewer, v) =~= incoming(graph, pending, v));
        }
    }
    assert(!all.contains(w)) by {
        if all.contains(w) {
            assert(ready(degrees, w));
        }
    }
    assert forall|v: usize| v != w implies (ready(after, v) <==> ready(degrees, v)) by {}
    if lowered != 0 {
        assert forall|v: usize| #[trigger] all.contains(v) implies ready(after, v) by {
            assert(ready(degrees, v));
        }
        assert forall|v: usize| #[trigger] ready(after, v) implies all.contains(v) by {
            assert(ready(degrees, v));
        }
    }
    if lowered == 0 {
        assert(sorted + line =~= all.push(w));
        assert((sorted + line).no_duplicates()) by {
            assert forall|a: int, b: int|
                0 <= a < all.len() + 1 && 0 <= b < all.len() + 1 && a != b implies all.push(w)[a]
                != all.push(w)[b] by {
                if a < all.len() && b < all.len() {
                } else if a < all.len() {
                    assert(all.contains(all[a]));
                } else {
                    assert(all.contains(all[b]));
                }
            }
        }
        assert(ready(after, w));
        assert forall|v: usize| (sorted + line).contains(v) <==> ready(after, v) by {
            assert(all.push(w)[all.len() as int] == w);
            if all.contains(v) {
                let i = choose|i: int| 0 <= i < all.len() && all[i] == v;
                assert(all.push(w)[i] == v);
                assert(ready(degrees, v));
            }
            if (sorted + line).contains(v) && v != w {
                let i = choose|i: int| 0 <= i < all.len() + 1 && all.push(w)[i] == v;
                assert(all[i] == v);
                assert(all.contains(v));
            }
            if ready(after, v) && v != w {
                assert(ready(degrees, v));
                assert(all.contains(v));
            }
        }
    }
}

/// Once the whole list of `node` is struck off, what is left are the
/// places of the keys that are not sorted.
proof fn lemma_struck_all(graph: Map<usize, Vec<usize>>, sorted: Seq<usize>, node: usize, j: int)
    requires
        sorted.contains(node),
        graph.contains_key(node) ==> j >= graph[node]@.len(),
    ensures
        remaining(graph, sorted, node, j) == unsorted_slots(graph, sorted),
{
    assert(remaining(graph, sorted, node, j) =~= unsorted_slots(graph, sorted));
}

/// The vertex reached after `k` steps backwards from `v`, each step to a
/// predecessor within `among`.
spec fn back(graph: Map<usize, Vec<usize>>, among: Set<usize>, v: usize, k: nat) -> usize
    decreases k,
{
    if k == 0 {
        v
    } else {
        let prev = back(graph, among, v, (k - 1) as nat);
        choose|u: usize| among.contains(u) && arc(graph, u, prev)
    }
}

proof fn lemma_back(graph: Map<usize, Vec<usize>>, among: Set<usize>, v: usize, k: nat)
    requires
        among.contains(v),
        forall|x: usize| #[trigger]
            among.contains(x) ==> exists|u: usize| among.contains(u) && arc(graph, u, x),
    ensures
        among.contains(back(graph, among, v, k)),
        k > 0 ==> arc(graph, back(graph, among, v, k), back(graph, among, v, (k - 1) as nat)),
    decreases k,
{
    if k > 0 {
        lemma_back(graph, among, v, (k - 1) as nat);
        let prev = back(graph, among, v, (k - 1) as nat);
        assert(among.contains(prev));
        assert(exists|u: usize| among.contains(u) && arc(graph, u, prev));
    }
}

/// More steps backwards than `among` has vertices pass some vertex twice.
proof fn lemma_back_repeats(graph: Map<usize, Vec<usize>>, among: Set<usize>, v: usize) -> (r: (
    nat,
    nat,
))
    requires
        among.finite(),
        among.contains(v),
        forall|x: usize| #[trigger]
            among.contains(x) ==> exists|u: usize| among.contains(u) && arc(graph, u, x),
    ensures
        r.0 < r.1,
        back(graph, among, v, r.0) == back(graph, among, v, r.1),
{
    let n = among.len();
    let chain = Seq::new(n + 1, |k: int| back(graph, among, v, k as nat));
    assert forall|k: int| 0 <= k < chain.len() implies among.contains(#[trigger] chain[k]) by {
        lemma_back(graph, among, v, k as nat);
    }
    if chain.no_duplicates() {
        chain.unique_seq_to_set();
        assert(chain.to_set().subset_of(among)) by {
            assert forall|x: usize| chain.to_set().contains(x) implies among.contains(x) by {
                assert(chain.contains(x));
                let i = choose|i: int| 0 <= i < chain.len() && chain[i] == x;
                assert(among.contains(chain[i]));
            }
        }
        lemma_len_subset(chain.to_set(), among);
        assert(false);
    }
    let (a, b) = choose|a: int, b: int|
        0 <= a < chain.len() && 0 <= b < chain.len() && a != b && chain[a] == chain[b];
    if a < b {
        (a as nat, b as nat)
    } else {
        (b as nat, a as nat)
    }
}

/// A finite, non-empty set of vertices in which every vertex has a
/// predecessor holds a cycle.
proof fn lemma_closed_set_cycles(graph: Map<usize, Vec<usize>>, among: Set<usize>, v: usize)
    requires
        among.finite(),
        among.contains(v),
        forall|x: usize| #[trigger]
            among.contains(x) ==> exists|u: usize| among.contains(u) && arc(graph, u, x),
    ensures
        has_cycle(graph),
{
    let (lo, hi) = lemma_back_repeats(graph, among, v);
    let w = Seq::new((hi - lo + 1) as nat, |t: int| back(graph, among, v, (hi - t) as nat));
    assert(w[0] == back(graph, among, v, hi));
    assert(w.last() == back(graph, among, v, lo));
    assert forall|t: int| 0 <= t < w.len() - 1 implies arc(graph, #[trigger] w[t], w[t + 1]) by {
        lemma_back(graph, among, v, (hi - t) as nat);
    }
    assert(is_route(graph, w) && w.len() >= 2 && w[0] == w.last());
}

/// With the queue empty and every vertex sorted, the sorted vertices are a
/// topological order.
proof fn lemma_all_sorted(
    graph: Map<usize, Vec<usize>>,
    degrees: Map<usize, u128>,
    sorted: Seq<usize>,
)
    requires
        settled(graph, degrees, sorted, Seq::empty(), unsorted_slots(graph, sorted)),
        sorted.len() == degrees.dom().len(),
    ensures
        topologically_sorted(graph, sorted),
{
    assert(sorted + Seq::<usize>::empty() =~= sorted);
    sorted.unique_seq_to_set();
    assert(sorted.to_set().subset_of(degrees.dom())) by {
        assert forall|x: usize| sorted.to_set().contains(x) implies degrees.dom().contains(x) by {
            assert(sorted.contains(x));
            assert(ready(degrees, x));
        }
    }
    lemma_len_subset(sorted.to_set(), degrees.dom());
    lemma_subset_equality(sorted.to_set(), degrees.dom());
    assert forall|v: usize| sorted.contains(v) <==> is_vertex(graph, v) by {
        assert(sorted.to_set().contains(v) <==> degrees.dom().contains(v));
        assert(degrees.contains_key(v) <==> is_vertex(graph, v));
    }
    assert forall|i: int, j: int|
        0 <= i < sorted.len() && 0 <= j < sorted.len() && arc(graph, sorted[i], sorted[j]) implies i
        < j by {
        assert(seen(sorted, j, sorted[i]));
    }
}

/// With the queue empty and a vertex left unsorted, the graph has a cycle.
proof fn lemma_some_unsorted(
    graph: Map<usize, Vec<usize>>,
    degrees: Map<usize, u128>,
    sorted: Seq<usize>,
)
    requires
        settled(graph, degrees, sorted, Seq::empty(), unsorted_slots(graph, sorted)),
        sorted.len() != degrees.dom().len(),
    ensures
        has_cycle(graph),
{
    assert(sorted + Seq::<usize>::empty() =~= sorted);
    let pending = unsorted_slots(graph, sorted);
    let left = Set::new(|v: usize| degrees.dom().contains(v) && !sorted.contains(v));
    sorted.unique_seq_to_set();
    assert(sorted.to_set().subset_of(degrees.dom())) by {
        assert forall|x: usize| sorted.to_set().contains(x) implies degrees.dom().contains(x) by {
            assert(sorted.contains(x));
            assert(ready(degrees, x));
        }
    }
    lemma_len_subset(sorted.to_set(), degrees.dom());
    if left =~= Set::<usize>::empty() {
        assert(degrees.dom().subset_of(sorted.to_set())) by {
            assert forall|x: usize| degrees.dom().contains(x) implies sorted.to_set().contains(x) by {
                if !sorted.contains(x) {
                    assert(left.contains(x));
                }
            }
        }
        lemma_len_subset(degrees.dom(), sorted.to_set());
        assert(false);
    }
    let v = choose|v: usize| left.contains(v);
    assert(left.subset_of(degrees.dom()));
    lemma_len_subset(left, degrees.dom());
    assert forall|x: usize| #[trigger] left.contains(x) implies exists|u: usize|
        left.contains(u) && arc(graph, u, x) by {
        assert(degrees.contains_key(x));
        assert(degrees[x] != 0) by {
            if ready(degrees, x) {
                assert(sorted.contains(x));
            }
        }
        lemma_len_subset(incoming(graph, pending, x), pending);
        assert(incoming(graph, pending, x).len() != 0);
        lemma_set_empty_equivalency_len(incoming(graph, pending, x));
        let s = choose|s: Slot| incoming(graph, pending, x).contains(s);
        assert(graph[s.0]@[s.1] == x);
        assert(arc(graph, s.0, x));
        assert(is_vertex(graph, s.0));
        assert(degrees.contains_key(s.0));
        assert(left.contains(s.0));
    }
    lemma_closed_set_cycles(graph, left, v);
}

/// The vertices whose in-degree is zero.
fn sources(in_degrees: &HashMap<usize, u128>) -> (queue: VecDeque<usize>)
    ensures
        queue@.no_duplicates(),
        forall|v: usize| #[trigger] queue@.contains(v) ==> ready(in_degrees@, v),
        forall|v: usize| #[trigger] ready(in_degrees@, v) ==> queue@.contains(v),
{
    let vertices = keys_of(in_degrees);
    let mut queue: VecDeque<usize> = VecDeque::new();
    let mut i: usize = 0;
    while i < vertices.len()
        invariant
            i <= vertices.len(),
            vertices@.no_duplicates(),
            forall|k: usize| vertices@.contains(k) <==> in_degrees@.contains_key(k),
            queue@.no_duplicates(),
            forall|v: usize|
                queue@.contains(v) <==> (seen(vertices@, i as int, v) && in_degrees@[v] == 0),
        decreases vertices.len() - i,
    {
        let node = vertices[i];
        assert(vertices@.contains(node));
        let ghost before = queue@;
        let in_degree = *in_degrees.get(&node).unwrap();
        if in_degree == 0 {
            queue.push_back(node);
        }
        proof {
            assert(!seen(vertices@, i as int, node)) by {
                if seen(vertices@, i as int, node) {
                    let p = choose|p: int| 0 <= p < i && vertices@[p] == node;
                    assert(vertices@[p] == vertices@[i as int]);
                }
            }
            assert forall|x: usize| seen(vertices@, i + 1, x) <==> seen(vertices@, i as int, x) || x
                == node by {
                if seen(vertices@, i as int, x) {
                    let p = choose|p: int| 0 <= p < i && vertices@[p] == x;
                    assert(0 <= p < i + 1 && vertices@[p] == x);
                }
                if x == node {
                    assert(vertices@[i as int] == x);
                }
            }
            if in_degree == 0 {
                assert(queue@[before.len() as int] == node);
                assert forall|v: usize| queue@.contains(v) <==> before.contains(v) || v == node by {
                    if before.contains(v) {
                        let p = choose|p: int| 0 <= p < before.len() && before[p] == v;
                        assert(queue@[p] == v);
                    }
                    if queue@.contains(v) && v != node {
                        let p = choose|p: int| 0 <= p < queue@.len() && queue@[p] == v;
                        assert(before[p] == v);
                    }
                }
                assert forall|a: int, b: int|
                    0 <= a < queue@.len() && 0 <= b < queue@.len() && a != b implies queue@[a]
                    != queue@[b] by {
                    if a < before.len() && b < before.len() {
                    } else if a < before.len() {
                        assert(before.contains(before[a]));
                    } else {
                        assert(before.contains(before[b]));
                    }
                }
            }
            assert forall|v: usize|
                queue@.contains(v) <==> (seen(vertices@, i + 1, v) && in_degrees@[v] == 0) by {
                assert(before.contains(v) <==> (seen(vertices@, i as int, v) && in_degrees@[v]
                    == 0));
            }
        }
        i += 1;
    }
    proof {
        assert forall|v: usize| queue@.contains(v) <==> ready(in_degrees@, v) by {
            if in_degrees@.contains_key(v) {
                assert(vertices@.contains(v));
                let p = choose|p: int| 0 <= p < vertices@.len() && vertices@[p] == v;
                assert(0 <= p < i && vertices@[p] == v);
            }
            if seen(vertices@, i as int, v) {
                let p = choose|p: int| 0 <= p < i && vertices@[p] == v;
                assert(vertices@.contains(vertices@[p]));
            }
        }
    }
    queue
}

/// Sorts the vertices of `graph` so that each comes before all of its
/// successors, or finds that `graph` has a cycle.
///
/// Vertices whose predecessors are all sorted wait in a queue; sorting one
/// lowers the in-degree of each of its successors. Which of several valid
/// orders comes out depends on the order in which the map hands out its
/// keys.
pub fn topological_sort(graph: &HashMap<usize, Vec<usize>>) -> (r: Option<Vec<usize>>)
    ensures
        r is None <==> has_cycle(graph@),
        r matches Some(order) ==> topologically_sorted(graph@, order@),
{
    let mut in_degrees = count_in_degrees(graph);
    let mut queue = sources(&in_degrees);
    let mut sorted: Vec<usize> = Vec::new();
    proof {
        assert(unsorted_slots(graph@, sorted@) =~= slots(graph@));
        assert(sorted@ + queue@ =~= queue@);
    }
    let ghost vertices = in_degrees@.dom();
    loop
        invariant
            in_degrees@.dom() == vertices,
            settled(graph@, in_degrees@, sorted@, queue@, unsorted_slots(graph@, sorted@)),
        ensures
            in_degrees@.dom() == vertices,
            settled(graph@, in_degrees@, sorted@, Seq::empty(), unsorted_slots(graph@, sorted@)),
        decreases vertices.len() - sorted@.len(),
    {
        let ghost before_sorted = sorted@;
        let ghost before_queue = queue@;
        let node = match queue.pop_front() {
            Some(node) => node,
            None => {
                proof {
                    assert(queue@ =~= Seq::<usize>::empty());
                }
                break ;
            },
        };
        sorted.push(node);
        proof {
            lemma_pop(graph@, in_degrees@, before_sorted, before_queue);
            assert(sorted@[before_sorted.len() as int] == node);
        }
        if let Some(neighbors) = graph.get(&node) {
            let mut j: usize = 0;
            while j < neighbors.len()
                invariant
                    j <= neighbors.len(),
                    graph@.contains_key(node),
                    *neighbors == graph@[node],
                    sorted@ == before_sorted.push(node),
                    sorted@.contains(node),
                    in_degrees@.dom() == vertices,
                    settled(
                        graph@,
                        in_degrees@,
                        sorted@,
                        queue@,
                        remaining(graph@, sorted@, node, j as int),
                    ),
                decreases neighbors.len() - j,
            {
                let neighbor = neighbors[j];
                proof {
                    lemma_strike(graph@, in_degrees@, sorted@, queue@, node, j as int);
                }
                let entry = match in_degrees.get(&neighbor) {
                    Some(entry) => *entry,
                    None => { return None; },
                };
                let lowered = entry - 1;
                in_degrees.insert(neighbor, lowered);
                proof {
                    assert(in_degrees@.dom() =~= vertices);
                }
                if lowered == 0 {
                    queue.push_back(neighbor);
                }
                j += 1;
            }
            proof {
                lemma_struck_all(graph@, sorted@, node, j as int);
            }
        } else {
            proof {
                lemma_struck_all(graph@, sorted@, node, 0);
            }
        }
    }
    if sorted.len() == in_degrees.len() {
        proof {
            lemma_all_sorted(graph@, in_degrees@, sorted@);
            lemma_sorted_means_acyclic(graph@, sorted@);
        }
        Some(sorted)
    } else {
        proof {
            lemma_some_unsorted(graph@, in_degrees@, sorted@);
        }
        None
    }
}

/// A graph that can be sorted topologically has no cycle.
pub proof fn lemma_sorted_means_acyclic(graph: Map<usize, Vec<usize>>, order: Seq<usize>)
    requires
        topologically_sorted(graph, order),
    ensures
        !has_cycle(graph),
{
    if has_cycle(graph) {
        let w = choose|w: Seq<usize>| is_route(graph, w) && w.len() >= 2 && w[0] == w.last();
        lemma_route_climbs(graph, order, w, w.len() - 1);
        let a = order.index_of(w[0]);
        let b = order.index_of(w.last());
        assert(false);
    }
}

/// Along a route, positions in a topological order only grow.
proof fn lemma_route_climbs(graph: Map<usize, Vec<usize>>, order: Seq<usize>, w: Seq<usize>, t: int)
    requires
        topologically_sorted(graph, order),
        is_route(graph, w),
        w.len() >= 2,
        0 <= t < w.len(),
    ensures
        order.contains(w[0]),
        order.contains(w[t]),
        t > 0 ==> order.index_of(w[0]) < order.index_of(w[t]),
    decreases t,
{
    if t == 0 {
        assert(arc(graph, w[0], w[1]));
        assert(is_vertex(graph, w[0]));
    } else {
        lemma_route_climbs(graph, order, w, t - 1);
        assert(arc(graph, w[t - 1], w[t]));
        assert(is_vertex(graph, w[t]));
        let a = order.index_of(w[t - 1]);
        let b = order.index_of(w[t]);
        assert(a < b);
    }
}

} // verus!
