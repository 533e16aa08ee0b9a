//! Handles, operation tags and the store that owns every node.
use std::collections::HashSet;
use vstd::prelude::*;
use vstd::set_lib::lemma_len_subset;

pub mod op;
pub mod sort;
pub mod unit;
pub mod walk;

use unit::{Node, _Unit};

verus! {

broadcast use vstd::std_specs::hash::group_hash_axioms;

/// Bit pattern of `0.0`.
pub const ZERO: u32 = 0;

/// Bit pattern of `1.0`.
pub const ONE: u32 = 0x3f80_0000;

/// Bit pattern of `-1.0`.
pub const MINUS_ONE: u32 = 0xbf80_0000;

/// Bit pattern of `-0.0`.
pub const MINUS_ZERO: u32 = 0x8000_0000;

/// Bit pattern of positive infinity, the largest pattern that orders above zero.
pub const INFINITY: u32 = 0x7f80_0000;

/// Whether `bits` compares equal to zero: it is `0.0` or `-0.0`.
pub open spec fn is_zero(bits: u32) -> bool {
    bits == ZERO || bits == MINUS_ZERO
}

/// Whether `bits` compares greater than zero: the sign is clear, the number
/// is not zero and it is not a NaN.
pub open spec fn is_positive(bits: u32) -> bool {
    ZERO < bits <= INFINITY
}

/// Decides [`is_zero`].
pub fn compares_zero(bits: u32) -> (r: bool)
    ensures
        r == is_zero(bits),
{
    bits == ZERO || bits == MINUS_ZERO
}

/// Decides [`is_positive`].
pub fn compares_positive(bits: u32) -> (r: bool)
    ensures
        r == is_positive(bits),
{
    ZERO < bits && bits <= INFINITY
}

/// The rounding arithmetic that the engine is run with.
///
/// Arguments and results are bit patterns. Nothing is assumed of an
/// implementation: contracts speak of a result only as "what `sum` returned
/// for these two arguments", through [`is_sum`] and its siblings.
pub trait Arithmetic {
    /// `a + b`.
    fn sum(&self, a: u32, b: u32) -> u32;

    /// `a - b`.
    fn difference(&self, a: u32, b: u32) -> u32;

    /// `a * b`.
    fn product(&self, a: u32, b: u32) -> u32;

    /// `base` raised to `exponent`.
    fn power(&self, base: u32, exponent: u32) -> u32;

    /// The hyperbolic tangent of `a`.
    fn tanh(&self, a: u32) -> u32;
}

/// `r` is a value that `k.sum(a, b)` can return.
pub open spec fn is_sum<K: Arithmetic>(k: &K, a: u32, b: u32, r: u32) -> bool {
    call_ensures(K::sum, (k, a, b), r)
}

/// `r` is a value that `k.difference(a, b)` can return.
pub open spec fn is_difference<K: Arithmetic>(k: &K, a: u32, b: u32, r: u32) -> bool {
    call_ensures(K::difference, (k, a, b), r)
}

/// `r` is a value that `k.product(a, b)` can return.
pub open spec fn is_product<K: Arithmetic>(k: &K, a: u32, b: u32, r: u32) -> bool {
    call_ensures(K::product, (k, a, b), r)
}

/// `r` is a value that `k.power(base, exponent)` can return.
pub open spec fn is_power<K: Arithmetic>(k: &K, base: u32, exponent: u32, r: u32) -> bool {
    call_ensures(K::power, (k, base, exponent), r)
}

/// `r` is a value that `k.tanh(a)` can return.
pub open spec fn is_tanh<K: Arithmetic>(k: &K, a: u32, r: u32) -> bool {
    call_ensures(K::tanh, (k, a), r)
}

/// A node of the graph, named by its position in the store that owns it.
#[derive(Clone, Copy, Debug, PartialEq, Eq, Hash, Structural)]
pub struct Unit(pub usize);

impl Unit {
    /// Stores the record `u` as the newest node of `g` and names it. The
    /// children of `u` must be nodes of `g` or `u` itself, and the operands
    /// of its operation must be its first children and nodes of `g`.
    ///
    /// The node keeps the tag that `u` was made with where no node of `g`
    /// carries it yet, and gets the least tag that none carries otherwise: no
    /// two nodes of a store ever carry the same tag.
    pub fn new<K: Arithmetic>(g: &mut Graph<K>, u: _Unit) -> (r: Unit)
        requires
            old(g).wf(),
            sound_at(old(g)@.push(u@), old(g)@.len() as int),
        ensures
            r.0 == old(g)@.len(),
            final(g)@ == old(g)@.push(with_id(u@, final(g)@[r.0 as int].id)),
            !tags(old(g)@).contains(final(g)@[r.0 as int].id),
            !tags(old(g)@).contains(u@.id) ==> final(g)@[r.0 as int].id == u@.id,
            tags(old(g)@).contains(u@.id) ==> forall|t: usize|
                t < final(g)@[r.0 as int].id ==> tags(old(g)@).contains(t),
            final(g).kernel() == old(g).kernel(),
            final(g).wf(),
    {
        g.insert(u)
    }

    /// A new leaf of `g` with the given value.
    pub fn from<K: Arithmetic>(g: &mut Graph<K>, data: u32) -> (u: Unit)
        requires
            old(g).wf(),
        ensures
            u.0 == old(g)@.len(),
            final(g)@.len() == old(g)@.len() + 1,
            final(g)@.subrange(0, old(g)@.len() as int) == old(g)@,
            final(g)@[u.0 as int].data == data,
            final(g)@[u.0 as int].grad == ZERO,
            final(g)@[u.0 as int].operation is None,
            final(g)@[u.0 as int].children.len() == 0,
            final(g).kernel() == old(g).kernel(),
            final(g).wf(),
    {
        unit::new_unit(g, data)
    }

    /// The value of the node.
    pub fn data<K: Arithmetic>(&self, g: &Graph<K>) -> (bits: u32)
        requires
            g.contains(*self),
        ensures
            bits == g@[self.0 as int].data,
    {
        g.unit(self).data
    }

    /// The gradient accumulated in the node.
    pub fn grad<K: Arithmetic>(&self, g: &Graph<K>) -> (bits: u32)
        requires
            g.contains(*self),
        ensures
            bits == g@[self.0 as int].grad,
    {
        g.unit(self).grad
    }

    /// Sets the gradient of the node to zero.
    pub fn zero_grad<K: Arithmetic>(&self, g: &mut Graph<K>)
        requires
            old(g).contains(*self),
        ensures
            final(g)@ == old(g)@.update(self.0 as int, with_grad(old(g)@[self.0 as int], ZERO)),
            final(g).kernel() == old(g).kernel(),
            old(g).wf() ==> final(g).wf(),
    {
        g.set_grad(self, ZERO);
    }

    /// `data += learning_rate * grad`, each operation one call of the
    /// arithmetic of `g`.
    pub fn adjust<K: Arithmetic>(&self, g: &mut Graph<K>, learning_rate: u32)
        requires
            old(g).contains(*self),
        ensures
            exists|step: u32, moved: u32|
                #[trigger] is_product(
                    &old(g).kernel(),
                    learning_rate,
                    old(g)@[self.0 as int].grad,
                    step,
                ) && #[trigger] is_sum(&old(g).kernel(), old(g)@[self.0 as int].data, step, moved)
                    && final(g)@ == old(g)@.update(
                    self.0 as int,
                    with_data(old(g)@[self.0 as int], moved),
                ),
            final(g).kernel() == old(g).kernel(),
            old(g).wf() ==> final(g).wf(),
    {
        let step = g.arithmetic().product(learning_rate, g.unit(self).grad);
        let moved = g.arithmetic().sum(g.unit(self).data, step);
        assert(is_product(&g.kernel(), learning_rate, g@[self.0 as int].grad, step));
        assert(is_sum(&g.kernel(), g@[self.0 as int].data, step, moved));
        g.set_data(self, moved);
    }
}

/// How a node was derived, with the operands it was derived from.
#[derive(Clone, Copy, Debug)]
pub enum Operation {
    Add(Unit, Unit),
    Mul(Unit, Unit),
    Sub(Unit, Unit),
    Div(Unit, Unit),
    Tanh(Unit),
    ReLU(Unit),
    /// The exponent is a plain number (its bit pattern), not a node.
    Pow(Unit, u32),
}

impl Operation {
    /// The operand nodes, in the order in which they were given.
    pub open spec fn operands(self) -> Seq<Unit> {
        match self {
            Operation::Add(a, b) => seq![a, b],
            Operation::Mul(a, b) => seq![a, b],
            Operation::Sub(a, b) => seq![a, b],
            Operation::Div(a, b) => seq![a, b],
            Operation::Tanh(x) => seq![x],
            Operation::ReLU(x) => seq![x],
            Operation::Pow(a, _) => seq![a],
        }
    }

    /// The tag's name as a sequence of characters.
    pub open spec fn label(self) -> Seq<char> {
        match self {
            Operation::Add(_, _) => "Add"@,
            Operation::Mul(_, _) => "Mul"@,
            Operation::Sub(_, _) => "Sub"@,
            Operation::Div(_, _) => "Div"@,
            Operation::Tanh(_) => "Tanh"@,
            Operation::ReLU(_) => "ReLU"@,
            Operation::Pow(_, _) => "Pow"@,
        }
    }

    /// The tag's name, without its operands.
    pub fn name(&self) -> (s: String)
        ensures
            s@ == self.label(),
    {
        match self {
            Operation::Add(_, _) => "Add".to_owned(),
            Operation::Mul(_, _) => "Mul".to_owned(),
            Operation::Sub(_, _) => "Sub".to_owned(),
            Operation::Div(_, _) => "Div".to_owned(),
            Operation::Tanh(_) => "Tanh".to_owned(),
            Operation::ReLU(_) => "ReLU".to_owned(),
            Operation::Pow(_, _) => "Pow".to_owned(),
        }
    }
}

/// A division whose divisor compares equal to zero.
#[derive(Clone, Copy, Debug, PartialEq, Eq)]
pub struct DivisionByZero;

/// A backward pass whose root reaches a node that reaches itself.
#[derive(Clone, Copy, Debug, PartialEq, Eq)]
pub struct CyclicGraph;

/// What must hold of the node at position `n`: every child is in the store,
/// and the operands of its operation are its first children and were
/// recorded before it.
pub open spec fn sound_at(units: Seq<Node>, n: int) -> bool {
    let u = units[n];
    &&& forall|j: int| 0 <= j < u.children.len() ==> (#[trigger] u.children[j]).0 < units.len()
    &&& u.operands().len() <= u.children.len()
    &&& forall|j: int|
        0 <= j < u.operands().len() ==> (#[trigger] u.operands()[j]) == u.children[j]
            && u.operands()[j].0 < n
}

/// Every node of the store is sound.
pub open spec fn well_formed(units: Seq<Node>) -> bool {
    forall|n: int| 0 <= n < units.len() ==> #[trigger] sound_at(units, n)
}

/// The tags of the nodes, by position.
pub open spec fn tags(units: Seq<Node>) -> Seq<usize> {
    Seq::new(units.len(), |i: int| units[i].id)
}

/// No two nodes carry the same tag.
pub open spec fn distinct_tags(units: Seq<Node>) -> bool {
    tags(units).no_duplicates()
}

/// `u` with its tag replaced.
pub open spec fn with_id(u: Node, id: usize) -> Node {
    Node { id, ..u }
}

/// Two nodes of a store whose tags are distinct carry different tags.
pub proof fn lemma_tags_differ(units: Seq<Node>, a: Unit, b: Unit)
    requires
        distinct_tags(units),
        a.0 < units.len(),
        b.0 < units.len(),
        a != b,
    ensures
        units[a.0 as int].id != units[b.0 as int].id,
{
    assert(tags(units)[a.0 as int] != tags(units)[b.0 as int]);
}

/// Where every tag up to `c` is among distinct tags, there are more than
/// `c` of them.
proof fn lemma_low_tags_fit(ids: Seq<usize>, c: usize)
    requires
        ids.no_duplicates(),
        forall|x: usize| x <= c ==> ids.contains(x),
    ensures
        c + 1 <= ids.len(),
{
    let low = Seq::new((c + 1) as nat, |i: int| i as usize);
    assert(low.no_duplicates());
    low.unique_seq_to_set();
    ids.unique_seq_to_set();
    vstd::seq_lib::seq_to_set_is_finite(ids);
    assert(low.to_set().subset_of(ids.to_set())) by {
        assert forall|x: usize| low.to_set().contains(x) implies ids.to_set().contains(x) by {
            assert(low.contains(x));
            let i = choose|i: int| 0 <= i < low.len() && low[i] == x;
            assert(x <= c);
            assert(ids.contains(x));
        }
    }
    lemma_len_subset(low.to_set(), ids.to_set());
}

/// `u` with its gradient replaced.
pub open spec fn with_grad(u: Node, grad: u32) -> Node {
    Node { grad, ..u }
}

/// `u` with its value replaced.
pub open spec fn with_data(u: Node, data: u32) -> Node {
    Node { data, ..u }
}

/// `u` with one more child.
pub open spec fn with_child(u: Node, child: Unit) -> Node {
    Node { children: u.children.push(child), ..u }
}

/// The store: it owns every node and the arithmetic they are computed with.
pub struct Graph<K> {
    units: Vec<_Unit>,
    taken: HashSet<usize>,
    kernel: K,
}

impl<K: Arithmetic> Graph<K> {
    /// The nodes, by position.
    pub closed spec fn view(&self) -> Seq<Node> {
        self.units@.map_values(|u: _Unit| u@)
    }

    /// The arithmetic the store was made with.
    pub closed spec fn kernel(&self) -> K {
        self.kernel
    }

    /// The store knows which tags are taken: those of its nodes.
    pub closed spec fn indexed(&self) -> bool {
        self.taken@ == tags(self@).to_set()
    }

    /// The store's invariant: every node is sound, no two nodes carry the
    /// same tag, and the store knows the tags that are taken.
    pub open spec fn wf(&self) -> bool {
        well_formed(self@) && distinct_tags(self@) && self.indexed()
    }

    /// Whether `u` names a node of this store.
    pub open spec fn contains(&self, u: Unit) -> bool {
        u.0 < self@.len()
    }

    /// The nodes of a store can be counted by a machine word.
    pub proof fn lemma_countable(&self)
        ensures
            self@.len() <= usize::MAX,
    {
        assert(self.units@.len() == self.units.len());
    }

    /// An empty store.
    pub fn new(kernel: K) -> (g: Self)
        ensures
            g@.len() == 0,
            g.kernel() == kernel,
            g.wf(),
    {
        let g = Graph { units: Vec::new(), taken: HashSet::new(), kernel };
        proof {
            assert(tags(g@).to_set() =~= Set::<usize>::empty()) by {
                assert forall|t: usize| !tags(g@).to_set().contains(t) by {
                    if tags(g@).contains(t) {
                        let i = choose|i: int| 0 <= i < tags(g@).len() && tags(g@)[i] == t;
                    }
                }
            }
        }
        g
    }

    /// The least tag that no node of the store carries.
    fn free_tag(&self) -> (t: usize)
        requires
            self.wf(),
        ensures
            !tags(self@).contains(t),
            forall|x: usize| x < t ==> tags(self@).contains(x),
    {
        let mut c: usize = 0;
        while self.taken.contains(&c)
            invariant
                self.wf(),
                forall|x: usize| x < c ==> tags(self@).contains(x),
            decreases self@.len() - c,
        {
            proof {
                assert(tags(self@).contains(c));
                lemma_low_tags_fit(tags(self@), c);
                self.lemma_countable();
            }
            c += 1;
        }
        c
    }

    /// The number of nodes.
    pub fn len(&self) -> (n: usize)
        ensures
            n == self@.len(),
    {
        self.units.len()
    }

    /// The record of `u`.
    pub fn unit(&self, u: &Unit) -> (r: &_Unit)
        requires
            self.contains(*u),
        ensures
            r@ == self@[u.0 as int],
    {
        &self.units[u.0]
    }

    /// The arithmetic.
    pub fn arithmetic(&self) -> (k: &K)
        ensures
            *k == self.kernel(),
    {
        &self.kernel
    }

    /// Stores `record` as the newest node and hands out its handle. The
    /// node keeps the tag of `record` where no node of the store carries it,
    /// and gets the least tag that none carries otherwise.
    pub(crate) fn insert(&mut self, record: _Unit) -> (u: Unit)
        requires
            old(self).wf(),
            sound_at(old(self)@.push(record@), old(self)@.len() as int),
        ensures
            u.0 == old(self)@.len(),
            final(self)@ == old(self)@.push(with_id(record@, final(self)@[u.0 as int].id)),
            !tags(old(self)@).contains(final(self)@[u.0 as int].id),
            !tags(old(self)@).contains(record@.id) ==> final(self)@[u.0 as int].id == record@.id,
            tags(old(self)@).contains(record@.id) ==> forall|t: usize|
                t < final(self)@[u.0 as int].id ==> tags(old(self)@).contains(t),
            final(self).kernel() == old(self).kernel(),
            final(self).wf(),
    {
        let u = Unit(self.units.len());
        let mut record = record;
        if self.taken.contains(&record._id) {
            record._id = self.free_tag();
        }
        let ghost stored = record@;
        self.taken.insert(record._id);
        self.units.push(record);
        proof {
            let before = old(self)@;
            assert(self@ =~= before.push(stored));
            assert forall|n: int| 0 <= n < self@.len() implies #[trigger] sound_at(self@, n) by {
                if n < before.len() {
                    assert(sound_at(before, n));
                }
            }
            assert(tags(self@) =~= tags(before).push(stored.id));
            assert(tags(self@).no_duplicates()) by {
                assert forall|i: int, j: int|
                    0 <= i < tags(self@).len() && 0 <= j < tags(self@).len() && i != j implies tags(
                    self@,
                )[i] != tags(self@)[j] by {
                    if i < before.len() && j < before.len() {
                        assert(tags(before)[i] != tags(before)[j]);
                    } else if i < before.len() {
                        assert(tags(before).contains(tags(before)[i]));
                    } else {
                        assert(tags(before).contains(tags(before)[j]));
                    }
                }
            }
            assert(tags(self@).to_set() =~= tags(before).to_set().insert(stored.id)) by {
                assert forall|t: usize|
                    tags(self@).to_set().contains(t) <==> tags(before).to_set().insert(
                        stored.id,
                    ).contains(t) by {
                    if tags(before).contains(t) {
                        let i = choose|i: int| 0 <= i < tags(before).len() && tags(before)[i] == t;
                        assert(tags(self@)[i] == t);
                    }
                    if t == stored.id {
                        assert(tags(self@)[before.len() as int] == t);
                    }
                    if tags(self@).contains(t) && t != stored.id {
                        let i = choose|i: int| 0 <= i < tags(self@).len() && tags(self@)[i] == t;
                        assert(tags(before)[i] == t);
                    }
                }
            }
        }
        u
    }

    /// What keeps the tags keeps the invariant on them.
    proof fn lemma_tags_kept(&self, before: &Self)
        requires
            before.wf(),
            before.taken == self.taken,
            tags(self@) == tags(before@),
            well_formed(self@),
        ensures
            self.wf(),
    {
    }

    /// Replaces the gradient of `u`.
    pub fn set_grad(&mut self, u: &Unit, grad: u32)
        requires
            old(self).contains(*u),
        ensures
            final(self)@ == old(self)@.update(u.0 as int, with_grad(old(self)@[u.0 as int], grad)),
            final(self).kernel() == old(self).kernel(),
            old(self).wf() ==> final(self).wf(),
    {
        self.units[u.0].grad = grad;
        proof {
            assert(self@ =~= old(self)@.update(u.0 as int, with_grad(old(self)@[u.0 as int], grad)));
            if old(self).wf() {
                assert forall|n: int| 0 <= n < self@.len() implies #[trigger] sound_at(self@, n) by {
                    assert(sound_at(old(self)@, n));
                }
                assert(tags(self@) =~= tags(old(self)@));
                self.lemma_tags_kept(old(self));
            }
        }
    }

    /// Replaces the value of `u`.
    pub(crate) fn set_data(&mut self, u: &Unit, data: u32)
        requires
            old(self).contains(*u),
        ensures
            final(self)@ == old(self)@.update(u.0 as int, with_data(old(self)@[u.0 as int], data)),
            final(self).kernel() == old(self).kernel(),
            old(self).wf() ==> final(self).wf(),
    {
        self.units[u.0].data = data;
        proof {
            assert(self@ =~= old(self)@.update(u.0 as int, with_data(old(self)@[u.0 as int], data)));
            if old(self).wf() {
                assert forall|n: int| 0 <= n < self@.len() implies #[trigger] sound_at(self@, n) by {
                    assert(sound_at(old(self)@, n));
                }
                assert(tags(self@) =~= tags(old(self)@));
                self.lemma_tags_kept(old(self));
            }
        }
    }

    /// Records `child` as one more child of `parent`, after those it has.
    /// The operation of `parent` and its operands stay as they are, so this
    /// is a bare reference: it is how a graph that is not a DAG comes about.
    pub fn link(&mut self, parent: &Unit, child: &Unit)
        requires
            old(self).contains(*parent),
            old(self).contains(*child),
        ensures
            final(self)@ == old(self)@.update(
                parent.0 as int,
                with_child(old(self)@[parent.0 as int], *child),
            ),
            final(self).kernel() == old(self).kernel(),
            old(self).wf() ==> final(self).wf(),
    {
        self.units[parent.0].children.push(*child);
        proof {
            assert(self@ =~= old(self)@.update(
                parent.0 as int,
                with_child(old(self)@[parent.0 as int], *child),
            ));
            if old(self).wf() {
                assert forall|n: int| 0 <= n < self@.len() implies #[trigger] sound_at(self@, n) by {
                    assert(sound_at(old(self)@, n));
                }
                assert(tags(self@) =~= tags(old(self)@));
                self.lemma_tags_kept(old(self));
            }
        }
    }
}

} // verus!
