//! The node record.
use vstd::prelude::*;

use super::{
    compares_positive, is_difference, is_positive, is_power, is_product, is_sum, is_tanh, sound_at,
    well_formed, with_grad, Arithmetic, Graph, Operation, Unit, ONE, ZERO,
};

verus! {

/// What a node is, as a mathematical value.
pub struct Node {
    /// The tag, which no other node of the same store carries.
    pub id: usize,
    /// The value, as a bit pattern.
    pub data: u32,
    /// The gradient accumulated so far, as a bit pattern.
    pub grad: u32,
    /// How the value was derived; `None` for a leaf.
    pub operation: Option<Operation>,
    /// The nodes that a traversal goes on to from this one: the operands
    /// of the operation, and behind them whatever was linked in.
    pub children: Seq<Unit>,
}

impl Node {
    /// The operands of the node's operation; none for a leaf.
    pub open spec fn operands(self) -> Seq<Unit> {
        match self.operation {
            Some(op) => op.operands(),
            None => Seq::empty(),
        }
    }
}

/// One scalar of the computation with the record of how it was derived.
///
/// A record is made with a tag `_id` drawn at random. The store that takes
/// the record in keeps that tag where none of its nodes carries it, and
/// replaces it by the least tag that none carries otherwise: the nodes of a
/// store carry pairwise distinct tags, which never change. Besides its tag
/// a node has the [`Unit`] that the store hands out for it, its position.
pub struct _Unit {
    pub _id: usize,
    pub data: u32,
    pub grad: u32,
    pub operation: Option<Operation>,
    pub children: Vec<Unit>,
}

/// Draws the tag of a new record with `rand::random::<usize>()`, which
/// samples the thread-local generator. Nothing is claimed of the number
/// drawn: two draws may give the same number, and what a store does with a
/// tag is proved for every number.
#[verifier::external_body]
fn random_id() -> (id: usize) {
    rand::random()
}

impl View for _Unit {
    type V = Node;

    open spec fn view(&self) -> Node {
        Node {
            id: self._id,
            data: self.data,
            grad: self.grad,
            operation: self.operation,
            children: self.children@,
        }
    }
}

/// A new leaf of `g` with the given value.
pub fn new_unit<K: Arithmetic>(g: &mut Graph<K>, data: u32) -> (u: Unit)
    requires
        old(g).wf(),
    ensures
        u.0 == old(g)@.len(),
        final(g)@.len() == old(g)@.len() + 1,
        final(g)@.subrange(0, old(g)@.len() as int) == old(g)@,
        final(g)@[u.0 as int].data == data,
        final(g)@[u.0 as int].grad == ZERO,
        final(g)@[u.0 as int].operation is None,
        final(g)@[u.0 as int].children.len() == 0,
        final(g).kernel() == old(g).kernel(),
        final(g).wf(),
{
    Unit::new(g, _Unit::from(data))
}

/// `target.grad += amount`: `after` is `before` but for the gradient of
/// `target`, which is a sum of its old gradient and `amount`.
pub open spec fn credited<K: Arithmetic>(
    k: &K,
    before: Seq<Node>,
    target: Unit,
    amount: u32,
    after: Seq<Node>,
) -> bool {
    exists|s: u32|
        #[trigger] is_sum(k, before[target.0 as int].grad, amount, s) && after == before.update(
            target.0 as int,
            with_grad(before[target.0 as int], s),
        )
}

/// `target.grad -= amount`.
pub open spec fn debited<K: Arithmetic>(
    k: &K,
    before: Seq<Node>,
    target: Unit,
    amount: u32,
    after: Seq<Node>,
) -> bool {
    exists|s: u32|
        #[trigger] is_difference(k, before[target.0 as int].grad, amount, s) && after
            == before.update(target.0 as int, with_grad(before[target.0 as int], s))
}

/// The factor that a rectifier lets through: one where its own value is
/// positive, zero elsewhere.
pub open spec fn gate(data: u32) -> u32 {
    if is_positive(data) {
        ONE
    } else {
        ZERO
    }
}

/// `a.grad += g`, then `b.grad += g`.
pub open spec fn add_rule<K: Arithmetic>(
    k: &K,
    before: Seq<Node>,
    a: Unit,
    b: Unit,
    g: u32,
    after: Seq<Node>,
) -> bool {
    exists|mid: Seq<Node>|
        #[trigger] credited(k, before, a, g, mid) && credited(k, mid, b, g, after)
}

/// `a.grad += g * b.data`, then `b.grad += g * a.data`.
pub open spec fn mul_rule<K: Arithmetic>(
    k: &K,
    before: Seq<Node>,
    a: Unit,
    b: Unit,
    g: u32,
    after: Seq<Node>,
) -> bool {
    exists|mid: Seq<Node>, p: u32, q: u32|
        is_product(k, g, before[b.0 as int].data, p) && #[trigger] credited(k, before, a, p, mid)
            && #[trigger] is_product(k, g, before[a.0 as int].data, q) && credited(
            k,
            mid,
            b,
            q,
            after,
        )
}

/// `a.grad += g`, then `b.grad -= g`.
pub open spec fn sub_rule<K: Arithmetic>(
    k: &K,
    before: Seq<Node>,
    a: Unit,
    b: Unit,
    g: u32,
    after: Seq<Node>,
) -> bool {
    exists|mid: Seq<Node>|
        #[trigger] credited(k, before, a, g, mid) && debited(k, mid, b, g, after)
}

/// `x.grad += g * (1 - tanh(x.data) * tanh(x.data))`.
pub open spec fn tanh_rule<K: Arithmetic>(
    k: &K,
    before: Seq<Node>,
    x: Unit,
    g: u32,
    after: Seq<Node>,
) -> bool {
    exists|t: u32, tt: u32, d: u32, c: u32|
        #[trigger] is_tanh(k, before[x.0 as int].data, t) && #[trigger] is_product(k, t, t, tt)
            && #[trigger] is_difference(k, ONE, tt, d) && #[trigger] is_product(k, g, d, c)
            && credited(k, before, x, c, after)
}

/// `x.grad += g * gate(data)`, where `data` is the value of the rectifier
/// node itself.
pub open spec fn relu_rule<K: Arithmetic>(
    k: &K,
    before: Seq<Node>,
    x: Unit,
    g: u32,
    data: u32,
    after: Seq<Node>,
) -> bool {
    exists|c: u32| #[trigger] is_product(k, g, gate(data), c) && credited(k, before, x, c, after)
}

/// `a.grad += (g * e) * a.data ^ (e - 1)`.
pub open spec fn pow_rule<K: Arithmetic>(
    k: &K,
    before: Seq<Node>,
    a: Unit,
    e: u32,
    g: u32,
    after: Seq<Node>,
) -> bool {
    exists|ge: u32, e1: u32, p: u32, c: u32|
        #[trigger] is_product(k, g, e, ge) && #[trigger] is_difference(k, e, ONE, e1)
            && #[trigger] is_power(k, before[a.0 as int].data, e1, p) && #[trigger] is_product(
            k,
            ge,
            p,
            c,
        ) && credited(k, before, a, c, after)
}

/// The accumulation rule of node `n`: `after` is what `before` becomes when
/// `n` hands its gradient on to the operands of its operation. Each `+`,
/// `-`, `*`, `^` and `tanh` in a rule is one call of the arithmetic `k`. A
/// leaf hands on nothing, and neither does a node tagged `Div`: a quotient
/// is built as a product with a power, and those two propagate.
pub open spec fn propagated<K: Arithmetic>(
    k: &K,
    before: Seq<Node>,
    n: int,
    after: Seq<Node>,
) -> bool {
    let g = before[n].grad;
    match before[n].operation {
        None => after == before,
        Some(Operation::Add(a, b)) => add_rule(k, before, a, b, g, after),
        Some(Operation::Mul(a, b)) => mul_rule(k, before, a, b, g, after),
        Some(Operation::Sub(a, b)) => sub_rule(k, before, a, b, g, after),
        Some(Operation::Div(_, _)) => after == before,
        Some(Operation::Tanh(x)) => tanh_rule(k, before, x, g, after),
        Some(Operation::ReLU(x)) => relu_rule(k, before, x, g, before[n].data, after),
        Some(Operation::Pow(a, e)) => pow_rule(k, before, a, e, g, after),
    }
}

/// The nodes of `order` hand their gradients on one after the other, the
/// first of `order` first: `after` is what `before` becomes.
pub open spec fn swept<K: Arithmetic>(
    k: &K,
    order: Seq<Unit>,
    before: Seq<Node>,
    after: Seq<Node>,
) -> bool
    decreases order.len(),
{
    if order.len() == 0 {
        after == before
    } else {
        exists|mid: Seq<Node>|
            swept(k, order.drop_last(), before, mid) && #[trigger] propagated(
                k,
                mid,
                order.last().0 as int,
                after,
            )
    }
}

/// `after` is `before` but for gradients: no node is added or removed, and
/// no value, operation, child or tag changes.
pub open spec fn same_but_gradients(before: Seq<Node>, after: Seq<Node>) -> bool {
    after.len() == before.len() && forall|i: int|
        0 <= i < before.len() ==> #[trigger] after[i] == with_grad(before[i], after[i].grad)
}

/// No node of `order` has `u` as an operand.
pub open spec fn fed_by_none(units: Seq<Node>, order: Seq<Unit>, u: Unit) -> bool {
    forall|i: int|
        0 <= i < order.len() ==> !(#[trigger] units[order[i].0 as int]).operands().contains(u)
}

/// Crediting a node changes the gradient of that node and nothing else.
pub proof fn lemma_credited_changes_one<K: Arithmetic>(
    k: &K,
    before: Seq<Node>,
    target: Unit,
    amount: u32,
    after: Seq<Node>,
)
    requires
        target.0 < before.len(),
        credited(k, before, target, amount, after) || debited(k, before, target, amount, after),
    ensures
        same_but_gradients(before, after),
        forall|u: Unit| u.0 < before.len() && u != target ==> after[u.0 as int] == before[u.0 as int],
{
}

/// A sum of a node with itself credits the node twice: the second
/// contribution is added to the first and does not replace it.
pub proof fn lemma_shared_operand_is_credited_twice<K: Arithmetic>(
    k: &K,
    before: Seq<Node>,
    a: Unit,
    g: u32,
    after: Seq<Node>,
)
    requires
        a.0 < before.len(),
        add_rule(k, before, a, a, g, after),
    ensures
        exists|once: u32, twice: u32|
            #[trigger] is_sum(k, before[a.0 as int].grad, g, once) && #[trigger] is_sum(
                k,
                once,
                g,
                twice,
            ) && after[a.0 as int].grad == twice,
{
    let mid = choose|mid: Seq<Node>|
        #[trigger] credited(k, before, a, g, mid) && credited(k, mid, a, g, after);
    let once = choose|s: u32|
        #[trigger] is_sum(k, before[a.0 as int].grad, g, s) && mid == before.update(
            a.0 as int,
            with_grad(before[a.0 as int], s),
        );
    let twice = choose|s: u32|
        #[trigger] is_sum(k, mid[a.0 as int].grad, g, s) && after == mid.update(
            a.0 as int,
            with_grad(mid[a.0 as int], s),
        );
    assert(is_sum(k, before[a.0 as int].grad, g, once) && is_sum(k, once, g, twice)
        && after[a.0 as int].grad == twice);
}

/// `same_but_gradients` holds of a store and itself, and of the first and
/// the last of three where it holds of both steps.
proof fn lemma_same_but_gradients_chains(first: Seq<Node>, second: Seq<Node>, third: Seq<Node>)
    requires
        same_but_gradients(first, second),
        same_but_gradients(second, third),
    ensures
        same_but_gradients(first, first),
        same_but_gradients(first, third),
        well_formed(first) ==> well_formed(second),
{
    assert forall|i: int| 0 <= i < first.len() implies #[trigger] third[i] == with_grad(
        first[i],
        third[i].grad,
    ) by {
        assert(second[i] == with_grad(first[i], second[i].grad));
    }
    if well_formed(first) {
        assert forall|n: int| 0 <= n < second.len() implies #[trigger] sound_at(second, n) by {
            assert(sound_at(first, n));
            assert(second[n] == with_grad(first[n], second[n].grad));
        }
    }
}

/// A node that hands its gradient on changes the gradients of its operands
/// and nothing else.
pub proof fn lemma_propagated_changes_operands<K: Arithmetic>(
    k: &K,
    before: Seq<Node>,
    n: int,
    after: Seq<Node>,
)
    requires
        0 <= n < before.len(),
        sound_at(before, n),
        propagated(k, before, n, after),
    ensures
        same_but_gradients(before, after),
        forall|u: Unit|
            u.0 < before.len() && !before[n].operands().contains(u) ==> after[u.0 as int]
                == before[u.0 as int],
{
    let g = before[n].grad;
    let ops = before[n].operands();
    match before[n].operation {
        Some(Operation::Add(a, b)) => {
            assert(ops[0] == a && ops[1] == b);
            let mid = choose|mid: Seq<Node>|
                #[trigger] credited(k, before, a, g, mid) && credited(k, mid, b, g, after);
            lemma_credited_changes_one(k, before, a, g, mid);
            lemma_credited_changes_one(k, mid, b, g, after);
            lemma_same_but_gradients_chains(before, mid, after);
        },
        Some(Operation::Sub(a, b)) => {
            assert(ops[0] == a && ops[1] == b);
            let mid = choose|mid: Seq<Node>|
                #[trigger] credited(k, before, a, g, mid) && debited(k, mid, b, g, after);
            lemma_credited_changes_one(k, before, a, g, mid);
            lemma_credited_changes_one(k, mid, b, g, after);
            lemma_same_but_gradients_chains(before, mid, after);
        },
        Some(Operation::Mul(a, b)) => {
            assert(ops[0] == a && ops[1] == b);
            let (mid, p, q) = choose|mid: Seq<Node>, p: u32, q: u32|
                is_product(k, g, before[b.0 as int].data, p) && #[trigger] credited(
                    k,
                    before,
                    a,
                    p,
                    mid,
                ) && #[trigger] is_product(k, g, before[a.0 as int].data, q) && credited(
                    k,
                    mid,
                    b,
                    q,
                    after,
                );
            lemma_credited_changes_one(k, before, a, p, mid);
            lemma_credited_changes_one(k, mid, b, q, after);
            lemma_same_but_gradients_chains(before, mid, after);
        },
        Some(Operation::Tanh(x)) => {
            assert(ops[0] == x);
            let (t, tt, d, c) = choose|t: u32, tt: u32, d: u32, c: u32|
                #[trigger] is_tanh(k, before[x.0 as int].data, t) && #[trigger] is_product(
                    k,
                    t,
                    t,
                    tt,
                ) && #[trigger] is_difference(k, ONE, tt, d) && #[trigger] is_product(k, g, d, c)
                    && credited(k, before, x, c, after);
            lemma_credited_changes_one(k, before, x, c, after);
        },
        Some(Operation::ReLU(x)) => {
            assert(ops[0] == x);
            let c = choose|c: u32| #[trigger]
                is_product(k, g, gate(before[n].data), c) && credited(k, before, x, c, after);
            lemma_credited_changes_one(k, before, x, c, after);
        },
        Some(Operation::Pow(a, e)) => {
            assert(ops[0] == a);
            let (ge, e1, p, c) = choose|ge: u32, e1: u32, p: u32, c: u32|
                #[trigger] is_product(k, g, e, ge) && #[trigger] is_difference(k, e, ONE, e1)
                    && #[trigger] is_power(k, before[a.0 as int].data, e1, p)
                    && #[trigger] is_product(k, ge, p, c) && credited(k, before, a, c, after);
            lemma_credited_changes_one(k, before, a, c, after);
        },
        _ => {},
    }
}

/// A sweep changes gradients only, and only of nodes that are an operand of
/// a node of the order.
pub proof fn lemma_swept_changes_operands<K: Arithmetic>(
    k: &K,
    order: Seq<Unit>,
    before: Seq<Node>,
    after: Seq<Node>,
)
    requires
        well_formed(before),
        forall|i: int| 0 <= i < order.len() ==> (#[trigger] order[i]).0 < before.len(),
        swept(k, order, before, after),
    ensures
        same_but_gradients(before, after),
        forall|u: Unit|
            u.0 < before.len() && fed_by_none(before, order, u) ==> after[u.0 as int]
                == before[u.0 as int],
    decreases order.len(),
{
    if order.len() > 0 {
        let mid = choose|mid: Seq<Node>|
            swept(k, order.drop_last(), before, mid) && #[trigger] propagated(
                k,
                mid,
                order.last().0 as int,
                after,
            );
        let n = order.last().0 as int;
        assert forall|i: int| 0 <= i < order.drop_last().len() implies (
        #[trigger] order.drop_last()[i]).0 < before.len() by {
            assert(order.drop_last()[i] == order[i]);
        }
        lemma_swept_changes_operands(k, order.drop_last(), before, mid);
        lemma_same_but_gradients_chains(before, mid, mid);
        assert(sound_at(mid, n));
        lemma_propagated_changes_operands(k, mid, n, after);
        lemma_same_but_gradients_chains(before, mid, after);
        assert(mid[n] == with_grad(before[n], mid[n].grad));
        assert forall|u: Unit| u.0 < before.len() && fed_by_none(before, order, u) implies after[u.0 as int]
            == before[u.0 as int] by {
            assert(!before[order[order.len() - 1].0 as int].operands().contains(u));
            assert forall|i: int| 0 <= i < order.drop_last().len() implies !(
            #[trigger] before[order.drop_last()[i].0 as int]).operands().contains(u) by {
                assert(order.drop_last()[i] == order[i]);
                assert(!before[order[i].0 as int].operands().contains(u));
            }
            assert(fed_by_none(before, order.drop_last(), u));
        }
    } else {
        assert(same_but_gradients(before, before));
    }
}

/// `target.grad += amount`.
fn credit<K: Arithmetic>(g: &mut Graph<K>, target: &Unit, amount: u32)
    requires
        old(g).wf(),
        old(g).contains(*target),
    ensures
        credited(&old(g).kernel(), old(g)@, *target, amount, final(g)@),
        final(g)@.len() == old(g)@.len(),
        final(g).kernel() == old(g).kernel(),
        final(g).wf(),
{
    let s = g.arithmetic().sum(g.unit(target).grad, amount);
    assert(is_sum(&g.kernel(), g@[target.0 as int].grad, amount, s));
    g.set_grad(target, s);
}

/// `target.grad -= amount`.
fn debit<K: Arithmetic>(g: &mut Graph<K>, target: &Unit, amount: u32)
    requires
        old(g).wf(),
        old(g).contains(*target),
    ensures
        debited(&old(g).kernel(), old(g)@, *target, amount, final(g)@),
        final(g)@.len() == old(g)@.len(),
        final(g).kernel() == old(g).kernel(),
        final(g).wf(),
{
    let s = g.arithmetic().difference(g.unit(target).grad, amount);
    assert(is_difference(&g.kernel(), g@[target.0 as int].grad, amount, s));
    g.set_grad(target, s);
}

impl _Unit {
    /// A record with the given value, operation and children, no gradient
    /// yet, and a tag drawn at random, of which nothing is known.
    pub fn new(data: u32, op: Option<Operation>, children: Vec<Unit>) -> (u: _Unit)
        ensures
            u@.data == data,
            u@.grad == ZERO,
            u@.operation == op,
            u@.children == children@,
    {
        _Unit { _id: random_id(), data, operation: op, children, grad: ZERO }
    }

    /// A leaf record: no operation and no children.
    pub fn from(data: u32) -> (u: _Unit)
        ensures
            u@.data == data,
            u@.grad == ZERO,
            u@.operation is None,
            u@.children.len() == 0,
    {
        _Unit { _id: random_id(), data, grad: ZERO, operation: None, children: Vec::new() }
    }

    /// The record's tag.
    pub fn id(&self) -> (id: usize)
        ensures
            id == self@.id,
    {
        self._id
    }

    /// Node `u` hands its gradient on to its operands, by the rule of its
    /// operation (see [`propagated`]). Gradients are added to, never
    /// assigned: an operand may be credited by many nodes in one pass.
    pub fn self_back_propagation<K: Arithmetic>(g: &mut Graph<K>, u: &Unit)
        requires
            old(g).wf(),
            old(g).contains(*u),
        ensures
            propagated(&old(g).kernel(), old(g)@, u.0 as int, final(g)@),
            final(g)@.len() == old(g)@.len(),
            final(g).kernel() == old(g).kernel(),
            final(g).wf(),
    {
        let grad = g.unit(u).grad;
        let data = g.unit(u).data;
        let operation = g.unit(u).operation;
        proof {
            assert(sound_at(g@, u.0 as int));
        }
        match operation {
            Some(Operation::Add(a, b)) => {
                assert(g@[u.0 as int].operands()[0] == a && g@[u.0 as int].operands()[1] == b);
                credit(g, &a, grad);
                credit(g, &b, grad);
                assert(add_rule(&old(g).kernel(), old(g)@, a, b, grad, g@));
            },
            Some(Operation::Mul(a, b)) => {
                assert(g@[u.0 as int].operands()[0] == a && g@[u.0 as int].operands()[1] == b);
                let p = g.arithmetic().product(grad, g.unit(&b).data);
                assert(is_product(&g.kernel(), grad, g@[b.0 as int].data, p));
                credit(g, &a, p);
                let q = g.arithmetic().product(grad, g.unit(&a).data);
                assert(is_product(&g.kernel(), grad, old(g)@[a.0 as int].data, q));
                credit(g, &b, q);
                assert(mul_rule(&old(g).kernel(), old(g)@, a, b, grad, g@));
            },
            Some(Operation::Tanh(x)) => {
                assert(g@[u.0 as int].operands()[0] == x);
                let t = g.arithmetic().tanh(g.unit(&x).data);
                let tt = g.arithmetic().product(t, t);
                let d = g.arithmetic().difference(ONE, tt);
                let c = g.arithmetic().product(grad, d);
                assert(is_tanh(&g.kernel(), g@[x.0 as int].data, t));
                assert(is_product(&g.kernel(), t, t, tt));
                assert(is_difference(&g.kernel(), ONE, tt, d));
                assert(is_product(&g.kernel(), grad, d, c));
                credit(g, &x, c);
                assert(tanh_rule(&old(g).kernel(), old(g)@, x, grad, g@));
            },
            Some(Operation::ReLU(x)) => {
                assert(g@[u.0 as int].operands()[0] == x);
                let relu = if compares_positive(data) {
                    ONE
                } else {
                    ZERO
                };
                let c = g.arithmetic().product(grad, relu);
                assert(is_product(&g.kernel(), grad, gate(data), c));
                credit(g, &x, c);
                assert(relu_rule(&old(g).kernel(), old(g)@, x, grad, data, g@));
            },
            Some(Operation::Pow(a, e)) => {
                assert(g@[u.0 as int].operands()[0] == a);
                let ge = g.arithmetic().product(grad, e);
                let e1 = g.arithmetic().difference(e, ONE);
                let p = g.arithmetic().power(g.unit(&a).data, e1);
                let c = g.arithmetic().product(ge, p);
                assert(is_product(&g.kernel(), grad, e, ge));
                assert(is_difference(&g.kernel(), e, ONE, e1));
                assert(is_power(&g.kernel(), g@[a.0 as int].data, e1, p));
                assert(is_product(&g.kernel(), ge, p, c));
                credit(g, &a, c);
                assert(pow_rule(&old(g).kernel(), old(g)@, a, e, grad, g@));
            },
            Some(Operation::Sub(a, b)) => {
                assert(g@[u.0 as int].operands()[0] == a && g@[u.0 as int].operands()[1] == b);
                credit(g, &a, grad);
                debit(g, &b, grad);
                assert(sub_rule(&old(g).kernel(), old(g)@, a, b, grad, g@));
            },
            _ => {},
        }
    }
}

} // verus!
