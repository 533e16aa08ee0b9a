//! What a trainable model offers to a training loop.
use vstd::prelude::*;

pub mod mlp;

use crate::fundamental::unit::Node;
use crate::fundamental::{well_formed, with_grad, Arithmetic, Graph, Unit, ZERO};

verus! {

/// `units` with the gradient of every node among `nodes` set to zero.
pub open spec fn zeroed(units: Seq<Node>, nodes: Seq<Unit>) -> Seq<Node> {
    Seq::new(
        units.len(),
        |i: int|
            if exists|j: int| 0 <= j < nodes.len() && (#[trigger] nodes[j]).0 == i {
                with_grad(units[i], ZERO)
            } else {
                units[i]
            },
    )
}

/// A source of initial weights, as bit patterns.
pub trait Weights {
    /// The next weight.
    fn draw(&mut self) -> u32;
}

/// `v` is a value that a draw from a source of type `W` can return.
pub open spec fn drawn<W: Weights>(v: u32) -> bool {
    exists|r: &mut W| call_ensures(W::draw, (r,), v)
}

/// A model whose parameters are nodes of a store.
pub trait Zeroable {
    /// The parameters, in the order in which [`Zeroable::parameters`] lists
    /// them.
    spec fn listed(&self) -> Seq<Unit>;

    /// Sets the gradient of every parameter to zero, whatever it was, and
    /// touches nothing else.
    fn zero_grad<K: Arithmetic>(&self, g: &mut Graph<K>)
        requires
            forall|j: int|
                0 <= j < self.listed().len() ==> old(g).contains(#[trigger] self.listed()[j]),
        ensures
            final(g)@ == zeroed(old(g)@, self.listed()),
            final(g).kernel() == old(g).kernel(),
            old(g).wf() ==> final(g).wf(),
    {
        let params = self.parameters();
        let mut i: usize = 0;
        proof {
            assert(g@ =~= zeroed(old(g)@, params@.take(0)));
        }
        while i < params.len()
            invariant
                i <= params.len(),
                params@ == self.listed(),
                forall|j: int| 0 <= j < params@.len() ==> old(g).contains(#[trigger] params@[j]),
                g@ == zeroed(old(g)@, params@.take(i as int)),
                g.kernel() == old(g).kernel(),
                old(g).wf() ==> g.wf(),
            decreases params.len() - i,
        {
            let p = params[i];
            let ghost before = g@;
            assert(old(g).contains(params@[i as int]));
            p.zero_grad(g);
            proof {
                let fewer = params@.take(i as int);
                let more = params@.take(i + 1);
                assert(more[i as int] == p);
                assert forall|n: int| 0 <= n < g@.len() implies g@[n] == zeroed(old(g)@, more)[n] by {
                    if exists|j: int| 0 <= j < fewer.len() && (#[trigger] fewer[j]).0 == n {
                        let j = choose|j: int| 0 <= j < fewer.len() && (#[trigger] fewer[j]).0 == n;
                        assert(more[j].0 == n);
                    }
                    if exists|j: int| 0 <= j < more.len() && (#[trigger] more[j]).0 == n {
                        let j = choose|j: int| 0 <= j < more.len() && (#[trigger] more[j]).0 == n;
                        if j < i {
                            assert(fewer[j].0 == n);
                        }
                    }
                }
                assert(g@ =~= zeroed(old(g)@, more));
            }
            i += 1;
        }
        proof {
            assert(params@.take(i as int) =~= params@);
        }
    }

    /// The nodes that training adjusts.
    fn parameters(&self) -> (params: Vec<Unit>)
        ensures
            params@ == self.listed(),
    ;
}

/// After the gradients of `nodes` are set to zero, each of them reads zero,
/// whatever it read before, and every other node is as it was.
pub proof fn lemma_zeroed_reads_zero(units: Seq<Node>, nodes: Seq<Unit>, u: Unit)
    requires
        u.0 < units.len(),
    ensures
        nodes.contains(u) ==> zeroed(units, nodes)[u.0 as int] == with_grad(units[u.0 as int], ZERO),
        nodes.contains(u) ==> zeroed(units, nodes)[u.0 as int].grad == ZERO,
        !nodes.contains(u) ==> zeroed(units, nodes)[u.0 as int] == units[u.0 as int],
{
    if nodes.contains(u) {
        let j = choose|j: int| 0 <= j < nodes.len() && nodes[j] == u;
        assert(nodes[j].0 == u.0);
    }
    if exists|j: int| 0 <= j < nodes.len() && (#[trigger] nodes[j]).0 == u.0 {
        let j = choose|j: int| 0 <= j < nodes.len() && (#[trigger] nodes[j]).0 == u.0;
        assert(nodes[j] == u);
    }
}

/// Setting the gradients of `nodes` to zero a second time changes nothing.
pub proof fn lemma_zeroed_twice(units: Seq<Node>, nodes: Seq<Unit>)
    ensures
        zeroed(zeroed(units, nodes), nodes) == zeroed(units, nodes),
{
    assert(zeroed(zeroed(units, nodes), nodes) =~= zeroed(units, nodes));
}

/// Setting gradients to zero keeps a store well formed.
pub proof fn lemma_zeroed_well_formed(units: Seq<Node>, nodes: Seq<Unit>)
    requires
        well_formed(units),
    ensures
        well_formed(zeroed(units, nodes)),
{
    assert forall|n: int| 0 <= n < units.len() implies #[trigger] crate::fundamental::sound_at(
        zeroed(units, nodes),
        n,
    ) by {
        assert(crate::fundamental::sound_at(units, n));
    }
}

} // verus!
