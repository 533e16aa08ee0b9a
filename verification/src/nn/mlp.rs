//! Neurons, layers and networks made of nodes.
use vstd::prelude::*;

use super::{drawn, Weights, Zeroable};
use crate::fundamental::op::{derived_by, extends, rectified};
use crate::fundamental::unit::{new_unit, Node};
use crate::fundamental::{is_product, is_sum, Arithmetic, Graph, Operation, Unit, ZERO};

verus! {

/// `node` is a leaf that has received no gradient.
pub open spec fn is_fresh_leaf(node: Node) -> bool {
    node.operation is None && node.children.len() == 0 && node.grad == ZERO
}

/// Every node of `nodes` is among the first `n` of a store.
pub open spec fn all_within(nodes: Seq<Unit>, n: nat) -> bool {
    forall|j: int| 0 <= j < nodes.len() ==> (#[trigger] nodes[j]).0 < n
}

/// A weighted sum of inputs and a bias, with an optional rectifier.
#[derive(Debug)]
pub struct Neuron {
    pub weights: Vec<Unit>,
    pub bias: Unit,
    pub activation: bool,
}

impl Neuron {
    /// The neuron has `input` weights, which stand in a store from position
    /// `start` on, with the bias behind them.
    pub open spec fn seated(&self, start: int, input: int, activation: bool) -> bool {
        &&& self.weights@.len() == input
        &&& forall|i: int| 0 <= i < input ==> (#[trigger] self.weights@[i]).0 == start + i
        &&& self.bias.0 == start + input
        &&& self.activation == activation
    }

    /// Every weight holds, in `units`, a value drawn from a source of type
    /// `W`.
    pub open spec fn sampled<W: Weights>(&self, units: Seq<Node>) -> bool {
        forall|i: int|
            0 <= i < self.weights@.len() ==> drawn::<W>(
                units[(#[trigger] self.weights@[i]).0 as int].data,
            )
    }

    /// The number of inputs that are weighted: inputs and weights are
    /// paired, and what is left over of either is ignored.
    pub open spec fn arity(&self, inputs: int) -> int {
        if inputs < self.weights@.len() {
            inputs
        } else {
            self.weights@.len() as int
        }
    }

    /// The number of nodes that an evaluation records.
    pub open spec fn cost(&self, inputs: int) -> int {
        2 * self.arity(inputs) + if self.activation {
            1int
        } else {
            0
        }
    }

    /// The running sum after `i` pairs, in an evaluation that records its
    /// nodes from position `start`: the bias, then every second node.
    pub open spec fn partial(&self, start: int, i: int) -> Unit {
        if i <= 0 {
            self.bias
        } else {
            Unit((start + 2 * i - 1) as usize)
        }
    }

    /// The node that an evaluation returns.
    pub open spec fn output(&self, inputs: int, start: int) -> Unit {
        if self.activation {
            Unit((start + 2 * self.arity(inputs)) as usize)
        } else {
            self.partial(start, self.arity(inputs))
        }
    }

    /// What an evaluation records for the pair `i`, at the positions
    /// `start + 2 * i` and the next: the product of input and weight, then
    /// the sum of the running sum and that product.
    pub open spec fn paired<K: Arithmetic>(
        &self,
        k: &K,
        units: Seq<Node>,
        input: Seq<Unit>,
        start: int,
        i: int,
    ) -> bool {
        let p = start + 2 * i;
        &&& derived_by(units[p], Operation::Mul(input[i], self.weights@[i]))
        &&& is_product(
            k,
            units[input[i].0 as int].data,
            units[self.weights@[i].0 as int].data,
            units[p].data,
        )
        &&& derived_by(units[p + 1], Operation::Add(self.partial(start, i), Unit(p as usize)))
        &&& is_sum(
            k,
            units[self.partial(start, i).0 as int].data,
            units[p].data,
            units[p + 1].data,
        )
    }

    /// What an evaluation on `input` has recorded in `units` from position
    /// `start`: two nodes for each pair (see [`Neuron::paired`]) and last,
    /// where the neuron rectifies, the rectifier of the final sum.
    pub open spec fn fired<K: Arithmetic>(
        &self,
        k: &K,
        units: Seq<Node>,
        input: Seq<Unit>,
        start: int,
    ) -> bool {
        let m = self.arity(input.len() as int);
        &&& start + self.cost(input.len() as int) <= units.len()
        &&& forall|i: int| 0 <= i < m ==> #[trigger] self.paired(k, units, input, start, i)
        &&& self.activation ==> {
            let last = start + 2 * m;
            &&& derived_by(units[last], Operation::ReLU(self.partial(start, m)))
            &&& units[last].data == rectified(units[self.partial(start, m).0 as int].data)
        }
    }

    /// A neuron of `input` weights and a bias of zero, all new leaves of
    /// `g`: the weights first, then the bias. One value is drawn from `rng`
    /// for each weight, and the weight holds it.
    pub fn new<K: Arithmetic, W: Weights>(
        g: &mut Graph<K>,
        input: u32,
        activation: bool,
        rng: &mut W,
    ) -> (neuron: Neuron)
        requires
            old(g).wf(),
        ensures
            neuron.seated(old(g)@.len() as int, input as int, activation),
            neuron.sampled::<W>(final(g)@),
            all_within(neuron.listed(), final(g)@.len()),
            extends(old(g)@, final(g)@, input as nat + 1),
            forall|p: int|
                old(g)@.len() <= p < final(g)@.len() ==> is_fresh_leaf(#[trigger] final(g)@[p]),
            final(g)@[neuron.bias.0 as int].data == ZERO,
            final(g).kernel() == old(g).kernel(),
            final(g).wf(),
    {
        let mut weights: Vec<Unit> = Vec::with_capacity(input as usize);
        let mut i: u32 = 0;
        proof {
            assert(g@.subrange(0, old(g)@.len() as int) =~= old(g)@);
        }
        while i < input
            invariant
                i <= input,
                weights@.len() == i,
                forall|j: int| 0 <= j < i ==> (#[trigger] weights@[j]).0 == old(g)@.len() + j,
                forall|j: int|
                    0 <= j < i ==> drawn::<W>(g@[(#[trigger] weights@[j]).0 as int].data),
                extends(old(g)@, g@, i as nat),
                forall|p: int| old(g)@.len() <= p < g@.len() ==> is_fresh_leaf(#[trigger] g@[p]),
                g.kernel() == old(g).kernel(),
                g.wf(),
            decreases input - i,
        {
            let ghost before = g@;
            let ghost earlier = weights@;
            let value = rng.draw();
            assert(drawn::<W>(value));
            let w = new_unit(g, value);
            weights.push(w);
            proof {
                assert forall|j: int| 0 <= j < i + 1 implies drawn::<W>(
                    g@[(#[trigger] weights@[j]).0 as int].data,
                ) by {
                    if j < i {
                        assert(weights@[j] == earlier[j]);
                        assert(g@.subrange(0, before.len() as int)[earlier[j].0 as int]
                            == g@[earlier[j].0 as int]);
                    }
                }
                lemma_extends_further(old(g)@, before, g@, i as nat, 1);
                assert forall|p: int| old(g)@.len() <= p < g@.len() implies is_fresh_leaf(
                    #[trigger] g@[p],
                ) by {
                    if p < before.len() {
                        assert(g@.subrange(0, before.len() as int)[p] == g@[p]);
                    }
                }
            }
            i += 1;
        }
        let ghost before = g@;
        let bias = new_unit(g, ZERO);
        proof {
            assert forall|j: int| 0 <= j < input implies drawn::<W>(
                g@[(#[trigger] weights@[j]).0 as int].data,
            ) by {
                assert(g@.subrange(0, before.len() as int)[weights@[j].0 as int]
                    == g@[weights@[j].0 as int]);
            }
            lemma_extends_further(old(g)@, before, g@, input as nat, 1);
            assert forall|p: int| old(g)@.len() <= p < g@.len() implies is_fresh_leaf(
                #[trigger] g@[p],
            ) by {
                if p < before.len() {
                    assert(g@.subrange(0, before.len() as int)[p] == g@[p]);
                }
            }
        }
        Neuron { weights, bias, activation }
    }

    /// Records the weighted sum of `input` and hands out the node that
    /// holds the neuron's response (see [`Neuron::fired`]).
    pub fn eval<K: Arithmetic>(&self, g: &mut Graph<K>, input: &Vec<Unit>) -> (u: Unit)
        requires
            old(g).wf(),
            all_within(self.listed(), old(g)@.len()),
            all_within(input@, old(g)@.len()),
        ensures
            u == self.output(input@.len() as int, old(g)@.len() as int),
            extends(old(g)@, final(g)@, self.cost(input@.len() as int) as nat),
            self.fired(&old(g).kernel(), final(g)@, input@, old(g)@.len() as int),
            final(g).kernel() == old(g).kernel(),
            final(g).wf(),
    {
        let ghost start = g@.len() as int;
        let ghost k = g.kernel();
        let mut sum = self.bias;
        let pairs = if input.len() < self.weights.len() {
            input.len()
        } else {
            self.weights.len()
        };
        let mut i: usize = 0;
        proof {
            assert(g@.subrange(0, old(g)@.len() as int) =~= old(g)@);
            assert(self.listed()[self.weights@.len() as int] == self.bias);
        }
        while i < pairs
            invariant
                i <= pairs,
                pairs == self.arity(input@.len() as int),
                start == old(g)@.len(),
                k == old(g).kernel(),
                all_within(self.listed(), old(g)@.len()),
                all_within(input@, old(g)@.len()),
                sum == self.partial(start, i as int),
                sum.0 < g@.len(),
                self.bias.0 < old(g)@.len(),
                extends(old(g)@, g@, (2 * i) as nat),
                forall|j: int| 0 <= j < i ==> #[trigger] self.paired(&k, g@, input@, start, j),
                g.kernel() == old(g).kernel(),
                g.wf(),
            decreases pairs - i,
        {
            let ghost before = g@;
            let x = input[i];
            let w = self.weights[i];
            proof {
                assert(self.listed()[i as int] == w);
                assert(input@[i as int].0 < old(g)@.len());
            }
            let n = crate::fundamental::op::mul(g, &x, &w);
            let ghost between = g@;
            let next = crate::fundamental::op::add(g, &sum, &n);
            proof {
                g.lemma_countable();
                lemma_extends_further(before, between, g@, 1, 1);
                lemma_extends_further(old(g)@, before, g@, (2 * i) as nat, 2);
                assert forall|q: int| 0 <= q < before.len() implies g@[q] == before[q] by {
                    assert(g@.subrange(0, before.len() as int)[q] == g@[q]);
                }
                assert(g@[before.len() as int] == between[before.len() as int]) by {
                    assert(g@.subrange(0, between.len() as int)[before.len() as int]
                        == g@[before.len() as int]);
                }
                assert(between[sum.0 as int] == before[sum.0 as int]) by {
                    assert(between.subrange(0, before.len() as int)[sum.0 as int]
                        == between[sum.0 as int]);
                }
                assert(before.len() == start + 2 * i);
                assert forall|j: int| 0 <= j < i + 1 implies #[trigger] self.paired(
                    &k,
                    g@,
                    input@,
                    start,
                    j,
                ) by {
                    assert(self.listed()[j] == self.weights@[j]);
                    assert(input@[j].0 < old(g)@.len());
                    if j < i {
                        assert(self.paired(&k, before, input@, start, j));
                        assert(self.partial(start, j).0 < before.len());
                    }
                }
            }
            sum = next;
            i += 1;
        }
        if self.activation {
            let ghost before = g@;
            let out = crate::fundamental::op::relu(g, &sum);
            proof {
                g.lemma_countable();
                lemma_extends_further(old(g)@, before, g@, (2 * i) as nat, 1);
                assert forall|q: int| 0 <= q < before.len() implies g@[q] == before[q] by {
                    assert(g@.subrange(0, before.len() as int)[q] == g@[q]);
                }
                assert forall|j: int| 0 <= j < i implies #[trigger] self.paired(
                    &k,
                    g@,
                    input@,
                    start,
                    j,
                ) by {
                    assert(self.listed()[j] == self.weights@[j]);
                    assert(input@[j].0 < old(g)@.len());
                    assert(self.paired(&k, before, input@, start, j));
                    assert(self.partial(start, j).0 < before.len());
                }
            }
            sum = out;
        }
        sum
    }
}

/// Nodes put behind an extension extend what was extended.
proof fn lemma_extends_further(
    first: Seq<Node>,
    second: Seq<Node>,
    third: Seq<Node>,
    a: nat,
    b: nat,
)
    requires
        extends(first, second, a),
        extends(second, third, b),
    ensures
        extends(first, third, a + b),
{
    assert(third.subrange(0, first.len() as int) =~= first) by {
        assert forall|i: int| 0 <= i < first.len() implies third[i] == first[i] by {
            assert(third.subrange(0, second.len() as int)[i] == third[i]);
            assert(second.subrange(0, first.len() as int)[i] == second[i]);
        }
    }
}

impl Zeroable for Neuron {
    /// The weights, then the bias.
    open spec fn listed(&self) -> Seq<Unit> {
        self.weights@.push(self.bias)
    }

    fn parameters(&self) -> (params: Vec<Unit>) {
        let mut params: Vec<Unit> = Vec::new();
        let mut i: usize = 0;
        while i < self.weights.len()
            invariant
                i <= self.weights.len(),
                params@ == self.weights@.take(i as int),
            decreases self.weights.len() - i,
        {
            params.push(self.weights[i]);
            proof {
                assert(params@ =~= self.weights@.take(i + 1));
            }
            i += 1;
        }
        proof {
            assert(self.weights@.take(i as int) =~= self.weights@);
        }
        params.push(self.bias);
        params
    }
}

/// A neuron whose parameters are nodes of a store is as it was when nodes
/// are put behind.
proof fn lemma_sampled_stays<W: Weights>(
    neuron: &Neuron,
    before: Seq<Node>,
    after: Seq<Node>,
    count: nat,
)
    requires
        all_within(neuron.listed(), before.len()),
        neuron.sampled::<W>(before),
        extends(before, after, count),
    ensures
        all_within(neuron.listed(), after.len()),
        neuron.sampled::<W>(after),
{
    assert forall|i: int| 0 <= i < neuron.weights@.len() implies drawn::<W>(
        after[(#[trigger] neuron.weights@[i]).0 as int].data,
    ) by {
        assert(neuron.listed()[i] == neuron.weights@[i]);
        assert(after.subrange(0, before.len() as int)[neuron.weights@[i].0 as int]
            == after[neuron.weights@[i].0 as int]);
    }
}

/// What a neuron has recorded stays recorded when nodes are put behind.
proof fn lemma_fired_stays<K: Arithmetic>(
    neuron: &Neuron,
    k: &K,
    before: Seq<Node>,
    after: Seq<Node>,
    count: nat,
    input: Seq<Unit>,
    start: int,
)
    requires
        0 <= start,
        before.len() <= usize::MAX,
        neuron.fired(k, before, input, start),
        extends(before, after, count),
        all_within(neuron.listed(), start as nat),
        all_within(input, start as nat),
    ensures
        neuron.fired(k, after, input, start),
{
    let m = neuron.arity(input.len() as int);
    assert forall|q: int| 0 <= q < before.len() implies after[q] == before[q] by {
        assert(after.subrange(0, before.len() as int)[q] == after[q]);
    }
    assert(neuron.listed()[neuron.weights@.len() as int] == neuron.bias);
    assert forall|i: int| 0 <= i < m implies #[trigger] neuron.paired(k, after, input, start, i) by {
        assert(neuron.paired(k, before, input, start, i));
        assert(neuron.listed()[i] == neuron.weights@[i]);
        assert(input[i].0 < start);
    }
}

/// The node that an evaluation returns is the bias or one that the
/// evaluation recorded.
proof fn lemma_output_within(neuron: &Neuron, inputs: int, start: int)
    requires
        0 <= inputs,
        0 <= start,
        start + neuron.cost(inputs) <= usize::MAX,
        neuron.bias.0 < start,
    ensures
        neuron.output(inputs, start).0 < start + neuron.cost(inputs) || (neuron.cost(inputs) == 0
            && neuron.output(inputs, start) == neuron.bias),
        neuron.output(inputs, start).0 < start + neuron.cost(inputs) || neuron.output(
            inputs,
            start,
        ).0 < start,
{
}

/// What a layer has recorded stays recorded when nodes are put behind.
proof fn lemma_layer_fired_stays<K: Arithmetic>(
    layer: &Layer,
    k: &K,
    before: Seq<Node>,
    after: Seq<Node>,
    count: nat,
    input: Seq<Unit>,
    start: int,
    n: nat,
)
    requires
        n <= start,
        before.len() <= usize::MAX,
        layer.fired(k, before, input, start),
        extends(before, after, count),
        all_within(layer.listed(), n),
        all_within(input, start as nat),
    ensures
        layer.fired(k, after, input, start),
{
    assert forall|j: int| 0 <= j < layer.neurons@.len() implies #[trigger] layer.fired_at(
        k,
        after,
        input,
        start,
        j,
    ) by {
        assert(layer.fired_at(k, before, input, start, j));
        layer.lemma_listed_within(n, j);
        layer.lemma_offset_grows(input.len() as int, j);
        lemma_fired_stays(
            &layer.neurons@[j],
            k,
            before,
            after,
            count,
            input,
            start + layer.offset(input.len() as int, j),
        );
    }
}

/// A layer whose parameters are nodes of a store is as it was when nodes
/// are put behind.
proof fn lemma_layer_sampled_stays<W: Weights>(
    layer: &Layer,
    before: Seq<Node>,
    after: Seq<Node>,
    count: nat,
)
    requires
        layer.sampled::<W>(before),
        extends(before, after, count),
    ensures
        layer.sampled::<W>(after),
{
    assert forall|j: int| 0 <= j < layer.neurons@.len() implies (
    #[trigger] layer.neurons@[j]).sampled::<W>(after) && all_within(
        layer.neurons@[j].listed(),
        after.len(),
    ) by {
        lemma_sampled_stays::<W>(&layer.neurons@[j], before, after, count);
    }
}

/// Neurons that are evaluated on the same inputs.
#[derive(Debug)]
pub struct Layer {
    pub neurons: Vec<Neuron>,
}

impl Layer {
    /// The layer has `output` neurons of `input` weights each, which stand
    /// in a store one behind the other from position `start` on.
    pub open spec fn seated(&self, start: int, input: int, output: int, activation: bool) -> bool {
        &&& self.neurons@.len() == output
        &&& forall|j: int|
            0 <= j < output ==> (#[trigger] self.neurons@[j]).seated(
                start + j * (input + 1),
                input,
                activation,
            )
    }

    /// The number of nodes that the first `j` neurons record in an
    /// evaluation.
    pub open spec fn offset(&self, inputs: int, j: int) -> int
        decreases j,
    {
        if j <= 0 {
            0
        } else {
            self.offset(inputs, j - 1) + self.neurons@[j - 1].cost(inputs)
        }
    }

    /// The number of nodes that an evaluation records.
    pub open spec fn cost(&self, inputs: int) -> int {
        self.offset(inputs, self.neurons@.len() as int)
    }

    /// The nodes that an evaluation returns, one for each neuron.
    pub open spec fn outputs(&self, inputs: int, start: int) -> Seq<Unit> {
        Seq::new(
            self.neurons@.len(),
            |j: int| self.neurons@[j].output(inputs, start + self.offset(inputs, j)),
        )
    }

    /// Neuron `j` has recorded its part of an evaluation that began at
    /// position `start`, behind the parts of the neurons before it.
    pub open spec fn fired_at<K: Arithmetic>(
        &self,
        k: &K,
        units: Seq<Node>,
        input: Seq<Unit>,
        start: int,
        j: int,
    ) -> bool {
        self.neurons@[j].fired(k, units, input, start + self.offset(input.len() as int, j))
    }

    /// What an evaluation on `input` has recorded in `units` from position
    /// `start`: what each neuron records, one behind the other.
    pub open spec fn fired<K: Arithmetic>(
        &self,
        k: &K,
        units: Seq<Node>,
        input: Seq<Unit>,
        start: int,
    ) -> bool {
        forall|j: int|
            0 <= j < self.neurons@.len() ==> #[trigger] self.fired_at(k, units, input, start, j)
    }

    /// Every weight of every neuron holds, in `units`, a value drawn from a
    /// source of type `W`, and every parameter is a node of `units`.
    pub open spec fn sampled<W: Weights>(&self, units: Seq<Node>) -> bool {
        forall|j: int|
            0 <= j < self.neurons@.len() ==> (#[trigger] self.neurons@[j]).sampled::<W>(units)
                && all_within(self.neurons@[j].listed(), units.len())
    }

    /// The parameters of the first `j` neurons.
    pub open spec fn gathered(&self, j: int) -> Seq<Unit>
        decreases j,
    {
        if j <= 0 {
            Seq::empty()
        } else {
            self.gathered(j - 1) + self.neurons@[j - 1].listed()
        }
    }

    /// A layer of `output` neurons of `input` weights each, all new leaves
    /// of `g`, neuron by neuron.
    pub fn new<K: Arithmetic, W: Weights>(
        g: &mut Graph<K>,
        input: u32,
        output: u32,
        activation: bool,
        rng: &mut W,
    ) -> (layer: Layer)
        requires
            old(g).wf(),
        ensures
            layer.seated(old(g)@.len() as int, input as int, output as int, activation),
            layer.sampled::<W>(final(g)@),
            all_within(layer.listed(), final(g)@.len()),
            extends(old(g)@, final(g)@, (output * (input + 1)) as nat),
            forall|p: int|
                old(g)@.len() <= p < final(g)@.len() ==> is_fresh_leaf(#[trigger] final(g)@[p]),
            final(g).kernel() == old(g).kernel(),
            final(g).wf(),
    {
        let mut neurons: Vec<Neuron> = Vec::with_capacity(output as usize);
        let mut j: u32 = 0;
        let ghost start = g@.len() as int;
        proof {
            assert(g@.subrange(0, old(g)@.len() as int) =~= old(g)@);
        }
        while j < output
            invariant
                j <= output,
                start == old(g)@.len(),
                neurons@.len() == j,
                forall|i: int|
                    0 <= i < j ==> (#[trigger] neurons@[i]).seated(
                        start + i * (input + 1),
                        input as int,
                        activation,
                    ),
                forall|i: int|
                    0 <= i < j ==> (#[trigger] neurons@[i]).sampled::<W>(g@) && all_within(
                        neurons@[i].listed(),
                        g@.len(),
                    ),
                extends(old(g)@, g@, (j * (input + 1)) as nat),
                forall|p: int| old(g)@.len() <= p < g@.len() ==> is_fresh_leaf(#[trigger] g@[p]),
                g.kernel() == old(g).kernel(),
                g.wf(),
            decreases output - j,
        {
            let ghost before = g@;
            let ghost earlier = neurons@;
            let neuron = Neuron::new(g, input, activation, rng);
            neurons.push(neuron);
            proof {
                assert forall|i: int| 0 <= i < j + 1 implies (#[trigger] neurons@[i]).sampled::<W>(
                    g@,
                ) && all_within(neurons@[i].listed(), g@.len()) by {
                    if i < j {
                        assert(neurons@[i] == earlier[i]);
                        lemma_sampled_stays::<W>(&earlier[i], before, g@, input as nat + 1);
                    }
                }
                assert((j + 1) * (input + 1) == j * (input + 1) + input + 1) by (nonlinear_arith);
                assert(j * (input + 1) >= 0) by (nonlinear_arith)
                    requires
                        j >= 0,
                        input >= 0,
                ;
                lemma_extends_further(
                    old(g)@,
                    before,
                    g@,
                    (j * (input + 1)) as nat,
                    input as nat + 1,
                );
                assert forall|p: int| old(g)@.len() <= p < g@.len() implies is_fresh_leaf(
                    #[trigger] g@[p],
                ) by {
                    if p < before.len() {
                        assert(g@.subrange(0, before.len() as int)[p] == g@[p]);
                    }
                }
            }
            j += 1;
        }
        let layer = Layer { neurons };
        proof {
            layer.lemma_listed_gathers(g@.len(), layer.neurons@.len() as int);
        }
        layer
    }

    /// Where the parameters of each neuron are nodes of a store, so are
    /// those of the layer.
    proof fn lemma_listed_gathers(&self, n: nat, upto: int)
        requires
            0 <= upto <= self.neurons@.len(),
            forall|j: int|
                0 <= j < self.neurons@.len() ==> all_within(
                    (#[trigger] self.neurons@[j]).listed(),
                    n,
                ),
        ensures
            all_within(self.gathered(upto), n),
        decreases upto,
    {
        if upto > 0 {
            self.lemma_listed_gathers(n, upto - 1);
            let head = self.gathered(upto - 1);
            let tail = self.neurons@[upto - 1].listed();
            assert forall|i: int| 0 <= i < self.gathered(upto).len() implies (
            #[trigger] self.gathered(upto)[i]).0 < n by {
                if i < head.len() {
                    assert(head[i].0 < n);
                } else {
                    assert(tail[i - head.len()].0 < n);
                }
            }
        }
    }

    /// Evaluates every neuron on `input`, one after the other, and hands
    /// out their responses in that order (see [`Layer::fired`]).
    pub fn eval<K: Arithmetic>(&self, g: &mut Graph<K>, input: &Vec<Unit>) -> (output: Vec<Unit>)
        requires
            old(g).wf(),
            all_within(self.listed(), old(g)@.len()),
            all_within(input@, old(g)@.len()),
        ensures
            output@ == self.outputs(input@.len() as int, old(g)@.len() as int),
            extends(old(g)@, final(g)@, self.cost(input@.len() as int) as nat),
            self.fired(&old(g).kernel(), final(g)@, input@, old(g)@.len() as int),
            final(g).kernel() == old(g).kernel(),
            final(g).wf(),
    {
        let ghost start = g@.len() as int;
        let ghost k = g.kernel();
        let ghost inputs = input@.len() as int;
        let mut output: Vec<Unit> = Vec::with_capacity(self.neurons.len());
        let mut j: usize = 0;
        proof {
            assert(g@.subrange(0, old(g)@.len() as int) =~= old(g)@);
        }
        while j < self.neurons.len()
            invariant
                j <= self.neurons.len(),
                start == old(g)@.len(),
                k == old(g).kernel(),
                inputs == input@.len(),
                all_within(self.listed(), old(g)@.len()),
                all_within(input@, old(g)@.len()),
                0 <= self.offset(inputs, j as int),
                g@.len() == start + self.offset(inputs, j as int),
                extends(old(g)@, g@, self.offset(inputs, j as int) as nat),
                output@.len() == j,
                forall|i: int|
                    0 <= i < j ==> #[trigger] output@[i] == self.neurons@[i].output(
                        inputs,
                        start + self.offset(inputs, i),
                    ),
                forall|i: int| 0 <= i < j ==> #[trigger] self.fired_at(&k, g@, input@, start, i),
                g.kernel() == old(g).kernel(),
                g.wf(),
            decreases self.neurons.len() - j,
        {
            let ghost before = g@;
            let n = &self.neurons[j];
            proof {
                g.lemma_countable();
                self.lemma_listed_within(old(g)@.len(), j as int);
            }
            let u = n.eval(g, input);
            output.push(u);
            proof {
                let spent = self.offset(inputs, j as int);
                assert(self.offset(inputs, j + 1) == spent + n.cost(inputs));
                lemma_extends_further(old(g)@, before, g@, spent as nat, n.cost(inputs) as nat);
                assert forall|i: int| 0 <= i < j + 1 implies #[trigger] self.fired_at(
                    &k,
                    g@,
                    input@,
                    start,
                    i,
                ) by {
                    if i < j {
                        assert(self.fired_at(&k, before, input@, start, i));
                        self.lemma_listed_within(old(g)@.len(), i);
                        self.lemma_offset_grows(inputs, i);
                        lemma_fired_stays(
                            &self.neurons@[i],
                            &k,
                            before,
                            g@,
                            n.cost(inputs) as nat,
                            input@,
                            start + self.offset(inputs, i),
                        );
                    }
                }
            }
            j += 1;
        }
        proof {
            assert(output@ =~= self.outputs(inputs, start));
        }
        output
    }

    /// The parameters of each neuron are parameters of the layer.
    proof fn lemma_listed_within(&self, n: nat, j: int)
        requires
            all_within(self.listed(), n),
            0 <= j < self.neurons@.len(),
        ensures
            all_within(self.neurons@[j].listed(), n),
    {
        self.lemma_gathered_within(n, self.neurons@.len() as int, j);
    }

    proof fn lemma_gathered_within(&self, n: nat, upto: int, j: int)
        requires
            all_within(self.gathered(upto), n),
            0 <= j < upto <= self.neurons@.len(),
        ensures
            all_within(self.neurons@[j].listed(), n),
        decreases upto,
    {
        let head = self.gathered(upto - 1);
        let tail = self.neurons@[upto - 1].listed();
        if j == upto - 1 {
            assert forall|i: int| 0 <= i < tail.len() implies (#[trigger] tail[i]).0 < n by {
                assert(self.gathered(upto)[head.len() + i] == tail[i]);
            }
        } else {
            assert forall|i: int| 0 <= i < head.len() implies (#[trigger] head[i]).0 < n by {
                assert(self.gathered(upto)[i] == head[i]);
            }
            self.lemma_gathered_within(n, upto - 1, j);
        }
    }

    /// Every response is a parameter of the layer or a node that the
    /// evaluation recorded.
    proof fn lemma_outputs_within(&self, inputs: int, start: int, n: nat)
        requires
            0 <= inputs,
            n <= start,
            start + self.cost(inputs) <= usize::MAX,
            all_within(self.listed(), n),
        ensures
            all_within(self.outputs(inputs, start), (start + self.cost(inputs)) as nat),
    {
        let outs = self.outputs(inputs, start);
        assert forall|j: int| 0 <= j < outs.len() implies (#[trigger] outs[j]).0 < start
            + self.cost(inputs) by {
            self.lemma_listed_within(n, j);
            self.lemma_offset_grows(inputs, self.neurons@.len() as int);
            self.lemma_offset_grows(inputs, j + 1);
            self.lemma_offset_grows(inputs, j);
            let neuron = self.neurons@[j];
            assert(neuron.listed()[neuron.weights@.len() as int] == neuron.bias);
            assert(self.offset(inputs, j + 1) == self.offset(inputs, j) + neuron.cost(inputs));
            lemma_output_within(&neuron, inputs, start + self.offset(inputs, j));
        }
    }

    /// Offsets do not fall.
    proof fn lemma_offset_grows(&self, inputs: int, j: int)
        requires
            0 <= inputs,
            0 <= j <= self.neurons@.len(),
        ensures
            0 <= self.offset(inputs, j),
            forall|i: int| 0 <= i <= j ==> self.offset(inputs, i) <= self.offset(inputs, j),
        decreases j,
    {
        if j > 0 {
            self.lemma_offset_grows(inputs, j - 1);
        }
    }
}

impl Zeroable for Layer {
    /// The parameters of each neuron, neuron by neuron.
    open spec fn listed(&self) -> Seq<Unit> {
        self.gathered(self.neurons@.len() as int)
    }

    fn parameters(&self) -> (params: Vec<Unit>) {
        let mut params: Vec<Unit> = Vec::new();
        let mut j: usize = 0;
        while j < self.neurons.len()
            invariant
                j <= self.neurons.len(),
                params@ == self.gathered(j as int),
            decreases self.neurons.len() - j,
        {
            let mut more = self.neurons[j].parameters();
            params.append(&mut more);
            j += 1;
        }
        params
    }
}

/// Layers evaluated one after the other, each on the responses of the one
/// before.
pub struct MLP {
    pub layers: Vec<Layer>,
}

impl MLP {
    /// The number of inputs of layer `l` in a network of `input` inputs
    /// whose hidden layers have the widths `hidden`.
    pub open spec fn fan_in(input: int, hidden: Seq<u32>, l: int) -> int {
        if l <= 0 {
            input
        } else {
            hidden[l - 1] as int
        }
    }

    /// The number of neurons of layer `l`.
    pub open spec fn fan_out(hidden: Seq<u32>, output: int, l: int) -> int {
        if l < hidden.len() {
            hidden[l] as int
        } else {
            output
        }
    }

    /// The number of parameters of the first `l` layers.
    pub open spec fn room(input: int, hidden: Seq<u32>, output: int, l: int) -> int
        decreases l,
    {
        if l <= 0 {
            0
        } else {
            Self::room(input, hidden, output, l - 1) + Self::fan_out(hidden, output, l - 1) * (
            Self::fan_in(input, hidden, l - 1) + 1)
        }
    }

    /// The network has one layer for each width of `hidden`, all
    /// rectifying, and a last layer of `output` neurons that does not
    /// rectify; they stand in a store one behind the other from position
    /// `start` on.
    pub open spec fn seated(&self, start: int, input: int, hidden: Seq<u32>, output: int) -> bool {
        &&& self.layers@.len() == hidden.len() + 1
        &&& forall|l: int|
            0 <= l <= hidden.len() ==> (#[trigger] self.layers@[l]).seated(
                start + Self::room(input, hidden, output, l),
                Self::fan_in(input, hidden, l),
                Self::fan_out(hidden, output, l),
                l < hidden.len(),
            )
    }

    /// Every weight of the network holds, in `units`, a value drawn from a
    /// source of type `W`, and every parameter is a node of `units`.
    pub open spec fn sampled<W: Weights>(&self, units: Seq<Node>) -> bool {
        forall|l: int|
            0 <= l < self.layers@.len() ==> (#[trigger] self.layers@[l]).sampled::<W>(units)
    }

    /// The number of signals that layer `l` is evaluated on, in an
    /// evaluation on `inputs` signals.
    pub open spec fn width(&self, inputs: int, l: int) -> int {
        if l <= 0 {
            inputs
        } else {
            self.layers@[l - 1].neurons@.len() as int
        }
    }

    /// The number of nodes that the first `l` layers record in an
    /// evaluation.
    pub open spec fn spent(&self, inputs: int, l: int) -> int
        decreases l,
    {
        if l <= 0 {
            0
        } else {
            self.spent(inputs, l - 1) + self.layers@[l - 1].cost(self.width(inputs, l - 1))
        }
    }

    /// The signals that layer `l` is evaluated on: the inputs for the
    /// first layer, the responses of the layer before for every other. With
    /// the number of layers for `l`, the responses of the network.
    pub open spec fn signal(&self, input: Seq<Unit>, start: int, l: int) -> Seq<Unit> {
        if l <= 0 {
            input
        } else {
            self.layers@[l - 1].outputs(
                self.width(input.len() as int, l - 1),
                start + self.spent(input.len() as int, l - 1),
            )
        }
    }

    /// What an evaluation on `input` has recorded in `units` from position
    /// `start`: what each layer records on its signals, one behind the
    /// other.
    pub open spec fn fired<K: Arithmetic>(
        &self,
        k: &K,
        units: Seq<Node>,
        input: Seq<Unit>,
        start: int,
    ) -> bool {
        forall|l: int|
            0 <= l < self.layers@.len() ==> #[trigger] self.fired_at(k, units, input, start, l)
    }

    /// Layer `l` has recorded its part of an evaluation that began at
    /// position `start`, on its signals and behind the parts of the layers
    /// before it.
    pub open spec fn fired_at<K: Arithmetic>(
        &self,
        k: &K,
        units: Seq<Node>,
        input: Seq<Unit>,
        start: int,
        l: int,
    ) -> bool {
        self.layers@[l].fired(
            k,
            units,
            self.signal(input, start, l),
            start + self.spent(input.len() as int, l),
        )
    }

    /// Layer `l` has recorded its part of an evaluation, on signals that
    /// were there before it.
    spec fn reached<K: Arithmetic>(
        &self,
        k: &K,
        units: Seq<Node>,
        input: Seq<Unit>,
        start: int,
        l: int,
    ) -> bool {
        &&& 0 <= self.spent(input.len() as int, l)
        &&& all_within(
            self.signal(input, start, l),
            (start + self.spent(input.len() as int, l)) as nat,
        )
        &&& self.layers@[l].fired(
            k,
            units,
            self.signal(input, start, l),
            start + self.spent(input.len() as int, l),
        )
    }

    /// What a layer has recorded stays recorded when nodes are put behind.
    proof fn lemma_reached_stays<K: Arithmetic>(
        &self,
        k: &K,
        before: Seq<Node>,
        after: Seq<Node>,
        count: nat,
        input: Seq<Unit>,
        start: int,
        l: int,
        n: nat,
    )
        requires
            0 <= l < self.layers@.len(),
            n <= start,
            before.len() <= usize::MAX,
            self.reached(k, before, input, start, l),
            extends(before, after, count),
            all_within(self.listed(), n),
        ensures
            self.reached(k, after, input, start, l),
    {
        self.lemma_listed_within(n, l);
        lemma_layer_fired_stays(
            &self.layers@[l],
            k,
            before,
            after,
            count,
            self.signal(input, start, l),
            start + self.spent(input.len() as int, l),
            n,
        );
    }

    /// Once layer `l` has recorded its part, the evaluation stands where
    /// layer `l + 1` begins.
    proof fn lemma_layer_done<K: Arithmetic>(
        &self,
        k: &K,
        first: Seq<Node>,
        before: Seq<Node>,
        after: Seq<Node>,
        given: Seq<Unit>,
        output: Seq<Unit>,
        next: Seq<Unit>,
        l: int,
    )
        requires
            0 <= l < self.layers@.len(),
            before.len() <= usize::MAX,
            after.len() <= usize::MAX,
            all_within(self.listed(), first.len()),
            0 <= self.spent(given.len() as int, l),
            before.len() == first.len() + self.spent(given.len() as int, l),
            extends(first, before, self.spent(given.len() as int, l) as nat),
            output == self.signal(given, first.len() as int, l),
            all_within(output, before.len()),
            forall|i: int|
                0 <= i < l ==> #[trigger] self.reached(k, before, given, first.len() as int, i),
            next == self.layers@[l].outputs(output.len() as int, before.len() as int),
            extends(before, after, self.layers@[l].cost(output.len() as int) as nat),
            self.layers@[l].fired(k, after, output, before.len() as int),
        ensures
            0 <= self.spent(given.len() as int, l + 1),
            after.len() == first.len() + self.spent(given.len() as int, l + 1),
            extends(first, after, self.spent(given.len() as int, l + 1) as nat),
            next == self.signal(given, first.len() as int, l + 1),
            all_within(next, after.len()),
            forall|i: int|
                0 <= i < l + 1 ==> #[trigger] self.reached(k, after, given, first.len() as int, i),
    {
        let start = first.len() as int;
        let inputs = given.len() as int;
        let layer = self.layers@[l];
        let width = self.width(inputs, l);
        let spent = self.spent(inputs, l);
        assert(output.len() == width);
        layer.lemma_offset_grows(width, layer.neurons@.len() as int);
        assert(self.spent(inputs, l + 1) == spent + layer.cost(width));
        lemma_extends_further(first, before, after, spent as nat, layer.cost(width) as nat);
        self.lemma_listed_within(first.len(), l);
        layer.lemma_outputs_within(width, start + spent, first.len());
        assert(all_within(next, after.len()));
        assert(next == self.signal(given, first.len() as int, l + 1));
        assert(self.reached(k, after, given, start, l));
        assert forall|i: int| 0 <= i < l + 1 implies #[trigger] self.reached(
            k,
            after,
            given,
            start,
            i,
        ) by {
            if i < l {
                self.lemma_reached_stays(
                    k,
                    before,
                    after,
                    layer.cost(width) as nat,
                    given,
                    start,
                    i,
                    first.len(),
                );
            }
        }
    }

    /// The parameters of the first `l` layers.
    pub open spec fn gathered(&self, l: int) -> Seq<Unit>
        decreases l,
    {
        if l <= 0 {
            Seq::empty()
        } else {
            self.gathered(l - 1) + self.layers@[l - 1].listed()
        }
    }

    /// A network of `input` inputs, one rectifying layer for each width of
    /// `hidden` and a last layer of `output` neurons that does not rectify,
    /// all new leaves of `g`, layer by layer.
    pub fn new<K: Arithmetic, W: Weights>(
        g: &mut Graph<K>,
        input: u32,
        hidden: Vec<u32>,
        output: u32,
        rng: &mut W,
    ) -> (mlp: MLP)
        requires
            old(g).wf(),
        ensures
            mlp.seated(old(g)@.len() as int, input as int, hidden@, output as int),
            mlp.sampled::<W>(final(g)@),
            all_within(mlp.listed(), final(g)@.len()),
            extends(
                old(g)@,
                final(g)@,
                Self::room(input as int, hidden@, output as int, hidden@.len() as int + 1) as nat,
            ),
            forall|p: int|
                old(g)@.len() <= p < final(g)@.len() ==> is_fresh_leaf(#[trigger] final(g)@[p]),
            final(g).kernel() == old(g).kernel(),
            final(g).wf(),
    {
        let mut layers: Vec<Layer> = Vec::new();
        let ghost start = g@.len() as int;
        let ghost first = input as int;
        let ghost last = output as int;
        let mut input = input;
        let mut l: usize = 0;
        proof {
            assert(g@.subrange(0, old(g)@.len() as int) =~= old(g)@);
        }
        while l < hidden.len()
            invariant
                l <= hidden.len(),
                start == old(g)@.len(),
                input == Self::fan_in(first, hidden@, l as int),
                layers@.len() == l,
                0 <= Self::room(first, hidden@, last, l as int),
                forall|i: int|
                    0 <= i < l ==> (#[trigger] layers@[i]).seated(
                        start + Self::room(first, hidden@, last, i),
                        Self::fan_in(first, hidden@, i),
                        Self::fan_out(hidden@, last, i),
                        i < hidden@.len(),
                    ),
                forall|i: int|
                    0 <= i < l ==> (#[trigger] layers@[i]).sampled::<W>(g@) && all_within(
                        layers@[i].listed(),
                        g@.len(),
                    ),
                extends(old(g)@, g@, Self::room(first, hidden@, last, l as int) as nat),
                forall|p: int| old(g)@.len() <= p < g@.len() ==> is_fresh_leaf(#[trigger] g@[p]),
                g.kernel() == old(g).kernel(),
                g.wf(),
            decreases hidden.len() - l,
        {
            let ghost before = g@;
            let ghost earlier = layers@;
            let h = hidden[l];
            let layer = Layer::new(g, input, h, true, rng);
            layers.push(layer);
            proof {
                assert forall|i: int| 0 <= i < l + 1 implies (#[trigger] layers@[i]).sampled::<W>(
                    g@,
                ) && all_within(layers@[i].listed(), g@.len()) by {
                    if i < l {
                        assert(layers@[i] == earlier[i]);
                        lemma_layer_sampled_stays::<W>(
                            &earlier[i],
                            before,
                            g@,
                            (h * (input + 1)) as nat,
                        );
                        earlier[i].lemma_listed_gathers(g@.len(), earlier[i].neurons@.len() as int);
                    }
                }
                let spent = Self::room(first, hidden@, last, l as int);
                assert(Self::room(first, hidden@, last, l + 1) == spent + h * (input + 1));
                assert(h * (input + 1) >= 0) by (nonlinear_arith)
                    requires
                        h >= 0,
                        input >= 0,
                ;
                lemma_extends_further(old(g)@, before, g@, spent as nat, (h * (input + 1)) as nat);
                assert forall|p: int| old(g)@.len() <= p < g@.len() implies is_fresh_leaf(
                    #[trigger] g@[p],
                ) by {
                    if p < before.len() {
                        assert(g@.subrange(0, before.len() as int)[p] == g@[p]);
                    }
                }
            }
            input = h;
            l += 1;
        }
        let ghost before = g@;
        let ghost earlier = layers@;
        let layer = Layer::new(g, input, output, false, rng);
        layers.push(layer);
        proof {
            assert forall|i: int| 0 <= i < l + 1 implies (#[trigger] layers@[i]).sampled::<W>(g@)
                && all_within(layers@[i].listed(), g@.len()) by {
                if i < l {
                    assert(layers@[i] == earlier[i]);
                    lemma_layer_sampled_stays::<W>(
                        &earlier[i],
                        before,
                        g@,
                        (output * (input + 1)) as nat,
                    );
                    earlier[i].lemma_listed_gathers(g@.len(), earlier[i].neurons@.len() as int);
                }
            }
            let spent = Self::room(first, hidden@, last, l as int);
            assert(Self::room(first, hidden@, last, l + 1) == spent + output * (input + 1));
            assert(output * (input + 1) >= 0) by (nonlinear_arith)
                requires
                    output >= 0,
                    input >= 0,
            ;
            lemma_extends_further(old(g)@, before, g@, spent as nat, (output * (input + 1)) as nat);
            assert forall|p: int| old(g)@.len() <= p < g@.len() implies is_fresh_leaf(
                #[trigger] g@[p],
            ) by {
                if p < before.len() {
                    assert(g@.subrange(0, before.len() as int)[p] == g@[p]);
                }
            }
        }
        let mlp = MLP { layers };
        proof {
            mlp.lemma_listed_gathers(g@.len(), mlp.layers@.len() as int);
        }
        mlp
    }

    /// Where the parameters of each layer are nodes of a store, so are those
    /// of the network.
    proof fn lemma_listed_gathers(&self, n: nat, upto: int)
        requires
            0 <= upto <= self.layers@.len(),
            forall|l: int|
                0 <= l < self.layers@.len() ==> all_within((#[trigger] self.layers@[l]).listed(), n),
        ensures
            all_within(self.gathered(upto), n),
        decreases upto,
    {
        if upto > 0 {
            self.lemma_listed_gathers(n, upto - 1);
            let head = self.gathered(upto - 1);
            let tail = self.layers@[upto - 1].listed();
            assert forall|i: int| 0 <= i < self.gathered(upto).len() implies (
            #[trigger] self.gathered(upto)[i]).0 < n by {
                if i < head.len() {
                    assert(head[i].0 < n);
                } else {
                    assert(tail[i - head.len()].0 < n);
                }
            }
        }
    }

    /// Evaluates the layers one after the other, the first on `input` and
    /// every other on the responses of the one before, and hands out the
    /// responses of the last (see [`MLP::fired`]).
    pub fn eval<K: Arithmetic>(&self, g: &mut Graph<K>, input: Vec<Unit>) -> (output: Vec<Unit>)
        requires
            old(g).wf(),
            all_within(self.listed(), old(g)@.len()),
            all_within(input@, old(g)@.len()),
        ensures
            output@ == self.signal(input@, old(g)@.len() as int, self.layers@.len() as int),
            extends(
                old(g)@,
                final(g)@,
                self.spent(input@.len() as int, self.layers@.len() as int) as nat,
            ),
            self.fired(&old(g).kernel(), final(g)@, input@, old(g)@.len() as int),
            final(g).kernel() == old(g).kernel(),
            final(g).wf(),
    {
        let ghost start = g@.len() as int;
        let ghost k = g.kernel();
        let ghost given = input@;
        let ghost inputs = input@.len() as int;
        let mut output = input;
        let mut l: usize = 0;
        proof {
            assert(g@.subrange(0, old(g)@.len() as int) =~= old(g)@);
        }
        while l < self.layers.len()
            invariant
                l <= self.layers.len(),
                start == old(g)@.len(),
                k == old(g).kernel(),
                inputs == given.len(),
                all_within(self.listed(), old(g)@.len()),
                0 <= self.spent(inputs, l as int),
                g@.len() == start + self.spent(inputs, l as int),
                extends(old(g)@, g@, self.spent(inputs, l as int) as nat),
                output@ == self.signal(given, start, l as int),
                all_within(output@, g@.len()),
                forall|i: int| 0 <= i < l ==> #[trigger] self.reached(&k, g@, given, start, i),
                g.kernel() == old(g).kernel(),
                g.wf(),
            decreases self.layers.len() - l,
        {
            let ghost before = g@;
            let layer = &self.layers[l];
            proof {
                g.lemma_countable();
                self.lemma_listed_within(old(g)@.len(), l as int);
                assert(all_within(layer.listed(), before.len()));
            }
            let next = layer.eval(g, &output);
            proof {
                g.lemma_countable();
                self.lemma_layer_done(&k, old(g)@, before, g@, given, output@, next@, l as int);
            }
            output = next;
            l += 1;
        }
        proof {
            assert forall|i: int| 0 <= i < self.layers@.len() implies #[trigger] self.fired_at(
                &k,
                g@,
                given,
                start,
                i,
            ) by {
                assert(self.reached(&k, g@, given, start, i));
            }
        }
        output
    }

    /// The parameters of each layer are parameters of the network.
    proof fn lemma_listed_within(&self, n: nat, l: int)
        requires
            all_within(self.listed(), n),
            0 <= l < self.layers@.len(),
        ensures
            all_within(self.layers@[l].listed(), n),
    {
        self.lemma_gathered_within(n, self.layers@.len() as int, l);
    }

    proof fn lemma_gathered_within(&self, n: nat, upto: int, l: int)
        requires
            all_within(self.gathered(upto), n),
            0 <= l < upto <= self.layers@.len(),
        ensures
            all_within(self.layers@[l].listed(), n),
        decreases upto,
    {
        let head = self.gathered(upto - 1);
        let tail = self.layers@[upto - 1].listed();
        if l == upto - 1 {
            assert forall|i: int| 0 <= i < tail.len() implies (#[trigger] tail[i]).0 < n by {
                assert(self.gathered(upto)[head.len() + i] == tail[i]);
            }
        } else {
            assert forall|i: int| 0 <= i < head.len() implies (#[trigger] head[i]).0 < n by {
                assert(self.gathered(upto)[i] == head[i]);
            }
            self.lemma_gathered_within(n, upto - 1, l);
        }
    }
}

impl Zeroable for MLP {
    /// The parameters of each layer, layer by layer.
    open spec fn listed(&self) -> Seq<Unit> {
        self.gathered(self.layers@.len() as int)
    }

    fn parameters(&self) -> (params: Vec<Unit>) {
        let mut params: Vec<Unit> = Vec::new();
        let mut l: usize = 0;
        while l < self.layers.len()
            invariant
                l <= self.layers.len(),
                params@ == self.gathered(l as int),
            decreases self.layers.len() - l,
        {
            let mut more = self.layers[l].parameters();
            params.append(&mut more);
            l += 1;
        }
        params
    }
}

} // verus!
