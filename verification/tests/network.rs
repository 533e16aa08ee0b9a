use rand::distributions::{Distribution, Uniform};

use scalargrad::fundamental::op::{add, backward, pow, sub};
use scalargrad::fundamental::unit::new_unit;
use scalargrad::fundamental::{Arithmetic, Graph, Operation, Unit, ZERO};
use scalargrad::nn::mlp::{Layer, Neuron, MLP};
use scalargrad::nn::{Weights, Zeroable};

struct Ieee;

impl Arithmetic for Ieee {
    fn sum(&self, a: u32, b: u32) -> u32 {
        (f32::from_bits(a) + f32::from_bits(b)).to_bits()
    }

    fn difference(&self, a: u32, b: u32) -> u32 {
        (f32::from_bits(a) - f32::from_bits(b)).to_bits()
    }

    fn product(&self, a: u32, b: u32) -> u32 {
        (f32::from_bits(a) * f32::from_bits(b)).to_bits()
    }

    fn power(&self, base: u32, exponent: u32) -> u32 {
        f32::from_bits(base).powf(f32::from_bits(exponent)).to_bits()
    }

    fn tanh(&self, a: u32) -> u32 {
        f32::from_bits(a).tanh().to_bits()
    }
}

struct Drawn {
    rng: rand::rngs::ThreadRng,
    between: Uniform<f32>,
}

impl Drawn {
    fn new() -> Drawn {
        Drawn { rng: rand::thread_rng(), between: Uniform::from(-1.0..1.0) }
    }
}

impl Weights for Drawn {
    fn draw(&mut self) -> u32 {
        self.between.sample(&mut self.rng).to_bits()
    }
}

struct Listed {
    values: Vec<f32>,
    next: usize,
}

impl Listed {
    fn new(values: Vec<f32>) -> Listed {
        Listed { values, next: 0 }
    }
}

impl Weights for Listed {
    fn draw(&mut self) -> u32 {
        let value = self.values[self.next % self.values.len()];
        self.next += 1;
        value.to_bits()
    }
}

fn leaf(g: &mut Graph<Ieee>, value: f32) -> Unit {
    new_unit(g, value.to_bits())
}

fn value(g: &Graph<Ieee>, u: &Unit) -> f32 {
    f32::from_bits(u.data(g))
}

fn gradient(g: &Graph<Ieee>, u: &Unit) -> f32 {
    f32::from_bits(u.grad(g))
}

fn values(g: &Graph<Ieee>, units: &[Unit]) -> Vec<f32> {
    units.iter().map(|u| value(g, u)).collect()
}

#[test]
fn test_neuron() {
    let mut g = Graph::new(Ieee);
    let n = Neuron::new(&mut g, 2, false, &mut Drawn::new());
    let input = vec![Unit::from(&mut g, 1.0f32.to_bits()), Unit::from(&mut g, 2.0f32.to_bits())];
    let output = n.eval(&mut g, &input);
    println!("neuron  is {:?}", n);
    println!("{:?}", value(&g, &output));
}

#[test]
fn test_layer() {
    let mut g = Graph::new(Ieee);
    let l = Layer::new(&mut g, 4, 1, false, &mut Drawn::new());
    let input = vec![
        leaf(&mut g, 1.0),
        leaf(&mut g, 2.0),
        leaf(&mut g, 3.0),
        leaf(&mut g, 4.0),
    ];
    let output = l.eval(&mut g, &input);
    println!("layer is {:?}", l);
    println!("{:?}", values(&g, &output));
}

#[test]
fn test_mlp() {
    let mut g = Graph::new(Ieee);
    let mlp = MLP::new(&mut g, 2, vec![3, 4], 1, &mut Drawn::new());
    let input = vec![leaf(&mut g, 1.0), leaf(&mut g, 2.0)];
    let output = mlp.eval(&mut g, input);
    let paran_num = mlp.parameters().len();

    println!("mlp output {:?}, mlp parameter size is {}", values(&g, &output), paran_num);
    assert_eq!(paran_num, 30);
    assert_eq!(output.len(), 1);
}

#[test]
fn test_debug_simple_mlp() {
    let mut g = Graph::new(Ieee);
    let mlp = MLP::new(&mut g, 1, vec![2], 1, &mut Drawn::new());
    let parameters = mlp.parameters();
    for p in parameters.iter() {
        println!("{:?}", value(&g, p));
    }

    let x = vec![leaf(&mut g, 1.0), leaf(&mut g, 2.0)];
    let ypred = mlp.eval(&mut g, x);
    assert_eq!(ypred.len(), 1);
}

#[test]
fn test_mlp_ability() {
    let mut g = Graph::new(Ieee);
    let mlp = MLP::new(&mut g, 3, vec![4, 4], 1, &mut Drawn::new());
    let xs = vec![
        vec![leaf(&mut g, 2.0), leaf(&mut g, 3.0), leaf(&mut g, -1.0)],
        vec![leaf(&mut g, 3.0), leaf(&mut g, -1.0), leaf(&mut g, 0.5)],
        vec![leaf(&mut g, 0.5), leaf(&mut g, 1.0), leaf(&mut g, 1.0)],
        vec![leaf(&mut g, 1.0), leaf(&mut g, 1.0), leaf(&mut g, -1.0)],
    ];

    let ys = vec![
        leaf(&mut g, 1.0),
        leaf(&mut g, -1.0),
        leaf(&mut g, -1.0),
        leaf(&mut g, 1.0),
    ];

    for k in 0..20 {
        let mut ypred = Vec::new();
        let xs_calc = xs.clone();
        for x in xs_calc {
            let o = mlp.eval(&mut g, x).pop().unwrap();
            ypred.push(o);
        }

        let mut loss = Unit::from(&mut g, 0.0f32.to_bits());
        for i in 0..ypred.len() {
            let s = sub(&mut g, &ypred[i], &ys[i]);
            let p = pow(&mut g, &s, 2.0f32.to_bits());
            loss = add(&mut g, &loss, &p);
        }
        let parameters = mlp.parameters();

        mlp.zero_grad(&mut g);

        assert!(backward(&mut g, &loss).is_ok());

        println!("Before update iter {}, loss is {:?}", k, value(&g, &loss));

        for p in parameters.iter() {
            p.adjust(&mut g, (-0.05f32).to_bits());
        }
    }
}

#[test]
fn a_neuron_is_leaves_in_the_order_drawn() {
    let mut g = Graph::new(Ieee);
    let anchor = leaf(&mut g, 9.0);
    let n = Neuron::new(&mut g, 3, true, &mut Listed::new(vec![0.5, -0.25, 2.0]));
    assert_eq!(anchor, Unit(0));
    assert_eq!(n.weights, vec![Unit(1), Unit(2), Unit(3)]);
    assert_eq!(n.bias, Unit(4));
    assert!(n.activation);
    assert_eq!(g.len(), 5);
    assert_eq!(values(&g, &n.weights), vec![0.5, -0.25, 2.0]);
    assert_eq!(n.bias.data(&g), ZERO);
    assert_eq!(n.parameters(), vec![Unit(1), Unit(2), Unit(3), Unit(4)]);
    for p in n.parameters() {
        assert!(g.unit(&p).operation.is_none());
        assert!(g.unit(&p).children.is_empty());
        assert_eq!(p.grad(&g), ZERO);
    }
}

#[test]
fn a_neuron_sums_weighted_inputs_onto_the_bias() {
    let mut g = Graph::new(Ieee);
    let n = Neuron::new(&mut g, 2, false, &mut Listed::new(vec![0.5, -2.0]));
    let input = vec![leaf(&mut g, 3.0), leaf(&mut g, 4.0)];
    let start = g.len();
    let out = n.eval(&mut g, &input);
    assert_eq!(g.len(), start + 4);
    assert_eq!(out, Unit(start + 3));
    assert_eq!(value(&g, &out), 0.0 + 3.0 * 0.5 + 4.0 * -2.0);
    assert!(matches!(
        g.unit(&Unit(start)).operation,
        Some(Operation::Mul(x, w)) if x == input[0] && w == n.weights[0]
    ));
    assert!(matches!(
        g.unit(&Unit(start + 1)).operation,
        Some(Operation::Add(s, p)) if s == n.bias && p == Unit(start)
    ));
    assert!(matches!(
        g.unit(&Unit(start + 3)).operation,
        Some(Operation::Add(s, p)) if s == Unit(start + 1) && p == Unit(start + 2)
    ));
}

#[test]
fn a_neuron_rectifies_where_it_is_told_to() {
    let mut g = Graph::new(Ieee);
    let n = Neuron::new(&mut g, 1, true, &mut Listed::new(vec![-1.0]));
    let input = vec![leaf(&mut g, 3.0)];
    let start = g.len();
    let out = n.eval(&mut g, &input);
    assert_eq!(out, Unit(start + 2));
    assert_eq!(out.data(&g), ZERO);
    assert!(matches!(g.unit(&out).operation, Some(Operation::ReLU(x)) if x == Unit(start + 1)));
    assert_eq!(value(&g, &Unit(start + 1)), -3.0);
}

#[test]
fn a_neuron_pairs_inputs_and_weights_and_ignores_the_rest() {
    let mut g = Graph::new(Ieee);
    let n = Neuron::new(&mut g, 1, false, &mut Listed::new(vec![2.0]));
    let input = vec![leaf(&mut g, 3.0), leaf(&mut g, 100.0)];
    let out = n.eval(&mut g, &input);
    assert_eq!(value(&g, &out), 6.0);
    let none: Vec<Unit> = vec![];
    let start = g.len();
    let out = n.eval(&mut g, &none);
    assert_eq!(out, n.bias);
    assert_eq!(g.len(), start);
}

#[test]
fn a_layer_evaluates_its_neurons_in_order() {
    let mut g = Graph::new(Ieee);
    let l = Layer::new(&mut g, 2, 3, false, &mut Listed::new(vec![1.0, 2.0, 3.0, 4.0, 5.0, 6.0]));
    assert_eq!(g.len(), 9);
    assert_eq!(l.neurons.len(), 3);
    assert_eq!(l.neurons[1].weights, vec![Unit(3), Unit(4)]);
    assert_eq!(l.neurons[1].bias, Unit(5));
    assert_eq!(l.neurons[2].bias, Unit(8));
    assert_eq!(l.parameters(), (0..9).map(Unit).collect::<Vec<_>>());
    let input = vec![leaf(&mut g, 1.0), leaf(&mut g, 10.0)];
    let out = l.eval(&mut g, &input);
    assert_eq!(out, vec![Unit(14), Unit(18), Unit(22)]);
    assert_eq!(values(&g, &out), vec![21.0, 43.0, 65.0]);
}

#[test]
fn a_network_feeds_each_layer_with_the_one_before() {
    let mut g = Graph::new(Ieee);
    let mlp = MLP::new(&mut g, 2, vec![2], 1, &mut Listed::new(vec![1.0, -1.0, 0.5, 0.5, 2.0, 3.0]));
    assert_eq!(mlp.layers.len(), 2);
    assert_eq!(mlp.layers[0].neurons.len(), 2);
    assert!(mlp.layers[0].neurons[0].activation);
    assert_eq!(mlp.layers[1].neurons.len(), 1);
    assert_eq!(mlp.layers[1].neurons[0].weights.len(), 2);
    assert!(!mlp.layers[1].neurons[0].activation);
    assert_eq!(mlp.parameters(), (0..9).map(Unit).collect::<Vec<_>>());
    let input = vec![leaf(&mut g, 3.0), leaf(&mut g, 5.0)];
    let out = mlp.eval(&mut g, input);
    assert_eq!(out.len(), 1);
    // relu(3 - 5) = 0 and relu(1.5 + 2.5) = 4; 0 * 2 + 4 * 3 = 12.
    assert_eq!(values(&g, &out), vec![12.0]);
    assert_eq!(out[0], Unit(g.len() - 1));
}

#[test]
fn a_network_without_hidden_layers_is_one_layer() {
    let mut g = Graph::new(Ieee);
    let mlp = MLP::new(&mut g, 3, vec![], 2, &mut Listed::new(vec![1.0]));
    assert_eq!(mlp.layers.len(), 1);
    assert_eq!(mlp.layers[0].neurons.len(), 2);
    assert_eq!(mlp.parameters().len(), 8);
    let input = vec![leaf(&mut g, 1.0), leaf(&mut g, 2.0), leaf(&mut g, 3.0)];
    let out = mlp.eval(&mut g, input);
    assert_eq!(values(&g, &out), vec![6.0, 6.0]);
}

#[test]
fn zero_grad_sets_every_parameter_to_zero_and_nothing_else() {
    let mut g = Graph::new(Ieee);
    let mlp = MLP::new(&mut g, 2, vec![2], 1, &mut Listed::new(vec![0.5, -0.5, 0.25]));
    let input = vec![leaf(&mut g, 3.0), leaf(&mut g, 5.0)];
    let kept = input[0];
    let out = mlp.eval(&mut g, input);
    assert!(backward(&mut g, &out[0]).is_ok());
    let before: Vec<u32> = (0..g.len()).map(|i| Unit(i).grad(&g)).collect();
    let data: Vec<u32> = (0..g.len()).map(|i| Unit(i).data(&g)).collect();
    let parameters = mlp.parameters();
    assert!(parameters.iter().any(|p| p.grad(&g) != ZERO));
    g.set_grad(&parameters[0], f32::NAN.to_bits());
    g.set_grad(&parameters[1], f32::INFINITY.to_bits());
    mlp.zero_grad(&mut g);
    for i in 0..g.len() {
        let u = Unit(i);
        if parameters.contains(&u) {
            assert_eq!(u.grad(&g), ZERO);
        } else {
            assert_eq!(u.grad(&g), before[i]);
        }
        assert_eq!(u.data(&g), data[i]);
    }
    assert_eq!(gradient(&g, &out[0]), 1.0);
    assert_eq!(kept.grad(&g), before[kept.0]);
    mlp.zero_grad(&mut g);
    for p in parameters.iter() {
        assert_eq!(p.grad(&g), ZERO);
    }
}

#[test]
fn one_step_against_the_gradient_lowers_the_loss() {
    let mut g = Graph::new(Ieee);
    let mlp = MLP::new(&mut g, 2, vec![3], 1, &mut Listed::new(vec![0.3, -0.2, 0.5, 0.1, 0.4]));
    let x = vec![leaf(&mut g, 1.0), leaf(&mut g, 2.0)];
    let y = leaf(&mut g, 1.0);
    let mut losses = Vec::new();
    for _ in 0..2 {
        let out = mlp.eval(&mut g, x.clone()).pop().unwrap();
        let s = sub(&mut g, &out, &y);
        let loss = pow(&mut g, &s, 2.0f32.to_bits());
        mlp.zero_grad(&mut g);
        assert!(backward(&mut g, &loss).is_ok());
        losses.push(value(&g, &loss));
        for p in mlp.parameters().iter() {
            p.adjust(&mut g, (-0.05f32).to_bits());
        }
    }
    assert!(losses[1] < losses[0], "{:?}", losses);
}
