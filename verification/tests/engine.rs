use scalargrad::fundamental::op::{
    add, backward, div, mul, neg, pow, relu, rev_topological_sort_dfs, sub, tanh,
    topological_sort_circle,
};
use scalargrad::fundamental::unit::{new_unit, _Unit};
use scalargrad::fundamental::{
    compares_positive, compares_zero, Arithmetic, CyclicGraph, DivisionByZero, Graph, Operation,
    Unit, INFINITY, MINUS_ONE, MINUS_ZERO, ONE, ZERO,
};

struct Ieee;

impl Arithmetic for Ieee {
    fn sum(&self, a: u32, b: u32) -> u32 {
        (f32::from_bits(a) + f32::from_bits(b)).to_bits()
    }

    fn difference(&self, a: u32, b: u32) -> u32 {
        (f32::from_bits(a) - f32::from_bits(b)).to_bits()
    }

    fn product(&self, a: u32, b: u32) -> u32 {
        (f32::from_bits(a) * f32::from_bits(b)).to_bits()
    }

    fn power(&self, base: u32, exponent: u32) -> u32 {
        f32::from_bits(base).powf(f32::from_bits(exponent)).to_bits()
    }

    fn tanh(&self, a: u32) -> u32 {
        f32::from_bits(a).tanh().to_bits()
    }
}

fn leaf(g: &mut Graph<Ieee>, value: f32) -> Unit {
    new_unit(g, value.to_bits())
}

fn value(g: &Graph<Ieee>, u: &Unit) -> f32 {
    f32::from_bits(u.data(g))
}

fn gradient(g: &Graph<Ieee>, u: &Unit) -> f32 {
    f32::from_bits(u.grad(g))
}

fn show(g: &Graph<Ieee>, u: &Unit) -> String {
    let record = g.unit(u);
    format!(
        "Unit {{ data: {}, grad: {}, operation: {:?}, children_size: {} }}",
        f32::from_bits(record.data),
        f32::from_bits(record.grad),
        record.operation,
        record.children.len()
    )
}

fn close(a: f32, b: f32, tolerance: f32) -> bool {
    (a - b).abs() <= tolerance
}

#[test]
fn test_back_propagation() {
    let mut g = Graph::new(Ieee);
    let a = leaf(&mut g, 1.0);
    let b = leaf(&mut g, 2.0);
    let c = add(&mut g, &a, &b);
    g.set_grad(&c, 1.0f32.to_bits());
    _Unit::self_back_propagation(&mut g, &c);
    println!("{:?}", show(&g, &c));
    assert_eq!(gradient(&g, &a), 1.0);
    assert_eq!(gradient(&g, &b), 1.0);
}

#[test]
fn test_topo_dfs() {
    let mut g = Graph::new(Ieee);
    let a = leaf(&mut g, 1.0);
    let b = leaf(&mut g, 2.0);
    let c = add(&mut g, &a, &b);
    let d = leaf(&mut g, 4.0);
    let e = tanh(&mut g, &c);
    let f = add(&mut g, &d, &e);
    let mut sorted = topological_sort_circle(&g, &f).unwrap();
    sorted.reverse();
    for s in sorted.iter() {
        println!("{:}", show(&g, s));
    }

    assert_eq!(backward(&mut g, &f), Ok(()));

    for ref s in sorted {
        println!("{:}", show(&g, s));
    }
}

#[test]
fn test_cyclic_compute_graph() {
    let mut g = Graph::new(Ieee);
    let a = leaf(&mut g, 1.0);
    let b = leaf(&mut g, 2.0);
    let c = add(&mut g, &a, &b);
    let d = leaf(&mut g, 4.0);
    let e = tanh(&mut g, &c);
    let f = add(&mut g, &d, &e);
    let top = add(&mut g, &f, &f);
    // `f` is used twice, which makes it shared and not cyclic.
    let sorted = rev_topological_sort_dfs(&g, &top);
    assert!(sorted.is_some());
    let sorted = sorted.unwrap();
    assert_eq!(sorted.len(), 7);
    assert_eq!(sorted[0], top);
    assert_eq!(sorted.iter().filter(|u| **u == f).count(), 1);
}

#[test]
fn float_pow() {
    let mut g = Graph::new(Ieee);
    let a = leaf(&mut g, 2.0);
    let c = pow(&mut g, &a, (-1.0f32).to_bits());
    println!("{:?}", show(&g, &c));
    assert_eq!(value(&g, &c), 0.5);
}

#[test]
fn constants_are_the_bit_patterns_they_name() {
    assert_eq!(ZERO, 0.0f32.to_bits());
    assert_eq!(ONE, 1.0f32.to_bits());
    assert_eq!(MINUS_ONE, (-1.0f32).to_bits());
    assert_eq!(MINUS_ZERO, (-0.0f32).to_bits());
    assert_eq!(INFINITY, f32::INFINITY.to_bits());
}

#[test]
fn comparisons_with_zero_agree_with_floats() {
    let samples = [
        0.0f32,
        -0.0,
        1.0,
        -1.0,
        f32::MIN_POSITIVE,
        -f32::MIN_POSITIVE,
        1.0e-45,
        -1.0e-45,
        f32::MAX,
        f32::MIN,
        f32::INFINITY,
        f32::NEG_INFINITY,
        f32::NAN,
        -f32::NAN,
    ];
    for x in samples {
        assert_eq!(compares_zero(x.to_bits()), x == 0.0, "{}", x);
        assert_eq!(compares_positive(x.to_bits()), x > 0.0, "{}", x);
    }
}

#[test]
fn leaf_has_its_value_and_no_gradient() {
    let mut g = Graph::new(Ieee);
    let a = leaf(&mut g, 2.5);
    let b = Unit::from(&mut g, 7.0f32.to_bits());
    assert_eq!(g.len(), 2);
    assert_eq!(a, Unit(0));
    assert_eq!(b, Unit(1));
    assert_eq!(value(&g, &a), 2.5);
    assert_eq!(value(&g, &b), 7.0);
    assert_eq!(a.grad(&g), ZERO);
    assert!(g.unit(&a).operation.is_none());
    assert!(g.unit(&a).children.is_empty());
}

#[test]
fn records_keep_what_they_are_given() {
    let record = _Unit::new(3.0f32.to_bits(), Some(Operation::Tanh(Unit(4))), vec![Unit(4)]);
    assert_eq!(record.data, 3.0f32.to_bits());
    assert_eq!(record.grad, ZERO);
    assert!(matches!(record.operation, Some(Operation::Tanh(Unit(4)))));
    assert_eq!(record.children, vec![Unit(4)]);
    assert_eq!(record.id(), record._id);
    let plain = _Unit::from(1.5f32.to_bits());
    assert_eq!(plain.data, 1.5f32.to_bits());
    assert_eq!(plain.grad, ZERO);
    assert!(plain.operation.is_none());
    assert!(plain.children.is_empty());
}

#[test]
fn operations_are_named() {
    let a = Unit(0);
    assert_eq!(Operation::Add(a, a).name(), "Add");
    assert_eq!(Operation::Mul(a, a).name(), "Mul");
    assert_eq!(Operation::Sub(a, a).name(), "Sub");
    assert_eq!(Operation::Div(a, a).name(), "Div");
    assert_eq!(Operation::Tanh(a).name(), "Tanh");
    assert_eq!(Operation::ReLU(a).name(), "ReLU");
    assert_eq!(Operation::Pow(a, ONE).name(), "Pow");
}

#[test]
fn forward_values_follow_the_formulas() {
    let mut g = Graph::new(Ieee);
    let three = leaf(&mut g, 3.0);
    let four = leaf(&mut g, 4.0);
    let product = mul(&mut g, &three, &four);
    assert_eq!(value(&g, &product), 12.0);
    let total = add(&mut g, &three, &four);
    assert_eq!(value(&g, &total), 7.0);
    let less = sub(&mut g, &three, &four);
    assert_eq!(value(&g, &less), -1.0);
    let quotient = div(&mut g, &three, &four).unwrap();
    assert_eq!(value(&g, &quotient), 0.75);
    let square = pow(&mut g, &three, 2.0f32.to_bits());
    assert_eq!(value(&g, &square), 9.0);
    let squashed = tanh(&mut g, &three);
    assert_eq!(value(&g, &squashed), 3.0f32.tanh());
    let kept = relu(&mut g, &three);
    assert_eq!(value(&g, &kept), 3.0);
    let minus = leaf(&mut g, -3.0);
    let cut = relu(&mut g, &minus);
    assert_eq!(cut.data(&g), ZERO);
}

#[test]
fn constructors_record_operation_and_operands() {
    let mut g = Graph::new(Ieee);
    let a = leaf(&mut g, 3.0);
    let b = leaf(&mut g, 4.0);
    let c = mul(&mut g, &a, &b);
    assert_eq!(c, Unit(2));
    assert!(matches!(g.unit(&c).operation, Some(Operation::Mul(l, r)) if l == a && r == b));
    assert_eq!(g.unit(&c).children, vec![a, b]);
    assert_eq!(c.grad(&g), ZERO);
    let d = pow(&mut g, &c, 3.0f32.to_bits());
    assert!(matches!(
        g.unit(&d).operation,
        Some(Operation::Pow(l, e)) if l == c && e == 3.0f32.to_bits()
    ));
    assert_eq!(g.unit(&d).children, vec![c]);
    let e = tanh(&mut g, &d);
    assert!(matches!(g.unit(&e).operation, Some(Operation::Tanh(x)) if x == d));
    let f = relu(&mut g, &e);
    assert!(matches!(g.unit(&f).operation, Some(Operation::ReLU(x)) if x == e));
    assert_eq!(value(&g, &a), 3.0);
    assert_eq!(value(&g, &b), 4.0);
}

#[test]
fn subtraction_is_a_sum_with_the_negated_operand() {
    let mut g = Graph::new(Ieee);
    let l = leaf(&mut g, 5.0);
    let r = leaf(&mut g, 3.0);
    let u = sub(&mut g, &l, &r);
    assert_eq!(g.len(), 5);
    assert_eq!(u, Unit(4));
    assert_eq!(Unit(2).data(&g), MINUS_ONE);
    assert!(g.unit(&Unit(2)).operation.is_none());
    assert!(matches!(
        g.unit(&Unit(3)).operation,
        Some(Operation::Mul(a, b)) if a == r && b == Unit(2)
    ));
    assert_eq!(value(&g, &Unit(3)), -3.0);
    assert!(matches!(
        g.unit(&u).operation,
        Some(Operation::Add(a, b)) if a == l && b == Unit(3)
    ));
    assert_eq!(value(&g, &u), 2.0);
    assert_eq!(backward(&mut g, &u), Ok(()));
    assert_eq!(gradient(&g, &l), 1.0);
    assert_eq!(gradient(&g, &r), -1.0);
}

#[test]
fn division_is_a_product_with_the_inverse() {
    let mut g = Graph::new(Ieee);
    let l = leaf(&mut g, 6.0);
    let r = leaf(&mut g, 4.0);
    let q = div(&mut g, &l, &r).unwrap();
    assert_eq!(g.len(), 4);
    assert_eq!(q, Unit(3));
    assert!(matches!(
        g.unit(&Unit(2)).operation,
        Some(Operation::Pow(a, e)) if a == r && e == MINUS_ONE
    ));
    assert_eq!(value(&g, &Unit(2)), 0.25);
    assert!(matches!(
        g.unit(&q).operation,
        Some(Operation::Mul(a, b)) if a == l && b == Unit(2)
    ));
    assert_eq!(value(&g, &q), 1.5);
    assert_eq!(backward(&mut g, &q), Ok(()));
    assert_eq!(gradient(&g, &l), 0.25);
    assert_eq!(gradient(&g, &r), -0.375);
}

#[test]
fn division_by_zero_is_refused() {
    let mut g = Graph::new(Ieee);
    let five = leaf(&mut g, 5.0);
    let zero = leaf(&mut g, 0.0);
    let minus_zero = leaf(&mut g, -0.0);
    assert_eq!(div(&mut g, &five, &zero), Err(DivisionByZero));
    assert_eq!(div(&mut g, &five, &minus_zero), Err(DivisionByZero));
    assert_eq!(div(&mut g, &zero, &zero), Err(DivisionByZero));
    assert_eq!(g.len(), 3);
    let tiny = leaf(&mut g, 1.0e-45);
    assert!(div(&mut g, &five, &tiny).is_ok());
}

#[test]
fn accumulation_adds_and_does_not_overwrite() {
    let mut g = Graph::new(Ieee);
    let a = leaf(&mut g, 2.0);
    let b = add(&mut g, &a, &a);
    assert_eq!(backward(&mut g, &b), Ok(()));
    assert_eq!(gradient(&g, &a), 2.0);
    assert_eq!(gradient(&g, &b), 1.0);
}

#[test]
fn gradients_pile_up_over_passes_until_they_are_zeroed() {
    let mut g = Graph::new(Ieee);
    let a = leaf(&mut g, 2.0);
    let b = leaf(&mut g, 3.0);
    let c = mul(&mut g, &a, &b);
    assert_eq!(backward(&mut g, &c), Ok(()));
    assert_eq!(gradient(&g, &a), 3.0);
    assert_eq!(backward(&mut g, &c), Ok(()));
    assert_eq!(gradient(&g, &a), 6.0);
    assert_eq!(gradient(&g, &b), 4.0);
    a.zero_grad(&mut g);
    assert_eq!(a.grad(&g), ZERO);
    assert_eq!(gradient(&g, &b), 4.0);
    assert_eq!(value(&g, &a), 2.0);
}

#[test]
fn end_to_end() {
    let mut g = Graph::new(Ieee);
    let a = leaf(&mut g, 1.0);
    let b = leaf(&mut g, 2.0);
    let c = add(&mut g, &a, &b);
    let d = leaf(&mut g, 4.0);
    let e = tanh(&mut g, &c);
    let f = add(&mut g, &d, &e);
    assert_eq!(value(&g, &c), 3.0);
    assert!(close(value(&g, &e), 0.99505475, 1e-6));
    assert!(close(value(&g, &f), 4.99505475, 1e-6));
    assert_eq!(backward(&mut g, &f), Ok(()));
    assert_eq!(gradient(&g, &f), 1.0);
    assert_eq!(gradient(&g, &e), 1.0);
    assert_eq!(gradient(&g, &d), 1.0);
    assert!(close(gradient(&g, &c), 0.00986604, 1e-6));
    assert!(close(gradient(&g, &a), 0.00986604, 1e-6));
    assert!(close(gradient(&g, &b), 0.00986604, 1e-6));
    assert_eq!(gradient(&g, &a), gradient(&g, &b));
}

#[test]
fn each_rule_gives_its_contribution() {
    let mut g = Graph::new(Ieee);
    let a = leaf(&mut g, 3.0);
    let b = leaf(&mut g, -4.0);
    let product = mul(&mut g, &a, &b);
    g.set_grad(&product, 2.0f32.to_bits());
    _Unit::self_back_propagation(&mut g, &product);
    assert_eq!(gradient(&g, &a), -8.0);
    assert_eq!(gradient(&g, &b), 6.0);

    let cube = pow(&mut g, &a, 3.0f32.to_bits());
    g.set_grad(&cube, 2.0f32.to_bits());
    a.zero_grad(&mut g);
    _Unit::self_back_propagation(&mut g, &cube);
    assert_eq!(gradient(&g, &a), 54.0);

    let kept = relu(&mut g, &a);
    let cut = relu(&mut g, &b);
    g.set_grad(&kept, 5.0f32.to_bits());
    g.set_grad(&cut, 5.0f32.to_bits());
    a.zero_grad(&mut g);
    b.zero_grad(&mut g);
    _Unit::self_back_propagation(&mut g, &kept);
    _Unit::self_back_propagation(&mut g, &cut);
    assert_eq!(gradient(&g, &a), 5.0);
    assert_eq!(gradient(&g, &b), 0.0);

    let half = leaf(&mut g, 0.5);
    let squashed = tanh(&mut g, &half);
    g.set_grad(&squashed, 2.0f32.to_bits());
    _Unit::self_back_propagation(&mut g, &squashed);
    let t = 0.5f32.tanh();
    assert_eq!(gradient(&g, &half), 2.0 * (1.0 - t * t));
}

#[test]
fn a_leaf_and_a_division_tag_hand_nothing_on() {
    let mut g = Graph::new(Ieee);
    let a = leaf(&mut g, 3.0);
    let b = leaf(&mut g, 4.0);
    g.set_grad(&a, ONE);
    _Unit::self_back_propagation(&mut g, &a);
    assert_eq!(gradient(&g, &a), 1.0);
    let record = _Unit::new(0.75f32.to_bits(), Some(Operation::Div(a, b)), vec![a, b]);
    let q = Unit::new(&mut g, record);
    assert_eq!(q, Unit(2));
    assert_eq!(backward(&mut g, &q), Ok(()));
    assert_eq!(gradient(&g, &q), 1.0);
    assert_eq!(gradient(&g, &a), 1.0);
    assert_eq!(b.grad(&g), ZERO);
    assert_eq!(g.len(), 3);
}

#[test]
fn a_subtraction_tag_credits_and_debits() {
    let mut g = Graph::new(Ieee);
    let a = leaf(&mut g, 3.0);
    let b = leaf(&mut g, 4.0);
    let record = _Unit::new((-1.0f32).to_bits(), Some(Operation::Sub(a, b)), vec![a, b]);
    let c = Unit::new(&mut g, record);
    g.set_grad(&c, 2.5f32.to_bits());
    _Unit::self_back_propagation(&mut g, &c);
    assert_eq!(gradient(&g, &a), 2.5);
    assert_eq!(gradient(&g, &b), -2.5);
    assert_eq!(gradient(&g, &c), 2.5);
}

#[test]
fn a_record_may_name_itself_as_a_child() {
    let mut g = Graph::new(Ieee);
    let a = leaf(&mut g, 3.0);
    let record = _Unit::new(3.0f32.to_bits(), Some(Operation::Tanh(a)), vec![a, Unit(1)]);
    let b = Unit::new(&mut g, record);
    assert_eq!(b, Unit(1));
    assert_eq!(backward(&mut g, &b), Err(CyclicGraph));
    assert_eq!(b.grad(&g), ONE);
    assert_eq!(a.grad(&g), ZERO);
}

#[test]
fn adjust_moves_the_value_along_the_gradient() {
    let mut g = Graph::new(Ieee);
    let a = leaf(&mut g, 2.0);
    g.set_grad(&a, 4.0f32.to_bits());
    a.adjust(&mut g, (-0.05f32).to_bits());
    assert_eq!(value(&g, &a), 2.0f32 + (-0.05f32 * 4.0));
    assert_eq!(gradient(&g, &a), 4.0);
}

#[test]
fn shared_operands_are_sorted_once() {
    let mut g = Graph::new(Ieee);
    let x = leaf(&mut g, 2.0);
    let left = tanh(&mut g, &x);
    let right = relu(&mut g, &x);
    let top = mul(&mut g, &left, &right);
    let order = topological_sort_circle(&g, &top).unwrap();
    assert_eq!(order, vec![x, left, right, top]);
    let back = rev_topological_sort_dfs(&g, &top).unwrap();
    assert_eq!(back, vec![top, right, left, x]);
    assert_eq!(backward(&mut g, &top), Ok(()));
    let t = 2.0f32.tanh();
    let expected = 1.0 * 2.0 * (1.0 - t * t) + 1.0 * t * 1.0;
    assert_eq!(gradient(&g, &x), expected);
}

#[test]
fn only_what_the_root_reaches_is_sorted() {
    let mut g = Graph::new(Ieee);
    let a = leaf(&mut g, 1.0);
    let b = leaf(&mut g, 2.0);
    let c = add(&mut g, &a, &a);
    let d = mul(&mut g, &c, &b);
    assert_eq!(topological_sort_circle(&g, &c).unwrap(), vec![a, c]);
    assert_eq!(topological_sort_circle(&g, &a).unwrap(), vec![a]);
    assert_eq!(topological_sort_circle(&g, &d).unwrap(), vec![a, c, b, d]);
    assert_eq!(backward(&mut g, &c), Ok(()));
    assert_eq!(b.grad(&g), ZERO);
    assert_eq!(d.grad(&g), ZERO);
    assert_eq!(gradient(&g, &a), 2.0);
}

#[test]
fn a_self_reference_is_a_cycle() {
    let mut g = Graph::new(Ieee);
    let a = leaf(&mut g, 1.0);
    let b = leaf(&mut g, 2.0);
    let c = add(&mut g, &a, &b);
    g.link(&c, &c);
    assert!(topological_sort_circle(&g, &c).is_none());
    assert!(rev_topological_sort_dfs(&g, &c).is_none());
    assert_eq!(backward(&mut g, &c), Err(CyclicGraph));
    assert_eq!(c.grad(&g), ONE);
    assert_eq!(a.grad(&g), ZERO);
    assert_eq!(b.grad(&g), ZERO);
    assert!(topological_sort_circle(&g, &a).is_some());
}

#[test]
fn a_reference_to_an_ancestor_is_a_cycle() {
    let mut g = Graph::new(Ieee);
    let a = leaf(&mut g, 1.0);
    let b = tanh(&mut g, &a);
    let c = relu(&mut g, &b);
    let d = tanh(&mut g, &c);
    g.link(&a, &c);
    assert_eq!(backward(&mut g, &d), Err(CyclicGraph));
    assert_eq!(d.grad(&g), ONE);
    assert_eq!(c.grad(&g), ZERO);
    assert_eq!(b.grad(&g), ZERO);
    assert_eq!(a.grad(&g), ZERO);
    assert_eq!(backward(&mut g, &b), Err(CyclicGraph));
}

#[test]
fn an_extra_reference_forward_is_no_cycle() {
    let mut g = Graph::new(Ieee);
    let a = leaf(&mut g, 1.0);
    let b = tanh(&mut g, &a);
    let c = relu(&mut g, &b);
    g.link(&c, &a);
    assert_eq!(g.unit(&c).children, vec![b, a]);
    assert_eq!(topological_sort_circle(&g, &c).unwrap(), vec![a, b, c]);
    assert_eq!(backward(&mut g, &c), Ok(()));
}

#[test]
fn deep_chains_are_walked_without_recursion() {
    let depth = 5000;
    let mut g = Graph::new(Ieee);
    let x = leaf(&mut g, 0.5);
    let one = leaf(&mut g, 1.0);
    let mut top = x;
    for _ in 0..depth {
        let left = mul(&mut g, &top, &one);
        let right = mul(&mut g, &top, &one);
        top = add(&mut g, &left, &right);
    }
    let order = topological_sort_circle(&g, &top).unwrap();
    assert_eq!(order.len(), 3 * depth + 2);
    assert_eq!(order[order.len() - 1], top);
    g.link(&x, &top);
    assert!(topological_sort_circle(&g, &top).is_none());
    assert_eq!(backward(&mut g, &top), Err(CyclicGraph));
    assert_eq!(top.grad(&g), ONE);
    assert_eq!(x.grad(&g), ZERO);
}

#[test]
fn a_deep_chain_propagates_to_its_leaf() {
    let depth = 2000;
    let mut g = Graph::new(Ieee);
    let x = leaf(&mut g, 0.5);
    let one = leaf(&mut g, 1.0);
    let mut top = x;
    for _ in 0..depth {
        top = mul(&mut g, &top, &one);
    }
    assert_eq!(backward(&mut g, &top), Ok(()));
    assert_eq!(gradient(&g, &x), 1.0);
    assert_eq!(gradient(&g, &one), 0.5 * depth as f32);
}

#[test]
fn every_node_comes_after_the_nodes_it_is_a_child_of() {
    let mut g = Graph::new(Ieee);
    let a = leaf(&mut g, 1.0);
    let b = leaf(&mut g, 2.0);
    let c = add(&mut g, &a, &b);
    let d = mul(&mut g, &c, &a);
    let e = tanh(&mut g, &d);
    let f = add(&mut g, &e, &c);
    let h = mul(&mut g, &f, &d);
    let order = rev_topological_sort_dfs(&g, &h).unwrap();
    assert_eq!(order.len(), 7);
    assert_eq!(order[0], h);
    for (i, u) in order.iter().enumerate() {
        for child in g.unit(u).children.iter() {
            let at = order.iter().position(|x| x == child).unwrap();
            assert!(at > i);
        }
    }
}

fn polynomial(g: &mut Graph<Ieee>, x: f32, y: f32) -> (Unit, Unit, Unit) {
    let x = leaf(g, x);
    let y = leaf(g, y);
    let xy = mul(g, &x, &y);
    let t = tanh(g, &xy);
    let x3 = pow(g, &x, 3.0f32.to_bits());
    let r = relu(g, &y);
    let s = sub(g, &x3, &r);
    let q = div(g, &s, &y).unwrap();
    let out = add(g, &t, &q);
    (x, y, out)
}

#[test]
fn gradients_match_finite_differences() {
    let points = [(1.5f32, 2.0f32), (0.7, 1.3), (2.0, 0.5), (-1.2, 3.0)];
    let h = 1.0e-2f32;
    for (x0, y0) in points {
        let mut g = Graph::new(Ieee);
        let (x, y, out) = polynomial(&mut g, x0, y0);
        assert_eq!(backward(&mut g, &out), Ok(()));
        let at = |x: f32, y: f32| {
            let mut g = Graph::new(Ieee);
            let (_, _, out) = polynomial(&mut g, x, y);
            value(&g, &out)
        };
        let dx = (at(x0 + h, y0) - at(x0 - h, y0)) / (2.0 * h);
        let dy = (at(x0, y0 + h) - at(x0, y0 - h)) / (2.0 * h);
        assert!(close(gradient(&g, &x), dx, 2.0e-2), "{} {}", gradient(&g, &x), dx);
        assert!(close(gradient(&g, &y), dy, 2.0e-2), "{} {}", gradient(&g, &y), dy);
    }
}

#[test]
fn negation_is_a_product_with_minus_one() {
    let mut g = Graph::new(Ieee);
    let x = leaf(&mut g, 2.5);
    let u = neg(&mut g, &x);
    assert_eq!(g.len(), 3);
    assert_eq!(u, Unit(2));
    assert_eq!(Unit(1).data(&g), MINUS_ONE);
    assert!(g.unit(&Unit(1)).operation.is_none());
    assert!(g.unit(&Unit(1)).children.is_empty());
    assert!(matches!(
        g.unit(&u).operation,
        Some(Operation::Mul(a, b)) if a == x && b == Unit(1)
    ));
    assert_eq!(g.unit(&u).children, vec![x, Unit(1)]);
    assert_eq!(value(&g, &u), -2.5);
    assert_eq!(backward(&mut g, &u), Ok(()));
    assert_eq!(gradient(&g, &x), -1.0);
    assert_eq!(gradient(&g, &Unit(1)), 2.5);
}

#[test]
fn the_nodes_of_a_store_carry_distinct_tags() {
    let mut g = Graph::new(Ieee);
    let a = leaf(&mut g, 1.0);
    let b = leaf(&mut g, 2.0);
    let c = add(&mut g, &a, &b);
    let d = sub(&mut g, &c, &a);
    let _ = tanh(&mut g, &d);
    let mut tags: Vec<usize> = (0..g.len()).map(|i| g.unit(&Unit(i)).id()).collect();
    let before = tags.clone();
    tags.sort();
    tags.dedup();
    assert_eq!(tags.len(), g.len());
    assert_eq!(backward(&mut g, &d), Ok(()));
    a.zero_grad(&mut g);
    a.adjust(&mut g, ONE);
    let after: Vec<usize> = (0..g.len()).map(|i| g.unit(&Unit(i)).id()).collect();
    assert_eq!(before, after);
}

#[test]
fn a_record_keeps_its_tag_where_it_is_free() {
    let mut g = Graph::new(Ieee);
    let a = leaf(&mut g, 1.0);
    let taken = g.unit(&a).id();
    let mut record = _Unit::from(2.0f32.to_bits());
    record._id = taken.wrapping_add(17);
    let b = Unit::new(&mut g, record);
    assert_eq!(g.unit(&b).id(), taken.wrapping_add(17));
    assert_eq!(g.unit(&a).id(), taken);
}

#[test]
fn a_record_whose_tag_is_taken_gets_the_least_free_one() {
    let mut g = Graph::new(Ieee);
    let mut tags = Vec::new();
    for t in [1usize, 0, 3] {
        let mut record = _Unit::from(ONE);
        record._id = t;
        let u = Unit::new(&mut g, record);
        tags.push(g.unit(&u).id());
    }
    assert_eq!(tags, vec![1, 0, 3]);
    let mut record = _Unit::from(7.0f32.to_bits());
    record._id = 3;
    let u = Unit::new(&mut g, record);
    assert_eq!(g.unit(&u).id(), 2);
    assert_eq!(value(&g, &u), 7.0);
    let mut record = _Unit::from(ONE);
    record._id = 0;
    let v = Unit::new(&mut g, record);
    assert_eq!(g.unit(&v).id(), 4);
    let ids: Vec<usize> = (0..g.len()).map(|i| g.unit(&Unit(i)).id()).collect();
    assert_eq!(ids, vec![1, 0, 3, 2, 4]);
}
