use autograd::rational::Rat;
use autograd::{Engine, Operation, Value};

fn rat(n: i64, d: i64) -> Rat {
    Rat::new(n, d)
}

#[test]
fn leaf_value_and_defaults() {
    let mut eng = Engine::new();
    let x = Value::from(&mut eng, rat(7, 2));
    assert!(eng.get_value(x).eq_rat(&rat(7, 2)));
    assert!(eng.get_grad(x).eq_rat(&Rat::zero()));
    assert!(!eng.get_needs_grad(x));
    assert_eq!(eng.get_operation(x), Operation::NONE);
    assert_eq!(eng.get_id(x).value, 0);
}

#[test]
fn identifier_monotone() {
    let mut eng = Engine::new();
    let a = Value::from(&mut eng, Rat::zero());
    let b = Value::from(&mut eng, Rat::one());
    let c = eng.add(a, b).unwrap();
    assert!(eng.get_id(a).value < eng.get_id(b).value);
    assert!(eng.get_id(b).value < eng.get_id(c).value);
}

#[test]
fn add_and_mul_values() {
    let mut eng = Engine::new();
    let a = Value::from(&mut eng, rat(2, 1));
    let b = Value::from(&mut eng, rat(3, 1));
    let s = eng.add(a, b).unwrap();
    let m = eng.mul(a, b).unwrap();
    assert!(eng.get_value(s).eq_rat(&rat(5, 1)));
    assert!(eng.get_value(m).eq_rat(&rat(6, 1)));
    assert!(eng.get_needs_grad(s));
    assert_eq!(eng.get_operation(s), Operation::ADD);
    assert_eq!(eng.get_operation(m), Operation::MUL);
}

#[test]
fn relu_values() {
    let mut eng = Engine::new();
    let p = Value::from(&mut eng, rat(5, 3));
    let n = Value::from(&mut eng, rat(-4, 1));
    let z = Value::from(&mut eng, Rat::zero());
    let rp = eng.relu(p);
    let rn = eng.relu(n);
    let rz = eng.relu(z);
    assert!(eng.get_value(rp).eq_rat(&rat(5, 3)));
    assert!(eng.get_value(rn).eq_rat(&Rat::zero()));
    assert!(eng.get_value(rz).eq_rat(&Rat::zero()));
}

#[test]
fn negate_value() {
    let mut eng = Engine::new();
    let a = Value::from(&mut eng, rat(7, 1));
    let neg = eng.inv(a).unwrap();
    assert!(eng.get_value(neg).eq_rat(&rat(-7, 1)));
}

#[test]
fn square_value() {
    let mut eng = Engine::new();
    let a = Value::from(&mut eng, rat(5, 2));
    let sq = eng.pow(a).unwrap();
    assert!(eng.get_value(sq).eq_rat(&rat(25, 4)));
}

#[test]
fn square_gradient_doubles() {
    // Square semantics: d/dx x^2 = 2x; both operand slots of the product
    // feed the one shared leaf.
    let mut eng = Engine::new();
    let x = Value::from(&mut eng, rat(5, 2));
    eng.set_needs_grad(x, true);
    let sq = eng.pow(x).unwrap();
    eng.set_grad(sq, Rat::one());
    assert!(Value::backward(&mut eng, sq));
    assert!(eng.get_grad(x).eq_rat(&rat(5, 1)));
}

#[test]
fn scenario_product_sum() {
    // leaf a=2, leaf b=3, c = a*b (6), d = c + 1 (7); seed grad(d)=1:
    // grad(a)=3, grad(b)=2, grad(c)=1.
    let mut eng = Engine::new();
    let a = Value::from(&mut eng, rat(2, 1));
    let b = Value::from(&mut eng, rat(3, 1));
    eng.set_needs_grad(a, true);
    eng.set_needs_grad(b, true);
    let c = eng.mul(a, b).unwrap();
    let one = Value::from(&mut eng, Rat::one());
    let d = eng.add(c, one).unwrap();
    assert!(eng.get_value(c).eq_rat(&rat(6, 1)));
    assert!(eng.get_value(d).eq_rat(&rat(7, 1)));
    eng.set_grad(d, Rat::one());
    assert!(Value::backward(&mut eng, d));
    assert!(eng.get_grad(a).eq_rat(&rat(3, 1)));
    assert!(eng.get_grad(b).eq_rat(&rat(2, 1)));
    assert!(eng.get_grad(c).eq_rat(&rat(1, 1)));
}

#[test]
fn scenario_relu_negative() {
    // a = -2, r = ReLU(a) (value 0); seed grad(r)=1: grad(a)=0.
    let mut eng = Engine::new();
    let a = Value::from(&mut eng, rat(-2, 1));
    eng.set_needs_grad(a, true);
    let r = eng.relu(a);
    assert!(eng.get_value(r).eq_rat(&Rat::zero()));
    eng.set_grad(r, Rat::one());
    assert!(Value::backward(&mut eng, r));
    assert!(eng.get_grad(a).eq_rat(&Rat::zero()));
}

#[test]
fn relu_positive_passthrough() {
    let mut eng = Engine::new();
    let a = Value::from(&mut eng, rat(2, 1));
    eng.set_needs_grad(a, true);
    let r = eng.relu(a);
    eng.set_grad(r, rat(5, 1));
    assert!(Value::backward(&mut eng, r));
    assert!(eng.get_grad(a).eq_rat(&rat(5, 1)));
}

#[test]
fn add_backward_distributes() {
    let mut eng = Engine::new();
    let a = Value::from(&mut eng, rat(11, 1));
    let b = Value::from(&mut eng, rat(13, 1));
    eng.set_needs_grad(a, true);
    eng.set_needs_grad(b, true);
    let s = eng.add(a, b).unwrap();
    eng.set_grad(s, rat(9, 4));
    assert!(Value::backward(&mut eng, s));
    assert!(eng.get_grad(a).eq_rat(&rat(9, 4)));
    assert!(eng.get_grad(b).eq_rat(&rat(9, 4)));
}

#[test]
fn mul_backward_cross() {
    let mut eng = Engine::new();
    let a = Value::from(&mut eng, rat(11, 1));
    let b = Value::from(&mut eng, rat(13, 1));
    eng.set_needs_grad(a, true);
    eng.set_needs_grad(b, true);
    let m = eng.mul(a, b).unwrap();
    eng.set_grad(m, rat(2, 1));
    assert!(Value::backward(&mut eng, m));
    assert!(eng.get_grad(a).eq_rat(&rat(26, 1)));
    assert!(eng.get_grad(b).eq_rat(&rat(22, 1)));
}

#[test]
fn fanout_accumulates() {
    // A leaf feeding two consumers ends with the sum of both
    // contributions, not one of them.
    let mut eng = Engine::new();
    let l = Value::from(&mut eng, rat(1, 1));
    eng.set_needs_grad(l, true);
    let c1 = Value::from(&mut eng, rat(4, 1));
    let c2 = Value::from(&mut eng, rat(9, 1));
    let a = eng.mul(l, c1).unwrap();
    let b = eng.mul(l, c2).unwrap();
    let r = eng.add(a, b).unwrap();
    eng.set_grad(r, Rat::one());
    assert!(Value::backward(&mut eng, r));
    assert!(eng.get_grad(l).eq_rat(&rat(13, 1)));
}

#[test]
fn forward_idempotent() {
    let mut eng = Engine::new();
    let a = Value::from(&mut eng, rat(3, 2));
    let b = Value::from(&mut eng, rat(-5, 4));
    let m = eng.mul(a, b).unwrap();
    let r = eng.relu(m);
    let s = eng.add(m, r).unwrap();
    assert!(Value::forward(&mut eng, s));
    let v1m = eng.get_value(m);
    let v1r = eng.get_value(r);
    let v1s = eng.get_value(s);
    assert!(Value::forward(&mut eng, s));
    assert_eq!(eng.get_value(m), v1m);
    assert_eq!(eng.get_value(r), v1r);
    assert_eq!(eng.get_value(s), v1s);
}

#[test]
fn forward_recomputes_after_set() {
    let mut eng = Engine::new();
    let a = Value::from(&mut eng, rat(2, 1));
    let b = Value::from(&mut eng, rat(3, 1));
    let m = eng.mul(a, b).unwrap();
    assert!(eng.get_value(m).eq_rat(&rat(6, 1)));
    eng.set_value(a, rat(10, 1));
    assert!(Value::forward(&mut eng, m));
    assert!(eng.get_value(m).eq_rat(&rat(30, 1)));
    // the memoized order is reused by a second recomputation
    eng.set_value(b, rat(-1, 2));
    assert!(Value::forward(&mut eng, m));
    assert!(eng.get_value(m).eq_rat(&rat(-5, 1)));
}

#[test]
fn zero_grad_clears_stale() {
    // Without zero_grad a second backward pass doubles the gradient;
    // with it, the stale contribution is discarded even though the
    // memoized order is reused.
    let mut eng = Engine::new();
    let x = Value::from(&mut eng, rat(3, 1));
    eng.set_needs_grad(x, true);
    let y = eng.pow(x).unwrap();
    eng.set_grad(y, Rat::one());
    assert!(Value::backward(&mut eng, y));
    assert!(eng.get_grad(x).eq_rat(&rat(6, 1)));

    // stale accumulation: grads keep adding up
    eng.set_grad(y, Rat::one());
    assert!(Value::backward(&mut eng, y));
    assert!(eng.get_grad(x).eq_rat(&rat(12, 1)));

    // an explicit reset discards every stale contribution
    Value::zero_grad(&mut eng, x);
    eng.set_grad(y, Rat::one());
    assert!(Value::backward(&mut eng, y));
    assert!(eng.get_grad(x).eq_rat(&rat(6, 1)));
}

#[test]
fn zero_grad_propagates_through_interior() {
    // The pending-reset marker travels from the leaf through interior
    // nodes, so their stale gradients are discarded too.
    let mut eng = Engine::new();
    let x = Value::from(&mut eng, rat(2, 1));
    eng.set_needs_grad(x, true);
    let m = eng.pow(x).unwrap();
    let one = Value::from(&mut eng, Rat::one());
    let s = eng.add(m, one).unwrap();
    eng.set_grad(s, Rat::one());
    assert!(Value::backward(&mut eng, s));
    let g1 = eng.get_grad(x);
    assert!(g1.eq_rat(&rat(4, 1)));
    Value::zero_grad(&mut eng, x);
    eng.set_grad(s, Rat::one());
    assert!(Value::backward(&mut eng, s));
    assert!(eng.get_grad(x).eq_rat(&rat(4, 1)));
}

#[test]
fn random_leaf_in_unit_interval() {
    let mut eng = Engine::new();
    let p = Value::random(&mut eng);
    let v = eng.get_value(p);
    assert!(v.num >= 0);
    assert!(v.num < v.den);
    assert!(!eng.get_needs_grad(p));
}

#[test]
fn seeded_random_reproducible() {
    let mut e1 = Engine::new();
    e1.set_seed(41);
    let mut e2 = Engine::new();
    e2.set_seed(41);
    let p1 = Value::random(&mut e1);
    let p2 = Value::random(&mut e2);
    assert_eq!(e1.get_value(p1), e2.get_value(p2));
    // every draw under one configured seed yields the same value
    let p3 = Value::random(&mut e1);
    assert_eq!(e1.get_value(p1), e1.get_value(p3));
}

#[test]
fn operation_names() {
    assert_eq!(Operation::ADD.name(), "Add");
    assert_eq!(Operation::MUL.name(), "Mul");
    assert_eq!(Operation::RELU.name(), "Relu");
    assert_eq!(Operation::NONE.name(), "None");
    assert_eq!(Operation::default(), Operation::NONE);
}

#[test]
fn relu_subgradient_at_zero() {
    // The sub-gradient at exactly zero is defined as zero.
    let mut eng = Engine::new();
    let a = Value::from(&mut eng, Rat::zero());
    eng.set_needs_grad(a, true);
    let r = eng.relu(a);
    assert!(eng.get_value(r).eq_rat(&Rat::zero()));
    eng.set_grad(r, rat(7, 1));
    assert!(Value::backward(&mut eng, r));
    assert!(eng.get_grad(a).eq_rat(&Rat::zero()));
}
