use autograd::layer::Layer;
use autograd::mlp::MLP;
use autograd::neuron::Neuron;
use autograd::rational::Rat;
use autograd::{Engine, Value};

#[test]
fn neuron_output_is_affine() {
    let mut eng = Engine::new();
    eng.set_seed(7);
    let x = Value::from(&mut eng, Rat::new(3, 1));
    let inputs = vec![x];
    let nr = Neuron::new(&mut eng, &inputs, true).unwrap();
    assert_eq!(nr.parameters.len(), 2);
    let p0 = eng.get_value(nr.parameters[0]);
    let p1 = eng.get_value(nr.parameters[1]);
    let expected = p0
        .checked_add(&p1.checked_mul(&Rat::new(3, 1)).unwrap())
        .unwrap();
    assert!(eng.get_value(nr.output).eq_rat(&expected));
    assert!(eng.get_needs_grad(nr.parameters[0]));
    assert!(eng.get_needs_grad(nr.parameters[1]));
}

#[test]
fn neuron_set_writes_inputs() {
    let mut eng = Engine::new();
    let x = Value::from(&mut eng, Rat::zero());
    let y = Value::from(&mut eng, Rat::zero());
    let nr = Neuron::new(&mut eng, &vec![x, y], true).unwrap();
    nr.set(&mut eng, vec![Rat::new(5, 1), Rat::new(-2, 3)]);
    assert!(eng.get_value(x).eq_rat(&Rat::new(5, 1)));
    assert!(eng.get_value(y).eq_rat(&Rat::new(-2, 3)));
}

#[test]
fn layer_builds_shared_inputs() {
    let mut eng = Engine::new();
    let x = Value::from(&mut eng, Rat::zero());
    let layer = Layer::new(&mut eng, 3, &vec![x], false).unwrap();
    assert_eq!(layer.neurons.len(), 3);
    assert_eq!(layer.outputs.len(), 3);
    for (i, nr) in layer.neurons.iter().enumerate() {
        assert_eq!(layer.outputs[i], nr.output);
        assert_eq!(nr.inputs, vec![x]);
    }
}

#[test]
fn mlp_structure() {
    let mut eng = Engine::new();
    eng.set_seed(3);
    let net = MLP::new(&mut eng, vec![2, 1], vec![false, true], 2).unwrap();
    assert_eq!(net.layers.len(), 2);
    assert_eq!(net.layers[0].neurons.len(), 2);
    assert_eq!(net.layers[1].neurons.len(), 1);
    let outs = net.outputs(&eng);
    assert_eq!(outs.len(), 1);
}

#[test]
fn training_loss_nonincreasing() {
    // A small fixed-seed network trained by gradient descent at a small
    // learning rate on a fixed input: the loss never increases.
    let mut eng = Engine::new();
    eng.set_seed(1);
    let net = MLP::new(&mut eng, vec![1], vec![true], 1).unwrap();
    net.set(&mut eng, vec![Rat::one()]);
    let outs = net.outputs(&eng);
    assert_eq!(outs.len(), 1);
    let target = Value::from(&mut eng, Rat::one());
    let neg_target = eng.inv(target).unwrap();
    let diff = eng.add(outs[0], neg_target).unwrap();
    let loss = eng.pow(diff).unwrap();
    assert!(Value::forward(&mut eng, loss));
    let alpha = Rat::new(1, 8);
    let mut last = eng.get_value(loss);
    assert!(!last.le_rat(&Rat::new(-1, 1000000000)));
    for _ in 0..6 {
        net.zero_grad(&mut eng);
        eng.set_grad(loss, Rat::one());
        assert!(Value::backward(&mut eng, loss));
        assert!(net.update(&mut eng, alpha));
        assert!(Value::forward(&mut eng, loss));
        let cur = eng.get_value(loss);
        assert!(cur.le_rat(&last));
        last = cur;
    }
}

#[test]
fn neuron_update_moves_against_gradient() {
    let mut eng = Engine::new();
    let x = Value::from(&mut eng, Rat::zero());
    let nr = Neuron::new(&mut eng, &vec![x], true).unwrap();
    eng.set_value(nr.parameters[0], Rat::new(3, 1));
    eng.set_grad(nr.parameters[0], Rat::new(4, 1));
    eng.set_value(nr.parameters[1], Rat::new(-1, 2));
    eng.set_grad(nr.parameters[1], Rat::new(-2, 1));
    assert!(nr.update(&mut eng, Rat::new(1, 4)));
    // value := value - grad * alpha
    assert!(eng.get_value(nr.parameters[0]).eq_rat(&Rat::new(2, 1)));
    assert!(eng.get_value(nr.parameters[1]).eq_rat(&Rat::new(0, 1)));
}

#[test]
fn network_zero_grad_marks_parameters() {
    let mut eng = Engine::new();
    eng.set_seed(2);
    let net = MLP::new(&mut eng, vec![2, 1], vec![false, true], 1).unwrap();
    for layer in net.layers.iter() {
        for nr in layer.neurons.iter() {
            for p in nr.parameters.iter() {
                eng.set_grad(*p, Rat::new(9, 1));
            }
        }
    }
    net.zero_grad(&mut eng);
    for layer in net.layers.iter() {
        for nr in layer.neurons.iter() {
            for p in nr.parameters.iter() {
                assert!(eng.get_grad(*p).eq_rat(&Rat::zero()));
            }
        }
    }
}
