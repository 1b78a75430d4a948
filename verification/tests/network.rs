//! Tests for the network composition layer: neuron evaluation, layer and
//! network shape, determinism, leaf immutability, and a training smoke test.

use scalargrad::neuron::{Layer, Neuron, MLP};
use scalargrad::value::{Graph, Oper, Value};

fn leaf(g: &mut Graph, x: f64) -> Value {
    Value::new(g, x.to_bits())
}

fn val(v: Value, g: &Graph) -> f64 {
    f64::from_bits(v.data(g))
}

#[test]
fn neuron_parameters_in_range() {
    let mut g = Graph::new();
    let n = Neuron::new(&mut g, 4);
    let params = n.parameters();
    assert_eq!(params.len(), 5);
    for p in params {
        let w = val(p, &g);
        assert!((-1.0..=1.0).contains(&w), "weight {w} outside [-1, 1]");
        assert!(matches!(p.op(&g), Oper::Leaf));
        assert_eq!(p.grad(&g), None);
    }
}

#[test]
fn neuron_call_computes_weighted_tanh() {
    let mut g = Graph::new();
    let n = Neuron::new(&mut g, 2);
    let w0 = val(n.weights[0], &g);
    let w1 = val(n.weights[1], &g);
    let b = val(n.bias, &g);
    let x0 = leaf(&mut g, 0.5);
    let x1 = leaf(&mut g, -1.5);
    let out = n.call(&mut g, &vec![x0, x1]);
    let expected = (b + w0 * 0.5 + w1 * -1.5).tanh();
    assert!((val(out, &g) - expected).abs() < 1e-12);
    assert!(matches!(out.op(&g), Oper::Tanh));
}

#[test]
fn layer_forward_one_output_per_neuron() {
    let mut g = Graph::new();
    let l = Layer::new(&mut g, 3, 4);
    assert_eq!(l.neurons.len(), 4);
    let xs = vec![leaf(&mut g, 0.1), leaf(&mut g, 0.2), leaf(&mut g, 0.3)];
    let outs = l.forward(&mut g, &xs);
    assert_eq!(outs.len(), 4);
    for (k, out) in outs.iter().enumerate() {
        let n = &l.neurons[k];
        let mut acc = val(n.bias, &g);
        for (w, x) in n.weights.iter().zip(xs.iter()) {
            acc += val(*w, &g) * val(*x, &g);
        }
        assert!((val(*out, &g) - acc.tanh()).abs() < 1e-12);
    }
}

#[test]
fn mlp_shape_chains_layer_sizes() {
    let mut g = Graph::new();
    let m = MLP::new(&mut g, 3, vec![4, 4, 1]);
    assert_eq!(m.layers.len(), 3);
    assert_eq!(m.layers[0].input_size, 3);
    assert_eq!(m.layers[0].output_size, 4);
    assert_eq!(m.layers[1].input_size, 4);
    assert_eq!(m.layers[1].output_size, 4);
    assert_eq!(m.layers[2].input_size, 4);
    assert_eq!(m.layers[2].output_size, 1);
    assert_eq!(m.parameters().len(), 4 * 4 + 4 * 5 + 5);
}

#[test]
fn parameters_are_distinct_fresh_nodes() {
    // The constructors hand out handles to exactly the nodes they append,
    // in allocation order: on a fresh graph the parameter ids are 0, 1, 2,
    // ... with no aliasing, weights before bias within each neuron.
    let mut g = Graph::new();
    let m = MLP::new(&mut g, 2, vec![3, 1]);
    let ps = m.parameters();
    for (k, p) in ps.iter().enumerate() {
        assert_eq!(p.id, k);
    }
    let n = &m.layers[0].neurons[1];
    assert_eq!(n.weights[0].id + 1, n.weights[1].id);
    assert_eq!(n.weights[1].id + 1, n.bias.id);
}

#[test]
fn forward_is_deterministic() {
    // Evaluating the same network on the same inputs twice, with no update
    // in between, yields bit-identical outputs.
    let mut g = Graph::new();
    let m = MLP::new(&mut g, 3, vec![4, 4, 1]);
    let xs = vec![leaf(&mut g, 2.0), leaf(&mut g, 3.0), leaf(&mut g, -1.0)];
    let out1 = m.forward(&mut g, &xs);
    let out2 = m.forward(&mut g, &xs);
    assert_eq!(out1.len(), out2.len());
    for (a, b) in out1.iter().zip(out2.iter()) {
        assert_eq!(a.data(&g), b.data(&g), "outputs differ bit for bit");
    }
}

#[test]
fn forward_never_mutates_leaves() {
    // A forward pass builds fresh nodes only: every parameter keeps its
    // exact value and its (unset) gradient.
    let mut g = Graph::new();
    let m = MLP::new(&mut g, 2, vec![3, 1]);
    let before: Vec<(u64, Option<u64>)> =
        m.parameters().iter().map(|p| (p.data(&g), p.grad(&g))).collect();
    let xs = vec![leaf(&mut g, 0.25), leaf(&mut g, -0.75)];
    let _ = m.forward(&mut g, &xs);
    let after: Vec<(u64, Option<u64>)> =
        m.parameters().iter().map(|p| (p.data(&g), p.grad(&g))).collect();
    assert_eq!(before, after);
}

#[test]
fn descend_moves_every_parameter() {
    let mut g = Graph::new();
    let m = MLP::new(&mut g, 2, vec![2, 1]);
    let xs = vec![leaf(&mut g, 1.0), leaf(&mut g, -1.0)];
    let outs = m.forward(&mut g, &xs);
    let target = leaf(&mut g, 0.5);
    let diff = outs[0].sub(&mut g, target);
    let loss = diff.pow(&mut g, (2.0f64).to_bits());
    loss.backprop(&mut g);
    let lr = 0.05f64;
    let before: Vec<(f64, f64)> = m
        .parameters()
        .iter()
        .map(|p| (val(*p, &g), f64::from_bits(p.grad(&g).expect("gradient unset"))))
        .collect();
    m.descend(&mut g, lr.to_bits());
    for (p, (d, gr)) in m.parameters().iter().zip(before.iter()) {
        let expected = d + (-lr) * gr;
        assert_eq!(val(*p, &g).to_bits(), expected.to_bits());
    }
}

#[test]
fn training_reduces_loss() {
    // The toy task: four 2-input points with targets {1, -1, -1, 1}.
    // Repeated forward -> loss -> backward -> update cycles must drive the
    // mean squared error below a fixed epsilon within a bounded budget, and
    // the windowed mean loss must not grow.  Each cycle starts by resetting
    // the arena to the persistent parameter leaves, discarding the previous
    // pass's ephemeral nodes and gradients.
    let inputs: [[f64; 2]; 4] = [[2.0, 3.0], [3.0, -1.0], [0.5, 1.0], [1.0, 1.0]];
    let targets: [f64; 4] = [1.0, -1.0, -1.0, 1.0];

    let mut g = Graph::new();
    let m = MLP::new(&mut g, 2, vec![8, 8, 1]);
    // MLP::new allocates exactly the parameter leaves, so the watermark for
    // the arena reset is the parameter count.
    let watermark = m.parameters().len();
    let lr = (0.05f64).to_bits();
    let budget = 5000;
    let epsilon = 0.01;
    let window = 100;

    let mut losses: Vec<f64> = Vec::new();
    let mut converged = false;
    for _ in 0..budget {
        g.reset(watermark);
        let mut loss: Option<Value> = None;
        for (xs, t) in inputs.iter().zip(targets.iter()) {
            let xv = vec![leaf(&mut g, xs[0]), leaf(&mut g, xs[1])];
            let out = m.forward(&mut g, &xv);
            let tv = leaf(&mut g, *t);
            let d = out[0].sub(&mut g, tv);
            let sq = d.pow(&mut g, (2.0f64).to_bits());
            loss = Some(match loss {
                None => sq,
                Some(acc) => acc.add(&mut g, sq),
            });
        }
        let loss = loss.unwrap().div_const(&mut g, (4.0f64).to_bits());
        let l = val(loss, &g);
        losses.push(l);
        if l < epsilon {
            converged = true;
            break;
        }
        loss.backprop(&mut g);
        m.descend(&mut g, lr);
    }

    assert!(converged, "loss never fell below {epsilon}: last = {:?}", losses.last());
    if losses.len() >= 2 * window {
        let first: f64 = losses[..window].iter().sum::<f64>() / window as f64;
        let last: f64 = losses[losses.len() - window..].iter().sum::<f64>() / window as f64;
        assert!(last <= first, "windowed mean loss grew: {first} -> {last}");
    }
}

#[test]
fn neuron_gradient_matches_finite_difference() {
    // Gradient flow through a whole neuron: the analytic input gradients
    // match centered finite differences of tanh(b + w0*x0 + w1*x1).
    let mut g = Graph::new();
    let n = Neuron::new(&mut g, 2);
    let w0 = val(n.weights[0], &g);
    let w1 = val(n.weights[1], &g);
    let b = val(n.bias, &g);
    let f = |x0: f64, x1: f64| (b + w0 * x0 + w1 * x1).tanh();

    let (x0, x1) = (0.3, -0.9);
    let xv = vec![leaf(&mut g, x0), leaf(&mut g, x1)];
    let out = n.call(&mut g, &xv);
    out.backprop(&mut g);

    let h = 1e-5;
    let fd0 = (f(x0 + h, x1) - f(x0 - h, x1)) / (2.0 * h);
    let fd1 = (f(x0, x1 + h) - f(x0, x1 - h)) / (2.0 * h);
    let g0 = f64::from_bits(xv[0].grad(&g).expect("input gradient unset"));
    let g1 = f64::from_bits(xv[1].grad(&g).expect("input gradient unset"));
    assert!((g0 - fd0).abs() < 1e-4, "d/dx0: analytic {g0}, numeric {fd0}");
    assert!((g1 - fd1).abs() < 1e-4, "d/dx1: analytic {g1}, numeric {fd1}");
    // The weights received gradients too.
    for w in &n.weights {
        assert!(w.grad(&g).is_some());
    }
}

#[test]
fn zero_arity_neuron_is_tanh_of_bias() {
    let mut g = Graph::new();
    let n = Neuron::new(&mut g, 0);
    let b = val(n.bias, &g);
    let out = n.call(&mut g, &vec![]);
    assert!((val(out, &g) - b.tanh()).abs() < 1e-12);
    assert_eq!(n.parameters().len(), 1);
}

#[test]
fn empty_mlp_passes_inputs_through() {
    let mut g = Graph::new();
    let m = MLP::new(&mut g, 2, vec![]);
    let xs = vec![leaf(&mut g, 1.5), leaf(&mut g, -2.5)];
    let outs = m.forward(&mut g, &xs);
    assert_eq!(outs.len(), 2);
    assert_eq!(val(outs[0], &g), 1.5);
    assert_eq!(val(outs[1], &g), -2.5);
}
