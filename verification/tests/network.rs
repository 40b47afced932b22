use scalargrad::backward::Gain;
use scalargrad::graph::{Graph, Op};
use scalargrad::nn::{calc_loss, Layer, Neuron, MLP};

/// Evaluates every node of the graph in index order, keeping the values
/// the caller already placed for leaves.
fn eval_values(g: &Graph, vals: &mut Vec<f64>) {
    while vals.len() < g.len() {
        vals.push(0.0);
    }
    for i in 0..g.len() {
        match g.node(i) {
            Op::Leaf => {}
            Op::Add(a, b) => vals[i] = vals[a] + vals[b],
            Op::Mul(a, b) => vals[i] = vals[a] * vals[b],
            Op::Div(a, b) => vals[i] = vals[a] / vals[b],
            Op::Neg(a) => vals[i] = -vals[a],
            Op::Tanh(a) => vals[i] = vals[a].tanh(),
        }
    }
}

/// Seeds the root gradient with 1.0 and applies the backward plan,
/// accumulating into the gradient table.
fn run_backward(g: &Graph, root: usize, vals: &[f64], grads: &mut Vec<f64>) {
    while grads.len() < g.len() {
        grads.push(0.0);
    }
    grads[root] = 1.0;
    for st in g.backward_plan(root) {
        let gsrc = grads[st.src];
        let amt = match st.gain {
            Gain::One => gsrc,
            Gain::NegOne => -gsrc,
            Gain::ValueOf(i) => gsrc * vals[i],
            Gain::RecipOf(i) => gsrc / vals[i],
            Gain::NegRatioSq(a, b) => gsrc * (-vals[a]) / (vals[b] * vals[b]),
            Gain::OneMinusSquareOf(i) => gsrc * (1.0 - vals[i] * vals[i]),
        };
        grads[st.target] += amt;
    }
}

fn approx(a: f64, b: f64, tol: f64) -> bool {
    (a - b).abs() <= tol
}

#[test]
fn neuron_new_lays_out_fresh_leaves() {
    let mut g = Graph::new();
    let nr = Neuron::new(&mut g, 3);
    assert_eq!(g.len(), 4);
    assert_eq!(nr.weights, vec![0, 1, 2]);
    assert_eq!(nr.bias, 3);
    for i in 0..4 {
        assert_eq!(g.node(i), Op::Leaf);
    }
}

#[test]
fn neuron_forward_computes_tanh_of_dot_plus_bias() {
    let mut g = Graph::new();
    let nr = Neuron::new(&mut g, 2);
    let x0 = g.leaf();
    let x1 = g.leaf();
    let x = vec![x0, x1];
    let out = nr.forward(&mut g, &x);
    assert_eq!(out, g.len() - 1);
    let mut vals = vec![0.0; g.len()];
    vals[nr.weights[0]] = 0.5;
    vals[nr.weights[1]] = -1.0;
    vals[nr.bias] = 0.25;
    vals[x0] = 2.0;
    vals[x1] = 0.75;
    eval_values(&g, &mut vals);
    let expect = (0.25f64 + 0.5 * 2.0 + (-1.0) * 0.75).tanh();
    assert!(approx(vals[out], expect, 1e-12));
}

#[test]
fn neuron_forward_checked_rejects_mismatched_width() {
    let mut g = Graph::new();
    let nr = Neuron::new(&mut g, 2);
    let x0 = g.leaf();
    let before = g.len();
    let short = vec![x0];
    assert_eq!(nr.forward_checked(&mut g, &short), None);
    assert_eq!(g.len(), before);
    let x1 = g.leaf();
    let fits = vec![x0, x1];
    let out = nr.forward_checked(&mut g, &fits);
    assert!(out.is_some());
    assert_eq!(out.unwrap(), g.len() - 1);
}

#[test]
fn neuron_parameters_list_bias_then_weights() {
    let mut g = Graph::new();
    let nr = Neuron::new(&mut g, 2);
    assert_eq!(nr.parameters(), vec![2, 0, 1]);
}

#[test]
fn layer_forward_yields_one_output_per_neuron() {
    let mut g = Graph::new();
    let layer = Layer::new(&mut g, 2, 3);
    let x0 = g.leaf();
    let x1 = g.leaf();
    let x = vec![x0, x1];
    let outs = layer.forward(&mut g, &x);
    assert_eq!(outs.len(), 3);
    for &o in &outs {
        assert!(matches!(g.node(o), Op::Tanh(_)));
    }
}

#[test]
fn layer_parameters_flatten_in_neuron_order() {
    let mut g = Graph::new();
    let layer = Layer::new(&mut g, 1, 2);
    // neuron 0: weight 0, bias 1; neuron 1: weight 2, bias 3
    assert_eq!(layer.parameters(), vec![1, 0, 3, 2]);
}

#[test]
fn mlp_shape_and_parameter_count() {
    // input width 3, layers [4, 4, 1]: batch of 4 gives 4 single-valued
    // predictions, and (3*4+4) + (4*4+4) + (4*1+1) = 41 parameters
    let mut g = Graph::new();
    let net = MLP::new(&mut g, 3, vec![4, 4, 1]);
    assert_eq!(net.parameters().len(), 41);
    let mut batch: Vec<Vec<usize>> = Vec::new();
    for _ in 0..4 {
        let mut sample: Vec<usize> = Vec::new();
        for _ in 0..3 {
            sample.push(g.leaf());
        }
        batch.push(sample);
    }
    let preds = net.forward(&mut g, &batch);
    assert_eq!(preds.len(), 4);
    for p in &preds {
        assert_eq!(p.len(), 1);
    }
}

#[test]
fn mlp_with_no_layers_passes_inputs_through() {
    let mut g = Graph::new();
    let net = MLP::new(&mut g, 2, vec![]);
    let x0 = g.leaf();
    let x1 = g.leaf();
    let batch = vec![vec![x0, x1]];
    let preds = net.forward(&mut g, &batch);
    assert_eq!(preds, vec![vec![x0, x1]]);
    assert_eq!(net.parameters().len(), 0);
}

#[test]
fn calc_loss_sums_squared_differences() {
    let mut g = Graph::new();
    let p0 = g.leaf();
    let p1 = g.leaf();
    let t0 = g.leaf();
    let t1 = g.leaf();
    let preds = vec![p0, p1];
    let targets = vec![t0, t1];
    let loss = calc_loss(&mut g, &preds, &targets);
    let mut vals = vec![0.0; g.len()];
    vals[p0] = 1.0;
    vals[p1] = 2.0;
    vals[t0] = 0.0;
    vals[t1] = 4.0;
    eval_values(&g, &mut vals);
    assert_eq!(vals[loss], 1.0 + 4.0);
}

#[test]
fn calc_loss_gradient_is_twice_the_difference() {
    let mut g = Graph::new();
    let p0 = g.leaf();
    let t0 = g.leaf();
    let preds = vec![p0];
    let targets = vec![t0];
    let loss = calc_loss(&mut g, &preds, &targets);
    let mut vals = vec![0.0; g.len()];
    vals[p0] = 3.0;
    vals[t0] = 1.0;
    eval_values(&g, &mut vals);
    let mut grads = vec![0.0; g.len()];
    run_backward(&g, loss, &vals, &mut grads);
    assert!(approx(grads[p0], 4.0, 1e-12));
    assert!(approx(grads[t0], -4.0, 1e-12));
}

#[test]
fn training_loop_reduces_loss() {
    let mut g = Graph::new();
    let net = MLP::new(&mut g, 3, vec![4, 4, 1]);
    let params = net.parameters();
    // persistent input and target leaves for the fixed dataset
    let data: [[f64; 3]; 4] = [
        [2.0, 3.0, -1.0],
        [3.0, -1.0, 0.5],
        [0.5, 1.0, 1.0],
        [1.0, 1.0, -1.0],
    ];
    let targets_data: [f64; 4] = [1.0, -1.0, -1.0, 1.0];
    let mut batch: Vec<Vec<usize>> = Vec::new();
    let mut target_nodes: Vec<usize> = Vec::new();
    let mut vals: Vec<f64> = vec![0.0; g.len()];
    // deterministic small parameter init in (-1, 1)
    for (k, &p) in params.iter().enumerate() {
        vals[p] = ((k * 37 + 11) % 19) as f64 / 19.0 - 0.5;
    }
    for (s, row) in data.iter().enumerate() {
        let mut sample: Vec<usize> = Vec::new();
        for &v in row {
            let leaf = g.leaf();
            sample.push(leaf);
            vals.push(v);
        }
        batch.push(sample);
        let t = g.leaf();
        target_nodes.push(t);
        vals.push(targets_data[s]);
    }
    let base_len = g.len();
    let step_size = 0.05;
    let mut first_loss = 0.0;
    let mut last_loss = 0.0;
    for epoch in 0..50 {
        g.truncate(base_len);
        vals.truncate(base_len);
        let preds = net.forward(&mut g, &batch);
        let firsts: Vec<usize> = preds.iter().map(|p| p[0]).collect();
        let loss = calc_loss(&mut g, &firsts, &target_nodes);
        eval_values(&g, &mut vals);
        let mut grads = vec![0.0; g.len()];
        run_backward(&g, loss, &vals, &mut grads);
        if epoch == 0 {
            first_loss = vals[loss];
        }
        last_loss = vals[loss];
        for &p in &params {
            vals[p] -= step_size * grads[p];
        }
    }
    assert!(last_loss < first_loss);
    assert!(last_loss >= 0.0);
}
