use scalargrad::backward::Gain;
use scalargrad::graph::{Graph, Op};

/// Evaluates every node of the graph in index order, keeping the values
/// the caller already placed for leaves.
fn eval_values(g: &Graph, vals: &mut Vec<f64>) {
    while vals.len() < g.len() {
        vals.push(0.0);
    }
    for i in 0..g.len() {
        match g.node(i) {
            Op::Leaf => {}
            Op::Add(a, b) => vals[i] = vals[a] + vals[b],
            Op::Mul(a, b) => vals[i] = vals[a] * vals[b],
            Op::Div(a, b) => vals[i] = vals[a] / vals[b],
            Op::Neg(a) => vals[i] = -vals[a],
            Op::Tanh(a) => vals[i] = vals[a].tanh(),
        }
    }
}

/// Seeds the root gradient with 1.0 and applies the backward plan,
/// accumulating into the gradient table.
fn run_backward(g: &Graph, root: usize, vals: &[f64], grads: &mut Vec<f64>) {
    while grads.len() < g.len() {
        grads.push(0.0);
    }
    grads[root] = 1.0;
    for st in g.backward_plan(root) {
        let gsrc = grads[st.src];
        let amt = match st.gain {
            Gain::One => gsrc,
            Gain::NegOne => -gsrc,
            Gain::ValueOf(i) => gsrc * vals[i],
            Gain::RecipOf(i) => gsrc / vals[i],
            Gain::NegRatioSq(a, b) => gsrc * (-vals[a]) / (vals[b] * vals[b]),
            Gain::OneMinusSquareOf(i) => gsrc * (1.0 - vals[i] * vals[i]),
        };
        grads[st.target] += amt;
    }
}

fn approx(a: f64, b: f64, tol: f64) -> bool {
    (a - b).abs() <= tol
}

#[test]
fn add_and_mul_forward_values() {
    let mut g = Graph::new();
    let a = g.leaf();
    let b = g.leaf();
    let s = g.add(a, b);
    let p = g.mul(a, b);
    let mut vals = vec![2.0, 3.0];
    eval_values(&g, &mut vals);
    assert_eq!(vals[s], 5.0);
    assert_eq!(vals[p], 6.0);
}

#[test]
fn div_neg_tanh_forward_values() {
    let mut g = Graph::new();
    let a = g.leaf();
    let b = g.leaf();
    let q = g.div(a, b);
    let n = g.neg(a);
    let t = g.tanh(a);
    let mut vals = vec![1.0, 4.0];
    eval_values(&g, &mut vals);
    assert_eq!(vals[q], 0.25);
    assert_eq!(vals[n], -1.0);
    assert!(approx(vals[t], 1.0f64.tanh(), 1e-12));
}

#[test]
fn sub_builds_neg_then_add() {
    let mut g = Graph::new();
    let a = g.leaf();
    let b = g.leaf();
    let d = g.sub(a, b);
    // one negation node, then the sum node
    assert_eq!(g.len(), 4);
    assert_eq!(g.node(2), Op::Neg(b));
    assert_eq!(g.node(d), Op::Add(a, 2));
    let mut vals = vec![7.0, 2.5];
    eval_values(&g, &mut vals);
    assert_eq!(vals[d], 4.5);
}

#[test]
fn topo_order_visits_each_node_once() {
    // diamond: y = tanh(x) * neg(x); x is reached on two paths
    let mut g = Graph::new();
    let x = g.leaf();
    let u = g.tanh(x);
    let v = g.neg(x);
    let y = g.mul(u, v);
    let order = g.topo_order(y);
    assert_eq!(order.len(), 4);
    for n in [x, u, v, y] {
        assert_eq!(order.iter().filter(|&&m| m == n).count(), 1);
    }
    assert_eq!(*order.last().unwrap(), y);
}

#[test]
fn topo_order_puts_operands_first() {
    let mut g = Graph::new();
    let a = g.leaf();
    let b = g.leaf();
    let s = g.add(a, b);
    let q = g.div(s, b);
    let t = g.tanh(q);
    let order = g.topo_order(t);
    for (pos, &n) in order.iter().enumerate() {
        let operands: Vec<usize> = match g.node(n) {
            Op::Leaf => vec![],
            Op::Add(a, b) | Op::Mul(a, b) | Op::Div(a, b) => vec![a, b],
            Op::Neg(a) | Op::Tanh(a) => vec![a],
        };
        for c in operands {
            let cpos = order.iter().position(|&m| m == c).unwrap();
            assert!(cpos < pos);
        }
    }
}

#[test]
fn topo_order_skips_unreachable_nodes() {
    let mut g = Graph::new();
    let a = g.leaf();
    let b = g.leaf();
    let s = g.add(a, b);
    let stray = g.leaf();
    let other = g.tanh(stray);
    let order = g.topo_order(s);
    assert_eq!(order, vec![a, b, s]);
    assert!(!order.contains(&stray));
    assert!(!order.contains(&other));
}

#[test]
fn topo_order_distinct_equal_valued_leaves() {
    // two zero-valued leaves are different vertices and both appear
    let mut g = Graph::new();
    let a = g.leaf();
    let b = g.leaf();
    let s = g.add(a, b);
    let order = g.topo_order(s);
    assert_eq!(order, vec![a, b, s]);
}

#[test]
fn accumulation_diamond_gives_two() {
    // y = x + x: the gradient reaches x through both operand slots
    let mut g = Graph::new();
    let x = g.leaf();
    let y = g.add(x, x);
    let mut vals = vec![1.5];
    eval_values(&g, &mut vals);
    let mut grads = vec![0.0; g.len()];
    run_backward(&g, y, &vals, &mut grads);
    assert_eq!(grads[x], 2.0);
}

#[test]
fn backward_plan_of_fanout_has_one_step_per_use() {
    let mut g = Graph::new();
    let x = g.leaf();
    let y = g.add(x, x);
    let plan = g.backward_plan(y);
    assert_eq!(plan.len(), 2);
    for st in plan {
        assert_eq!(st.src, y);
        assert_eq!(st.target, x);
        assert_eq!(st.gain, Gain::One);
    }
}

#[test]
fn backward_plan_visits_consumers_before_operands() {
    // y = tanh(u), u = a * b: y's step must come before u's steps
    let mut g = Graph::new();
    let a = g.leaf();
    let b = g.leaf();
    let u = g.mul(a, b);
    let y = g.tanh(u);
    let plan = g.backward_plan(y);
    assert_eq!(plan.len(), 3);
    assert_eq!(plan[0].src, y);
    assert_eq!(plan[0].target, u);
    assert_eq!(plan[0].gain, Gain::OneMinusSquareOf(y));
    assert_eq!(plan[1].src, u);
    assert_eq!(plan[1].target, a);
    assert_eq!(plan[1].gain, Gain::ValueOf(b));
    assert_eq!(plan[2].src, u);
    assert_eq!(plan[2].target, b);
    assert_eq!(plan[2].gain, Gain::ValueOf(a));
}

#[test]
fn backward_on_leaf_seeds_only() {
    let mut g = Graph::new();
    let x = g.leaf();
    let plan = g.backward_plan(x);
    assert!(plan.is_empty());
    let vals = vec![3.0];
    let mut grads = vec![0.0];
    run_backward(&g, x, &vals, &mut grads);
    assert_eq!(grads[x], 1.0);
}

#[test]
fn backward_twice_compounds_additively() {
    let mut g = Graph::new();
    let x = g.leaf();
    let y = g.add(x, x);
    let mut vals = vec![1.0];
    eval_values(&g, &mut vals);
    let mut grads = vec![0.0; g.len()];
    run_backward(&g, y, &vals, &mut grads);
    run_backward(&g, y, &vals, &mut grads);
    assert_eq!(grads[x], 4.0);
}

#[test]
fn mul_gradients_swap_operand_values() {
    let mut g = Graph::new();
    let a = g.leaf();
    let b = g.leaf();
    let p = g.mul(a, b);
    let mut vals = vec![3.0, 4.0];
    eval_values(&g, &mut vals);
    let mut grads = vec![0.0; g.len()];
    run_backward(&g, p, &vals, &mut grads);
    assert_eq!(grads[a], 4.0);
    assert_eq!(grads[b], 3.0);
}

#[test]
fn div_gradients_follow_quotient_rule() {
    let mut g = Graph::new();
    let a = g.leaf();
    let b = g.leaf();
    let q = g.div(a, b);
    let mut vals = vec![3.0, 2.0];
    eval_values(&g, &mut vals);
    let mut grads = vec![0.0; g.len()];
    run_backward(&g, q, &vals, &mut grads);
    assert!(approx(grads[a], 0.5, 1e-12));
    assert!(approx(grads[b], -0.75, 1e-12));
}

#[test]
fn neg_gradient_flips_sign() {
    let mut g = Graph::new();
    let a = g.leaf();
    let n = g.neg(a);
    let mut vals = vec![5.0];
    eval_values(&g, &mut vals);
    let mut grads = vec![0.0; g.len()];
    run_backward(&g, n, &vals, &mut grads);
    assert_eq!(grads[a], -1.0);
}

#[test]
fn sub_gradients_are_one_and_minus_one() {
    let mut g = Graph::new();
    let a = g.leaf();
    let b = g.leaf();
    let d = g.sub(a, b);
    let mut vals = vec![7.0, 2.0];
    eval_values(&g, &mut vals);
    let mut grads = vec![0.0; g.len()];
    run_backward(&g, d, &vals, &mut grads);
    assert_eq!(grads[a], 1.0);
    assert_eq!(grads[b], -1.0);
}

#[test]
fn end_to_end_two_input_neuron_scenario() {
    // leaves x1=2, x2=0, w1=-3, w2=1, b=6.8813735870195432;
    // n = x1*w1 + x2*w2 + b; o = tanh(n)
    let mut g = Graph::new();
    let x1 = g.leaf();
    let x2 = g.leaf();
    let w1 = g.leaf();
    let w2 = g.leaf();
    let b = g.leaf();
    let x1w1 = g.mul(x1, w1);
    let x2w2 = g.mul(x2, w2);
    let s1 = g.add(x1w1, x2w2);
    let n = g.add(s1, b);
    let o = g.tanh(n);
    let mut vals = vec![2.0, 0.0, -3.0, 1.0, 6.8813735870195432];
    eval_values(&g, &mut vals);
    assert!(approx(vals[o], 0.7071, 1e-3));
    let mut grads = vec![0.0; g.len()];
    run_backward(&g, o, &vals, &mut grads);
    assert!(approx(grads[x1], -1.5, 1e-3));
    assert!(approx(grads[w1], 1.0, 1e-3));
    assert!(approx(grads[x2], 0.5, 1e-3));
    assert!(approx(grads[w2], 0.0, 1e-3));
}

#[test]
fn analytic_gradients_match_finite_differences() {
    // a graph exercising every primitive operation
    let build = |g: &mut Graph, leaves: &mut Vec<usize>| -> usize {
        let a = g.leaf();
        let b = g.leaf();
        let c = g.leaf();
        leaves.push(a);
        leaves.push(b);
        leaves.push(c);
        let ab = g.mul(a, b);
        let ca = g.div(c, a);
        let d = g.sub(ab, ca);
        let nb = g.neg(b);
        let s = g.add(d, nb);
        g.tanh(s)
    };
    let mut g = Graph::new();
    let mut leaves: Vec<usize> = Vec::new();
    let root = build(&mut g, &mut leaves);
    let base = [0.7, -0.4, 1.3];
    let mut vals = base.to_vec();
    eval_values(&g, &mut vals);
    let mut grads = vec![0.0; g.len()];
    run_backward(&g, root, &vals, &mut grads);
    let h = 1e-3;
    for (k, &leaf) in leaves.iter().enumerate() {
        let mut up = base.to_vec();
        up[k] += h;
        eval_values(&g, &mut up);
        let mut dn = base.to_vec();
        dn[k] -= h;
        eval_values(&g, &mut dn);
        let estimate = (up[root] - dn[root]) / (2.0 * h);
        assert!(
            approx(grads[leaf], estimate, 1e-4),
            "leaf {}: analytic {} vs estimate {}",
            k,
            grads[leaf],
            estimate
        );
    }
}

#[test]
fn truncate_discards_ephemeral_nodes() {
    let mut g = Graph::new();
    let a = g.leaf();
    let b = g.leaf();
    let keep = g.len();
    let s = g.add(a, b);
    let _t = g.tanh(s);
    assert_eq!(g.len(), 4);
    g.truncate(keep);
    assert_eq!(g.len(), 2);
    assert_eq!(g.node(a), Op::Leaf);
    assert_eq!(g.node(b), Op::Leaf);
}
