use autograd::{local_rule, Graph, Layer, Neuron, Op, Rule, ShapeError, Step, MLP};

fn operands(op: Op) -> Vec<usize> {
    match op {
        Op::Leaf => vec![],
        Op::Plus(a, b) | Op::Mul(a, b) | Op::Sub(a, b) => vec![a, b],
        Op::Tanh(a) => vec![a],
    }
}

#[test]
fn topo_order() {
    let mut g = Graph::new();
    let a = g.leaf();
    let b = g.leaf();
    let c = g.add(a, b);
    let d = g.leaf();
    let e = g.add(c, d);

    let order = g.topological_order(e);
    let ids: Vec<_> = order.iter().map(|&v| g.node(v).id).collect();
    println!("{:?}", ids);
    assert_eq!(order, vec![a, b, c, d, e]);
    assert_eq!(ids, vec![1, 2, 3, 4, 5]);
}

#[test]
fn operands_come_first() {
    let mut g = Graph::new();
    let a = g.leaf();
    let b = g.leaf();
    let c = g.mul(a, b);
    let d = g.add(a, c);
    let e = g.tanh(d);
    let f = g.sub(e, c);
    let order = g.topological_order(f);
    assert_eq!(order, vec![a, b, c, d, e, f]);
    for (i, &v) in order.iter().enumerate() {
        for o in operands(g.node(v).op) {
            let j = order.iter().position(|&w| w == o).unwrap();
            assert!(j < i);
        }
    }
}

#[test]
fn order_holds_only_reachable_nodes_once() {
    let mut g = Graph::new();
    let a = g.leaf();
    let unused = g.leaf();
    let b = g.leaf();
    let c = g.add(a, a);
    let d = g.mul(c, b);
    let _later = g.add(d, unused);
    let order = g.topological_order(d);
    assert_eq!(order, vec![a, c, b, d]);
    assert_eq!(g.reverse_topological_order(d), vec![d, b, c, a]);
}

#[test]
fn leaf_order_is_itself() {
    let mut g = Graph::new();
    let a = g.leaf();
    assert_eq!(g.topological_order(a), vec![a]);
    assert!(g.gradient_steps(a).is_empty());
}

#[test]
fn ids_are_unique_and_increasing() {
    let mut g = Graph::new();
    let a = g.leaf();
    let skipped = g.get_id();
    let b = g.leaf();
    let c = g.add(a, b);
    assert_eq!(g.node(a).id, 1);
    assert_eq!(skipped, 2);
    assert_eq!(g.node(b).id, 3);
    assert_eq!(g.node(c).id, 4);
    assert_eq!(g.len(), 3);
}

#[test]
fn same_operation_twice() {
    let mut g = Graph::new();
    let a = g.leaf();
    let b = g.leaf();
    let x = g.mul(a, b);
    let y = g.mul(a, b);
    assert_ne!(g.node(x).id, g.node(y).id);
    assert_eq!(g.node(x).op, Op::Mul(a, b));
    assert_eq!(g.node(y).op, Op::Mul(a, b));
}

#[test]
fn local_rules() {
    assert_eq!(local_rule(9, Op::Leaf), vec![]);
    assert_eq!(
        local_rule(9, Op::Plus(1, 2)),
        vec![
            Step { target: 1, consumer: 9, rule: Rule::Same },
            Step { target: 2, consumer: 9, rule: Rule::Same },
        ]
    );
    assert_eq!(
        local_rule(9, Op::Mul(1, 2)),
        vec![
            Step { target: 1, consumer: 9, rule: Rule::Scaled(2) },
            Step { target: 2, consumer: 9, rule: Rule::Scaled(1) },
        ]
    );
    assert_eq!(
        local_rule(9, Op::Sub(1, 2)),
        vec![
            Step { target: 1, consumer: 9, rule: Rule::Same },
            Step { target: 2, consumer: 9, rule: Rule::Negated },
        ]
    );
    assert_eq!(
        local_rule(9, Op::Tanh(4)),
        vec![Step { target: 4, consumer: 9, rule: Rule::TanhSlope(4) }]
    );
}

#[test]
fn gradient_steps_follow_reverse_order() {
    let mut g = Graph::new();
    let a = g.leaf();
    let b = g.leaf();
    let c = g.mul(a, b);
    let d = g.add(a, c);
    let steps = g.gradient_steps(d);
    assert_eq!(
        steps,
        vec![
            Step { target: a, consumer: d, rule: Rule::Same },
            Step { target: c, consumer: d, rule: Rule::Same },
            Step { target: a, consumer: c, rule: Rule::Scaled(b) },
            Step { target: b, consumer: c, rule: Rule::Scaled(a) },
        ]
    );
    for (i, s) in steps.iter().enumerate() {
        for (j, t) in steps.iter().enumerate() {
            if t.target == s.consumer {
                assert!(j < i);
            }
        }
    }
}

#[test]
fn neuron_refuses_short_input() {
    let mut g = Graph::new();
    let n = Neuron::new(&mut g, 3);
    let x = vec![g.leaf(), g.leaf()];
    let before = g.len();
    let r = n.apply(&mut g, &x);
    assert_eq!(r, Err(ShapeError::LengthMismatch { expected: 3, actual: 2 }));
    assert_eq!(g.len(), before);
}

#[test]
fn neuron_graph_shape() {
    let mut g = Graph::new();
    let n = Neuron::new(&mut g, 2);
    assert_eq!(n.get_parameters(), vec![0, 1, 2]);
    let x = vec![g.leaf(), g.leaf()];
    let base = g.len();
    let out = n.apply(&mut g, &x).unwrap();
    assert_eq!(out, base + 2 * 2 + 2);
    assert_eq!(g.len(), base + 2 * 2 + 3);
    assert_eq!(g.node(base).op, Op::Leaf);
    assert_eq!(g.node(base + 1).op, Op::Mul(x[0], 0));
    assert_eq!(g.node(base + 2).op, Op::Plus(base, base + 1));
    assert_eq!(g.node(base + 3).op, Op::Mul(x[1], 1));
    assert_eq!(g.node(base + 4).op, Op::Plus(base + 2, base + 3));
    assert_eq!(g.node(base + 5).op, Op::Plus(base + 4, 2));
    assert_eq!(g.node(base + 6).op, Op::Tanh(base + 5));
}

#[test]
fn neuron_without_inputs() {
    let mut g = Graph::new();
    let n = Neuron::new(&mut g, 0);
    assert_eq!(n.get_parameters(), vec![0]);
    let out = n.apply(&mut g, &vec![]).unwrap();
    assert_eq!(g.node(out).op, Op::Tanh(out - 1));
    assert_eq!(g.node(out - 1).op, Op::Plus(out - 2, 0));
}

#[test]
fn layer_shape_and_parameters() {
    let mut g = Graph::new();
    let l = Layer::new(&mut g, 2, 3);
    assert_eq!(g.len(), 9);
    assert_eq!(l.get_parameters(), (0..9).collect::<Vec<usize>>());
    let x = vec![g.leaf(), g.leaf()];
    let outs = l.apply(&mut g, &x).unwrap();
    assert_eq!(outs.len(), 3);
    assert_eq!(outs, vec![11 + 6, 11 + 13, 11 + 20]);
    for &o in &outs {
        assert!(matches!(g.node(o).op, Op::Tanh(_)));
    }
}

#[test]
fn layer_refuses_wrong_width() {
    let mut g = Graph::new();
    let l = Layer::new(&mut g, 2, 3);
    let x = vec![g.leaf()];
    let before = g.len();
    assert_eq!(l.apply(&mut g, &x), Err(ShapeError::LengthMismatch { expected: 2, actual: 1 }));
    assert_eq!(g.len(), before);
}

#[test]
fn empty_layer_takes_any_input() {
    let mut g = Graph::new();
    let l = Layer::new(&mut g, 2, 0);
    let x = vec![g.leaf()];
    assert_eq!(l.apply(&mut g, &x), Ok(vec![]));
}

#[test]
fn mlp_shape_and_parameters() {
    let mut g = Graph::new();
    let m = MLP::new(&mut g, 2, &[3, 1]);
    // 3 neurons of 2 weights and a bias, then 1 neuron of 3 weights and a bias
    assert_eq!(g.len(), 9 + 4);
    assert_eq!(m.get_parameters(), (0..13).collect::<Vec<usize>>());
    let x = vec![g.leaf(), g.leaf()];
    let y = m.apply(&mut g, &x).unwrap();
    assert_eq!(y.len(), 1);
    assert_eq!(y[0], g.len() - 1);
    assert!(matches!(g.node(y[0]).op, Op::Tanh(_)));
}

#[test]
fn mlp_refuses_wrong_width() {
    let mut g = Graph::new();
    let m = MLP::new(&mut g, 2, &[3, 1]);
    let x = vec![g.leaf(), g.leaf(), g.leaf()];
    let before = g.len();
    assert_eq!(m.apply(&mut g, &x), Err(ShapeError::LengthMismatch { expected: 2, actual: 3 }));
    assert_eq!(g.len(), before);
}

#[test]
fn mlp_without_layers_passes_input_through() {
    let mut g = Graph::new();
    let m = MLP::new(&mut g, 2, &[]);
    let x = vec![g.leaf()];
    assert_eq!(m.apply(&mut g, &x), Ok(x.clone()));
    assert!(m.get_parameters().is_empty());
}

#[test]
fn operation_symbols() {
    assert_eq!(Op::Leaf.symbol(), "");
    assert_eq!(Op::Plus(0, 1).symbol(), "+");
    assert_eq!(Op::Mul(0, 1).symbol(), "*");
    assert_eq!(Op::Tanh(0).symbol(), "tanh");
    assert_eq!(Op::Sub(0, 1).symbol(), "-");
}

#[test]
fn fresh_graph_has_every_id_but_one_left() {
    let mut g = Graph::new();
    assert_eq!(g.room(), usize::MAX - 1);
    g.leaf();
    assert_eq!(g.room(), usize::MAX - 2);
}
