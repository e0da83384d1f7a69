use autograd::{Graph, Op, Rule, MLP};

/// Values and gradients kept beside the graph, indexed like its nodes.
struct Tape {
    g: Graph,
    data: Vec<f32>,
    grad: Vec<f32>,
}

impl Tape {
    fn new() -> Tape {
        Tape { g: Graph::new(), data: Vec::new(), grad: Vec::new() }
    }

    fn value(&mut self, v: f32) -> usize {
        let i = self.g.leaf();
        self.data.push(v);
        self.grad.push(0.0);
        i
    }

    /// Computes the value of every node recorded since the last call; a leaf recorded
    /// by the library is the zero a weighted sum starts from.
    fn sync(&mut self) {
        while self.data.len() < self.g.len() {
            let i = self.data.len();
            let d = &self.data;
            let v = match self.g.node(i).op {
                Op::Leaf => 0.0,
                Op::Plus(a, b) => d[a] + d[b],
                Op::Mul(a, b) => d[a] * d[b],
                Op::Sub(a, b) => d[a] - d[b],
                Op::Tanh(a) => {
                    let e = (2.0 * d[a]).exp();
                    (e - 1.0) / (e + 1.0)
                }
            };
            self.data.push(v);
            self.grad.push(0.0);
        }
    }

    fn add(&mut self, a: usize, b: usize) -> usize {
        let r = self.g.add(a, b);
        self.sync();
        r
    }

    fn mul(&mut self, a: usize, b: usize) -> usize {
        let r = self.g.mul(a, b);
        self.sync();
        r
    }

    fn sub(&mut self, a: usize, b: usize) -> usize {
        let r = self.g.sub(a, b);
        self.sync();
        r
    }

    fn tanh(&mut self, a: usize) -> usize {
        let r = self.g.tanh(a);
        self.sync();
        r
    }

    fn calculate_grad(&mut self, root: usize) {
        for v in self.g.topological_order(root) {
            self.grad[v] = 0.0;
        }
        self.grad[root] = 1.0;
        for s in self.g.gradient_steps(root) {
            let g = self.grad[s.consumer];
            let c = match s.rule {
                Rule::Same => g,
                Rule::Negated => -g,
                Rule::Scaled(k) => g * self.data[k],
                Rule::TanhSlope(k) => g * (1.0 - self.data[k].tanh().powi(2)),
            };
            self.grad[s.target] += c;
        }
    }
}

#[test]
fn it_works() {
    let mut t = Tape::new();
    let a = t.value(-2.0);
    let one = t.value(1.0);
    let c = t.mul(a, one);
    let inner = t.mul(a, one);
    let b = t.add(inner, c);
    let f = t.mul(b, c);

    t.calculate_grad(f);

    assert_eq!(t.data[f], 8.0);
    assert_eq!(t.grad[f], 1.0);
    assert_eq!(t.grad[b], -2.0);
    assert_eq!(t.grad[c], -6.0);
    assert_eq!(t.grad[inner], -2.0);
    assert_eq!(t.grad[a], -8.0);
    assert_eq!(t.grad[one], 16.0);
}

#[test]
fn mlp() {
    let mut t = Tape::new();
    let nn = MLP::new(&mut t.g, 2, &[3, 1]);
    let params = nn.get_parameters();
    let mut seed: u32 = 7;
    for _ in 0..params.len() {
        seed = seed.wrapping_mul(1103515245).wrapping_add(12345);
        let r = ((seed >> 8) % 2001) as f32 / 1000.0 - 1.0;
        t.data.push(r);
        t.grad.push(0.0);
    }
    let xs = vec![t.value(1.0), t.value(-1.0)];
    let ys = t.value(-1.0);
    let lr = 0.01;
    let n_iter = 100;
    let mut first = None;
    let mut last = 0.0;
    for _ in 0..n_iter {
        let y = nn.apply(&mut t.g, &xs).unwrap();
        t.sync();
        let diff = t.sub(y[0], ys);
        let loss = t.mul(diff, diff);
        println!("loss={}", t.data[loss]);
        t.calculate_grad(loss);
        last = t.data[loss];
        if first.is_none() {
            first = Some(last);
        }
        if last < 0.001 {
            break;
        }
        for &p in &params {
            t.data[p] -= lr * t.grad[p];
        }
    }
    assert!(last <= first.unwrap());
}

#[test]
fn additive_accumulation() {
    let mut t = Tape::new();
    let a = t.value(2.0);
    let b = t.value(3.0);
    let c = t.mul(a, b);
    let d = t.add(a, c);
    t.calculate_grad(d);
    assert_eq!(t.grad[a], 4.0);
    assert_eq!(t.grad[b], 2.0);
    assert_eq!(t.grad[c], 1.0);
}

#[test]
fn gradient_seed_is_one() {
    let mut t = Tape::new();
    let a = t.value(0.5);
    let b = t.value(-1.5);
    let c = t.sub(a, b);
    let d = t.tanh(c);
    let e = t.mul(d, a);
    t.calculate_grad(e);
    assert_eq!(t.grad[e], 1.0);
    for s in t.g.gradient_steps(e) {
        assert_ne!(s.target, e);
    }
}

#[test]
fn local_plus() {
    let mut t = Tape::new();
    let a = t.value(1.5);
    let b = t.value(-4.0);
    let v = t.add(a, b);
    t.calculate_grad(v);
    assert_eq!(t.data[v], -2.5);
    assert_eq!(t.grad[a], t.grad[v]);
    assert_eq!(t.grad[b], t.grad[v]);
}

#[test]
fn local_mul() {
    let mut t = Tape::new();
    let a = t.value(1.5);
    let b = t.value(-4.0);
    let v = t.mul(a, b);
    t.calculate_grad(v);
    assert_eq!(t.data[v], -6.0);
    assert_eq!(t.grad[a], t.grad[v] * t.data[b]);
    assert_eq!(t.grad[b], t.grad[v] * t.data[a]);
    assert_eq!(t.grad[a], -4.0);
}

#[test]
fn local_sub() {
    let mut t = Tape::new();
    let a = t.value(1.5);
    let b = t.value(-4.0);
    let v = t.sub(a, b);
    t.calculate_grad(v);
    assert_eq!(t.data[v], 5.5);
    assert_eq!(t.grad[a], 1.0);
    assert_eq!(t.grad[b], -t.grad[v]);
}

#[test]
fn local_tanh_at_zero() {
    let mut t = Tape::new();
    let a = t.value(0.0);
    let v = t.tanh(a);
    t.calculate_grad(v);
    assert_eq!(t.data[v], 0.0);
    assert_eq!(t.grad[a], t.grad[v] * 1.0);
}

#[test]
fn tanh_value_away_from_zero() {
    let mut t = Tape::new();
    let a = t.value(0.5);
    let v = t.tanh(a);
    t.calculate_grad(v);
    assert!((t.data[v] - 0.5f32.tanh()).abs() < 1e-6);
    let slope = 1.0 - 0.5f32.tanh().powi(2);
    assert!((t.grad[a] - slope).abs() < 1e-6);
}

#[test]
fn end_to_end() {
    let mut t = Tape::new();
    let a = t.value(-2.0);
    let b = t.value(3.0);
    let d = t.mul(a, b);
    let e = t.add(a, b);
    let f = t.mul(d, e);
    t.calculate_grad(f);
    assert_eq!(t.data[d], -6.0);
    assert_eq!(t.data[e], 1.0);
    assert_eq!(t.data[f], -6.0);
    assert_eq!(t.grad[d], 1.0);
    assert_eq!(t.grad[e], -6.0);
    assert_eq!(t.grad[a], -3.0);
    assert_eq!(t.grad[b], -8.0);
}

#[test]
fn same_operation_twice_same_value() {
    let mut t = Tape::new();
    let a = t.value(2.0);
    let b = t.value(3.0);
    let x = t.add(a, b);
    let y = t.add(a, b);
    assert_ne!(x, y);
    assert_ne!(t.g.node(x).id, t.g.node(y).id);
    assert_eq!(t.g.node(x).op, t.g.node(y).op);
    assert_eq!(t.data[x], t.data[y]);
}

#[test]
fn neuron_output_value() {
    let mut t = Tape::new();
    let n = autograd::Neuron::new(&mut t.g, 2);
    let p = n.get_parameters();
    t.data.extend_from_slice(&[0.5, -0.25, 0.1]);
    t.grad.extend_from_slice(&[0.0, 0.0, 0.0]);
    assert_eq!(p, vec![0, 1, 2]);
    let x = vec![t.value(2.0), t.value(4.0)];
    let out = n.apply(&mut t.g, &x).unwrap();
    t.sync();
    let expected = (2.0f32 * 0.5 + 4.0 * -0.25 + 0.1).tanh();
    assert!((t.data[out] - expected).abs() < 1e-6);
}
