use vstd::prelude::*;

use crate::graph::{operands, Graph, Node, Op};
use crate::topo::{lemma_reach_below, lemma_visit, operands_first, reach, topo};

verus! {

/// How one contribution to an operand's gradient is formed from the gradient `g`
/// of the node that consumes it.
#[derive(Clone, Copy, Debug, PartialEq, Eq, Structural)]
pub enum Rule {
    /// `g`
    Same,
    /// `-g`
    Negated,
    /// `g * value(k)`
    Scaled(usize),
    /// `g * (1 - tanh(value(k))^2)`
    TanhSlope(usize),
}

/// One gradient contribution: `grad(target) += rule(grad(consumer))`.
#[derive(Clone, Copy, Debug, PartialEq, Eq, Structural)]
pub struct Step {
    pub target: usize,
    pub consumer: usize,
    pub rule: Rule,
}

/// The contributions that node `v`, produced by `op`, makes to its operands.
pub open spec fn local_steps(v: usize, op: Op) -> Seq<Step> {
    match op {
        Op::Leaf => seq![],
        Op::Plus(a, b) => seq![
            Step { target: a, consumer: v, rule: Rule::Same },
            Step { target: b, consumer: v, rule: Rule::Same },
        ],
        Op::Mul(a, b) => seq![
            Step { target: a, consumer: v, rule: Rule::Scaled(b) },
            Step { target: b, consumer: v, rule: Rule::Scaled(a) },
        ],
        Op::Tanh(a) => seq![Step { target: a, consumer: v, rule: Rule::TanhSlope(a) }],
        Op::Sub(a, b) => seq![
            Step { target: a, consumer: v, rule: Rule::Same },
            Step { target: b, consumer: v, rule: Rule::Negated },
        ],
    }
}

/// The contributions of the nodes of `order`, node after node.
pub open spec fn schedule(nodes: Seq<Node>, order: Seq<usize>) -> Seq<Step>
    decreases order.len(),
{
    if order.len() == 0 {
        seq![]
    } else {
        schedule(nodes, order.drop_last()) + local_steps(
            order.last(),
            nodes[order.last() as int].op,
        )
    }
}

/// The local derivative rule of node `v`: for `a + b` both operands receive the
/// gradient of `v`; for `a - b`, `a` receives it and `b` its negation; for `a * b`
/// each operand receives it times the other's value; for `tanh(a)`, `a` receives it
/// times `1 - tanh(a)^2`; a leaf passes nothing on.
pub fn local_rule(v: usize, op: Op) -> (r: Vec<Step>)
    ensures
        r@ == local_steps(v, op),
{
    match op {
        Op::Leaf => Vec::new(),
        Op::Plus(a, b) => vec![
            Step { target: a, consumer: v, rule: Rule::Same },
            Step { target: b, consumer: v, rule: Rule::Same },
        ],
        Op::Mul(a, b) => vec![
            Step { target: a, consumer: v, rule: Rule::Scaled(b) },
            Step { target: b, consumer: v, rule: Rule::Scaled(a) },
        ],
        Op::Tanh(a) => vec![Step { target: a, consumer: v, rule: Rule::TanhSlope(a) }],
        Op::Sub(a, b) => vec![
            Step { target: a, consumer: v, rule: Rule::Same },
            Step { target: b, consumer: v, rule: Rule::Negated },
        ],
    }
}

/// The nodes a rule reads a value from.
pub open spec fn rule_reads(rule: Rule) -> Seq<usize> {
    match rule {
        Rule::Scaled(k) => seq![k],
        Rule::TanhSlope(k) => seq![k],
        _ => seq![],
    }
}

/// The contributions of a node go to its operands, in order, and read only their values.
proof fn lemma_local_steps(v: usize, op: Op)
    ensures
        local_steps(v, op).len() == operands(op).len(),
        forall|m: int|
            0 <= m < operands(op).len() ==> (#[trigger] local_steps(v, op)[m]).target == operands(
                op,
            )[m] && local_steps(v, op)[m].consumer == v,
        forall|m: int, k: int|
            0 <= m < operands(op).len() && 0 <= k < rule_reads(local_steps(v, op)[m].rule).len()
                ==> operands(op).contains(
                #[trigger] rule_reads(local_steps(v, op)[m].rule)[k],
            ),
{
    match op {
        Op::Leaf => {},
        Op::Plus(a, b) => {},
        Op::Mul(a, b) => {
            assert(operands(op)[1] == b);
            assert(operands(op)[0] == a);
        },
        Op::Tanh(a) => {
            assert(operands(op)[0] == a);
        },
        Op::Sub(a, b) => {},
    }
}

impl Graph {
    /// The gradient pass from `root`: after the gradient of `root` is seeded with 1
    /// and every other gradient with 0, applying these contributions in turn leaves
    /// in each node the derivative of `root` with respect to it. They follow the
    /// reverse topological order, so a node passes its gradient on only once every
    /// contribution to it has been made, and none of them is made to `root`.
    pub fn gradient_steps(&self, root: usize) -> (r: Vec<Step>)
        requires
            self.wf(),
            root < self.nodes().len(),
        ensures
            r@ == schedule(self.nodes(), topo(self.nodes(), root).reverse()),
            forall|i: int| 0 <= i < r@.len() ==> #[trigger] r@[i].target < root,
            forall|i: int, j: int|
                0 <= i < r@.len() && 0 <= j < r@.len() && #[trigger] r@[j].target
                    == #[trigger] r@[i].consumer ==> j < i,
            forall|i: int, k: int|
                0 <= i < r@.len() && 0 <= k < rule_reads(r@[i].rule).len() ==> #[trigger] rule_reads(
                    r@[i].rule,
                )[k] < self.nodes().len(),
    {
        let ghost nodes = self.nodes();
        let order = self.reverse_topological_order(root);
        let ghost fwd = topo(nodes, root);
        proof {
            lemma_visit(nodes, Seq::empty(), root);
            lemma_reach_below(nodes, root);
        }
        let mut r: Vec<Step> = Vec::new();
        let mut p: usize = 0;
        while p < order.len()
            invariant
                nodes == self.nodes(),
                self.wf(),
                root < nodes.len(),
                order@ == fwd.reverse(),
                fwd.no_duplicates(),
                operands_first(nodes, fwd),
                forall|x: usize| #[trigger] fwd.contains(x) <==> reach(nodes, root).contains(x),
                forall|x: usize| #[trigger] reach(nodes, root).contains(x) ==> x <= root,
                p <= order@.len(),
                r@ == schedule(nodes, order@.take(p as int)),
                forall|i: int| 0 <= i < r@.len() ==> order@.take(p as int).contains(#[trigger] r@[i].consumer),
                forall|i: int| 0 <= i < r@.len() ==> #[trigger] r@[i].target < r@[i].consumer,
                forall|i: int| 0 <= i < r@.len() ==> #[trigger] r@[i].consumer <= root,
                forall|i: int, j: int|
                    0 <= i < r@.len() && 0 <= j < r@.len() && #[trigger] r@[j].target
                        == #[trigger] r@[i].consumer ==> j < i,
                forall|i: int, k: int|
                    0 <= i < r@.len() && 0 <= k < rule_reads(r@[i].rule).len() ==> #[trigger] rule_reads(
                        r@[i].rule,
                    )[k] < nodes.len(),
            decreases order@.len() - p,
        {
            let u = order[p];
            let ghost t = fwd.len() - 1 - p;
            proof {
                assert(fwd[t] == u);
                assert(fwd.contains(u));
            }
            let op = self.node(u).op;
            let mut local = local_rule(u, op);
            let ghost before = r@;
            let ghost ops = operands(op);
            proof {
                assert(forall|k: int| 0 <= k < ops.len() ==> ops[k] < u);
                // an operand of `u` comes before it in the forward order, so after it in
                // the reverse order: no step consumes it yet
                assert forall|k: int| 0 <= k < ops.len() implies !order@.take(p as int).contains(
                    #[trigger] ops[k],
                ) by {
                    assert(fwd.take(t).contains(ops[k]));
                    let s = choose|s: int| 0 <= s < t && fwd.take(t)[s] == ops[k];
                    if order@.take(p as int).contains(ops[k]) {
                        let q = choose|q: int| 0 <= q < p && order@.take(p as int)[q] == ops[k];
                        assert(fwd[fwd.len() - 1 - q] == ops[k]);
                        assert(fwd[s] == ops[k]);
                    }
                }
            }
            proof {
                lemma_local_steps(u, op);
                assert forall|k: int| 0 <= k < ops.len() implies #[trigger] ops[k] < nodes.len() by {
                }
            }
            r.append(&mut local);
            p = p + 1;
            proof {
                let done = order@.take(p as int);
                assert(done.drop_last() =~= order@.take(p - 1));
                assert(done.last() == u);
                assert(r@ == schedule(nodes, done));
                let ls = local_steps(u, op);
                assert(r@ =~= before + ls);
                assert forall|i: int| 0 <= i < r@.len() implies done.contains(
                    #[trigger] r@[i].consumer,
                ) by {
                    if i < before.len() {
                        assert(before[i] == r@[i]);
                        let prev = order@.take(p - 1);
                        let q = choose|q: int| 0 <= q < prev.len() && prev[q] == before[i].consumer;
                        assert(done[q] == before[i].consumer);
                    } else {
                        assert(done[p - 1] == u);
                    }
                }
                assert forall|i: int, j: int|
                    0 <= i < r@.len() && 0 <= j < r@.len() && #[trigger] r@[j].target
                        == #[trigger] r@[i].consumer implies j < i by {
                    if j >= before.len() && i < before.len() {
                        assert(order@.take(p - 1).contains(before[i].consumer));
                        assert(ls[j - before.len()].target == r@[j].target);
                        assert(r@[j].target == ops[j - before.len()]);
                    } else if j >= before.len() && i >= before.len() {
                        assert(r@[j].target == ops[j - before.len()]);
                        assert(r@[i].consumer == u);
                    }
                }
                assert forall|i: int| before.len() <= i < r@.len() implies #[trigger] r@[i].target
                    < r@[i].consumer && r@[i].consumer <= root by {
                    assert(r@[i] == ls[i - before.len()]);
                }
                assert forall|i: int, k: int|
                    0 <= i < r@.len() && 0 <= k < rule_reads(r@[i].rule).len() implies #[trigger] rule_reads(
                        r@[i].rule,
                    )[k] < nodes.len() by {
                    if i >= before.len() {
                        assert(r@[i] == ls[i - before.len()]);
                        assert(ops.contains(rule_reads(ls[i - before.len()].rule)[k]));
                    } else {
                        assert(r@[i] == before[i]);
                    }
                }
            }
        }
        proof {
            assert(order@.take(order@.len() as int) =~= order@);
        }
        r
    }
}

/// The contributions of `steps` that node `u` makes.
pub open spec fn consumed_by(steps: Seq<Step>, u: usize) -> Seq<Step> {
    steps.filter(|s: Step| s.consumer == u)
}

proof fn lemma_local_consumed_by(v: usize, op: Op, u: usize)
    ensures
        consumed_by(local_steps(v, op), u) == if v == u {
            local_steps(v, op)
        } else {
            seq![]
        },
{
    reveal_with_fuel(Seq::<_>::filter, 3);
    let ls = local_steps(v, op);
    let pred = |s: Step| s.consumer == u;
    if ls.len() == 2 {
        assert(ls.drop_last().drop_last() =~= Seq::<Step>::empty());
        assert(ls.drop_last() =~= seq![ls[0]]);
    } else if ls.len() == 1 {
        assert(ls.drop_last() =~= Seq::<Step>::empty());
    }
    assert(consumed_by(ls, u) =~= if v == u {
        ls
    } else {
        seq![]
    });
}

proof fn lemma_schedule_consumed_by(nodes: Seq<Node>, order: Seq<usize>, u: usize)
    requires
        order.no_duplicates(),
    ensures
        consumed_by(schedule(nodes, order), u) == if order.contains(u) {
            local_steps(u, nodes[u as int].op)
        } else {
            seq![]
        },
    decreases order.len(),
{
    let pred = |s: Step| s.consumer == u;
    if order.len() == 0 {
        assert(schedule(nodes, order).filter(pred) =~= Seq::<Step>::empty());
    } else {
        let init = order.drop_last();
        let v = order.last();
        assert(init.no_duplicates());
        lemma_schedule_consumed_by(nodes, init, u);
        Seq::filter_distributes_over_add(schedule(nodes, init), local_steps(v, nodes[v as int].op), pred);
        lemma_local_consumed_by(v, nodes[v as int].op, u);
        assert(order =~= init.push(v));
        if init.contains(u) {
            let j = choose|j: int| 0 <= j < init.len() && init[j] == u;
            assert(order[j] == u);
            assert(order[order.len() - 1] == v);
        }
        assert(order.contains(u) <==> (init.contains(u) || v == u)) by {
            if order.contains(u) {
                let j = choose|j: int| 0 <= j < order.len() && order[j] == u;
                if j < order.len() - 1 {
                    assert(init[j] == u);
                }
            }
            if v == u {
                assert(order[order.len() - 1] == u);
            }
        }
        assert(Seq::<Step>::empty() + Seq::<Step>::empty() =~= Seq::<Step>::empty());
        assert(Seq::<Step>::empty() + local_steps(u, nodes[u as int].op) =~= local_steps(u, nodes[u as int].op));
        assert(local_steps(u, nodes[u as int].op) + Seq::<Step>::empty() =~= local_steps(u, nodes[u as int].op));
    }
}

/// Gradients add up: in the gradient pass from `root`, each node reachable from
/// `root` makes its local contributions, one to each operand slot, exactly once,
/// and no other node makes any. An operand of two consumers thus receives the sum
/// of what each passes on.
pub proof fn lemma_contributions_add_up(g: Graph, root: usize, u: usize)
    requires
        g.wf(),
        root < g.nodes().len(),
    ensures
        consumed_by(schedule(g.nodes(), topo(g.nodes(), root).reverse()), u) == if reach(
            g.nodes(),
            root,
        ).contains(u) {
            local_steps(u, g.nodes()[u as int].op)
        } else {
            seq![]
        },
{
    let nodes = g.nodes();
    let fwd = topo(nodes, root);
    let rev = fwd.reverse();
    lemma_visit(nodes, Seq::empty(), root);
    assert forall|i: int, j: int| 0 <= i < rev.len() && 0 <= j < rev.len() && i != j implies rev[i]
        != rev[j] by {
        assert(rev[i] == fwd[fwd.len() - 1 - i]);
        assert(rev[j] == fwd[fwd.len() - 1 - j]);
    }
    assert(rev.contains(u) <==> fwd.contains(u)) by {
        if rev.contains(u) {
            let i = choose|i: int| 0 <= i < rev.len() && rev[i] == u;
            assert(fwd[fwd.len() - 1 - i] == u);
        }
        if fwd.contains(u) {
            let i = choose|i: int| 0 <= i < fwd.len() && fwd[i] == u;
            assert(rev[fwd.len() - 1 - i] == u);
        }
    }
    lemma_schedule_consumed_by(nodes, rev, u);
}

} // verus!
