use vstd::prelude::*;

use crate::graph::{acyclic, operands, Graph, Node, Op};

verus! {

/// Depth-first post-order visit of `v`, appended to `order`: a node already in
/// `order` is skipped, otherwise its operands are visited first, first operand
/// first, and then the node itself is appended.
pub open spec fn visit(nodes: Seq<Node>, order: Seq<usize>, v: usize) -> Seq<usize>
    decreases v,
{
    if v >= nodes.len() || order.contains(v) {
        order
    } else {
        let ops = operands(nodes[v as int].op);
        let o1 = if ops.len() > 0 && ops[0] < v {
            visit(nodes, order, ops[0])
        } else {
            order
        };
        let o2 = if ops.len() > 1 && ops[1] < v {
            visit(nodes, o1, ops[1])
        } else {
            o1
        };
        o2.push(v)
    }
}

/// The nodes reachable from `v` through operand edges, `v` included.
pub open spec fn reach(nodes: Seq<Node>, v: usize) -> Set<usize>
    decreases v,
{
    if v >= nodes.len() {
        Set::empty()
    } else {
        let ops = operands(nodes[v as int].op);
        let r1 = if ops.len() > 0 && ops[0] < v {
            reach(nodes, ops[0])
        } else {
            Set::empty()
        };
        let r2 = if ops.len() > 1 && ops[1] < v {
            reach(nodes, ops[1])
        } else {
            Set::empty()
        };
        r1.union(r2).insert(v)
    }
}

/// Every node of `order` comes after all of its operands.
pub open spec fn operands_first(nodes: Seq<Node>, order: Seq<usize>) -> bool {
    forall|i: int, k: int|
        0 <= i < order.len() && 0 <= k < operands(nodes[order[i] as int].op).len()
            ==> #[trigger] order.take(i).contains(operands(nodes[order[i] as int].op)[k])
}

/// Every entry of `order` names one of the first `len` nodes.
pub open spec fn in_range(order: Seq<usize>, len: nat) -> bool {
    forall|i: int| 0 <= i < order.len() ==> #[trigger] order[i] < len
}

/// `visited` marks exactly the nodes that `order` holds.
pub open spec fn marks(visited: Seq<bool>, order: Seq<usize>) -> bool {
    forall|i: usize| i < visited.len() ==> (#[trigger] visited[i as int] <==> order.contains(i))
}

/// What the topological order of `root` is: the post-order visit from an empty start.
pub open spec fn topo(nodes: Seq<Node>, root: usize) -> Seq<usize> {
    visit(nodes, Seq::empty(), root)
}

proof fn lemma_push_contains(s: Seq<usize>, v: usize)
    ensures
        forall|x: usize| #[trigger] s.push(v).contains(x) <==> (s.contains(x) || x == v),
{
    assert forall|x: usize| #[trigger] s.push(v).contains(x) <==> (s.contains(x) || x == v) by {
        if s.contains(x) {
            let j = choose|j: int| 0 <= j < s.len() && s[j] == x;
            assert(s.push(v)[j] == x);
        }
        if x == v {
            assert(s.push(v)[s.len() as int] == v);
        }
        if s.push(v).contains(x) {
            let j = choose|j: int| 0 <= j < s.len() + 1 && s.push(v)[j] == x;
            if j < s.len() {
                assert(s[j] == x);
            }
        }
    }
}

/// Every node reachable from `v` is a node of the graph at index at most `v`.
pub proof fn lemma_reach_below(nodes: Seq<Node>, v: usize)
    ensures
        forall|x: usize| #[trigger] reach(nodes, v).contains(x) ==> x <= v && x < nodes.len(),
    decreases v,
{
    if v < nodes.len() {
        let ops = operands(nodes[v as int].op);
        if ops.len() > 0 && ops[0] < v {
            lemma_reach_below(nodes, ops[0]);
        }
        if ops.len() > 1 && ops[1] < v {
            lemma_reach_below(nodes, ops[1]);
        }
        assert forall|x: usize| #[trigger] reach(nodes, v).contains(x) implies x <= v && x
            < nodes.len() by {
            if x != v {
                if ops.len() > 0 && ops[0] < v && reach(nodes, ops[0]).contains(x) {
                } else {
                    assert(ops.len() > 1 && ops[1] < v && reach(nodes, ops[1]).contains(x));
                }
            }
        }
    }
}

/// In an order where operands come first, everything reachable from a member is a member.
proof fn lemma_closed_covers(nodes: Seq<Node>, order: Seq<usize>, x: usize)
    requires
        acyclic(nodes),
        operands_first(nodes, order),
        order.contains(x),
    ensures
        forall|y: usize| #[trigger] reach(nodes, x).contains(y) ==> order.contains(y),
    decreases x,
{
    if x < nodes.len() {
        let i = choose|i: int| 0 <= i < order.len() && order[i] == x;
        let ops = operands(nodes[x as int].op);
        if ops.len() > 0 && ops[0] < x {
            assert(order.take(i).contains(ops[0]));
            let j = choose|j: int| 0 <= j < i && order.take(i)[j] == ops[0];
            assert(order[j] == ops[0]);
            lemma_closed_covers(nodes, order, ops[0]);
        }
        if ops.len() > 1 && ops[1] < x {
            assert(order.take(i).contains(ops[1]));
            let j = choose|j: int| 0 <= j < i && order.take(i)[j] == ops[1];
            assert(order[j] == ops[1]);
            lemma_closed_covers(nodes, order, ops[1]);
        }
        assert forall|y: usize| #[trigger] reach(nodes, x).contains(y) implies order.contains(y) by {
            if y == x {
                assert(order[i] == x);
            } else if ops.len() > 0 && ops[0] < x && reach(nodes, ops[0]).contains(y) {
            } else {
                assert(ops.len() > 1 && ops[1] < x && reach(nodes, ops[1]).contains(y));
            }
        }
    }
}

/// The visit keeps what was there as a prefix, repeats no node, puts operands first,
/// and adds exactly the nodes reachable from `v` that were not there yet.
pub proof fn lemma_visit(nodes: Seq<Node>, order: Seq<usize>, v: usize)
    requires
        acyclic(nodes),
        v < nodes.len(),
        operands_first(nodes, order),
        order.no_duplicates(),
        in_range(order, nodes.len()),
    ensures
        visit(nodes, order, v).len() >= order.len(),
        forall|i: int| 0 <= i < order.len() ==> #[trigger] visit(nodes, order, v)[i] == order[i],
        visit(nodes, order, v).no_duplicates(),
        operands_first(nodes, visit(nodes, order, v)),
        in_range(visit(nodes, order, v), nodes.len()),
        forall|x: usize| #[trigger]
            visit(nodes, order, v).contains(x) <==> (order.contains(x) || reach(
                nodes,
                v,
            ).contains(x)),
    decreases v,
{
    if order.contains(v) {
        lemma_closed_covers(nodes, order, v);
    } else {
        let ops = operands(nodes[v as int].op);
        assert(forall|k: int| 0 <= k < ops.len() ==> ops[k] < v);
        let o1 = if ops.len() > 0 && ops[0] < v {
            lemma_visit(nodes, order, ops[0]);
            lemma_reach_below(nodes, ops[0]);
            visit(nodes, order, ops[0])
        } else {
            order
        };
        let o2 = if ops.len() > 1 && ops[1] < v {
            lemma_visit(nodes, o1, ops[1]);
            lemma_reach_below(nodes, ops[1]);
            visit(nodes, o1, ops[1])
        } else {
            o1
        };
        let r = o2.push(v);
        assert(r == visit(nodes, order, v));
        lemma_push_contains(o2, v);
        assert forall|x: usize| #[trigger] o2.contains(x) implies order.contains(x) || (x != v
            && reach(nodes, v).contains(x)) by {
            if !order.contains(x) && ops.len() > 0 && ops[0] < v && reach(nodes, ops[0]).contains(
                x,
            ) {
                assert(x <= ops[0]);
            }
            if !order.contains(x) && ops.len() > 1 && ops[1] < v && reach(nodes, ops[1]).contains(
                x,
            ) {
                assert(x <= ops[1]);
            }
        }
        assert(!o2.contains(v));
        assert forall|i: int, k: int|
            0 <= i < r.len() && 0 <= k < operands(
                nodes[r[i] as int].op,
            ).len() implies #[trigger] r.take(i).contains(operands(nodes[r[i] as int].op)[k]) by {
            if i < o2.len() {
                assert(r.take(i) =~= o2.take(i));
            } else {
                assert(r.take(i) =~= o2);
                assert(reach(nodes, ops[k]).contains(ops[k]));
            }
        }
    }
}

impl Graph {
    fn build_topo(&self, v: usize, visited: &mut Vec<bool>, order: &mut Vec<usize>)
        requires
            self.wf(),
            v < self.nodes().len(),
            old(visited)@.len() == self.nodes().len(),
            marks(old(visited)@, old(order)@),
            in_range(old(order)@, self.nodes().len()),
        ensures
            final(order)@ == visit(self.nodes(), old(order)@, v),
            final(visited)@.len() == self.nodes().len(),
            marks(final(visited)@, final(order)@),
            in_range(final(order)@, self.nodes().len()),
        decreases v,
    {
        if visited[v] {
            return ;
        }
        let ghost ops = operands(self.nodes()[v as int].op);
        proof {
            assert(ops.len() > 0 ==> ops[0] < v);
            assert(ops.len() > 1 ==> ops[1] < v);
        }
        match self.node(v).op {
            Op::Leaf => {},
            Op::Plus(a, b) => {
                self.build_topo(a, visited, order);
                self.build_topo(b, visited, order);
            },
            Op::Mul(a, b) => {
                self.build_topo(a, visited, order);
                self.build_topo(b, visited, order);
            },
            Op::Tanh(a) => {
                self.build_topo(a, visited, order);
            },
            Op::Sub(a, b) => {
                self.build_topo(a, visited, order);
                self.build_topo(b, visited, order);
            },
        }
        let ghost before = order@;
        let ghost marked = visited@;
        order.push(v);
        visited[v] = true;
        proof {
            lemma_push_contains(before, v);
            assert(visited@ == marked.update(v as int, true));
            assert forall|i: usize| i < visited@.len() implies (#[trigger] visited@[i as int]
                <==> order@.contains(i)) by {
                if i != v {
                    assert(visited@[i as int] == marked[i as int]);
                }
            }
        }
    }

    /// Every node reachable from `root`, each once, every node after all of its
    /// operands, `root` last: the depth-first post-order that visits the first
    /// operand before the second.
    pub fn topological_order(&self, root: usize) -> (r: Vec<usize>)
        requires
            self.wf(),
            root < self.nodes().len(),
        ensures
            r@ == topo(self.nodes(), root),
            r@.no_duplicates(),
            operands_first(self.nodes(), r@),
            forall|x: usize| #[trigger] r@.contains(x) <==> reach(self.nodes(), root).contains(x),
            r@.len() > 0 && r@.last() == root,
    {
        let mut visited: Vec<bool> = vec![false; self.len()];
        let mut order: Vec<usize> = Vec::new();
        proof {
            assert(marks(visited@, order@));
        }
        self.build_topo(root, &mut visited, &mut order);
        proof {
            lemma_visit(self.nodes(), Seq::empty(), root);
        }
        order
    }

    /// The topological order reversed: `root` first, the order in which gradients flow.
    pub fn reverse_topological_order(&self, root: usize) -> (r: Vec<usize>)
        requires
            self.wf(),
            root < self.nodes().len(),
        ensures
            r@ == topo(self.nodes(), root).reverse(),
    {
        let order = self.topological_order(root);
        let mut r: Vec<usize> = Vec::new();
        let mut i: usize = order.len();
        while i > 0
            invariant
                i <= order@.len(),
                r@ == order@.subrange(i as int, order@.len() as int).reverse(),
            decreases i,
        {
            i = i - 1;
            r.push(order[i]);
            assert(r@ =~= order@.subrange(i as int, order@.len() as int).reverse());
        }
        assert(order@.subrange(0, order@.len() as int) =~= order@);
        r
    }
}

} // verus!
