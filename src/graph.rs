use vstd::prelude::*;

verus! {

/// How a node was produced. Operands are named by their index in the graph's arena.
#[derive(Clone, Copy, Debug, PartialEq, Eq, Structural)]
pub enum Op {
    /// An input or a constant: no operands.
    Leaf,
    Plus(usize, usize),
    Mul(usize, usize),
    Tanh(usize),
    Sub(usize, usize),
}

/// The operands of an operation, in the order a traversal visits them.
pub open spec fn operands(op: Op) -> Seq<usize> {
    match op {
        Op::Leaf => seq![],
        Op::Plus(a, b) => seq![a, b],
        Op::Mul(a, b) => seq![a, b],
        Op::Tanh(a) => seq![a],
        Op::Sub(a, b) => seq![a, b],
    }
}

/// The symbol that labels an operation in a drawing of the graph; a leaf has none.
pub open spec fn symbol_of(op: Op) -> Seq<char> {
    match op {
        Op::Leaf => seq![],
        Op::Plus(_, _) => seq!['+'],
        Op::Mul(_, _) => seq!['*'],
        Op::Tanh(_) => seq!['t', 'a', 'n', 'h'],
        Op::Sub(_, _) => seq!['-'],
    }
}

impl Op {
    /// `+`, `*`, `tanh` or `-`, and the empty string for a leaf.
    pub fn symbol(&self) -> (r: &'static str)
        ensures
            r@ == symbol_of(*self),
    {
        proof {
            reveal_strlit("");
            reveal_strlit("+");
            reveal_strlit("*");
            reveal_strlit("tanh");
            reveal_strlit("-");
        }
        match self {
            Op::Leaf => "",
            Op::Plus(_, _) => "+",
            Op::Mul(_, _) => "*",
            Op::Tanh(_) => "tanh",
            Op::Sub(_, _) => "-",
        }
    }
}

/// A node of the computation graph: its identity and the operation that produced it.
#[derive(Clone, Copy, Debug, PartialEq, Eq, Structural)]
pub struct Node {
    pub id: usize,
    pub op: Op,
}

/// Every operand names an earlier node, so no node is its own ancestor.
pub open spec fn acyclic(nodes: Seq<Node>) -> bool {
    forall|i: int, k: int|
        0 <= i < nodes.len() && 0 <= k < operands(nodes[i].op).len() ==> #[trigger] operands(
            nodes[i].op,
        )[k] < i
}

/// The graph is acyclic, ids strictly increase along the arena, and all of them
/// lie below the next id to be handed out.
pub open spec fn nodes_wf(nodes: Seq<Node>, next_id: int) -> bool {
    &&& acyclic(nodes)
    &&& forall|i: int, j: int| 0 <= i < j < nodes.len() ==> nodes[i].id < nodes[j].id
    &&& forall|i: int| 0 <= i < nodes.len() ==> #[trigger] nodes[i].id < next_id
}

/// The nodes that recording `ops` appends, with consecutive ids from `start`.
pub open spec fn fresh_nodes(start: nat, ops: Seq<Op>) -> Seq<Node> {
    Seq::new(ops.len(), |i: int| Node { id: (start + i) as usize, op: ops[i] })
}

/// Each operand of `op` names one of the first `len` nodes.
pub open spec fn op_within(op: Op, len: nat) -> bool {
    forall|k: int| 0 <= k < operands(op).len() ==> #[trigger] operands(op)[k] < len
}

/// An arena of nodes together with the allocator of their ids.
pub struct Graph {
    nodes: Vec<Node>,
    next_id: usize,
}

/// `after` is `before` with the operations `ops` recorded, in order, as new nodes.
pub open spec fn appended(before: Graph, after: Graph, ops: Seq<Op>) -> bool {
    &&& after.nodes() == before.nodes() + fresh_nodes(before.next_id(), ops)
    &&& after.next_id() == before.next_id() + ops.len()
}

/// Recording `ops1` and then `ops2` records `ops1 + ops2`.
pub proof fn lemma_appended_trans(g0: Graph, g1: Graph, g2: Graph, ops1: Seq<Op>, ops2: Seq<Op>)
    requires
        appended(g0, g1, ops1),
        appended(g1, g2, ops2),
    ensures
        appended(g0, g2, ops1 + ops2),
{
    assert(fresh_nodes(g0.next_id(), ops1 + ops2) =~= fresh_nodes(g0.next_id(), ops1) + fresh_nodes(
        g1.next_id(),
        ops2,
    ));
    assert(g2.nodes() =~= g0.nodes() + fresh_nodes(g0.next_id(), ops1 + ops2));
}

/// Recording nothing changes nothing.
pub proof fn lemma_appended_none(g: Graph)
    ensures
        appended(g, g, Seq::empty()),
{
    assert(g.nodes() =~= g.nodes() + fresh_nodes(g.next_id(), Seq::empty()));
}

/// The ids of distinct nodes differ.
pub proof fn lemma_ids_unique(g: Graph)
    requires
        g.wf(),
    ensures
        forall|i: int, j: int|
            0 <= i < g.nodes().len() && 0 <= j < g.nodes().len() && i != j ==> #[trigger] g.nodes()[i].id
                != #[trigger] g.nodes()[j].id,
{
}

/// Recording the same operation on the same operands twice gives two distinct nodes
/// with distinct ids that record that same operation, so they hold the same value.
pub proof fn lemma_same_operation_twice(g0: Graph, g1: Graph, g2: Graph, op: Op)
    requires
        g0.wf(),
        appended(g0, g1, seq![op]),
        appended(g1, g2, seq![op]),
    ensures
        g2.nodes().len() == g0.nodes().len() + 2,
        g2.nodes()[g0.nodes().len() as int].op == op,
        g2.nodes()[g0.nodes().len() as int + 1].op == op,
        g2.nodes()[g0.nodes().len() as int].id != g2.nodes()[g0.nodes().len() as int + 1].id,
{
    let n = g0.nodes().len() as int;
    assert(g1.nodes()[n] == g2.nodes()[n]);
}

/// A well-formed graph holds no more nodes than ids handed out.
pub proof fn lemma_len_below_next_id(g: Graph)
    requires
        g.wf(),
    ensures
        g.nodes().len() <= g.next_id(),
{
    let n = g.nodes().len() as int;
    if n > 0 {
        assert forall|i: int| 0 <= i < n implies #[trigger] g.nodes()[i].id >= i by {
            lemma_id_at_least_index(g, i);
        }
        assert(g.nodes()[n - 1].id < g.next_id());
    }
}

proof fn lemma_id_at_least_index(g: Graph, i: int)
    requires
        g.wf(),
        0 <= i < g.nodes().len(),
    ensures
        g.nodes()[i].id >= i,
    decreases i,
{
    if i > 0 {
        lemma_id_at_least_index(g, i - 1);
    }
}

impl Graph {
    pub closed spec fn nodes(&self) -> Seq<Node> {
        self.nodes@
    }

    pub closed spec fn next_id(&self) -> nat {
        self.next_id as nat
    }

    pub open spec fn wf(&self) -> bool {
        nodes_wf(self.nodes(), self.next_id() as int)
    }

    /// `k` more ids can be handed out.
    pub open spec fn has_room(&self, k: int) -> bool {
        self.next_id() + k <= usize::MAX
    }

    /// An empty graph whose first id is 1.
    pub fn new() -> (g: Graph)
        ensures
            g.wf(),
            g.nodes() == Seq::<Node>::empty(),
            g.next_id() == 1,
    {
        Graph { nodes: Vec::new(), next_id: 1 }
    }

    pub fn len(&self) -> (r: usize)
        ensures
            r == self.nodes().len(),
    {
        self.nodes.len()
    }

    /// How many more ids can be handed out.
    pub fn room(&self) -> (r: usize)
        ensures
            r == usize::MAX - self.next_id(),
    {
        usize::MAX - self.next_id
    }

    pub fn node(&self, i: usize) -> (r: Node)
        requires
            i < self.nodes().len(),
        ensures
            r == self.nodes()[i as int],
    {
        self.nodes[i]
    }

    /// Hands out a fresh id: every later id is larger.
    pub fn get_id(&mut self) -> (r: usize)
        requires
            old(self).wf(),
            old(self).has_room(1),
        ensures
            r == old(self).next_id(),
            final(self).next_id() == old(self).next_id() + 1,
            final(self).nodes() == old(self).nodes(),
            final(self).wf(),
    {
        let id = self.next_id;
        self.next_id = self.next_id + 1;
        id
    }

    fn record(&mut self, op: Op) -> (r: usize)
        requires
            old(self).wf(),
            old(self).has_room(1),
            op_within(op, old(self).nodes().len()),
        ensures
            r == old(self).nodes().len(),
            appended(*old(self), *final(self), seq![op]),
            final(self).wf(),
    {
        let id = self.get_id();
        let r = self.nodes.len();
        self.nodes.push(Node { id, op });
        proof {
            assert forall|i: int, k: int|
                0 <= i < self.nodes().len() && 0 <= k < operands(
                    self.nodes()[i].op,
                ).len() implies #[trigger] operands(self.nodes()[i].op)[k] < i by {
                if i < r {
                    assert(self.nodes()[i] == old(self).nodes()[i]);
                } else {
                    assert(operands(op)[k] < r);
                }
            }
            assert(self.nodes() =~= old(self).nodes() + fresh_nodes(old(self).next_id(), seq![op]));
        }
        r
    }

    /// A new leaf: an input or a constant.
    pub fn leaf(&mut self) -> (r: usize)
        requires
            old(self).wf(),
            old(self).has_room(1),
        ensures
            r == old(self).nodes().len(),
            appended(*old(self), *final(self), seq![Op::Leaf]),
            final(self).wf(),
    {
        self.record(Op::Leaf)
    }

    /// A new node for `a + b`.
    pub fn add(&mut self, a: usize, b: usize) -> (r: usize)
        requires
            old(self).wf(),
            old(self).has_room(1),
            a < old(self).nodes().len(),
            b < old(self).nodes().len(),
        ensures
            r == old(self).nodes().len(),
            appended(*old(self), *final(self), seq![Op::Plus(a, b)]),
            final(self).wf(),
    {
        self.record(Op::Plus(a, b))
    }

    /// A new node for `a * b`.
    pub fn mul(&mut self, a: usize, b: usize) -> (r: usize)
        requires
            old(self).wf(),
            old(self).has_room(1),
            a < old(self).nodes().len(),
            b < old(self).nodes().len(),
        ensures
            r == old(self).nodes().len(),
            appended(*old(self), *final(self), seq![Op::Mul(a, b)]),
            final(self).wf(),
    {
        self.record(Op::Mul(a, b))
    }

    /// A new node for `a - b`.
    pub fn sub(&mut self, a: usize, b: usize) -> (r: usize)
        requires
            old(self).wf(),
            old(self).has_room(1),
            a < old(self).nodes().len(),
            b < old(self).nodes().len(),
        ensures
            r == old(self).nodes().len(),
            appended(*old(self), *final(self), seq![Op::Sub(a, b)]),
            final(self).wf(),
    {
        self.record(Op::Sub(a, b))
    }

    /// A new node for `tanh(a)`.
    pub fn tanh(&mut self, a: usize) -> (r: usize)
        requires
            old(self).wf(),
            old(self).has_room(1),
            a < old(self).nodes().len(),
        ensures
            r == old(self).nodes().len(),
            appended(*old(self), *final(self), seq![Op::Tanh(a)]),
            final(self).wf(),
    {
        self.record(Op::Tanh(a))
    }
}

} // verus!
