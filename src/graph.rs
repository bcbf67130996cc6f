use vstd::prelude::*;

verus! {

/// The kind of operation that produced a node; informational only, the
/// node's [`Rule`] decides how gradients flow.
#[derive(Debug, Clone, Copy, PartialEq, Eq, Structural)]
pub enum Operation {
    Addition,
    Subtraction,
    Multiplication,
    Division,
    Power,
    ReLU,
    Leaf,
}

/// A handle on a node of a [`Graph`]. Two handles are equal exactly when
/// they name the same node, whatever data the nodes carry.
#[derive(Debug, Clone, Copy, PartialEq, Eq, Hash, Structural)]
pub struct Value {
    pub id: usize,
}

/// How a node was built from its operands, which are its children in order.
#[derive(Debug, Clone, Copy, PartialEq, Eq, Structural)]
pub enum Rule {
    Leaf,
    Add(Value, Value),
    Mul(Value, Value),
    Power(Value),
    ReLU(Value),
}

#[derive(Debug, Clone, Copy, PartialEq, Eq, Structural)]
pub struct Node {
    pub op: Operation,
    pub rule: Rule,
}

/// The node that a chain of additions built on top of `base` nodes holds
/// after its first `i` links: `start` itself when there are none.
pub open spec fn sum_link(start: Value, base: int, i: int) -> Value {
    if i == 0 {
        start
    } else {
        Value { id: (base + i - 1) as usize }
    }
}

/// The `i`-th link of that chain: the previous link plus `items[i]`.
pub open spec fn sum_node(start: Value, items: Seq<Value>, base: int, i: int) -> Node {
    Node { op: Operation::Addition, rule: Rule::Add(sum_link(start, base, i), items[i]) }
}

/// The ordered operand list of a rule.
pub open spec fn children(r: Rule) -> Seq<Value> {
    match r {
        Rule::Leaf => seq![],
        Rule::Add(a, b) => seq![a, b],
        Rule::Mul(a, b) => seq![a, b],
        Rule::Power(a) => seq![a],
        Rule::ReLU(a) => seq![a],
    }
}

/// Every operand of `r` is a node below `bound`.
pub open spec fn operands_below(r: Rule, bound: int) -> bool {
    match r {
        Rule::Leaf => true,
        Rule::Add(a, b) => a.id < bound && b.id < bound,
        Rule::Mul(a, b) => a.id < bound && b.id < bound,
        Rule::Power(a) => a.id < bound,
        Rule::ReLU(a) => a.id < bound,
    }
}

/// An arena of nodes. A node can only refer to nodes created before it, so
/// the child relation is acyclic by construction.
pub struct Graph {
    nodes: Vec<Node>,
}

impl View for Graph {
    type V = Seq<Node>;

    closed spec fn view(&self) -> Seq<Node> {
        self.nodes@
    }
}

impl Graph {
    /// Every node's operands were created before it.
    pub open spec fn wf(&self) -> bool {
        forall|i: int| 0 <= i < self@.len() ==> #[trigger] operands_below(self@[i].rule, i)
    }

    pub open spec fn contains(&self, v: Value) -> bool {
        v.id < self@.len()
    }

    /// The rule of node `n`; outside the arena, a leaf.
    pub open spec fn rule_of(&self, n: int) -> Rule {
        if 0 <= n < self@.len() {
            self@[n].rule
        } else {
            Rule::Leaf
        }
    }

    /// Node `n` is an operation node, not a leaf.
    pub open spec fn is_interior(&self, n: int) -> bool {
        !(self.rule_of(n) is Leaf)
    }

    /// `c` is among the operands of node `p`.
    pub open spec fn has_child(&self, p: int, c: int) -> bool {
        match self.rule_of(p) {
            Rule::Leaf => false,
            Rule::Add(a, b) => c == a.id || c == b.id,
            Rule::Mul(a, b) => c == a.id || c == b.id,
            Rule::Power(a) => c == a.id,
            Rule::ReLU(a) => c == a.id,
        }
    }

    /// Node `to` can be reached from node `from` along child edges
    /// (every node reaches itself).
    pub open spec fn reaches(&self, from: int, to: int) -> bool
        decreases from,
    {
        from == to || match self.rule_of(from) {
            Rule::Leaf => false,
            Rule::Add(a, b) => (0 <= a.id < from && self.reaches(a.id as int, to)) || (0 <= b.id
                < from && self.reaches(b.id as int, to)),
            Rule::Mul(a, b) => (0 <= a.id < from && self.reaches(a.id as int, to)) || (0 <= b.id
                < from && self.reaches(b.id as int, to)),
            Rule::Power(a) => 0 <= a.id < from && self.reaches(a.id as int, to),
            Rule::ReLU(a) => 0 <= a.id < from && self.reaches(a.id as int, to),
        }
    }

    pub fn new() -> (g: Graph)
        ensures
            g.wf(),
            g@.len() == 0,
    {
        Graph { nodes: Vec::new() }
    }

    pub fn len(&self) -> (n: usize)
        ensures
            n == self@.len(),
    {
        self.nodes.len()
    }

    /// The node that `v` names.
    pub fn node(&self, v: Value) -> (n: Node)
        requires
            self.contains(v),
        ensures
            n == self@[v.id as int],
    {
        self.nodes[v.id]
    }

    pub fn rule(&self, v: Value) -> (r: Rule)
        requires
            self.contains(v),
        ensures
            r == self@[v.id as int].rule,
    {
        self.nodes[v.id].rule
    }

    pub fn op(&self, v: Value) -> (o: Operation)
        requires
            self.contains(v),
        ensures
            o == self@[v.id as int].op,
    {
        self.nodes[v.id].op
    }

    /// The operands of `v`, in order; empty for a leaf.
    pub fn children(&self, v: Value) -> (cs: Vec<Value>)
        requires
            self.contains(v),
        ensures
            cs@ == children(self@[v.id as int].rule),
    {
        match self.nodes[v.id].rule {
            Rule::Leaf => Vec::new(),
            Rule::Add(a, b) => vec![a, b],
            Rule::Mul(a, b) => vec![a, b],
            Rule::Power(a) => vec![a],
            Rule::ReLU(a) => vec![a],
        }
    }

    /// Appends a node with the given tag and rule; its operands must already
    /// be in the arena. The new handle differs from every handle made before.
    pub fn push_node(&mut self, op: Operation, rule: Rule) -> (v: Value)
        requires
            old(self).wf(),
            operands_below(rule, old(self)@.len() as int),
        ensures
            final(self).wf(),
            final(self)@ == old(self)@.push(Node { op, rule }),
            v.id == old(self)@.len(),
            forall|u: Value| old(self).contains(u) ==> u != v,
    {
        let id = self.nodes.len();
        self.nodes.push(Node { op, rule });
        proof {
            assert forall|i: int| 0 <= i < self@.len() implies #[trigger] operands_below(
                self@[i].rule,
                i,
            ) by {
                if i < id {
                    assert(self@[i] == old(self)@[i]);
                }
            }
        }
        Value { id }
    }

    /// A new leaf: no operands and no rule to replay.
    pub fn leaf(&mut self) -> (v: Value)
        requires
            old(self).wf(),
        ensures
            final(self).wf(),
            final(self)@ == old(self)@.push(Node { op: Operation::Leaf, rule: Rule::Leaf }),
            v.id == old(self)@.len(),
            forall|u: Value| old(self).contains(u) ==> u != v,
    {
        self.push_node(Operation::Leaf, Rule::Leaf)
    }

    /// The node `a + b`.
    pub fn add(&mut self, a: Value, b: Value) -> (v: Value)
        requires
            old(self).wf(),
            old(self).contains(a),
            old(self).contains(b),
        ensures
            final(self).wf(),
            final(self)@ == old(self)@.push(Node { op: Operation::Addition, rule: Rule::Add(a, b) }),
            v.id == old(self)@.len(),
    {
        self.push_node(Operation::Addition, Rule::Add(a, b))
    }

    /// Folds `items` into a chain of additions that starts from `start`:
    /// the i-th new node adds `items[i]` to the node before it. Returns the
    /// last node of the chain, or `start` when `items` is empty.
    pub fn sum(&mut self, start: Value, items: &Vec<Value>) -> (v: Value)
        requires
            old(self).wf(),
            old(self).contains(start),
            forall|i: int| 0 <= i < items@.len() ==> old(self).contains(#[trigger] items@[i]),
        ensures
            final(self).wf(),
            final(self)@.len() == old(self)@.len() + items@.len(),
            final(self)@.take(old(self)@.len() as int) == old(self)@,
            forall|i: int|
                0 <= i < items@.len() ==> #[trigger] final(self)@[old(self)@.len() + i]
                    == sum_node(start, items@, old(self)@.len() as int, i),
            v == sum_link(start, old(self)@.len() as int, items@.len() as int),
    {
        let ghost base = self@;
        let mut acc = start;
        let mut i: usize = 0;
        assert(self@.take(base.len() as int) =~= base);
        while i < items.len()
            invariant
                self.wf(),
                i <= items@.len(),
                self@.len() == base.len() + i,
                self@.take(base.len() as int) == base,
                self.contains(acc),
                acc == sum_link(start, base.len() as int, i as int),
                forall|j: int| 0 <= j < items@.len() ==> base.len() > (#[trigger] items@[j]).id,
                forall|j: int|
                    0 <= j < i ==> #[trigger] self@[base.len() + j] == sum_node(
                        start,
                        items@,
                        base.len() as int,
                        j,
                    ),
            decreases items@.len() - i,
        {
            let ghost prev = self@;
            acc = self.add(acc, items[i]);
            proof {
                assert(self@.take(base.len() as int) =~= prev.take(base.len() as int));
                assert forall|j: int| 0 <= j < i implies #[trigger] self@[base.len() + j]
                    == prev[base.len() + j] by {}
            }
            i = i + 1;
        }
        acc
    }

    /// Drops every node from `len` on, keeping the older ones and their
    /// handles as they were; a no-op when the arena is not longer than `len`.
    pub fn truncate(&mut self, len: usize)
        requires
            old(self).wf(),
        ensures
            final(self).wf(),
            len <= old(self)@.len() ==> final(self)@ == old(self)@.take(len as int),
            len > old(self)@.len() ==> final(self)@ == old(self)@,
    {
        self.nodes.truncate(len);
        proof {
            assert forall|i: int| 0 <= i < self@.len() implies #[trigger] operands_below(
                self@[i].rule,
                i,
            ) by {
                assert(self@[i] == old(self)@[i]);
            }
        }
    }

    /// The node `a * b`.
    pub fn mul(&mut self, a: Value, b: Value) -> (v: Value)
        requires
            old(self).wf(),
            old(self).contains(a),
            old(self).contains(b),
        ensures
            final(self).wf(),
            final(self)@ == old(self)@.push(
                Node { op: Operation::Multiplication, rule: Rule::Mul(a, b) },
            ),
            v.id == old(self)@.len(),
    {
        self.push_node(Operation::Multiplication, Rule::Mul(a, b))
    }

    /// The node `a` raised to a constant exponent, which the caller keeps
    /// beside the node.
    pub fn power(&mut self, a: Value) -> (v: Value)
        requires
            old(self).wf(),
            old(self).contains(a),
        ensures
            final(self).wf(),
            final(self)@ == old(self)@.push(Node { op: Operation::Power, rule: Rule::Power(a) }),
            v.id == old(self)@.len(),
    {
        self.push_node(Operation::Power, Rule::Power(a))
    }

    /// The node `max(a, 0)`.
    pub fn relu(&mut self, a: Value) -> (v: Value)
        requires
            old(self).wf(),
            old(self).contains(a),
        ensures
            final(self).wf(),
            final(self)@ == old(self)@.push(Node { op: Operation::ReLU, rule: Rule::ReLU(a) }),
            v.id == old(self)@.len(),
    {
        self.push_node(Operation::ReLU, Rule::ReLU(a))
    }
}

/// Two leaves built one after the other are distinct nodes: a handle's
/// identity is its place in the arena, never its data.
pub proof fn lemma_fresh_leaves_distinct(g0: Graph, g1: Graph, g2: Graph, a: Value, b: Value)
    requires
        g1@ == g0@.push(Node { op: Operation::Leaf, rule: Rule::Leaf }),
        a.id == g0@.len(),
        g2@ == g1@.push(Node { op: Operation::Leaf, rule: Rule::Leaf }),
        b.id == g1@.len(),
    ensures
        a != b,
        g2.contains(a),
        g2.contains(b),
{
}

} // verus!
