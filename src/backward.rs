use vstd::prelude::*;

use crate::graph::{children, Graph, Rule, Value};

verus! {

/// The factor that scales the source's gradient in one contribution.
/// `One`: the gradient passes unchanged. `DataOf(v)`: it is scaled by the
/// data of `v`. `Power`: by `k * x^(k - 1)`, with `k` the exponent of the
/// source and `x` the data of the target. `Gate`: by zero where the data of
/// the target is negative, else by one.
#[derive(Debug, Clone, Copy, PartialEq, Eq, Structural)]
pub enum Factor {
    One,
    DataOf(Value),
    Power,
    Gate,
}

/// One step of gradient propagation: the gradient of `target` grows by
/// `factor` times the gradient of `source`, of which `target` is an operand.
#[derive(Debug, Clone, Copy, PartialEq, Eq, Structural)]
pub struct Contribution {
    pub target: Value,
    pub source: Value,
    pub factor: Factor,
}

/// The contributions that node `p`, built by rule `r`, makes to its
/// operands, in operand order.
pub open spec fn local_steps(r: Rule, p: Value) -> Seq<Contribution> {
    match r {
        Rule::Leaf => seq![],
        Rule::Add(a, b) => seq![
            Contribution { target: a, source: p, factor: Factor::One },
            Contribution { target: b, source: p, factor: Factor::One },
        ],
        Rule::Mul(a, b) => seq![
            Contribution { target: a, source: p, factor: Factor::DataOf(b) },
            Contribution { target: b, source: p, factor: Factor::DataOf(a) },
        ],
        Rule::Power(a) => seq![Contribution { target: a, source: p, factor: Factor::Power }],
        Rule::ReLU(a) => seq![Contribution { target: a, source: p, factor: Factor::Gate }],
    }
}

/// The contributions of the nodes of `order`, taken from the last node to
/// the first.
pub open spec fn replay(g: &Graph, order: Seq<Value>) -> Seq<Contribution>
    decreases order.len(),
{
    if order.len() == 0 {
        seq![]
    } else {
        local_steps(g.rule_of(order.last().id as int), order.last()) + replay(g, order.drop_last())
    }
}

/// No contribution reads the gradient of a node that a later contribution
/// still adds to.
pub open spec fn sources_final(plan: Seq<Contribution>) -> bool {
    forall|i: int, j: int| 0 <= i < j < plan.len() ==> #[trigger] plan[i].source != #[trigger] plan[j].target
}

/// `order` holds distinct operation nodes of `g`, each after every
/// operation node among its operands.
pub open spec fn is_topological(g: &Graph, order: Seq<Value>) -> bool {
    &&& order.no_duplicates()
    &&& forall|k: int|
        0 <= k < order.len() ==> g.contains(#[trigger] order[k]) && g.is_interior(
            order[k].id as int,
        )
    &&& forall|k: int, c: int|
        0 <= k < order.len() && #[trigger] g.has_child(order[k].id as int, c) && g.is_interior(c)
            ==> order.take(k).contains(Value { id: c as usize })
}

/// `order` is a topological order of exactly the operation nodes that
/// `root` reaches.
pub open spec fn is_topo_order(g: &Graph, root: Value, order: Seq<Value>) -> bool {
    &&& is_topological(g, order)
    &&& forall|v: Value|
        #[trigger] order.contains(v) <==> (g.contains(v) && g.reaches(root.id as int, v.id as int)
            && g.is_interior(v.id as int))
}

/// Node `v` has been visited, its operands too, and if it is an operation
/// node it already stands in `order`.
spec fn finished(g: &Graph, visited: Seq<bool>, order: Seq<Value>, v: int) -> bool {
    &&& visited[v]
    &&& g.is_interior(v) ==> order.contains(Value { id: v as usize })
    &&& forall|c: int| #[trigger] g.has_child(v, c) ==> visited[c]
}

/// What holds of the traversal state between two visits.
spec fn search_ok(g: &Graph, visited: Seq<bool>, order: Seq<Value>) -> bool {
    &&& visited.len() == g@.len()
    &&& is_topological(g, order)
    &&& forall|k: int| 0 <= k < order.len() ==> visited[#[trigger] order[k].id as int]
}

/// Replaying a topological order backwards never adds to the gradient of a
/// node after that gradient has been passed on: every contribution out of a
/// node comes after all contributions into it.
pub proof fn lemma_replay_sources_final(g: &Graph, order: Seq<Value>)
    requires
        g.wf(),
        is_topological(g, order),
    ensures
        sources_final(replay(g, order)),
    decreases order.len(),
{
    if order.len() > 0 {
        let n = order.len() - 1;
        let last = order.last();
        let rest = order.drop_last();
        lemma_topological_prefix(g, order);
        lemma_replay_sources_final(g, rest);
        lemma_replay_shape(g, rest);
        lemma_operands_ok(g, last.id as int);
        lemma_local_shape(g, last);
        let local = local_steps(g.rule_of(last.id as int), last);
        let r = replay(g, order);
        assert(r == local + replay(g, rest));
        assert forall|i: int, j: int| 0 <= i < j < r.len() implies #[trigger] r[i].source
            != #[trigger] r[j].target by {
            if j < local.len() {
                assert(r[i] == local[i] && r[j] == local[j]);
            } else if i < local.len() {
                assert(r[i] == local[i]);
                let t = r[j].target;
                let k = choose|k: int| 0 <= k < rest.len() && rest[k] == r[j].source;
                assert(g.has_child(rest[k].id as int, t.id as int));
                assert(order[k] == rest[k]);
                if t == last {
                    assert(g.is_interior(order[n].id as int));
                    assert(order.take(k).contains(last));
                    let m = choose|m: int| 0 <= m < order.take(k).len() && order.take(k)[m] == last;
                    assert(order[m] == order[n]);
                }
            } else {
                assert(r[i] == replay(g, rest)[i - local.len()]);
                assert(r[j] == replay(g, rest)[j - local.len()]);
            }
        }
    }
}

/// Replaying a topological order of the nodes that `root` reaches touches
/// exactly those nodes: each contribution goes between nodes that `root`
/// reaches, and every node that `root` reaches, other than `root` itself,
/// receives at least one contribution.
pub proof fn lemma_replay_covers_reachable(g: &Graph, root: Value, order: Seq<Value>)
    requires
        g.wf(),
        g.contains(root),
        is_topo_order(g, root, order),
    ensures
        forall|i: int|
            0 <= i < replay(g, order).len() ==> g.reaches(
                root.id as int,
                (#[trigger] replay(g, order)[i]).source.id as int,
            ) && g.reaches(root.id as int, replay(g, order)[i].target.id as int),
        forall|v: Value|
            g.contains(v) && #[trigger] g.reaches(root.id as int, v.id as int) && v != root
                ==> exists|i: int|
                0 <= i < replay(g, order).len() && (#[trigger] replay(g, order)[i]).target == v,
{
    let r = replay(g, order);
    let top = root.id as int;
    assert forall|k: int| 0 <= k < order.len() implies g.contains(#[trigger] order[k]) by {}
    lemma_replay_shape(g, order);
    assert forall|i: int| 0 <= i < r.len() implies g.reaches(top, (#[trigger] r[i]).source.id as int)
        && g.reaches(top, r[i].target.id as int) by {
        let s = r[i].source;
        assert(order.contains(s));
        lemma_reaches_child(g, top, s.id as int, r[i].target.id as int);
    }
    assert forall|v: Value| g.contains(v) && #[trigger] g.reaches(top, v.id as int) && v != root
        implies exists|i: int| 0 <= i < r.len() && (#[trigger] r[i]).target == v by {
        let p = lemma_parent_on_path(g, root, v.id as int);
        assert(order.contains(p));
        let k = choose|k: int| 0 <= k < order.len() && order[k] == p;
        let j = lemma_local_step_into(g, order[k], v);
        lemma_replay_holds_local(g, order, k, j);
    }
}

/// The first step of a path: an operand of `from` that still reaches `to`.
proof fn lemma_next_on_path(g: &Graph, from: int, to: int) -> (a: Value)
    requires
        g.reaches(from, to),
        from != to,
    ensures
        g.has_child(from, a.id as int),
        a.id < from,
        g.reaches(a.id as int, to),
{
    match g.rule_of(from) {
        Rule::Leaf => Value { id: 0 },
        Rule::Add(x, y) => if x.id < from && g.reaches(x.id as int, to) {
            x
        } else {
            y
        },
        Rule::Mul(x, y) => if x.id < from && g.reaches(x.id as int, to) {
            x
        } else {
            y
        },
        Rule::Power(x) => x,
        Rule::ReLU(x) => x,
    }
}

/// Whatever a node reaches, so does every node that reaches it through one
/// more operand edge.
proof fn lemma_reaches_child(g: &Graph, from: int, p: int, c: int)
    requires
        g.wf(),
        0 <= from < g@.len(),
        g.reaches(from, p),
        g.has_child(p, c),
    ensures
        g.reaches(from, c),
    decreases from,
{
    lemma_operands_ok(g, from);
    if from == p {
        assert(g.reaches(c, c));
        g.lemma_reaches_step(from, c, c);
    } else {
        let a = lemma_next_on_path(g, from, p);
        lemma_reaches_child(g, a.id as int, p, c);
        g.lemma_reaches_step(from, a.id as int, c);
    }
}

/// A node that `from` reaches, other than `from`, is an operand of some
/// operation node that `from` reaches.
proof fn lemma_parent_on_path(g: &Graph, from: Value, v: int) -> (p: Value)
    requires
        g.wf(),
        g.contains(from),
        g.reaches(from.id as int, v),
        from.id != v,
    ensures
        g.contains(p),
        g.reaches(from.id as int, p.id as int),
        g.has_child(p.id as int, v),
        g.is_interior(p.id as int),
    decreases from.id,
{
    lemma_operands_ok(g, from.id as int);
    let a = lemma_next_on_path(g, from.id as int, v);
    if a.id == v {
        from
    } else {
        let p = lemma_parent_on_path(g, a, v);
        g.lemma_reaches_step(from.id as int, a.id as int, p.id as int);
        p
    }
}

/// Node `p` contributes to each of its operands.
proof fn lemma_local_step_into(g: &Graph, p: Value, c: Value) -> (j: int)
    requires
        g.has_child(p.id as int, c.id as int),
    ensures
        0 <= j < local_steps(g.rule_of(p.id as int), p).len(),
        local_steps(g.rule_of(p.id as int), p)[j].target == c,
{
    let l = local_steps(g.rule_of(p.id as int), p);
    if l[0].target.id == c.id {
        0
    } else {
        1
    }
}

/// The contributions of each node of `order` stand in its replay.
proof fn lemma_replay_holds_local(g: &Graph, order: Seq<Value>, k: int, j: int)
    requires
        0 <= k < order.len(),
        0 <= j < local_steps(g.rule_of(order[k].id as int), order[k]).len(),
    ensures
        exists|i: int|
            0 <= i < replay(g, order).len() && #[trigger] replay(g, order)[i] == local_steps(
                g.rule_of(order[k].id as int),
                order[k],
            )[j],
    decreases order.len(),
{
    let last = order.last();
    let rest = order.drop_last();
    let local = local_steps(g.rule_of(last.id as int), last);
    let r = replay(g, order);
    if k == order.len() - 1 {
        assert(r[j] == local[j]);
    } else {
        assert(rest[k] == order[k]);
        lemma_replay_holds_local(g, rest, k, j);
        let i = choose|i: int|
            0 <= i < replay(g, rest).len() && #[trigger] replay(g, rest)[i] == local_steps(
                g.rule_of(rest[k].id as int),
                rest[k],
            )[j];
        assert(r[local.len() + i] == replay(g, rest)[i]);
    }
}

/// Every contribution of a replay comes from a node of the order and goes to
/// one of that node's operands.
proof fn lemma_replay_shape(g: &Graph, order: Seq<Value>)
    requires
        g.wf(),
        forall|k: int| 0 <= k < order.len() ==> g.contains(#[trigger] order[k]),
    ensures
        forall|i: int|
            0 <= i < replay(g, order).len() ==> order.contains(#[trigger] replay(g, order)[i].source)
                && g.has_child(replay(g, order)[i].source.id as int, replay(g, order)[i].target.id as int),
    decreases order.len(),
{
    if order.len() > 0 {
        let rest = order.drop_last();
        assert forall|k: int| 0 <= k < rest.len() implies g.contains(#[trigger] rest[k]) by {
            assert(rest[k] == order[k]);
        }
        lemma_replay_shape(g, rest);
        let last = order.last();
        lemma_local_shape(g, last);
        let local = local_steps(g.rule_of(last.id as int), last);
        let r = replay(g, order);
        assert forall|i: int| 0 <= i < r.len() implies order.contains(#[trigger] r[i].source)
            && g.has_child(r[i].source.id as int, r[i].target.id as int) by {
            if i < local.len() {
                assert(r[i] == local[i]);
                assert(order[order.len() - 1] == last);
            } else {
                let s = r[i].source;
                assert(r[i] == replay(g, rest)[i - local.len()]);
                let k = choose|k: int| 0 <= k < rest.len() && rest[k] == s;
                assert(order[k] == s);
            }
        }
    }
}

/// Each contribution of a node comes from that node and goes to one of its
/// operands.
proof fn lemma_local_shape(g: &Graph, p: Value)
    ensures
        forall|i: int|
            0 <= i < local_steps(g.rule_of(p.id as int), p).len() ==> (#[trigger] local_steps(
                g.rule_of(p.id as int),
                p,
            )[i]).source == p && g.has_child(
                p.id as int,
                local_steps(g.rule_of(p.id as int), p)[i].target.id as int,
            ),
{
}

/// Dropping the last node of a topological order leaves one.
proof fn lemma_topological_prefix(g: &Graph, order: Seq<Value>)
    requires
        is_topological(g, order),
        order.len() > 0,
    ensures
        is_topological(g, order.drop_last()),
{
    let rest = order.drop_last();
    assert forall|k: int, c: int|
        0 <= k < rest.len() && #[trigger] g.has_child(rest[k].id as int, c) && g.is_interior(
            c,
        ) implies rest.take(k).contains(Value { id: c as usize }) by {
        assert(rest[k] == order[k]);
        assert(rest.take(k) =~= order.take(k));
    }
    assert forall|k: int| 0 <= k < rest.len() implies g.contains(#[trigger] rest[k])
        && g.is_interior(rest[k].id as int) by {
        assert(rest[k] == order[k]);
    }
    assert forall|k1: int, k2: int|
        0 <= k1 < rest.len() && 0 <= k2 < rest.len() && k1 != k2 implies rest[k1] != rest[k2] by {
        assert(rest[k1] == order[k1] && rest[k2] == order[k2]);
    }
}

proof fn lemma_finished_grows(
    g: &Graph,
    v1: Seq<bool>,
    o1: Seq<Value>,
    v2: Seq<bool>,
    o2: Seq<Value>,
    v: int,
)
    requires
        g.wf(),
        0 <= v < g@.len(),
        v1.len() == g@.len(),
        v2.len() == g@.len(),
        forall|u: int| 0 <= u < g@.len() && v1[u] ==> v2[u],
        o1.len() <= o2.len(),
        o2.take(o1.len() as int) == o1,
        finished(g, v1, o1, v),
    ensures
        finished(g, v2, o2, v),
{
    if g.is_interior(v) {
        let x = Value { id: v as usize };
        let i = choose|i: int| 0 <= i < o1.len() && o1[i] == x;
        assert(o2[i] == o2.take(o1.len() as int)[i]);
    }
    lemma_operands_ok(g, v);
}

/// The operands of node `v` lie inside the arena, below `v`.
spec fn operands_ok(g: &Graph, v: int) -> bool {
    forall|c: int| #[trigger] g.has_child(v, c) ==> 0 <= c < v
}

proof fn lemma_operands_ok(g: &Graph, v: int)
    requires
        g.wf(),
        0 <= v < g@.len(),
    ensures
        operands_ok(g, v),
{
    assert(crate::graph::operands_below(g@[v].rule, v));
}

/// The traversal state after a step: `visited` and `order` grew from
/// `(v0, o0)` by nodes that `from` reaches, and every visited node up to
/// `bound` is finished.
spec fn grew_from(
    g: &Graph,
    v0: Seq<bool>,
    o0: Seq<Value>,
    visited: Seq<bool>,
    order: Seq<Value>,
    from: int,
    bound: int,
) -> bool {
    &&& search_ok(g, visited, order)
    &&& forall|u: int| 0 <= u < g@.len() && v0[u] ==> #[trigger] visited[u]
    &&& forall|u: int|
        0 <= u < g@.len() && #[trigger] visited[u] && !v0[u] ==> u <= from && g.reaches(from, u)
    &&& o0.len() <= order.len()
    &&& order.take(o0.len() as int) == o0
    &&& forall|k: int| o0.len() <= k < order.len() ==> !v0[#[trigger] order[k].id as int]
    &&& forall|u: int| 0 <= u <= bound && #[trigger] visited[u] ==> finished(g, visited, order, u)
}

impl Graph {
    /// Depth-first visit of `n`: operands first, then `n` itself is appended
    /// to `order` if it is an operation node. Visited nodes are skipped.
    fn visit(&self, n: Value, visited: &mut Vec<bool>, order: &mut Vec<Value>)
        requires
            self.wf(),
            self.contains(n),
            search_ok(self, old(visited)@, old(order)@),
            forall|u: int|
                0 <= u <= n.id && #[trigger] old(visited)@[u] ==> finished(
                    self,
                    old(visited)@,
                    old(order)@,
                    u,
                ),
        ensures
            final(visited)@[n.id as int],
            grew_from(
                self,
                old(visited)@,
                old(order)@,
                final(visited)@,
                final(order)@,
                n.id as int,
                n.id as int,
            ),
        decreases n.id,
    {
        if visited[n.id] {
            assert(order@.take(order@.len() as int) =~= order@);
            return;
        }
        let ghost v0 = visited@;
        let ghost o0 = order@;
        visited.set(n.id, true);
        proof {
            assert(order@.take(order@.len() as int) =~= order@);
            assert forall|u: int| 0 <= u < n.id && #[trigger] visited@[u] implies finished(
                self,
                visited@,
                order@,
                u,
            ) by {
                lemma_finished_grows(self, v0, o0, visited@, order@, u);
            }
        }
        let cs = self.children(n);
        proof {
            lemma_operands_ok(self, n.id as int);
        }
        let mut i: usize = 0;
        while i < cs.len()
            invariant
                self.wf(),
                self.contains(n),
                cs@ == children(self@[n.id as int].rule),
                operands_ok(self, n.id as int),
                0 <= i <= cs.len(),
                visited@[n.id as int],
                !v0[n.id as int],
                grew_from(self, v0, o0, visited@, order@, n.id as int, n.id - 1),
                forall|k: int| o0.len() <= k < order@.len() ==> #[trigger] order@[k].id < n.id,
                forall|j: int| 0 <= j < i ==> visited@[#[trigger] cs@[j].id as int],
            decreases cs.len() - i,
        {
            let c = cs[i];
            proof {
                assert(self.has_child(n.id as int, c.id as int));
            }
            let ghost vb = visited@;
            let ghost ob = order@;
            self.visit(c, visited, order);
            proof {
                self.lemma_regrow(v0, o0, vb, ob, visited@, order@, n.id as int, c.id as int);
                assert forall|j: int| 0 <= j < i implies visited@[#[trigger] cs@[j].id as int] by {
                    assert(self.has_child(n.id as int, cs@[j].id as int));
                }
            }
            i = i + 1;
        }
        proof {
            assert forall|c: int| #[trigger] self.has_child(n.id as int, c) implies visited@[c] by {
                match self@[n.id as int].rule {
                    Rule::Leaf => {},
                    Rule::Add(a, b) => {
                        assert(cs@[0] == a && cs@[1] == b);
                    },
                    Rule::Mul(a, b) => {
                        assert(cs@[0] == a && cs@[1] == b);
                    },
                    Rule::Power(a) => {
                        assert(cs@[0] == a);
                    },
                    Rule::ReLU(a) => {
                        assert(cs@[0] == a);
                    },
                }
            }
        }
        if cs.len() > 0 {
            let ghost ob = order@;
            order.push(n);
            proof {
                self.lemma_append_finished(v0, o0, visited@, ob, order@, n);
            }
        }
    }

    /// The operation nodes that `root` reaches, each after its operands:
    /// a depth-first traversal that skips nodes already seen and appends a
    /// node once all its operands are done. Leaves are never listed.
    pub fn topo_order(&self, root: Value) -> (order: Vec<Value>)
        requires
            self.wf(),
            self.contains(root),
        ensures
            is_topo_order(self, root, order@),
    {
        let mut visited: Vec<bool> = Vec::new();
        let mut i: usize = 0;
        let n = self.len();
        while i < n
            invariant
                n == self@.len(),
                i <= n,
                visited@.len() == i,
                forall|u: int| 0 <= u < i ==> !#[trigger] visited@[u],
            decreases n - i,
        {
            visited.push(false);
            i = i + 1;
        }
        let mut order: Vec<Value> = Vec::new();
        let ghost v0 = visited@;
        self.visit(root, &mut visited, &mut order);
        proof {
            let r = root.id as int;
            assert forall|v: Value| #[trigger]
                order@.contains(v) <==> (self.contains(v) && self.reaches(r, v.id as int)
                    && self.is_interior(v.id as int)) by {
                if order@.contains(v) {
                    let k = choose|k: int| 0 <= k < order@.len() && order@[k] == v;
                    assert(self.contains(order@[k]));
                    assert(visited@[v.id as int]);
                }
                if self.contains(v) && self.reaches(r, v.id as int) && self.is_interior(
                    v.id as int,
                ) {
                    self.lemma_reach_visited(visited@, order@, r, v.id as int);
                    assert(finished(self, visited@, order@, v.id as int));
                }
            }
        }
        order
    }

    /// The contributions that replaying `order` backwards makes: the rule of
    /// each node, from the last node of `order` to the first.
    pub fn replay_plan(&self, order: &Vec<Value>) -> (plan: Vec<Contribution>)
        requires
            forall|k: int| 0 <= k < order@.len() ==> self.contains(#[trigger] order@[k]),
        ensures
            plan@ == replay(self, order@),
    {
        let mut plan: Vec<Contribution> = Vec::new();
        let mut i: usize = order.len();
        assert(order@.take(i as int) =~= order@);
        while i > 0
            invariant
                i <= order@.len(),
                forall|k: int| 0 <= k < order@.len() ==> self.contains(#[trigger] order@[k]),
                plan@ + replay(self, order@.take(i as int)) == replay(self, order@),
            decreases i,
        {
            let p = order[i - 1];
            let ghost before = plan@;
            let ghost rest = order@.take(i - 1);
            assert(order@.take(i as int).drop_last() =~= rest);
            assert(order@.take(i as int).last() == p);
            match self.rule(p) {
                Rule::Leaf => {},
                Rule::Add(a, b) => {
                    plan.push(Contribution { target: a, source: p, factor: Factor::One });
                    plan.push(Contribution { target: b, source: p, factor: Factor::One });
                },
                Rule::Mul(a, b) => {
                    plan.push(Contribution { target: a, source: p, factor: Factor::DataOf(b) });
                    plan.push(Contribution { target: b, source: p, factor: Factor::DataOf(a) });
                },
                Rule::Power(a) => {
                    plan.push(Contribution { target: a, source: p, factor: Factor::Power });
                },
                Rule::ReLU(a) => {
                    plan.push(Contribution { target: a, source: p, factor: Factor::Gate });
                },
            }
            proof {
                let local = local_steps(self.rule_of(p.id as int), p);
                assert(plan@ =~= before + local);
                assert(before + local + replay(self, rest) =~= before + (local + replay(
                    self,
                    rest,
                )));
            }
            i = i - 1;
        }
        assert(plan@ + replay(self, order@.take(0)) =~= plan@);
        plan
    }

    /// The schedule of a backward pass from `root`: the contributions of
    /// every operation node that `root` reaches, replayed along a
    /// topological order from `root` down. The caller seeds the gradient of
    /// `root` with one and applies the steps in turn; by then each node's
    /// gradient is complete before it is passed on.
    pub fn backward(&self, root: Value) -> (plan: Vec<Contribution>)
        requires
            self.wf(),
            self.contains(root),
        ensures
            exists|order: Seq<Value>| #[trigger]
                is_topo_order(self, root, order) && plan@ == replay(self, order),
            sources_final(plan@),
            forall|i: int|
                0 <= i < plan@.len() ==> self.reaches(
                    root.id as int,
                    (#[trigger] plan@[i]).source.id as int,
                ) && self.reaches(root.id as int, plan@[i].target.id as int),
            forall|v: Value|
                self.contains(v) && #[trigger] self.reaches(root.id as int, v.id as int) && v
                    != root ==> exists|i: int|
                    0 <= i < plan@.len() && (#[trigger] plan@[i]).target == v,
    {
        let order = self.topo_order(root);
        let plan = self.replay_plan(&order);
        proof {
            lemma_replay_sources_final(self, order@);
            lemma_replay_covers_reachable(self, root, order@);
        }
        plan
    }

    /// Once every visited node up to `n` is finished, whatever `n` reaches
    /// has been visited.
    proof fn lemma_reach_visited(&self, visited: Seq<bool>, order: Seq<Value>, n: int, v: int)
        requires
            self.wf(),
            0 <= n < self@.len(),
            visited.len() == self@.len(),
            visited[n],
            forall|u: int| 0 <= u <= n && #[trigger] visited[u] ==> finished(self, visited, order, u),
            self.reaches(n, v),
        ensures
            visited[v],
        decreases n,
    {
        if n != v {
            assert(finished(self, visited, order, n));
            match self@[n].rule {
                Rule::Leaf => {},
                Rule::Add(a, b) => {
                    assert(self.has_child(n, a.id as int) && self.has_child(n, b.id as int));
                    if 0 <= a.id < n && self.reaches(a.id as int, v) {
                        self.lemma_reach_visited(visited, order, a.id as int, v);
                    } else {
                        self.lemma_reach_visited(visited, order, b.id as int, v);
                    }
                },
                Rule::Mul(a, b) => {
                    assert(self.has_child(n, a.id as int) && self.has_child(n, b.id as int));
                    if 0 <= a.id < n && self.reaches(a.id as int, v) {
                        self.lemma_reach_visited(visited, order, a.id as int, v);
                    } else {
                        self.lemma_reach_visited(visited, order, b.id as int, v);
                    }
                },
                Rule::Power(a) => {
                    assert(self.has_child(n, a.id as int));
                    self.lemma_reach_visited(visited, order, a.id as int, v);
                },
                Rule::ReLU(a) => {
                    assert(self.has_child(n, a.id as int));
                    self.lemma_reach_visited(visited, order, a.id as int, v);
                },
            }
        }
    }

    /// One more operand of `n` visited: the state still grew from what it
    /// was before `n` was marked.
    proof fn lemma_regrow(
        &self,
        v0: Seq<bool>,
        o0: Seq<Value>,
        vb: Seq<bool>,
        ob: Seq<Value>,
        v1: Seq<bool>,
        o1: Seq<Value>,
        n: int,
        c: int,
    )
        requires
            self.wf(),
            0 <= n < self@.len(),
            self.has_child(n, c),
            vb[n],
            !v0[n],
            grew_from(self, v0, o0, vb, ob, n, n - 1),
            forall|k: int| o0.len() <= k < ob.len() ==> #[trigger] ob[k].id < n,
            v1[c],
            grew_from(self, vb, ob, v1, o1, c, c),
        ensures
            grew_from(self, v0, o0, v1, o1, n, n - 1),
            forall|k: int| o0.len() <= k < o1.len() ==> #[trigger] o1[k].id < n,
            forall|u: int| 0 <= u < self@.len() && vb[u] ==> #[trigger] v1[u],
    {
        lemma_operands_ok(self, n);
        assert(0 <= c < n);
        assert forall|u: int|
            0 <= u < self@.len() && #[trigger] v1[u] && !v0[u] implies u <= n && self.reaches(
            n,
            u,
        ) by {
            if !vb[u] {
                self.lemma_reaches_step(n, c, u);
            }
        }
        assert(o1.take(o0.len() as int) =~= o0) by {
            assert forall|k: int| 0 <= k < o0.len() implies o1[k] == o0[k] by {
                assert(o1[k] == o1.take(ob.len() as int)[k]);
                assert(ob[k] == ob.take(o0.len() as int)[k]);
            }
        }
        assert forall|k: int| o0.len() <= k < o1.len() implies !v0[#[trigger] o1[k].id as int]
            && o1[k].id < n by {
            if k < ob.len() {
                assert(o1[k] == o1.take(ob.len() as int)[k]);
            } else {
                assert(v1[o1[k].id as int]);
            }
        }
        assert forall|u: int| 0 <= u <= n - 1 && #[trigger] v1[u] implies finished(
            self,
            v1,
            o1,
            u,
        ) by {
            if u > c {
                lemma_finished_grows(self, vb, ob, v1, o1, u);
            }
        }
    }

    /// `n` reaches whatever one of its operands reaches.
    pub proof fn lemma_reaches_step(&self, n: int, c: int, u: int)
        requires
            self.wf(),
            0 <= n < self@.len(),
            self.has_child(n, c),
            self.reaches(c, u),
        ensures
            self.reaches(n, u),
    {
        lemma_operands_ok(self, n);
    }

    /// Appending `n` once its operands are all visited finishes it.
    proof fn lemma_append_finished(
        &self,
        v0: Seq<bool>,
        o0: Seq<Value>,
        v1: Seq<bool>,
        ob: Seq<Value>,
        o1: Seq<Value>,
        n: Value,
    )
        requires
            self.wf(),
            self.contains(n),
            self.is_interior(n.id as int),
            v1[n.id as int],
            !v0[n.id as int],
            search_ok(self, v0, o0),
            grew_from(self, v0, o0, v1, ob, n.id as int, n.id - 1),
            forall|k: int| o0.len() <= k < ob.len() ==> #[trigger] ob[k].id < n.id,
            forall|c: int| #[trigger] self.has_child(n.id as int, c) ==> v1[c],
            o1 == ob.push(n),
        ensures
            grew_from(self, v0, o0, v1, o1, n.id as int, n.id as int),
    {
        lemma_operands_ok(self, n.id as int);
        assert(o1.take(ob.len() as int) =~= ob);
        assert(o1.take(o0.len() as int) =~= o0) by {
            assert forall|k: int| 0 <= k < o0.len() implies o1[k] == o0[k] by {
                assert(ob[k] == ob.take(o0.len() as int)[k]);
            }
        }
        assert forall|k: int, c: int|
            0 <= k < o1.len() && #[trigger] self.has_child(o1[k].id as int, c)
                && self.is_interior(c) implies o1.take(k).contains(Value { id: c as usize }) by {
            if k < ob.len() {
                assert(o1.take(k) =~= ob.take(k));
            } else {
                assert(finished(self, v1, ob, c));
            }
        }
        assert forall|k1: int, k2: int|
            0 <= k1 < o1.len() && 0 <= k2 < o1.len() && k1 != k2 implies o1[k1] != o1[k2] by {
            if k1 < ob.len() && k2 < ob.len() {
            } else if k1 < ob.len() {
                if k1 < o0.len() {
                    assert(ob[k1] == ob.take(o0.len() as int)[k1]);
                }
            } else if k2 < ob.len() {
                if k2 < o0.len() {
                    assert(ob[k2] == ob.take(o0.len() as int)[k2]);
                }
            }
        }
        assert forall|u: int| 0 <= u <= n.id && #[trigger] v1[u] implies finished(
            self,
            v1,
            o1,
            u,
        ) by {
            if u < n.id {
                lemma_finished_grows(self, v1, ob, v1, o1, u);
            } else {
                assert(o1[ob.len() as int] == n);
            }
        }
    }
}

} // verus!
