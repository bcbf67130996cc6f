use oxigrad::backward::{Contribution, Factor};
use oxigrad::graph::{Graph, Operation, Rule, Value};

fn step(target: Value, source: Value, factor: Factor) -> Contribution {
    Contribution { target, source, factor }
}

#[test]
fn fresh_leaves_are_distinct_handles() {
    let mut g = Graph::new();
    let a = g.leaf();
    let b = g.leaf();
    assert_ne!(a, b);
    assert_eq!(a, a);
    assert_eq!(a.id, 0);
    assert_eq!(b.id, 1);
    assert_eq!(g.len(), 2);
    assert_eq!(g.op(a), Operation::Leaf);
    assert_eq!(g.rule(b), Rule::Leaf);
}

#[test]
fn builders_record_operands_in_order() {
    let mut g = Graph::new();
    let a = g.leaf();
    let b = g.leaf();
    let c = g.add(a, b);
    let d = g.mul(c, b);
    let e = g.power(d);
    let f = g.relu(e);
    assert_eq!(g.rule(c), Rule::Add(a, b));
    assert_eq!(g.op(c), Operation::Addition);
    assert_eq!(g.rule(d), Rule::Mul(c, b));
    assert_eq!(g.op(d), Operation::Multiplication);
    assert_eq!(g.rule(e), Rule::Power(d));
    assert_eq!(g.op(e), Operation::Power);
    assert_eq!(g.rule(f), Rule::ReLU(e));
    assert_eq!(g.op(f), Operation::ReLU);
    assert_eq!(g.children(d), vec![c, b]);
    assert_eq!(g.children(f), vec![e]);
    assert_eq!(g.children(a), Vec::<Value>::new());
    assert_eq!(g.node(c).rule, Rule::Add(a, b));
}

#[test]
fn push_node_keeps_the_given_tag() {
    let mut g = Graph::new();
    let a = g.leaf();
    let b = g.leaf();
    let s = g.push_node(Operation::Subtraction, Rule::Add(a, b));
    assert_eq!(g.op(s), Operation::Subtraction);
    assert_eq!(g.rule(s), Rule::Add(a, b));
    let k = g.push_node(Operation::Leaf, Rule::Leaf);
    assert_ne!(k, a);
}

#[test]
fn topo_order_lists_shared_node_once() {
    let mut g = Graph::new();
    let a = g.leaf();
    let b = g.leaf();
    let c = g.add(a, b);
    let d = g.add(c, b);
    assert_eq!(g.topo_order(d), vec![c, d]);
}

#[test]
fn topo_order_of_a_leaf_is_empty() {
    let mut g = Graph::new();
    let a = g.leaf();
    let b = g.leaf();
    let _c = g.add(a, b);
    assert!(g.topo_order(a).is_empty());
}

#[test]
fn topo_order_skips_unreachable_nodes() {
    let mut g = Graph::new();
    let a = g.leaf();
    let b = g.leaf();
    let other = g.mul(a, b);
    let c = g.relu(a);
    let d = g.add(c, b);
    let order = g.topo_order(d);
    assert_eq!(order, vec![c, d]);
    assert!(!order.contains(&other));
}

#[test]
fn topo_order_puts_operands_first_in_a_diamond() {
    let mut g = Graph::new();
    let x = g.leaf();
    let p = g.power(x);
    let l = g.relu(p);
    let r = g.mul(p, x);
    let top = g.add(l, r);
    let order = g.topo_order(top);
    assert_eq!(order, vec![p, l, r, top]);
}

#[test]
fn backward_schedules_every_rule_from_the_root_down() {
    let mut g = Graph::new();
    let a = g.leaf();
    let b = g.leaf();
    let c = g.add(a, b);
    let d = g.mul(c, b);
    let plan = g.backward(d);
    assert_eq!(
        plan,
        vec![
            step(c, d, Factor::DataOf(b)),
            step(b, d, Factor::DataOf(c)),
            step(a, c, Factor::One),
            step(b, c, Factor::One),
        ]
    );
}

#[test]
fn backward_uses_power_and_gate_factors() {
    let mut g = Graph::new();
    let a = g.leaf();
    let p = g.power(a);
    let r = g.relu(p);
    let plan = g.backward(r);
    assert_eq!(plan, vec![step(p, r, Factor::Gate), step(a, p, Factor::Power)]);
}

#[test]
fn backward_from_a_leaf_does_nothing() {
    let mut g = Graph::new();
    let a = g.leaf();
    assert!(g.backward(a).is_empty());
}

#[test]
fn backward_feeds_a_node_fully_before_passing_it_on() {
    let mut g = Graph::new();
    let x = g.leaf();
    let p = g.power(x);
    let l = g.relu(p);
    let r = g.mul(p, x);
    let top = g.add(l, r);
    let plan = g.backward(top);
    for i in 0..plan.len() {
        for j in i + 1..plan.len() {
            assert_ne!(plan[i].source, plan[j].target);
        }
    }
    assert_eq!(plan.len(), 6);
}

#[test]
fn replay_plan_goes_from_last_to_first() {
    let mut g = Graph::new();
    let a = g.leaf();
    let b = g.leaf();
    let c = g.mul(a, a);
    let d = g.relu(b);
    let plan = g.replay_plan(&vec![c, d]);
    assert_eq!(
        plan,
        vec![
            step(b, d, Factor::Gate),
            step(a, c, Factor::DataOf(a)),
            step(a, c, Factor::DataOf(a)),
        ]
    );
    assert!(g.replay_plan(&vec![a]).is_empty());
}

#[test]
fn sum_chains_additions() {
    let mut g = Graph::new();
    let z = g.leaf();
    let a = g.leaf();
    let b = g.leaf();
    let c = g.leaf();
    let s = g.sum(z, &vec![a, b, c]);
    assert_eq!(g.len(), 7);
    assert_eq!(s.id, 6);
    assert_eq!(g.rule(Value { id: 4 }), Rule::Add(z, a));
    assert_eq!(g.rule(Value { id: 5 }), Rule::Add(Value { id: 4 }, b));
    assert_eq!(g.rule(s), Rule::Add(Value { id: 5 }, c));
}

#[test]
fn sum_of_nothing_is_the_start() {
    let mut g = Graph::new();
    let z = g.leaf();
    assert_eq!(g.sum(z, &vec![]), z);
    assert_eq!(g.len(), 1);
}

#[test]
fn truncate_drops_newer_nodes_only() {
    let mut g = Graph::new();
    let a = g.leaf();
    let b = g.leaf();
    let _c = g.add(a, b);
    g.truncate(2);
    assert_eq!(g.len(), 2);
    assert_eq!(g.rule(b), Rule::Leaf);
    g.truncate(5);
    assert_eq!(g.len(), 2);
    let d = g.mul(a, b);
    assert_eq!(d.id, 2);
}
