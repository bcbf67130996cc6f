use oxigrad::backward::Factor;
use oxigrad::graph::{Graph, Value};

/// Numbers beside the structure: data, gradient and exponent of each node,
/// indexed like the arena.
struct Tape {
    graph: Graph,
    data: Vec<f64>,
    grad: Vec<f64>,
    exponent: Vec<f64>,
}

impl Tape {
    fn new() -> Tape {
        Tape { graph: Graph::new(), data: vec![], grad: vec![], exponent: vec![] }
    }

    fn record(&mut self, v: Value, data: f64, exponent: f64) -> Value {
        assert_eq!(v.id, self.data.len());
        self.data.push(data);
        self.grad.push(0.0);
        self.exponent.push(exponent);
        v
    }

    fn value(&mut self, x: f64) -> Value {
        let v = self.graph.leaf();
        self.record(v, x, 0.0)
    }

    fn add(&mut self, a: Value, b: Value) -> Value {
        let x = self.data[a.id] + self.data[b.id];
        let v = self.graph.add(a, b);
        self.record(v, x, 0.0)
    }

    fn mul(&mut self, a: Value, b: Value) -> Value {
        let x = self.data[a.id] * self.data[b.id];
        let v = self.graph.mul(a, b);
        self.record(v, x, 0.0)
    }

    fn power(&mut self, a: Value, k: f64) -> Value {
        let x = self.data[a.id].powf(k);
        let v = self.graph.power(a);
        self.record(v, x, k)
    }

    fn relu(&mut self, a: Value) -> Value {
        let x = if self.data[a.id] >= 0.0 { self.data[a.id] } else { 0.0 };
        let v = self.graph.relu(a);
        self.record(v, x, 0.0)
    }

    fn neg(&mut self, a: Value) -> Value {
        let m = self.value(-1.0);
        self.mul(a, m)
    }

    fn sub(&mut self, a: Value, b: Value) -> Value {
        let n = self.neg(b);
        self.add(a, n)
    }

    fn div(&mut self, a: Value, b: Value) -> Value {
        let r = self.power(b, -1.0);
        self.mul(a, r)
    }

    fn backward(&mut self, root: Value) {
        let plan = self.graph.backward(root);
        self.grad[root.id] = 1.0;
        for c in plan {
            let (t, s) = (c.target.id, c.source.id);
            let add = match c.factor {
                Factor::One => self.grad[s],
                Factor::DataOf(o) => self.data[o.id] * self.grad[s],
                Factor::Power => {
                    let k = self.exponent[s];
                    k * self.data[t].powf(k - 1.0) * self.grad[s]
                },
                Factor::Gate => {
                    if self.data[t] < 0.0 {
                        0.0
                    } else {
                        1.0 * self.grad[s]
                    }
                },
            };
            self.grad[t] = self.grad[t] + add;
        }
    }
}

#[test]
fn test_add() {
    let mut t = Tape::new();
    let a = t.value(1.0);
    let b = t.value(2.0);
    let c = t.add(a, b);
    let d = t.add(c, b);

    assert_eq!(t.data[c.id], 3.0);
    assert_eq!(t.data[d.id], 5.0);

    t.backward(d);
    assert_eq!(t.grad[b.id], 2.0);
}

#[test]
fn test_sub() {
    let mut t = Tape::new();
    let a = t.value(1.0);
    let b = t.value(2.0);
    let c = t.sub(a, b);
    let d = t.sub(c, b);

    assert_eq!(t.data[c.id], -1.0);
    assert_eq!(t.data[d.id], -3.0);

    t.backward(d);
    assert_eq!(t.grad[b.id], -2.0);
}

#[test]
fn test_mul() {
    let mut t = Tape::new();
    let a = t.value(1.0);
    let b = t.value(2.0);
    let c = t.add(a, b);
    let d = t.mul(c, b);

    assert_eq!(t.data[d.id], 6.0);

    t.backward(d);
    assert_eq!(t.grad[b.id], 5.0);
}

#[test]
fn test_mul_neg() {
    let mut t = Tape::new();
    let a = t.value(1.0);
    let b = t.value(2.0);
    let c = t.sub(a, b);
    let d = t.mul(c, b);

    assert_eq!(t.data[d.id], -2.0);

    t.backward(d);
    assert_eq!(t.grad[b.id], -3.0);
}

#[test]
fn test_power() {
    let mut t = Tape::new();
    let a = t.value(1.0);
    let b = t.value(2.0);
    let c = t.add(a, b);
    let d = t.power(c, 2.0);

    assert_eq!(t.data[d.id], 9.0);

    t.backward(d);
    assert_eq!(t.grad[b.id], 6.0);
}

#[test]
fn test_relu() {
    let mut t = Tape::new();
    let a = t.value(1.0);
    let b = t.value(2.0);
    let two = t.value(2.0);
    let b2 = t.mul(b, two);
    let c = t.add(a, b2);
    let d = t.relu(c);
    let two = t.value(2.0);
    let e = t.mul(d, two);

    assert_eq!(t.data[e.id], 10.0);

    t.backward(e);
    assert_eq!(t.grad[b.id], 4.0);
}

#[test]
fn test_relu_neg() {
    let mut t = Tape::new();
    let a = t.value(1.0);
    let b = t.value(2.0);
    let two = t.value(2.0);
    let b2 = t.mul(b, two);
    let c = t.sub(a, b2);
    let d = t.relu(c);
    let two = t.value(2.0);
    let e = t.mul(d, two);

    assert_eq!(t.data[e.id], 0.0);

    t.backward(e);
    assert_eq!(t.grad[b.id], 0.0);
}

#[test]
fn test_div() {
    let mut t = Tape::new();
    let a = t.value(1.0);
    let b = t.value(2.0);
    let c = t.add(a, b);
    let d = t.div(c, b);

    assert_eq!(t.data[d.id], 1.5);

    t.backward(d);
    assert_eq!(t.grad[b.id], -0.25);
}

#[test]
fn forward_values_of_each_operation() {
    let mut t = Tape::new();
    let a = t.value(-1.5);
    let b = t.value(4.0);
    let s = t.add(a, b);
    let m = t.mul(a, b);
    let p = t.power(b, 0.5);
    let r = t.relu(a);
    let q = t.relu(b);
    assert_eq!(t.data[s.id], 2.5);
    assert_eq!(t.data[m.id], -6.0);
    assert_eq!(t.data[p.id], 2.0);
    assert_eq!(t.data[r.id], 0.0);
    assert_eq!(t.data[q.id], 4.0);
}

#[test]
fn square_of_a_node_counts_both_operand_slots() {
    let mut t = Tape::new();
    let a = t.value(3.0);
    let sq = t.mul(a, a);
    t.backward(sq);
    assert_eq!(t.data[sq.id], 9.0);
    assert_eq!(t.grad[a.id], 6.0);
}

#[test]
fn second_backward_on_a_sum_of_leaves_doubles_gradients() {
    let mut t = Tape::new();
    let a = t.value(1.0);
    let b = t.value(2.0);
    let c = t.add(a, b);
    t.backward(c);
    let (ga, gb) = (t.grad[a.id], t.grad[b.id]);
    t.backward(c);
    assert_eq!(t.grad[a.id], 2.0 * ga);
    assert_eq!(t.grad[b.id], 2.0 * gb);
}

#[test]
fn gradients_read_data_at_replay_time() {
    let mut t = Tape::new();
    let a = t.value(1.0);
    let b = t.value(2.0);
    let c = t.mul(a, b);
    t.data[b.id] = 10.0;
    t.backward(c);
    assert_eq!(t.grad[a.id], 10.0);
    assert_eq!(t.grad[b.id], 1.0);
}
