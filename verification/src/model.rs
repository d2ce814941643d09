use vstd::prelude::*;

use crate::operation::Operation;
use crate::rational::{
    fits, models, ratio_add, ratio_mul, ratio_relu, ratio_wf, ratio_zero, Ratio,
};

verus! {

/// The mathematical state of one graph node: its exact scalar value and
/// gradient, whether it takes part in gradient propagation, its operation,
/// its operand indices, and its pending-reset marker.
pub struct GNode {
    pub value: Ratio,
    pub grad: Ratio,
    pub needs_grad: bool,
    pub operation: Operation,
    pub prev: Seq<int>,
    pub reset: bool,
}

/// A single node is well formed: the operand list matches the operation's
/// arity, every operand was built earlier (its index is smaller), and the
/// stored fractions have positive denominators.
pub open spec fn node_wf(v: Seq<GNode>, i: int) -> bool {
    &&& v[i].prev.len() == v[i].operation.arity()
    &&& (forall|k: int| 0 <= k < v[i].prev.len() ==> 0 <= #[trigger] v[i].prev[k] < i)
    &&& ratio_wf(v[i].value)
    &&& ratio_wf(v[i].grad)
}

pub open spec fn graph_wf(v: Seq<GNode>) -> bool {
    forall|i: int| 0 <= i < v.len() ==> #[trigger] node_wf(v, i)
}

/// `j` is a strict ancestor of `i`: it is reachable from `i` through one
/// or more operand edges.
pub open spec fn reaches(v: Seq<GNode>, i: int, j: int) -> bool
    decreases i,
{
    0 <= i < v.len() && exists|k: int|
        0 <= k < v[i].prev.len() && ((#[trigger] v[i].prev[k]) == j || (0 <= v[i].prev[k] < i
            && reaches(v, v[i].prev[k], j)))
}

/// An operand of a node is reachable from it.
pub proof fn lemma_reaches_edge(v: Seq<GNode>, i: int, k: int)
    requires
        0 <= i < v.len(),
        0 <= k < v[i].prev.len(),
    ensures
        reaches(v, i, v[i].prev[k]),
{
    let j = v[i].prev[k];
    assert(v[i].prev[k] == j || (0 <= v[i].prev[k] < i && reaches(v, v[i].prev[k], j)));
}

/// Everything reachable lies strictly below its root.
pub proof fn lemma_reaches_below(v: Seq<GNode>, i: int, j: int)
    requires
        graph_wf(v),
        reaches(v, i, j),
    ensures
        0 <= j < i,
    decreases i,
{
    let k = choose|k: int|
        0 <= k < v[i].prev.len() && ((#[trigger] v[i].prev[k]) == j || (0 <= v[i].prev[k] < i
            && reaches(v, v[i].prev[k], j)));
    assert(node_wf(v, i));
    if v[i].prev[k] == j {
    } else {
        lemma_reaches_below(v, v[i].prev[k], j);
    }
}

/// Reachability extends through one more operand edge.
pub proof fn lemma_reaches_extend(v: Seq<GNode>, r: int, i: int, k: int)
    requires
        graph_wf(v),
        reaches(v, r, i),
        0 <= i < v.len(),
        0 <= k < v[i].prev.len(),
    ensures
        reaches(v, r, v[i].prev[k]),
    decreases r,
{
    let c = v[i].prev[k];
    let k0 = choose|k0: int|
        0 <= k0 < v[r].prev.len() && ((#[trigger] v[r].prev[k0]) == i || (0 <= v[r].prev[k0] < r
            && reaches(v, v[r].prev[k0], i)));
    assert(node_wf(v, r));
    if v[r].prev[k0] == i {
        lemma_reaches_edge(v, i, k);
        assert(0 <= v[r].prev[k0] < r);
        assert(reaches(v, v[r].prev[k0], c));
    } else {
        lemma_reaches_extend(v, v[r].prev[k0], i, k);
        assert(reaches(v, v[r].prev[k0], c));
    }
}

/// A set of nodes that contains `i` and is closed under operand edges
/// contains everything reachable from `i`.
pub proof fn lemma_closed_marked(v: Seq<GNode>, m: Seq<bool>, i: int, j: int)
    requires
        graph_wf(v),
        m.len() == v.len(),
        0 <= i < v.len(),
        m[i],
        forall|t: int, k: int|
            0 <= t < v.len() && m[t] && 0 <= k < v[t].prev.len() ==> m[#[trigger] v[t].prev[k]],
        reaches(v, i, j),
    ensures
        0 <= j < v.len(),
        m[j],
    decreases i,
{
    let k = choose|k: int|
        0 <= k < v[i].prev.len() && ((#[trigger] v[i].prev[k]) == j || (0 <= v[i].prev[k] < i
            && reaches(v, v[i].prev[k], j)));
    assert(node_wf(v, i));
    assert(m[v[i].prev[k]]);
    if v[i].prev[k] == j {
    } else {
        lemma_closed_marked(v, m, v[i].prev[k], j);
    }
}

/// `j` occurs among the stored order's entries.
pub open spec fn ord_contains(ord: Seq<usize>, j: int) -> bool {
    exists|q: int| 0 <= q < ord.len() && (#[trigger] ord[q]) as int == j
}

/// The memoized traversal order of a root: the strictly ascending list of
/// exactly those nodes reachable from the root through operand edges, the
/// root itself excluded.  Since every operand has a smaller index than its
/// consumer, ascending index order lists every node after all of its
/// operands.
pub open spec fn is_topo(v: Seq<GNode>, root: int, ord: Seq<usize>) -> bool {
    &&& 0 <= root < v.len()
    &&& (forall|q: int| 0 <= q < ord.len() ==> ((#[trigger] ord[q]) as int) < root)
    &&& (forall|q1: int, q2: int|
        0 <= q1 < q2 < ord.len() ==> (#[trigger] ord[q1]) < (#[trigger] ord[q2]))
    &&& (forall|j: int|
        #![trigger ord_contains(ord, j)]
        #![trigger reaches(v, root, j)]
        ord_contains(ord, j) <==> reaches(v, root, j))
}

/// The value each node would take after a forward pass: leaves keep their
/// stored value, interior nodes combine the recomputed values of their
/// operands.
pub open spec fn eval(v: Seq<GNode>, j: int) -> Ratio
    decreases j,
{
    if 0 <= j < v.len() {
        let nd = v[j];
        match nd.operation {
            Operation::ADD => if nd.prev.len() == 2 && 0 <= nd.prev[0] < j && 0 <= nd.prev[1]
                < j {
                ratio_add(eval(v, nd.prev[0]), eval(v, nd.prev[1]))
            } else {
                nd.value
            },
            Operation::MUL => if nd.prev.len() == 2 && 0 <= nd.prev[0] < j && 0 <= nd.prev[1]
                < j {
                ratio_mul(eval(v, nd.prev[0]), eval(v, nd.prev[1]))
            } else {
                nd.value
            },
            Operation::RELU => if nd.prev.len() == 1 && 0 <= nd.prev[0] < j {
                ratio_relu(eval(v, nd.prev[0]))
            } else {
                nd.value
            },
            Operation::NONE => nd.value,
        }
    } else {
        ratio_zero()
    }
}

/// Every recomputed value in the root's reachable region fits in storage.
pub open spec fn eval_fits(v: Seq<GNode>, root: int) -> bool {
    forall|j: int|
        0 <= j < v.len() && (j == root || reaches(v, root, j)) ==> fits(#[trigger] eval(v, j))
}

/// Recomputed values are well-formed fractions.
pub proof fn lemma_eval_wf(v: Seq<GNode>, j: int)
    requires
        graph_wf(v),
    ensures
        crate::rational::ratio_wf(eval(v, j)),
    decreases j,
{
    if 0 <= j < v.len() {
        assert(node_wf(v, j));
        match v[j].operation {
            Operation::ADD | Operation::MUL => {
                lemma_eval_wf(v, v[j].prev[0]);
                lemma_eval_wf(v, v[j].prev[1]);
                crate::rational::lemma_pos_prod_pub(
                    eval(v, v[j].prev[0]).d,
                    eval(v, v[j].prev[1]).d,
                );
            },
            Operation::RELU => {
                lemma_eval_wf(v, v[j].prev[0]);
            },
            Operation::NONE => {},
        }
    }
}

/// Forward recomputation depends only on the graph's structure and its
/// leaf values, so any two states that agree on those evaluate alike.
pub proof fn lemma_eval_stable(v1: Seq<GNode>, v2: Seq<GNode>, j: int)
    requires
        graph_wf(v1),
        v1.len() == v2.len(),
        forall|t: int|
            0 <= t < v1.len() ==> (#[trigger] v1[t]).operation == v2[t].operation && v1[t].prev
                == v2[t].prev,
        forall|t: int|
            0 <= t < v1.len() && (#[trigger] v1[t]).operation == Operation::NONE ==> v1[t].value
                == v2[t].value,
    ensures
        eval(v1, j) == eval(v2, j),
    decreases j,
{
    if 0 <= j < v1.len() {
        assert(node_wf(v1, j));
        match v1[j].operation {
            Operation::ADD | Operation::MUL => {
                lemma_eval_stable(v1, v2, v1[j].prev[0]);
                lemma_eval_stable(v1, v2, v1[j].prev[1]);
            },
            Operation::RELU => {
                lemma_eval_stable(v1, v2, v1[j].prev[0]);
            },
            Operation::NONE => {},
        }
    }
}

pub open spec fn set_grad(v: Seq<GNode>, p: int, g: Ratio) -> Seq<GNode> {
    v.update(
        p,
        GNode {
            value: v[p].value,
            grad: g,
            needs_grad: v[p].needs_grad,
            operation: v[p].operation,
            prev: v[p].prev,
            reset: v[p].reset,
        },
    )
}

pub open spec fn add_grad(v: Seq<GNode>, p: int, c: Ratio) -> Seq<GNode> {
    set_grad(v, p, ratio_add(v[p].grad, c))
}

/// One chain-rule visit: node `j` pushes its own gradient into the
/// gradient accumulators of those operands that take part in gradient
/// propagation.  The two operand slots are updated one after the other, so
/// a node standing in both slots of a product receives both contributions.
pub open spec fn backstep(v: Seq<GNode>, j: int) -> Seq<GNode> {
    if 0 <= j < v.len() {
        let nd = v[j];
        match nd.operation {
            Operation::ADD => if nd.prev.len() == 2 && 0 <= nd.prev[0] < j && 0 <= nd.prev[1]
                < j {
                let v1 = if v[nd.prev[0]].needs_grad {
                    add_grad(v, nd.prev[0], nd.grad)
                } else {
                    v
                };
                if v1[nd.prev[1]].needs_grad {
                    add_grad(v1, nd.prev[1], nd.grad)
                } else {
                    v1
                }
            } else {
                v
            },
            Operation::MUL => if nd.prev.len() == 2 && 0 <= nd.prev[0] < j && 0 <= nd.prev[1]
                < j {
                let c0 = ratio_mul(v[nd.prev[1]].value, nd.grad);
                let c1 = ratio_mul(v[nd.prev[0]].value, nd.grad);
                let v1 = if v[nd.prev[0]].needs_grad {
                    add_grad(v, nd.prev[0], c0)
                } else {
                    v
                };
                if v1[nd.prev[1]].needs_grad {
                    add_grad(v1, nd.prev[1], c1)
                } else {
                    v1
                }
            } else {
                v
            },
            Operation::RELU => if nd.prev.len() == 1 && 0 <= nd.prev[0] < j {
                if v[nd.prev[0]].needs_grad && nd.value.n > 0 {
                    add_grad(v, nd.prev[0], nd.grad)
                } else {
                    v
                }
            } else {
                v
            },
            Operation::NONE => v,
        }
    } else {
        v
    }
}

/// Whether every accumulator update a visit of node `j` performs has an
/// exact result that fits in storage.
pub open spec fn backstep_fits(v: Seq<GNode>, j: int) -> bool {
    if 0 <= j < v.len() {
        let nd = v[j];
        match nd.operation {
            Operation::ADD => if nd.prev.len() == 2 && 0 <= nd.prev[0] < j && 0 <= nd.prev[1]
                < j {
                let v1 = if v[nd.prev[0]].needs_grad {
                    add_grad(v, nd.prev[0], nd.grad)
                } else {
                    v
                };
                &&& (v[nd.prev[0]].needs_grad ==> fits(ratio_add(v[nd.prev[0]].grad, nd.grad)))
                &&& (v1[nd.prev[1]].needs_grad ==> fits(ratio_add(v1[nd.prev[1]].grad, nd.grad)))
            } else {
                true
            },
            Operation::MUL => if nd.prev.len() == 2 && 0 <= nd.prev[0] < j && 0 <= nd.prev[1]
                < j {
                let c0 = ratio_mul(v[nd.prev[1]].value, nd.grad);
                let c1 = ratio_mul(v[nd.prev[0]].value, nd.grad);
                let v1 = if v[nd.prev[0]].needs_grad {
                    add_grad(v, nd.prev[0], c0)
                } else {
                    v
                };
                &&& (v[nd.prev[0]].needs_grad ==> fits(c0) && fits(
                    ratio_add(v[nd.prev[0]].grad, c0),
                ))
                &&& (v1[nd.prev[1]].needs_grad ==> fits(c1) && fits(
                    ratio_add(v1[nd.prev[1]].grad, c1),
                ))
            } else {
                true
            },
            Operation::RELU => if nd.prev.len() == 1 && 0 <= nd.prev[0] < j {
                v[nd.prev[0]].needs_grad && nd.value.n > 0 ==> fits(
                    ratio_add(v[nd.prev[0]].grad, nd.grad),
                )
            } else {
                true
            },
            Operation::NONE => true,
        }
    } else {
        true
    }
}

/// Whether some operand of node `j` carries the pending-reset marker.
pub open spec fn any_operand_reset(v: Seq<GNode>, j: int) -> bool {
    exists|k: int|
        0 <= k < v[j].prev.len() && 0 <= (#[trigger] v[j].prev[k]) < v.len()
            && v[v[j].prev[k]].reset
}

/// The stale-gradient reset of one node: a node one of whose operands is
/// marked pending-reset loses its stale gradient and takes the marker
/// itself, so the marker travels forward through the dependency order.
pub open spec fn reset_step(v: Seq<GNode>, j: int) -> Seq<GNode> {
    if 0 <= j < v.len() && any_operand_reset(v, j) {
        v.update(
            j,
            GNode {
                value: v[j].value,
                grad: ratio_zero(),
                needs_grad: v[j].needs_grad,
                operation: v[j].operation,
                prev: v[j].prev,
                reset: true,
            },
        )
    } else {
        v
    }
}

/// The reset pass over the first `p` entries of the order, children first.
pub open spec fn reset_pass(v: Seq<GNode>, ord: Seq<usize>, p: int) -> Seq<GNode>
    decreases p,
{
    if p <= 0 {
        v
    } else {
        reset_step(reset_pass(v, ord, p - 1), ord[p - 1] as int)
    }
}

pub open spec fn clear_reset(v: Seq<GNode>, j: int) -> Seq<GNode> {
    if 0 <= j < v.len() {
        v.update(
            j,
            GNode {
                value: v[j].value,
                grad: v[j].grad,
                needs_grad: v[j].needs_grad,
                operation: v[j].operation,
                prev: v[j].prev,
                reset: false,
            },
        )
    } else {
        v
    }
}

/// The reverse walk from position `q` of the order to its end, processed
/// back to front (parents before children): each visited node settles (its
/// pending-reset marker is cleared) and then pushes its gradient into its
/// operands.
pub open spec fn back_pass(v: Seq<GNode>, ord: Seq<usize>, q: int) -> Seq<GNode>
    decreases ord.len() - q,
{
    if q < 0 || q >= ord.len() {
        v
    } else {
        backstep(clear_reset(back_pass(v, ord, q + 1), ord[q] as int), ord[q] as int)
    }
}

pub open spec fn back_pass_fits(v: Seq<GNode>, ord: Seq<usize>, q: int) -> bool
    decreases ord.len() - q,
{
    if q < 0 || q >= ord.len() {
        true
    } else {
        back_pass_fits(v, ord, q + 1) && backstep_fits(
            clear_reset(back_pass(v, ord, q + 1), ord[q] as int),
            ord[q] as int,
        )
    }
}

/// The whole backward pass: stale-gradient reset along the order, the
/// chain rule applied at the root, then the reverse walk over the order.
pub open spec fn backward_model(v: Seq<GNode>, root: int, ord: Seq<usize>) -> Seq<GNode> {
    back_pass(backstep(reset_pass(v, ord, ord.len() as int), root), ord, 0)
}

/// Every accumulator update of the whole backward pass fits in storage.
pub open spec fn backward_fits(v: Seq<GNode>, root: int, ord: Seq<usize>) -> bool {
    let m1 = reset_pass(v, ord, ord.len() as int);
    backstep_fits(m1, root) && back_pass_fits(backstep(m1, root), ord, 0)
}

/// The stored node is an exact representative of the model node: all
/// discrete fields agree and the stored fractions represent the model's
/// fractions.
pub open spec fn node_models(a: GNode, m: GNode) -> bool {
    &&& a.operation == m.operation
    &&& a.prev == m.prev
    &&& a.needs_grad == m.needs_grad
    &&& a.reset == m.reset
    &&& models(a.value, m.value)
    &&& models(a.grad, m.grad)
}

pub open spec fn graph_models(a: Seq<GNode>, m: Seq<GNode>) -> bool {
    &&& a.len() == m.len()
    &&& forall|j: int| 0 <= j < a.len() ==> node_models(#[trigger] a[j], m[j])
}

/// The value one forward visit of node `j` computes, from the operand
/// values as currently stored.
pub open spec fn step_exact(v: Seq<GNode>, j: int) -> Ratio {
    if 0 <= j < v.len() {
        let nd = v[j];
        match nd.operation {
            Operation::ADD => if nd.prev.len() == 2 && 0 <= nd.prev[0] < j && 0 <= nd.prev[1]
                < j {
                ratio_add(v[nd.prev[0]].value, v[nd.prev[1]].value)
            } else {
                nd.value
            },
            Operation::MUL => if nd.prev.len() == 2 && 0 <= nd.prev[0] < j && 0 <= nd.prev[1]
                < j {
                ratio_mul(v[nd.prev[0]].value, v[nd.prev[1]].value)
            } else {
                nd.value
            },
            Operation::RELU => if nd.prev.len() == 1 && 0 <= nd.prev[0] < j {
                ratio_relu(v[nd.prev[0]].value)
            } else {
                nd.value
            },
            Operation::NONE => nd.value,
        }
    } else {
        ratio_zero()
    }
}

pub proof fn lemma_graph_models_refl(a: Seq<GNode>)
    requires
        graph_wf(a),
    ensures
        graph_models(a, a),
{
    assert forall|j: int| 0 <= j < a.len() implies node_models(#[trigger] a[j], a[j]) by {
        assert(node_wf(a, j));
    }
}

pub proof fn lemma_graph_models_trans(a: Seq<GNode>, b: Seq<GNode>, c: Seq<GNode>)
    requires
        graph_models(a, b),
        graph_models(b, c),
    ensures
        graph_models(a, c),
{
    assert forall|j: int| 0 <= j < a.len() implies node_models(#[trigger] a[j], c[j]) by {
        assert(node_models(a[j], b[j]));
        assert(node_models(b[j], c[j]));
        crate::rational::lemma_models_trans(a[j].value, b[j].value, c[j].value);
        crate::rational::lemma_models_trans(a[j].grad, b[j].grad, c[j].grad);
    }
}

/// The chain-rule visit respects the `models` relation between stored and
/// mathematical states, and a visit whose exact updates fit also has
/// fitting updates on the stored side.
pub proof fn lemma_backstep_congruence(a: Seq<GNode>, m: Seq<GNode>, j: int)
    requires
        graph_models(a, m),
    ensures
        graph_models(backstep(a, j), backstep(m, j)),
        backstep_fits(m, j) ==> backstep_fits(a, j),
{
    if 0 <= j < a.len() {
        let nda = a[j];
        let ndm = m[j];
        assert(node_models(nda, ndm));
        match nda.operation {
            Operation::ADD => {
                if nda.prev.len() == 2 && 0 <= nda.prev[0] < j && 0 <= nda.prev[1] < j {
                    let p0 = nda.prev[0];
                    let p1 = nda.prev[1];
                    assert(node_models(a[p0], m[p0]));
                    assert(node_models(a[p1], m[p1]));
                    crate::rational::lemma_add_models(a[p0].grad, m[p0].grad, nda.grad, ndm.grad);
                    let a1 = if a[p0].needs_grad {
                        add_grad(a, p0, nda.grad)
                    } else {
                        a
                    };
                    let m1 = if m[p0].needs_grad {
                        add_grad(m, p0, ndm.grad)
                    } else {
                        m
                    };
                    assert(graph_models(a1, m1));
                    assert(node_models(a1[p1], m1[p1]));
                    crate::rational::lemma_add_models(a1[p1].grad, m1[p1].grad, nda.grad, ndm.grad);
                    if backstep_fits(m, j) {
                        if a[p0].needs_grad {
                            crate::rational::lemma_fits_models(
                                ratio_add(a[p0].grad, nda.grad),
                                ratio_add(m[p0].grad, ndm.grad),
                            );
                        }
                        if a1[p1].needs_grad {
                            crate::rational::lemma_fits_models(
                                ratio_add(a1[p1].grad, nda.grad),
                                ratio_add(m1[p1].grad, ndm.grad),
                            );
                        }
                    }
                    assert(graph_models(backstep(a, j), backstep(m, j)));
                }
            },
            Operation::MUL => {
                if nda.prev.len() == 2 && 0 <= nda.prev[0] < j && 0 <= nda.prev[1] < j {
                    let p0 = nda.prev[0];
                    let p1 = nda.prev[1];
                    assert(node_models(a[p0], m[p0]));
                    assert(node_models(a[p1], m[p1]));
                    let ca0 = ratio_mul(a[p1].value, nda.grad);
                    let ca1 = ratio_mul(a[p0].value, nda.grad);
                    let cm0 = ratio_mul(m[p1].value, ndm.grad);
                    let cm1 = ratio_mul(m[p0].value, ndm.grad);
                    crate::rational::lemma_mul_models(a[p1].value, m[p1].value, nda.grad, ndm.grad);
                    crate::rational::lemma_mul_models(a[p0].value, m[p0].value, nda.grad, ndm.grad);
                    crate::rational::lemma_add_models(a[p0].grad, m[p0].grad, ca0, cm0);
                    let a1 = if a[p0].needs_grad {
                        add_grad(a, p0, ca0)
                    } else {
                        a
                    };
                    let m1 = if m[p0].needs_grad {
                        add_grad(m, p0, cm0)
                    } else {
                        m
                    };
                    assert(graph_models(a1, m1));
                    assert(node_models(a1[p1], m1[p1]));
                    crate::rational::lemma_add_models(a1[p1].grad, m1[p1].grad, ca1, cm1);
                    if backstep_fits(m, j) {
                        if a[p0].needs_grad {
                            crate::rational::lemma_fits_models(ca0, cm0);
                            crate::rational::lemma_fits_models(
                                ratio_add(a[p0].grad, ca0),
                                ratio_add(m[p0].grad, cm0),
                            );
                        }
                        if a1[p1].needs_grad {
                            crate::rational::lemma_fits_models(ca1, cm1);
                            crate::rational::lemma_fits_models(
                                ratio_add(a1[p1].grad, ca1),
                                ratio_add(m1[p1].grad, cm1),
                            );
                        }
                    }
                    assert(graph_models(backstep(a, j), backstep(m, j)));
                }
            },
            Operation::RELU => {
                if nda.prev.len() == 1 && 0 <= nda.prev[0] < j {
                    let p0 = nda.prev[0];
                    assert(node_models(a[p0], m[p0]));
                    crate::rational::lemma_relu_models(nda.value, ndm.value);
                    crate::rational::lemma_add_models(a[p0].grad, m[p0].grad, nda.grad, ndm.grad);
                    if backstep_fits(m, j) && a[p0].needs_grad && nda.value.n > 0 {
                        crate::rational::lemma_fits_models(
                            ratio_add(a[p0].grad, nda.grad),
                            ratio_add(m[p0].grad, ndm.grad),
                        );
                    }
                    assert(graph_models(backstep(a, j), backstep(m, j)));
                }
            },
            Operation::NONE => {},
        }
    }
}

pub proof fn lemma_clear_congruence(a: Seq<GNode>, m: Seq<GNode>, j: int)
    requires
        graph_models(a, m),
    ensures
        graph_models(clear_reset(a, j), clear_reset(m, j)),
{
    if 0 <= j < a.len() {
        assert(node_models(a[j], m[j]));
        assert(graph_models(clear_reset(a, j), clear_reset(m, j)));
    }
}

/// Reachability reads only operand lists, so it is unchanged when a state
/// is extended or its values, gradients or markers are rewritten.
pub proof fn lemma_reaches_prefix(v1: Seq<GNode>, v2: Seq<GNode>, i: int, j: int)
    requires
        v1.len() <= v2.len(),
        forall|t: int| 0 <= t < v1.len() ==> (#[trigger] v2[t]).prev == v1[t].prev,
        0 <= i < v1.len(),
    ensures
        reaches(v1, i, j) == reaches(v2, i, j),
    decreases i,
{
    if reaches(v1, i, j) {
        let k = choose|k: int|
            0 <= k < v1[i].prev.len() && ((#[trigger] v1[i].prev[k]) == j || (0 <= v1[i].prev[k]
                < i && reaches(v1, v1[i].prev[k], j)));
        if v1[i].prev[k] == j {
            assert(v2[i].prev[k] == j);
        } else {
            lemma_reaches_prefix(v1, v2, v1[i].prev[k], j);
            assert(0 <= v2[i].prev[k] < i && reaches(v2, v2[i].prev[k], j));
        }
        assert(reaches(v2, i, j));
    }
    if reaches(v2, i, j) {
        let k = choose|k: int|
            0 <= k < v2[i].prev.len() && ((#[trigger] v2[i].prev[k]) == j || (0 <= v2[i].prev[k]
                < i && reaches(v2, v2[i].prev[k], j)));
        if v2[i].prev[k] == j {
            assert(v1[i].prev[k] == j);
        } else {
            lemma_reaches_prefix(v1, v2, v2[i].prev[k], j);
            assert(0 <= v1[i].prev[k] < i && reaches(v1, v1[i].prev[k], j));
        }
        assert(reaches(v1, i, j));
    }
}

/// A memoized order stays valid when the state is extended with new nodes
/// or its values, gradients or markers are rewritten: the order depends
/// only on the operand lists at or below its root.
pub proof fn lemma_is_topo_prefix(v1: Seq<GNode>, v2: Seq<GNode>, root: int, ord: Seq<usize>)
    requires
        v1.len() <= v2.len(),
        forall|t: int| 0 <= t < v1.len() ==> (#[trigger] v2[t]).prev == v1[t].prev,
        graph_wf(v2),
        is_topo(v1, root, ord),
    ensures
        is_topo(v2, root, ord),
{
    assert forall|j: int| ord_contains(ord, j) implies reaches(v2, root, j) by {
        assert(reaches(v1, root, j));
        lemma_reaches_prefix(v1, v2, root, j);
    }
    assert forall|j: int| reaches(v2, root, j) implies ord_contains(ord, j) by {
        lemma_reaches_below(v2, root, j);
        lemma_reaches_prefix(v1, v2, root, j);
        assert(reaches(v1, root, j));
    }
}

/// At the next node of a forward walk, the operation applied to the
/// stored operand values represents the operation applied to the operands'
/// recomputed values, because every operand stands earlier in the order
/// and has already been recomputed.
pub proof fn lemma_step_congruence(
    cur: Seq<GNode>,
    v0: Seq<GNode>,
    root: int,
    ord: Seq<usize>,
    p: int,
    j: int,
)
    requires
        graph_wf(v0),
        graph_wf(cur),
        same_but_values(v0, cur),
        is_topo(v0, root, ord),
        0 <= p <= ord.len(),
        (j == root && p == ord.len()) || (p < ord.len() && j == ord[p] as int),
        forall|q: int|
            0 <= q < p ==> models(cur[(#[trigger] ord[q]) as int].value, eval(v0, ord[q] as int)),
        forall|t: int|
            0 <= t < v0.len() && !ord_contains(ord.take(p), t) ==> cur[t].value == v0[t].value,
    ensures
        models(step_exact(cur, j), eval(v0, j)),
{
    assert(node_wf(v0, j));
    assert(0 <= j < v0.len());
    if j != root {
        assert(ord_contains(ord, j)) by {
            assert(ord[p] as int == j);
        }
        assert(reaches(v0, root, j));
    }
    assert forall|k: int| 0 <= k < v0[j].prev.len() implies models(
        cur[#[trigger] v0[j].prev[k]].value,
        eval(v0, v0[j].prev[k]),
    ) by {
        let c = v0[j].prev[k];
        if j == root {
            lemma_reaches_edge(v0, root, k);
        } else {
            lemma_reaches_extend(v0, root, j, k);
        }
        assert(reaches(v0, root, c));
        assert(ord_contains(ord, c));
        let q = choose|q: int| 0 <= q < ord.len() && (#[trigger] ord[q]) as int == c;
        assert(q < p) by {
            if q >= p {
                assert(p < ord.len());
                if q == p {
                    assert(c == j);
                } else {
                    assert(ord[p] < ord[q]);
                }
                assert(c < j);
                assert(false);
            }
        }
        assert(models(cur[c].value, eval(v0, c)));
    }
    let nd = v0[j];
    match nd.operation {
        Operation::ADD => {
            crate::rational::lemma_add_models(
                cur[nd.prev[0]].value,
                eval(v0, nd.prev[0]),
                cur[nd.prev[1]].value,
                eval(v0, nd.prev[1]),
            );
        },
        Operation::MUL => {
            crate::rational::lemma_mul_models(
                cur[nd.prev[0]].value,
                eval(v0, nd.prev[0]),
                cur[nd.prev[1]].value,
                eval(v0, nd.prev[1]),
            );
        },
        Operation::RELU => {
            crate::rational::lemma_relu_models(cur[nd.prev[0]].value, eval(v0, nd.prev[0]));
        },
        Operation::NONE => {
            assert(!ord_contains(ord.take(p), j)) by {
                if ord_contains(ord.take(p), j) {
                    let q = choose|q: int|
                        0 <= q < ord.take(p).len() && (#[trigger] ord.take(p)[q]) as int == j;
                    assert(ord[q] as int == j);
                    if j == root {
                        assert((ord[q] as int) < root);
                    } else {
                        assert(q < p);
                        assert(ord[q] < ord[p]);
                    }
                    assert(false);
                }
            }
            assert(cur[j].value == v0[j].value);
            crate::rational::lemma_models_refl(cur[j].value);
        },
    }
}

/// Once every update of the whole reverse walk fits, so does every update
/// of each of its suffixes.
pub proof fn lemma_back_pass_fits_suffix(v: Seq<GNode>, ord: Seq<usize>, q: int)
    requires
        back_pass_fits(v, ord, 0),
        0 <= q <= ord.len(),
    ensures
        back_pass_fits(v, ord, q),
    decreases q,
{
    if q > 0 {
        lemma_back_pass_fits_suffix(v, ord, q - 1);
    }
}

/// Prefix preservation composes: a state that preserves a prefix of a
/// state that preserves a prefix of the first preserves the first too.
pub proof fn lemma_prefix_trans(a: Seq<GNode>, b: Seq<GNode>, c: Seq<GNode>)
    requires
        b.len() >= a.len(),
        c.len() >= b.len(),
        b.take(a.len() as int) == a,
        c.take(b.len() as int) == b,
    ensures
        c.take(a.len() as int) == a,
{
    assert forall|i: int| 0 <= i < a.len() implies #[trigger] c[i] == a[i] by {
        assert(c.take(b.len() as int)[i] == b[i]);
        assert(b.take(a.len() as int)[i] == a[i]);
    }
    assert(c.take(a.len() as int) =~= a);
}

/// The two states agree on everything except node values: construction
/// data, gradients, and reset markers are unchanged.
pub open spec fn same_but_values(a: Seq<GNode>, b: Seq<GNode>) -> bool {
    &&& a.len() == b.len()
    &&& forall|j: int|
        0 <= j < a.len() ==> (#[trigger] a[j]).operation == b[j].operation && a[j].prev
            == b[j].prev && a[j].needs_grad == b[j].needs_grad && a[j].reset == b[j].reset
            && a[j].grad == b[j].grad
}

/// The two states agree on everything except gradients and reset markers:
/// construction data and values are unchanged.
pub open spec fn same_but_grads(a: Seq<GNode>, b: Seq<GNode>) -> bool {
    &&& a.len() == b.len()
    &&& forall|j: int|
        0 <= j < a.len() ==> (#[trigger] a[j]).operation == b[j].operation && a[j].prev
            == b[j].prev && a[j].needs_grad == b[j].needs_grad && a[j].value == b[j].value
}

} // verus!
