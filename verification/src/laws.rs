use vstd::prelude::*;

use crate::model::{
    add_grad, backstep, backward_model, eval, graph_wf, is_topo, lemma_eval_stable, lemma_eval_wf,
    lemma_reaches_extend, lemma_reaches_prefix, node_wf, ord_contains, reaches, reset_pass,
    reset_step, same_but_values, GNode,
};
use crate::operation::Operation;
use crate::rational::{
    lemma_ratio_eq_common, models, ratio_add, ratio_eq, ratio_mul, ratio_one, ratio_relu,
    ratio_wf, ratio_zero, Ratio,
};

verus! {

/// What a successful forward pass from `root` leaves behind, in terms of
/// the state it started from: structure, gradients and markers unchanged,
/// every node of the target's ancestry holding a representative of its
/// recomputed fraction, and every other node — leaves in particular —
/// keeping its value.
pub open spec fn forward_result(a: Seq<GNode>, b: Seq<GNode>, root: int) -> bool {
    &&& same_but_values(a, b)
    &&& (forall|j: int|
        0 <= j < a.len() && (j == root || reaches(a, root, j)) ==> models(
            (#[trigger] b[j]).value,
            eval(a, j),
        ))
    &&& (forall|j: int|
        0 <= j < a.len() && !(j == root || reaches(a, root, j)) ==> (#[trigger] b[j]).value
            == a[j].value)
    &&& (forall|j: int|
        0 <= j < a.len() && (#[trigger] a[j]).operation == Operation::NONE ==> b[j].value
            == a[j].value)
}

/// Forward idempotence: recomputation reads only the graph's structure
/// and its leaf values, and a forward pass changes neither, so running
/// the pass twice with unchanged leaf values assigns every recomputed
/// node the same fraction both times.
pub proof fn lemma_forward_idempotent(v0: Seq<GNode>, v1: Seq<GNode>, v2: Seq<GNode>, root: int)
    requires
        graph_wf(v0),
        forward_result(v0, v1, root),
        forward_result(v1, v2, root),
    ensures
        forall|j: int|
            0 <= j < v0.len() && (j == root || reaches(v0, root, j)) ==> ratio_eq(
                (#[trigger] v2[j]).value,
                v1[j].value,
            ),
{
    assert forall|j: int|
        0 <= j < v0.len() && (j == root || reaches(v0, root, j)) implies ratio_eq(
        (#[trigger] v2[j]).value,
        v1[j].value,
    ) by {
        lemma_eval_stable(v0, v1, j);
        if j != root {
            lemma_reaches_prefix(v0, v1, root, j);
        }
        assert(models(v2[j].value, eval(v1, j)));
        assert(models(v1[j].value, eval(v0, j)));
        lemma_eval_wf(v0, j);
        lemma_ratio_eq_common(v2[j].value, v1[j].value, eval(v0, j));
    }
}

/// Additive accumulation: a leaf standing as an operand of two
/// independent sum consumers, visited one after the other with output
/// gradients `g1` and `g2`, ends with gradient `g1 + g2` — the sum of
/// both contributions, never only one of them.
pub proof fn lemma_fanout_accumulation(v: Seq<GNode>, a: int, b: int, l: int)
    requires
        graph_wf(v),
        0 <= a < v.len(),
        0 <= b < v.len(),
        a != b,
        v[a].operation == Operation::ADD,
        v[b].operation == Operation::ADD,
        v[a].prev[0] == l,
        v[b].prev[0] == l,
        v[a].prev[1] != l,
        v[b].prev[1] != l,
        b != v[a].prev[0],
        b != v[a].prev[1],
        v[l].needs_grad,
        v[l].grad == ratio_zero(),
    ensures
        backstep(backstep(v, a), b)[l].grad == ratio_add(v[a].grad, v[b].grad),
{
    assert(node_wf(v, a));
    assert(node_wf(v, b));
    assert(node_wf(v, l));
    let w = backstep(v, a);
    assert(w[l].grad == ratio_add(ratio_zero(), v[a].grad));
    assert(0 * v[a].grad.d + v[a].grad.n * 1 == v[a].grad.n) by (nonlinear_arith);
    assert(1 * v[a].grad.d == v[a].grad.d) by (nonlinear_arith);
    assert(w[l].grad == (Ratio { n: v[a].grad.n, d: v[a].grad.d }));
    assert(w[b].grad == v[b].grad);
    assert(backstep(w, b)[l].grad == ratio_add(w[l].grad, v[b].grad));
    assert(backstep(backstep(v, a), b)[l].grad == ratio_add(v[a].grad, v[b].grad));
}

/// Square semantics: for a leaf `x` holding the value `xv` and the
/// product node `Multiply(x, x)` above it with seed gradient one, the
/// backward pass leaves `grad(x)` equal to `2 · xv` — the contribution of
/// each operand slot of the product lands in the one shared node.
pub proof fn lemma_square_gradient(v: Seq<GNode>, ord: Seq<usize>)
    requires
        v.len() == 2,
        v[0].operation == Operation::NONE,
        v[0].prev.len() == 0,
        ratio_wf(v[0].value),
        v[0].grad == ratio_zero(),
        v[0].needs_grad,
        !v[0].reset,
        v[1].operation == Operation::MUL,
        v[1].prev == seq![0int, 0int],
        v[1].grad == ratio_one(),
        !v[1].reset,
        ord == seq![0usize],
    ensures
        ratio_eq(
            backward_model(v, 1, ord)[0].grad,
            (Ratio { n: 2 * v[0].value.n, d: v[0].value.d }),
        ),
{
    let xn = v[0].value.n;
    let xd = v[0].value.d;
    assert(reset_pass(v, ord, 0) == v);
    assert(!crate::model::any_operand_reset(v, 0));
    assert(reset_pass(v, ord, 1) == v);
    let c = ratio_mul(v[0].value, ratio_one());
    assert(c == (Ratio { n: xn * 1, d: xd * 1 }));
    let w1 = add_grad(v, 0, c);
    assert(w1[0].grad == (Ratio { n: 0 * (xd * 1) + (xn * 1) * 1, d: 1 * (xd * 1) }));
    let m2 = backstep(v, 1);
    assert(m2 == add_grad(w1, 0, c));
    assert(m2[0].grad == ratio_add(w1[0].grad, c));
    let w2 = crate::model::clear_reset(m2, 0);
    assert(crate::model::back_pass(m2, ord, 1) == m2);
    assert(crate::model::back_pass(m2, ord, 0) == backstep(w2, 0));
    assert(backstep(w2, 0) == w2);
    assert(backward_model(v, 1, ord)[0].grad == ratio_add(w1[0].grad, c));
    let g = ratio_add(w1[0].grad, c);
    assert(ratio_eq(g, (Ratio { n: 2 * xn, d: xd }))) by (nonlinear_arith)
        requires
            g.n == (0 * (xd * 1) + (xn * 1) * 1) * (xd * 1) + (xn * 1) * (1 * (xd * 1)),
            g.d == (1 * (xd * 1)) * (xd * 1),
            1 <= xd,
            ratio_eq(g, (Ratio { n: 2 * xn, d: xd })) == (g.n * xd == 2 * xn * g.d),
    {
    }
}

/// Rectifier semantics.  Forward: a non-positive operand value gives the
/// rectified node the value zero, a positive one passes through
/// unchanged.  Backward: a rectified node whose stored value is
/// non-positive leaves its operand's gradient exactly as it was,
/// whatever the seed; a positive one passes its gradient through
/// unchanged into the accumulator.
pub proof fn lemma_relu_semantics(v: Seq<GNode>, j: int)
    requires
        graph_wf(v),
        0 <= j < v.len(),
        v[j].operation == Operation::RELU,
    ensures
        eval(v, j) == ratio_relu(eval(v, v[j].prev[0])),
        eval(v, v[j].prev[0]).n <= 0 ==> eval(v, j) == ratio_zero(),
        eval(v, v[j].prev[0]).n > 0 ==> eval(v, j) == eval(v, v[j].prev[0]),
        v[j].value.n <= 0 ==> backstep(v, j) == v,
        v[j].value.n > 0 && v[v[j].prev[0]].needs_grad ==> backstep(v, j) == add_grad(
            v,
            v[j].prev[0],
            v[j].grad,
        ),
{
    assert(node_wf(v, j));
}

/// Sum backward: a visit of a sum node adds the node's own gradient,
/// unchanged and identically, into both operands' accumulators.
pub proof fn lemma_add_backward(v: Seq<GNode>, j: int)
    requires
        graph_wf(v),
        0 <= j < v.len(),
        v[j].operation == Operation::ADD,
        v[j].prev[0] != v[j].prev[1],
        v[v[j].prev[0]].needs_grad,
        v[v[j].prev[1]].needs_grad,
    ensures
        backstep(v, j)[v[j].prev[0]].grad == ratio_add(v[v[j].prev[0]].grad, v[j].grad),
        backstep(v, j)[v[j].prev[1]].grad == ratio_add(v[v[j].prev[1]].grad, v[j].grad),
        forall|t: int|
            0 <= t < v.len() && t != v[j].prev[0] && t != v[j].prev[1] ==> (#[trigger] backstep(
                v,
                j,
            )[t]) == v[t],
{
    assert(node_wf(v, j));
}

/// Product backward: a visit of a product node adds, into each operand's
/// accumulator, the node's own gradient scaled by the opposite operand's
/// value.
pub proof fn lemma_mul_backward(v: Seq<GNode>, j: int)
    requires
        graph_wf(v),
        0 <= j < v.len(),
        v[j].operation == Operation::MUL,
        v[j].prev[0] != v[j].prev[1],
        v[v[j].prev[0]].needs_grad,
        v[v[j].prev[1]].needs_grad,
    ensures
        backstep(v, j)[v[j].prev[0]].grad == ratio_add(
            v[v[j].prev[0]].grad,
            ratio_mul(v[v[j].prev[1]].value, v[j].grad),
        ),
        backstep(v, j)[v[j].prev[1]].grad == ratio_add(
            v[v[j].prev[1]].grad,
            ratio_mul(v[v[j].prev[0]].value, v[j].grad),
        ),
        forall|t: int|
            0 <= t < v.len() && t != v[j].prev[0] && t != v[j].prev[1] ==> (#[trigger] backstep(
                v,
                j,
            )[t]) == v[t],
{
    assert(node_wf(v, j));
}

/// A node is tainted when it carries the pending-reset marker itself or
/// some strict ancestor of it does.
pub open spec fn tainted(v: Seq<GNode>, j: int) -> bool
    decreases j,
{
    0 <= j < v.len() && (v[j].reset || exists|k: int|
        0 <= k < v[j].prev.len() && 0 <= (#[trigger] v[j].prev[k]) < j && tainted(
            v,
            v[j].prev[k],
        ))
}

/// Markers are honest: a marked node's gradient accumulator has already
/// been cleared, as `zero_grad` leaves it.
pub open spec fn flags_honest(v: Seq<GNode>) -> bool {
    forall|t: int| 0 <= t < v.len() && (#[trigger] v[t]).reset ==> v[t].grad == ratio_zero()
}

proof fn lemma_reset_pass_taints(v: Seq<GNode>, root: int, ord: Seq<usize>, p: int)
    requires
        graph_wf(v),
        is_topo(v, root, ord),
        flags_honest(v),
        0 <= p <= ord.len(),
    ensures
        ({
            let w = reset_pass(v, ord, p);
            &&& w.len() == v.len()
            &&& (forall|t: int|
                0 <= t < v.len() ==> {
                    let n2 = #[trigger] w[t];
                    &&& n2.value == v[t].value
                    &&& n2.needs_grad == v[t].needs_grad
                    &&& n2.operation == v[t].operation
                    &&& n2.prev == v[t].prev
                })
            &&& (forall|t: int| 0 <= t < v.len() && (#[trigger] v[t]).reset ==> w[t].reset)
            &&& flags_honest(w)
            &&& (forall|q: int|
                0 <= q < p && tainted(v, (#[trigger] ord[q]) as int) ==> w[ord[q] as int].reset
                    && w[ord[q] as int].grad == ratio_zero())
        }),
    decreases p,
{
    if p > 0 {
        lemma_reset_pass_taints(v, root, ord, p - 1);
        let w0 = reset_pass(v, ord, p - 1);
        let j = ord[p - 1] as int;
        let w = reset_step(w0, j);
        assert((ord[p - 1] as int) < root);
        assert(0 <= j < v.len());
        assert(flags_honest(w)) by {
            assert forall|t: int|
                0 <= t < w.len() && (#[trigger] w[t]).reset implies w[t].grad == ratio_zero() by {
                if t != j || !crate::model::any_operand_reset(w0, j) {
                    assert(w[t] == w0[t]);
                }
            }
        }
        assert forall|q: int|
            0 <= q < p && tainted(v, (#[trigger] ord[q]) as int) implies w[ord[q] as int].reset
            && w[ord[q] as int].grad == ratio_zero() by {
            let jq = ord[q] as int;
            if q < p - 1 {
                assert(w0[jq].reset && w0[jq].grad == ratio_zero());
                assert(ord[q] < ord[p - 1]);
                assert(jq != j);
                assert(w[jq] == w0[jq]);
            } else {
                assert(jq == j);
                if v[j].reset {
                    assert(w0[j].reset);
                    assert(w0[j].grad == ratio_zero());
                    if crate::model::any_operand_reset(w0, j) {
                    } else {
                        assert(w[j] == w0[j]);
                    }
                } else {
                    let k = choose|k: int|
                        0 <= k < v[j].prev.len() && 0 <= (#[trigger] v[j].prev[k]) < j && tainted(
                            v,
                            v[j].prev[k],
                        );
                    let c = v[j].prev[k];
                    assert(ord_contains(ord, j)) by {
                        assert(ord[p - 1] as int == j);
                    }
                    assert(reaches(v, root, j));
                    lemma_reaches_extend(v, root, j, k);
                    assert(ord_contains(ord, c));
                    let qc = choose|qc: int|
                        0 <= qc < ord.len() && (#[trigger] ord[qc]) as int == c;
                    assert(qc < p - 1) by {
                        if qc >= p - 1 {
                            if qc == p - 1 {
                                assert(c == j);
                            } else {
                                assert(ord[p - 1] < ord[qc]);
                            }
                            assert(false);
                        }
                    }
                    assert(w0[c].reset);
                    assert(crate::model::any_operand_reset(w0, j)) by {
                        assert(w0[j].prev == v[j].prev);
                        assert(0 <= w0[j].prev[k] < w0.len());
                        assert(w0[w0[j].prev[k]].reset);
                    }
                    assert(w[j].reset && w[j].grad == ratio_zero());
                }
            }
        }
    }
}

/// Stale-gradient correctness: once `zero_grad` has marked a node, the
/// reset sweep that opens the next backward pass clears the gradient
/// accumulator of every node of the order that depends on a marked node
/// — or is itself marked — before any new contribution is accumulated,
/// so no gradient from an earlier pass survives, even though the
/// memoized order is reused.
pub proof fn lemma_reset_propagation(v: Seq<GNode>, root: int, ord: Seq<usize>, j: int)
    requires
        graph_wf(v),
        is_topo(v, root, ord),
        flags_honest(v),
        ord_contains(ord, j),
        tainted(v, j),
    ensures
        reset_pass(v, ord, ord.len() as int)[j].reset,
        reset_pass(v, ord, ord.len() as int)[j].grad == ratio_zero(),
{
    let q = choose|q: int| 0 <= q < ord.len() && (#[trigger] ord[q]) as int == j;
    lemma_reset_pass_taints(v, root, ord, ord.len() as int);
}

} // verus!
