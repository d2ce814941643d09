use vstd::prelude::*;

use crate::engine::{Engine, Value};
use crate::model::{lemma_prefix_trans, GNode};
use crate::operation::Operation;
use crate::rational::{
    fits, lemma_add_models, lemma_models_refl, lemma_models_trans, models, ratio_add, ratio_mul,
    ratio_relu, ratio_sub, Rat, Ratio,
};

verus! {

/// A single neuron: one bias parameter and one weight parameter per
/// input, wired as the chain bias + w1·x1 + ... + wn·xn, rectified
/// unless the neuron is linear.  It holds arena indices into the engine
/// that built it.
pub struct Neuron {
    pub parameters: Vec<usize>,
    pub inputs: Vec<usize>,
    pub output: usize,
}

/// The exact affine combination p0 + p1·x1 + ... + pk·xk of the stored
/// parameter and input values.
pub open spec fn affine_value(
    v: Seq<GNode>,
    params: Seq<usize>,
    inputs: Seq<usize>,
    k: int,
) -> Ratio
    decreases k,
{
    if k <= 0 {
        v[params[0] as int].value
    } else {
        ratio_add(
            affine_value(v, params, inputs, k - 1),
            ratio_mul(v[params[k] as int].value, v[inputs[k - 1] as int].value),
        )
    }
}

/// The unit grid of values a random parameter draw can take.
pub open spec fn on_unit_grid(p: Ratio) -> bool {
    &&& 0 <= p.n < 1048576
    &&& p.d == 1048576
}

/// The exact affine combination over given parameter and input
/// fractions.
pub open spec fn affine_exact(ps: Seq<Ratio>, xs: Seq<Ratio>, k: int) -> Ratio
    decreases k,
{
    if k <= 0 {
        ps[0]
    } else {
        ratio_add(affine_exact(ps, xs, k - 1), ratio_mul(ps[k], xs[k - 1]))
    }
}

/// Every exact intermediate of the affine chain fits in storage.
pub open spec fn affine_chain_fits(ps: Seq<Ratio>, xs: Seq<Ratio>, k: int) -> bool
    decreases k,
{
    if k <= 0 {
        true
    } else {
        &&& affine_chain_fits(ps, xs, k - 1)
        &&& fits(ratio_mul(ps[k], xs[k - 1]))
        &&& fits(affine_exact(ps, xs, k))
    }
}

/// The fractions stored at the named nodes, in order.
pub open spec fn node_values(v: Seq<GNode>, idxs: Seq<usize>) -> Seq<Ratio> {
    Seq::new(idxs.len(), |k: int| v[idxs[k] as int].value)
}

proof fn lemma_chain_fits_mono(ps: Seq<Ratio>, xs: Seq<Ratio>, j: int, k: int)
    requires
        affine_chain_fits(ps, xs, k),
        j <= k,
    ensures
        affine_chain_fits(ps, xs, j),
    decreases k,
{
    if j < k && k > 0 {
        lemma_chain_fits_mono(ps, xs, j, k - 1);
    }
}

/// The affine combination over a state equals the one over the fractions
/// that state stores at the named nodes.
proof fn lemma_affine_value_exact(
    v: Seq<GNode>,
    params: Seq<usize>,
    inputs: Seq<usize>,
    ps: Seq<Ratio>,
    xs: Seq<Ratio>,
    k: int,
)
    requires
        ps.len() == params.len(),
        xs.len() == inputs.len(),
        0 <= k < params.len(),
        k <= inputs.len(),
        forall|i: int| 0 <= i < params.len() ==> #[trigger] ps[i] == v[params[i] as int].value,
        forall|i: int| 0 <= i < inputs.len() ==> #[trigger] xs[i] == v[inputs[i] as int].value,
    ensures
        affine_value(v, params, inputs, k) == affine_exact(ps, xs, k),
    decreases k,
{
    if k > 0 {
        lemma_affine_value_exact(v, params, inputs, ps, xs, k - 1);
    }
}

/// The affine combination reads only the named nodes' values, so it is
/// unchanged in any state that keeps them.
proof fn lemma_affine_stable(
    v1: Seq<GNode>,
    v2: Seq<GNode>,
    params: Seq<usize>,
    inputs: Seq<usize>,
    k: int,
)
    requires
        forall|t: int| 0 <= t < v1.len() ==> (#[trigger] v2[t]).value == v1[t].value,
        v2.len() >= v1.len(),
        0 <= k < params.len(),
        k <= inputs.len(),
        forall|i: int| 0 <= i < params.len() ==> ((#[trigger] params[i]) as int) < v1.len(),
        forall|i: int| 0 <= i < inputs.len() ==> ((#[trigger] inputs[i]) as int) < v1.len(),
    ensures
        affine_value(v1, params, inputs, k) == affine_value(v2, params, inputs, k),
    decreases k,
{
    if k > 0 {
        lemma_affine_stable(v1, v2, params, inputs, k - 1);
    }
}

impl Neuron {
    /// The neuron's indices are in range and its parameters are leaves.
    pub open spec fn wf(self, v: Seq<GNode>) -> bool {
        &&& (self.output as int) < v.len()
        &&& (forall|k: int|
            0 <= k < self.parameters@.len() ==> ((#[trigger] self.parameters@[k]) as int)
                < v.len() && v[self.parameters@[k] as int].operation == Operation::NONE)
        &&& (forall|k: int|
            0 <= k < self.inputs@.len() ==> ((#[trigger] self.inputs@[k]) as int) < v.len())
        &&& (forall|k1: int, k2: int|
            0 <= k1 < k2 < self.parameters@.len() ==> (#[trigger] self.parameters@[k1])
                != (#[trigger] self.parameters@[k2]))
    }

    /// Builds a neuron over the given input nodes: one random parameter
    /// per input plus a random bias, all marked as trainable, and the
    /// affine chain above them, rectified unless `linear`.  On success
    /// the output node's value represents the exact affine combination
    /// of the freshly drawn parameters and the inputs' current values
    /// (rectified unless `linear`); the input nodes themselves are
    /// untouched.  `None` reflects only a combination too large to
    /// store.
    #[verifier::loop_isolation(false)]
    #[verifier::rlimit(50)]
    pub fn new(eng: &mut Engine, inputs: &Vec<usize>, linear: bool) -> (r: Option<Neuron>)
        requires
            old(eng).wf(),
            forall|k: int| 0 <= k < inputs@.len() ==> ((#[trigger] inputs@[k]) as int) < old(
                eng,
            )@.len(),
            old(eng)@.len() + 3 * inputs@.len() + 3 <= 0x1_0000_0000,
        ensures
            final(eng).wf(),
            final(eng).seed == old(eng).seed,
            final(eng)@.len() >= old(eng)@.len(),
            final(eng)@.len() <= old(eng)@.len() + 3 * inputs@.len() + 3,
            final(eng)@.take(old(eng)@.len() as int) == old(eng)@,
            r matches Some(nr) ==> {
                &&& nr.wf(final(eng)@)
                &&& (nr.output as int) >= old(eng)@.len()
                &&& nr.parameters@.len() == inputs@.len() + 1
                &&& (forall|k: int|
                    0 <= k < nr.parameters@.len() ==> ((#[trigger] nr.parameters@[k]) as int)
                        == old(eng)@.len() + k)
                &&& nr.inputs@ == inputs@
                &&& (forall|k: int|
                    0 <= k < nr.parameters@.len() ==> {
                        let nd = final(eng)@[(#[trigger] nr.parameters@[k]) as int];
                        &&& nd.operation == Operation::NONE
                        &&& nd.needs_grad
                        &&& 0 <= nd.value.n < nd.value.d
                    })
                &&& crate::rational::models(
                    final(eng)@[nr.output as int].value,
                    if linear {
                        affine_value(
                            final(eng)@,
                            nr.parameters@,
                            nr.inputs@,
                            inputs@.len() as int,
                        )
                    } else {
                        ratio_relu(
                            affine_value(
                                final(eng)@,
                                nr.parameters@,
                                nr.inputs@,
                                inputs@.len() as int,
                            ),
                        )
                    },
                )
            },
            inputs@.len() == 0 ==> r is Some,
            (forall|ps: Seq<Ratio>|
                #![trigger affine_chain_fits(ps, node_values(old(eng)@, inputs@), inputs@.len() as int)]
                ps.len() == inputs@.len() + 1 && (forall|k: int|
                    0 <= k < ps.len() ==> on_unit_grid(#[trigger] ps[k])) ==> affine_chain_fits(
                    ps,
                    node_values(old(eng)@, inputs@),
                    inputs@.len() as int,
                )) ==> r is Some,
    {
        let ghost e0 = *eng;
        let size = inputs.len();
        let mut parameters: Vec<usize> = Vec::new();
        let mut k: usize = 0;
        while k < size + 1
            invariant
                eng.wf(),
                eng.seed == e0.seed,
                k <= size + 1,
                parameters@.len() == k,
                eng@.len() == e0@.len() + k,
                eng@.take(e0@.len() as int) == e0@,
                forall|i: int|
                    0 <= i < k ==> ((#[trigger] parameters@[i]) as int) == e0@.len() + i,
                forall|i: int|
                    0 <= i < k ==> {
                        let nd = eng@[(#[trigger] parameters@[i]) as int];
                        &&& nd.operation == Operation::NONE
                        &&& nd.needs_grad
                        &&& on_unit_grid(nd.value)
                    },
            decreases size + 1 - k,
        {
            let ghost epre = *eng;
            let p = Value::random(eng);
            let ghost emid = *eng;
            eng.set_needs_grad(p, true);
            proof {
                assert forall|i: int| 0 <= i < epre@.len() implies #[trigger] eng@[i] == epre@[
                    i] by {
                    assert(emid@.take(epre@.len() as int)[i] == epre@[i]);
                }
                assert(eng@.take(epre@.len() as int) =~= epre@);
                lemma_prefix_trans(e0@, epre@, eng@);
                assert forall|i: int|
                    0 <= i < k implies {
                    let nd = eng@[(#[trigger] parameters@[i]) as int];
                    &&& nd.operation == Operation::NONE
                    &&& nd.needs_grad
                    &&& on_unit_grid(nd.value)
                } by {
                    assert(eng@[parameters@[i] as int] == epre@[parameters@[i] as int]);
                }
            }
            parameters.push(p);
            k += 1;
        }
        let ghost eparams = *eng;
        let ghost psv = node_values(eparams@, parameters@);
        let ghost xsv = node_values(e0@, inputs@);
        let mut out: usize = parameters[0];
        let mut idx: usize = 0;
        proof {
            lemma_models_refl(eng@[out as int].value);
            assert forall|i: int| 0 <= i < inputs@.len() implies #[trigger] xsv[i] == eparams@[
                inputs@[i] as int].value by {
                assert(eparams@.take(e0@.len() as int)[inputs@[i] as int] == e0@[inputs@[
                    i] as int]);
            }
        }
        while idx < size
            invariant
                eng.wf(),
                eng.seed == e0.seed,
                idx <= size,
                size == inputs@.len(),
                parameters@.len() == size + 1,
                eng@.len() == eparams@.len() + 2 * idx,
                eng@.len() + 2 * (size - idx) + 1 <= 0x1_0000_0000,
                (out as int) >= e0@.len(),
                eng@.take(eparams@.len() as int) == eparams@,
                eparams@.len() == e0@.len() + size + 1,
                eparams@.take(e0@.len() as int) == e0@,
                (out as int) < eng@.len(),
                forall|i: int|
                    0 <= i < parameters@.len() ==> ((#[trigger] parameters@[i]) as int)
                        == e0@.len() + i,
                forall|i: int|
                    0 <= i < inputs@.len() ==> ((#[trigger] inputs@[i]) as int) < e0@.len(),
                forall|i: int|
                    0 <= i < parameters@.len() ==> {
                        let nd = eng@[(#[trigger] parameters@[i]) as int];
                        &&& nd.operation == Operation::NONE
                        &&& nd.needs_grad
                        &&& on_unit_grid(nd.value)
                    },
                psv.len() == parameters@.len(),
                xsv.len() == inputs@.len(),
                forall|i: int|
                    0 <= i < parameters@.len() ==> #[trigger] psv[i] == eng@[parameters@[
                        i] as int].value,
                forall|i: int|
                    0 <= i < inputs@.len() ==> #[trigger] xsv[i] == eng@[inputs@[
                        i] as int].value,
                models(
                    eng@[out as int].value,
                    affine_value(eng@, parameters@, inputs@, idx as int),
                ),
            decreases size - idx,
        {
            let ghost epre = *eng;
            let m = match eng.mul(parameters[idx + 1], inputs[idx]) {
                None => {
                    proof {
                        assert(eng@.take(eparams@.len() as int) == eparams@);
                        if (forall|ps: Seq<Ratio>|
                            #![trigger affine_chain_fits(ps, node_values(e0@, inputs@), inputs@.len() as int)]
                            ps.len() == inputs@.len() + 1 && (forall|k: int|
                                0 <= k < ps.len() ==> on_unit_grid(#[trigger] ps[k]))
                                ==> affine_chain_fits(
                                ps,
                                node_values(e0@, inputs@),
                                inputs@.len() as int,
                            )) {
                            assert(affine_chain_fits(psv, node_values(e0@, inputs@), inputs@.len() as int));
                            lemma_chain_fits_mono(psv, xsv, idx as int + 1, size as int);
                            assert(fits(ratio_mul(psv[idx as int + 1], xsv[idx as int])));
                            assert(epre@[parameters@[idx as int + 1] as int].value == psv[
                                idx as int + 1]);
                            assert(epre@[inputs@[idx as int] as int].value == xsv[idx as int]);
                            assert(false);
                        }
                    }
                    return None;
                },
                Some(m) => m,
            };
            let ghost emid = *eng;
            proof {
                lemma_prefix_trans(eparams@, epre@, emid@);
            }
            let o2 = match eng.add(out, m) {
                None => {
                    proof {
                        assert(eng@.take(emid@.len() as int) =~= emid@);
                        lemma_prefix_trans(eparams@, emid@, eng@);
                        lemma_prefix_trans(e0@, eparams@, eng@);
                        if (forall|ps: Seq<Ratio>|
                            #![trigger affine_chain_fits(ps, node_values(e0@, inputs@), inputs@.len() as int)]
                            ps.len() == inputs@.len() + 1 && (forall|k: int|
                                0 <= k < ps.len() ==> on_unit_grid(#[trigger] ps[k]))
                                ==> affine_chain_fits(
                                ps,
                                node_values(e0@, inputs@),
                                inputs@.len() as int,
                            )) {
                            assert(affine_chain_fits(psv, node_values(e0@, inputs@), inputs@.len() as int));
                            lemma_chain_fits_mono(psv, xsv, idx as int + 1, size as int);
                            assert(fits(affine_exact(psv, xsv, idx as int + 1)));
                            assert forall|t: int|
                                0 <= t < epre@.len() implies (#[trigger] emid@[t]).value
                                == epre@[t].value by {
                                assert(emid@.take(epre@.len() as int)[t] == epre@[t]);
                            }
                            lemma_affine_value_exact(
                                epre@,
                                parameters@,
                                inputs@,
                                psv,
                                xsv,
                                idx as int,
                            );
                            assert(models(
                                emid@[out as int].value,
                                affine_exact(psv, xsv, idx as int),
                            ));
                            assert(models(
                                emid@[m as int].value,
                                ratio_mul(psv[idx as int + 1], xsv[idx as int]),
                            ));
                            lemma_add_models(
                                emid@[out as int].value,
                                affine_exact(psv, xsv, idx as int),
                                emid@[m as int].value,
                                ratio_mul(psv[idx as int + 1], xsv[idx as int]),
                            );
                            crate::rational::lemma_fits_models(
                                ratio_add(emid@[out as int].value, emid@[m as int].value),
                                ratio_add(
                                    affine_exact(psv, xsv, idx as int),
                                    ratio_mul(psv[idx as int + 1], xsv[idx as int]),
                                ),
                            );
                            assert(false);
                        }
                    }
                    return None;
                },
                Some(o2) => o2,
            };
            proof {
                assert(eng@.take(emid@.len() as int) == emid@);
                lemma_prefix_trans(eparams@, emid@, eng@);
                lemma_prefix_trans(e0@, eparams@, eng@);
                assert forall|t: int| 0 <= t < epre@.len() implies (#[trigger] eng@[t]).value
                    == epre@[t].value by {
                    assert(emid@.take(epre@.len() as int)[t] == epre@[t]);
                    assert(eng@.take(emid@.len() as int)[t] == emid@[t]);
                }
                lemma_affine_stable(epre@, eng@, parameters@, inputs@, idx as int);
                // the product node represents p_{idx+1} * x_idx
                assert(models(
                    emid@[m as int].value,
                    ratio_mul(
                        epre@[parameters@[idx as int + 1] as int].value,
                        epre@[inputs@[idx as int] as int].value,
                    ),
                ));
                assert(eng@[m as int].value == emid@[m as int].value) by {
                    assert(eng@.take(emid@.len() as int)[m as int] == emid@[m as int]);
                }
                // the sum node represents affine(idx + 1)
                lemma_add_models(
                    emid@[out as int].value,
                    affine_value(eng@, parameters@, inputs@, idx as int),
                    emid@[m as int].value,
                    ratio_mul(
                        eng@[parameters@[idx as int + 1] as int].value,
                        eng@[inputs@[idx as int] as int].value,
                    ),
                );
                lemma_models_trans(
                    eng@[o2 as int].value,
                    ratio_add(emid@[out as int].value, emid@[m as int].value),
                    ratio_add(
                        affine_value(eng@, parameters@, inputs@, idx as int),
                        ratio_mul(
                            eng@[parameters@[idx as int + 1] as int].value,
                            eng@[inputs@[idx as int] as int].value,
                        ),
                    ),
                );
                assert(emid@[out as int].value == epre@[out as int].value) by {
                    assert(emid@.take(epre@.len() as int)[out as int] == epre@[out as int]);
                }
            }
            out = o2;
            idx += 1;
        }
        let output: usize = if linear {
            out
        } else {
            let ghost epre = *eng;
            let o = eng.relu(out);
            proof {
                assert(eng@.take(epre@.len() as int) == epre@);
                assert forall|t: int| 0 <= t < epre@.len() implies (#[trigger] eng@[t]).value
                    == epre@[t].value by {
                    assert(eng@.take(epre@.len() as int)[t] == epre@[t]);
                }
                lemma_affine_stable(epre@, eng@, parameters@, inputs@, size as int);
                crate::rational::lemma_relu_models(
                    epre@[out as int].value,
                    affine_value(eng@, parameters@, inputs@, size as int),
                );
                lemma_prefix_trans(eparams@, epre@, eng@);
                lemma_prefix_trans(e0@, eparams@, eng@);
            }
            o
        };
        let mut input_refs: Vec<usize> = Vec::new();
        let mut t: usize = 0;
        while t < size
            invariant
                t <= size,
                size == inputs@.len(),
                input_refs@ == inputs@.take(t as int),
            decreases size - t,
        {
            input_refs.push(inputs[t]);
            proof {
                assert(input_refs@ =~= inputs@.take(t as int + 1));
            }
            t += 1;
        }
        proof {
            assert(input_refs@ =~= inputs@);
        }
        Some(Neuron { parameters, inputs: input_refs, output })
    }

    /// Clears the gradient accumulator of every parameter and raises its
    /// pending-reset marker, as the training loop does between steps.
    /// Nothing else changes.
    #[verifier::loop_isolation(false)]
    pub fn zero_grad(&self, eng: &mut Engine)
        requires
            old(eng).wf(),
            self.wf(old(eng)@),
        ensures
            final(eng).wf(),
            final(eng).seed == old(eng).seed,
            final(eng)@.len() == old(eng)@.len(),
            forall|t: int|
                0 <= t < old(eng)@.len() && !crate::model::ord_contains(self.parameters@, t)
                    ==> final(eng)@[t] == old(eng)@[t],
            forall|k: int|
                0 <= k < self.parameters@.len() ==> final(eng)@[(#[trigger] self.parameters@[
                    k]) as int] == (GNode {
                    value: old(eng)@[self.parameters@[k] as int].value,
                    grad: crate::rational::ratio_zero(),
                    needs_grad: old(eng)@[self.parameters@[k] as int].needs_grad,
                    operation: old(eng)@[self.parameters@[k] as int].operation,
                    prev: old(eng)@[self.parameters@[k] as int].prev,
                    reset: true,
                }),
    {
        let ghost v0 = eng@;
        let n = self.parameters.len();
        let mut k: usize = 0;
        while k < n
            invariant
                eng.wf(),
                eng.seed == old(eng).seed,
                k <= n,
                eng@.len() == v0.len(),
                forall|t: int|
                    0 <= t < v0.len() && !crate::model::ord_contains(
                        self.parameters@.take(k as int),
                        t,
                    ) ==> eng@[t] == v0[t],
                forall|i: int|
                    0 <= i < k ==> eng@[(#[trigger] self.parameters@[i]) as int] == (GNode {
                        value: v0[self.parameters@[i] as int].value,
                        grad: crate::rational::ratio_zero(),
                        needs_grad: v0[self.parameters@[i] as int].needs_grad,
                        operation: v0[self.parameters@[i] as int].operation,
                        prev: v0[self.parameters@[i] as int].prev,
                        reset: true,
                    }),
            decreases n - k,
        {
            let p = self.parameters[k];
            proof {
                if crate::model::ord_contains(self.parameters@.take(k as int), p as int) {
                    let q = choose|q: int|
                        0 <= q < k && (#[trigger] self.parameters@.take(k as int)[q]) as int
                            == p as int;
                    assert(self.parameters@[q] == self.parameters@[k as int]);
                    assert(false);
                }
            }
            Value::zero_grad(eng, p);
            proof {
                assert forall|t: int|
                    0 <= t < v0.len() && !crate::model::ord_contains(
                        self.parameters@.take(k as int + 1),
                        t,
                    ) implies eng@[t] == v0[t] by {
                    assert(self.parameters@.take(k as int + 1)[k as int] == self.parameters@[
                        k as int]);
                    assert(t != p as int);
                    if crate::model::ord_contains(self.parameters@.take(k as int), t) {
                        let q = choose|q: int|
                            0 <= q < k && (#[trigger] self.parameters@.take(k as int)[q]) as int
                                == t;
                        assert(self.parameters@.take(k as int + 1)[q] as int == t);
                        assert(false);
                    }
                }
            }
            k += 1;
        }
        proof {
            assert(self.parameters@.take(n as int) =~= self.parameters@);
        }
    }

    /// One gradient-descent step: every trainable parameter moves
    /// against its gradient, `value := value - grad · alpha`.  Nothing
    /// else changes; the step succeeds whenever every exact updated
    /// value fits in storage.
    #[verifier::loop_isolation(false)]
    pub fn update(&self, eng: &mut Engine, alpha: Rat) -> (ok: bool)
        requires
            old(eng).wf(),
            self.wf(old(eng)@),
            alpha.wf(),
        ensures
            final(eng).wf(),
            final(eng).seed == old(eng).seed,
            final(eng)@.len() == old(eng)@.len(),
            forall|t: int|
                0 <= t < old(eng)@.len() && !crate::model::ord_contains(self.parameters@, t)
                    ==> final(eng)@[t] == old(eng)@[t],
            forall|k: int|
                0 <= k < self.parameters@.len() && !old(eng)@[(#[trigger] self.parameters@[
                    k]) as int].needs_grad ==> final(eng)@[self.parameters@[k] as int] == old(
                    eng,
                )@[self.parameters@[k] as int],
            forall|k: int|
                0 <= k < self.parameters@.len() ==> {
                    let nd1 = old(eng)@[(#[trigger] self.parameters@[k]) as int];
                    let nd2 = final(eng)@[self.parameters@[k] as int];
                    &&& nd2.grad == nd1.grad
                    &&& nd2.needs_grad == nd1.needs_grad
                    &&& nd2.operation == nd1.operation
                    &&& nd2.prev == nd1.prev
                    &&& nd2.reset == nd1.reset
                },
            ok ==> (forall|k: int|
                0 <= k < self.parameters@.len() && old(eng)@[(#[trigger] self.parameters@[
                    k]) as int].needs_grad ==> {
                    let nd1 = old(eng)@[self.parameters@[k] as int];
                    let nd2 = final(eng)@[self.parameters@[k] as int];
                    &&& models(nd2.value, ratio_sub(nd1.value, ratio_mul(nd1.grad, alpha@)))
                }),
            (forall|k: int|
                0 <= k < self.parameters@.len() && old(eng)@[(#[trigger] self.parameters@[
                    k]) as int].needs_grad ==> {
                    let nd1 = old(eng)@[self.parameters@[k] as int];
                    &&& fits(ratio_mul(nd1.grad, alpha@))
                    &&& fits(ratio_sub(nd1.value, ratio_mul(nd1.grad, alpha@)))
                }) ==> ok,
    {
        let ghost v0 = eng@;
        let n = self.parameters.len();
        let mut k: usize = 0;
        while k < n
            invariant
                eng.wf(),
                eng.seed == old(eng).seed,
                k <= n,
                eng@.len() == v0.len(),
                forall|t: int|
                    0 <= t < v0.len() && !crate::model::ord_contains(
                        self.parameters@.take(k as int),
                        t,
                    ) ==> eng@[t] == v0[t],
                forall|i: int|
                    0 <= i < k && !v0[(#[trigger] self.parameters@[i]) as int].needs_grad
                        ==> eng@[self.parameters@[i] as int] == v0[self.parameters@[i] as int],
                forall|i: int|
                    0 <= i < k && v0[(#[trigger] self.parameters@[i]) as int].needs_grad ==> {
                        let nd1 = v0[self.parameters@[i] as int];
                        let nd2 = eng@[self.parameters@[i] as int];
                        &&& nd2.grad == nd1.grad
                        &&& nd2.needs_grad == nd1.needs_grad
                        &&& nd2.operation == nd1.operation
                        &&& nd2.prev == nd1.prev
                        &&& nd2.reset == nd1.reset
                        &&& models(nd2.value, ratio_sub(nd1.value, ratio_mul(nd1.grad, alpha@)))
                    },
            decreases n - k,
        {
            let p = self.parameters[k];
            proof {
                if crate::model::ord_contains(self.parameters@.take(k as int), p as int) {
                    let q = choose|q: int|
                        0 <= q < k && (#[trigger] self.parameters@.take(k as int)[q]) as int
                            == p as int;
                    assert(self.parameters@[q] == self.parameters@[k as int]);
                    assert(false);
                }
                assert(eng@[p as int] == v0[p as int]);
                assert(crate::model::node_wf(v0, p as int));
            }
            if eng.get_needs_grad(p) {
                let g = eng.get_grad(p);
                let v = eng.get_value(p);
                let step = match g.checked_mul(&alpha) {
                    None => {
                        return false;
                    },
                    Some(s) => s,
                };
                proof {
                    crate::rational::lemma_models_refl(v@);
                    crate::rational::lemma_sub_models(
                        v@,
                        v0[p as int].value,
                        step@,
                        ratio_mul(v0[p as int].grad, alpha@),
                    );
                }
                let nv = match v.checked_sub(&step) {
                    None => {
                        proof {
                            if forall|kk: int|
                                0 <= kk < self.parameters@.len() && v0[(
                                #[trigger] self.parameters@[kk]) as int].needs_grad ==> {
                                    let nd1 = v0[self.parameters@[kk] as int];
                                    &&& fits(ratio_mul(nd1.grad, alpha@))
                                    &&& fits(
                                        ratio_sub(nd1.value, ratio_mul(nd1.grad, alpha@)),
                                    )
                                } {
                                crate::rational::lemma_fits_models(
                                    ratio_sub(v@, step@),
                                    ratio_sub(
                                        v0[p as int].value,
                                        ratio_mul(v0[p as int].grad, alpha@),
                                    ),
                                );
                                assert(false);
                            }
                        }
                        return false;
                    },
                    Some(nv) => nv,
                };
                let ghost epre = *eng;
                eng.set_value(p, nv);
                proof {
                    crate::rational::lemma_models_trans(
                        nv@,
                        ratio_sub(v@, step@),
                        ratio_sub(v0[p as int].value, ratio_mul(v0[p as int].grad, alpha@)),
                    );
                    assert forall|t: int|
                        0 <= t < v0.len() && !crate::model::ord_contains(
                            self.parameters@.take(k as int + 1),
                            t,
                        ) implies eng@[t] == v0[t] by {
                        assert(self.parameters@.take(k as int + 1)[k as int] == self.parameters@[
                            k as int]);
                        assert(t != p as int);
                        if crate::model::ord_contains(self.parameters@.take(k as int), t) {
                            let q = choose|q: int|
                                0 <= q < k && (#[trigger] self.parameters@.take(k as int)[
                                    q]) as int == t;
                            assert(self.parameters@.take(k as int + 1)[q] as int == t);
                            assert(false);
                        }
                    }
                }
            } else {
                proof {
                    assert forall|t: int|
                        0 <= t < v0.len() && !crate::model::ord_contains(
                            self.parameters@.take(k as int + 1),
                            t,
                        ) implies eng@[t] == v0[t] by {
                        if crate::model::ord_contains(self.parameters@.take(k as int), t) {
                            let q = choose|q: int|
                                0 <= q < k && (#[trigger] self.parameters@.take(k as int)[
                                    q]) as int == t;
                            assert(self.parameters@.take(k as int + 1)[q] as int == t);
                            assert(false);
                        }
                    }
                }
            }
            k += 1;
        }
        proof {
            assert(self.parameters@.take(n as int) =~= self.parameters@);
        }
        true
    }

    /// Stores the given scalars into the neuron's input nodes, one per
    /// input, in order, leaving everything else untouched.  When the same
    /// node stands at several input positions the last position's scalar
    /// is the one that remains.
    #[verifier::loop_isolation(false)]
    pub fn set(&self, eng: &mut Engine, inputs: Vec<Rat>)
        requires
            old(eng).wf(),
            self.wf(old(eng)@),
            inputs@.len() == self.inputs@.len(),
            forall|k: int| 0 <= k < inputs@.len() ==> (#[trigger] inputs@[k]).wf(),
        ensures
            final(eng).wf(),
            final(eng).seed == old(eng).seed,
            final(eng)@.len() == old(eng)@.len(),
            forall|t: int|
                0 <= t < old(eng)@.len() ==> {
                    let n1 = old(eng)@[t];
                    let n2 = #[trigger] final(eng)@[t];
                    &&& n2.grad == n1.grad
                    &&& n2.needs_grad == n1.needs_grad
                    &&& n2.operation == n1.operation
                    &&& n2.prev == n1.prev
                    &&& n2.reset == n1.reset
                },
            forall|t: int|
                0 <= t < old(eng)@.len() && !crate::model::ord_contains(self.inputs@, t)
                    ==> final(eng)@[t] == old(eng)@[t],
            forall|k: int|
                0 <= k < self.inputs@.len() && (forall|k2: int|
                    k < k2 < self.inputs@.len() ==> self.inputs@[k2] != self.inputs@[k])
                    ==> final(eng)@[(#[trigger] self.inputs@[k]) as int].value == inputs@[k]@,
    {
        let ghost v0 = eng@;
        let n = self.inputs.len();
        let mut k: usize = 0;
        while k < n
            invariant
                eng.wf(),
                eng.seed == old(eng).seed,
                k <= n,
                eng@.len() == v0.len(),
                forall|t: int|
                    0 <= t < v0.len() ==> {
                        let n1 = v0[t];
                        let n2 = #[trigger] eng@[t];
                        &&& n2.grad == n1.grad
                        &&& n2.needs_grad == n1.needs_grad
                        &&& n2.operation == n1.operation
                        &&& n2.prev == n1.prev
                        &&& n2.reset == n1.reset
                    },
                forall|t: int|
                    0 <= t < v0.len() && !crate::model::ord_contains(
                        self.inputs@.take(k as int),
                        t,
                    ) ==> eng@[t] == v0[t],
                forall|i: int|
                    0 <= i < k && (forall|i2: int| i < i2 < k ==> self.inputs@[i2]
                        != self.inputs@[i]) ==> eng@[(#[trigger] self.inputs@[i]) as int].value
                        == inputs@[i]@,
            decreases n - k,
        {
            let p = self.inputs[k];
            let ghost vpre = eng@;
            eng.set_value(p, inputs[k]);
            proof {
                assert forall|t: int|
                    0 <= t < v0.len() && !crate::model::ord_contains(
                        self.inputs@.take(k as int + 1),
                        t,
                    ) implies eng@[t] == v0[t] by {
                    assert(self.inputs@.take(k as int + 1)[k as int] == self.inputs@[k as int]);
                    assert(t != p as int);
                    if crate::model::ord_contains(self.inputs@.take(k as int), t) {
                        let q = choose|q: int|
                            0 <= q < k && (#[trigger] self.inputs@.take(k as int)[q]) as int
                                == t;
                        assert(self.inputs@.take(k as int + 1)[q] as int == t);
                        assert(false);
                    }
                }
                assert forall|i: int|
                    0 <= i < k + 1 && (forall|i2: int| i < i2 < k + 1 ==> self.inputs@[i2]
                        != self.inputs@[i]) implies eng@[(
                #[trigger] self.inputs@[i]) as int].value == inputs@[i]@ by {
                    if i < k {
                        assert(self.inputs@[k as int] != self.inputs@[i]);
                        assert(eng@[self.inputs@[i] as int] == vpre[self.inputs@[i] as int]);
                    }
                }
            }
            k += 1;
        }
    }
}

/// A neuron stays well formed in any later state: indices only grow past
/// it and node operations never change after construction.
pub proof fn lemma_neuron_wf_grow(n: Neuron, v1: Seq<GNode>, v2: Seq<GNode>)
    requires
        n.wf(v1),
        v2.len() >= v1.len(),
        forall|t: int| 0 <= t < v1.len() ==> (#[trigger] v2[t]).operation == v1[t].operation,
    ensures
        n.wf(v2),
{
}

} // verus!
