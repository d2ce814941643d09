use vstd::prelude::*;

use crate::engine::Engine;
use crate::model::GNode;
use crate::neuron::Neuron;
use crate::rational::{fits, models, ratio_mul, ratio_sub, Rat};

verus! {

/// A layer of neurons that all read the same input nodes; `outputs`
/// lists each neuron's output node in order.
pub struct Layer {
    pub neurons: Vec<Neuron>,
    pub outputs: Vec<usize>,
}

impl Layer {
    pub open spec fn wf(self, v: Seq<GNode>) -> bool {
        &&& self.outputs@.len() == self.neurons@.len()
        &&& (forall|i: int|
            0 <= i < self.neurons@.len() ==> (#[trigger] self.neurons@[i]).wf(v))
        &&& (forall|i: int|
            0 <= i < self.neurons@.len() ==> (#[trigger] self.outputs@[i]) == self.neurons@[
                i].output)
        &&& (forall|i: int|
            0 <= i < self.neurons@.len() ==> (#[trigger] self.neurons@[i]).inputs@
                == self.neurons@[0].inputs@)
        &&& (forall|i1: int, k1: int, i2: int, k2: int|
            0 <= i1 < i2 < self.neurons@.len() && 0 <= k1 < self.neurons@[i1].parameters@.len()
                && 0 <= k2 < self.neurons@[i2].parameters@.len() ==> (
            #[trigger] self.neurons@[i1].parameters@[k1]) != (#[trigger] self.neurons@[
                i2].parameters@[k2]))
    }

    /// `t` is the index of a trainable parameter of one of the layer's
    /// neurons.
    pub open spec fn is_param(self, t: int) -> bool {
        exists|i: int, k: int|
            0 <= i < self.neurons@.len() && 0 <= k < self.neurons@[i].parameters@.len() && ((
            #[trigger] self.neurons@[i].parameters@[k]) as int) == t
    }

    /// Builds `n_neurons` neurons over the same input nodes.  All new
    /// parameter nodes stand at or above the old length, so existing
    /// nodes — the inputs in particular — are untouched.
    #[verifier::loop_isolation(false)]
    pub fn new(eng: &mut Engine, n_neurons: usize, inputs: &Vec<usize>, linear: bool) -> (r:
        Option<Layer>)
        requires
            old(eng).wf(),
            forall|k: int| 0 <= k < inputs@.len() ==> ((#[trigger] inputs@[k]) as int) < old(
                eng,
            )@.len(),
            old(eng)@.len() + (n_neurons as int) * (3 * inputs@.len() + 3) <= 0x1_0000_0000,
        ensures
            final(eng).wf(),
            final(eng).seed == old(eng).seed,
            final(eng)@.len() >= old(eng)@.len(),
            final(eng)@.take(old(eng)@.len() as int) == old(eng)@,
            r matches Some(l) ==> {
                &&& l.wf(final(eng)@)
                &&& l.neurons@.len() == n_neurons
                &&& l.outputs@.len() == n_neurons
                &&& (forall|i: int|
                    0 <= i < n_neurons ==> (#[trigger] l.neurons@[i]).inputs@ == inputs@)
                &&& (forall|i1: int, i2: int|
                    0 <= i1 < i2 < n_neurons ==> (#[trigger] l.outputs@[i1]) < (
                    #[trigger] l.outputs@[i2]))
                &&& (forall|i: int|
                    0 <= i < n_neurons ==> ((#[trigger] l.outputs@[i]) as int) >= old(
                        eng,
                    )@.len())
                &&& (forall|i: int, k: int|
                    0 <= i < n_neurons && 0 <= k < l.neurons@[i].parameters@.len() ==> ((
                    #[trigger] l.neurons@[i].parameters@[k]) as int) >= old(eng)@.len())
            },
            inputs@.len() == 0 ==> r is Some,
            (forall|ps: Seq<crate::rational::Ratio>|
                #![trigger crate::neuron::affine_chain_fits(ps, crate::neuron::node_values(old(eng)@, inputs@), inputs@.len() as int)]
                ps.len() == inputs@.len() + 1 && (forall|k: int|
                    0 <= k < ps.len() ==> crate::neuron::on_unit_grid(#[trigger] ps[k]))
                    ==> crate::neuron::affine_chain_fits(
                    ps,
                    crate::neuron::node_values(old(eng)@, inputs@),
                    inputs@.len() as int,
                )) ==> r is Some,
    {
        let ghost e0 = *eng;
        let mut neurons: Vec<Neuron> = Vec::new();
        let mut outputs: Vec<usize> = Vec::new();
        let mut i: usize = 0;
        while i < n_neurons
            invariant
                eng.wf(),
                eng.seed == e0.seed,
                i <= n_neurons,
                neurons@.len() == i,
                outputs@.len() == i,
                eng@.len() >= e0@.len(),
                eng@.len() <= e0@.len() + (i as int) * (3 * inputs@.len() + 3),
                eng@.take(e0@.len() as int) == e0@,
                forall|t: int| 0 <= t < i ==> (#[trigger] neurons@[t]).wf(eng@),
                forall|t: int|
                    0 <= t < i ==> (#[trigger] outputs@[t]) == neurons@[t].output,
                forall|t: int| 0 <= t < i ==> (#[trigger] neurons@[t]).inputs@ == inputs@,
                forall|t1: int, t2: int|
                    0 <= t1 < t2 < i ==> (#[trigger] outputs@[t1]) < (#[trigger] outputs@[t2]),
                forall|t: int|
                    0 <= t < i ==> ((#[trigger] outputs@[t]) as int) >= e0@.len(),
                forall|t: int, k: int|
                    0 <= t < i && 0 <= k < neurons@[t].parameters@.len() ==> ((
                    #[trigger] neurons@[t].parameters@[k]) as int) < eng@.len() && ((
                    #[trigger] neurons@[t].parameters@[k]) as int) >= e0@.len(),
                forall|t: int|
                    0 <= t < i ==> ((#[trigger] neurons@[t]).output as int) < eng@.len(),
                forall|i1: int, k1: int, i2: int, k2: int|
                    0 <= i1 < i2 < i && 0 <= k1 < neurons@[i1].parameters@.len() && 0 <= k2
                        < neurons@[i2].parameters@.len() ==> (#[trigger] neurons@[
                    i1].parameters@[k1]) != (#[trigger] neurons@[i2].parameters@[k2]),
                forall|k: int|
                    0 <= k < inputs@.len() ==> (#[trigger] eng@[inputs@[k] as int]).value
                        == e0@[inputs@[k] as int].value,
            decreases n_neurons - i,
        {
            proof {
                assert((i as int) * (3 * inputs@.len() + 3) + (3 * inputs@.len() + 3) == (
                i as int + 1) * (3 * inputs@.len() + 3)) by (nonlinear_arith);
                assert((i as int + 1) * (3 * inputs@.len() + 3) <= (n_neurons as int) * (3
                    * inputs@.len() + 3)) by (nonlinear_arith)
                    requires
                        0 <= i as int + 1 <= n_neurons as int,
                        0 <= 3 * inputs@.len() + 3,
                {
                }
            }
            let ghost epre = *eng;
            let nr = match Neuron::new(eng, inputs, linear) {
                None => {
                    proof {
                        crate::model::lemma_prefix_trans(e0@, epre@, eng@);
                        assert(crate::neuron::node_values(epre@, inputs@)
                            =~= crate::neuron::node_values(e0@, inputs@));
                        if (forall|ps: Seq<crate::rational::Ratio>|
                            #![trigger crate::neuron::affine_chain_fits(ps, crate::neuron::node_values(e0@, inputs@), inputs@.len() as int)]
                            ps.len() == inputs@.len() + 1 && (forall|k: int|
                                0 <= k < ps.len() ==> crate::neuron::on_unit_grid(
                                    #[trigger] ps[k],
                                )) ==> crate::neuron::affine_chain_fits(
                                ps,
                                crate::neuron::node_values(e0@, inputs@),
                                inputs@.len() as int,
                            )) {
                            assert forall|ps: Seq<crate::rational::Ratio>|
                                ps.len() == inputs@.len() + 1 && (forall|k: int|
                                    0 <= k < ps.len() ==> crate::neuron::on_unit_grid(
                                        #[trigger] ps[k],
                                    )) implies #[trigger] crate::neuron::affine_chain_fits(
                                ps,
                                crate::neuron::node_values(epre@, inputs@),
                                inputs@.len() as int,
                            ) by {
                                assert(crate::neuron::affine_chain_fits(
                                    ps,
                                    crate::neuron::node_values(e0@, inputs@),
                                    inputs@.len() as int,
                                ));
                            }
                            assert(false);
                        }
                    }
                    return None;
                },
                Some(nr) => nr,
            };
            proof {
                crate::model::lemma_prefix_trans(e0@, epre@, eng@);
                assert forall|t: int|
                    0 <= t < epre@.len() implies (#[trigger] eng@[t]).operation == epre@[
                    t].operation by {
                    assert(eng@.take(epre@.len() as int)[t] == epre@[t]);
                }
                assert forall|t: int| 0 <= t < i implies (#[trigger] neurons@[t]).wf(eng@) by {
                    crate::neuron::lemma_neuron_wf_grow(neurons@[t], epre@, eng@);
                }
            }
            let out = nr.output;
            neurons.push(nr);
            outputs.push(out);
            i += 1;
        }
        Some(Layer { neurons, outputs })
    }

    /// Clears the gradient accumulator of every parameter of every
    /// neuron and raises its pending-reset marker; nothing else changes.
    #[verifier::loop_isolation(false)]
    pub fn zero_grad(&self, eng: &mut Engine)
        requires
            old(eng).wf(),
            self.wf(old(eng)@),
        ensures
            final(eng).wf(),
            final(eng).seed == old(eng).seed,
            final(eng)@.len() == old(eng)@.len(),
            forall|t: int|
                0 <= t < old(eng)@.len() && !self.is_param(t) ==> final(eng)@[t] == old(
                    eng,
                )@[t],
            forall|i: int, k: int|
                0 <= i < self.neurons@.len() && 0 <= k < self.neurons@[i].parameters@.len()
                    ==> final(eng)@[((#[trigger] self.neurons@[i].parameters@[k]) as int)]
                    == (GNode {
                    value: old(eng)@[self.neurons@[i].parameters@[k] as int].value,
                    grad: crate::rational::ratio_zero(),
                    needs_grad: old(eng)@[self.neurons@[i].parameters@[k] as int].needs_grad,
                    operation: old(eng)@[self.neurons@[i].parameters@[k] as int].operation,
                    prev: old(eng)@[self.neurons@[i].parameters@[k] as int].prev,
                    reset: true,
                }),
    {
        let ghost v0 = eng@;
        let n = self.neurons.len();
        let mut i: usize = 0;
        while i < n
            invariant
                eng.wf(),
                eng.seed == old(eng).seed,
                i <= n,
                eng@.len() == v0.len(),
                forall|t: int|
                    0 <= t < v0.len() ==> (#[trigger] eng@[t]).operation == v0[t].operation,
                forall|t: int|
                    0 <= t < v0.len() && !(exists|i2: int, k: int|
                        0 <= i2 < i && 0 <= k < self.neurons@[i2].parameters@.len() && ((
                        #[trigger] self.neurons@[i2].parameters@[k]) as int) == t) ==> eng@[t]
                        == v0[t],
                forall|i2: int, k: int|
                    0 <= i2 < i && 0 <= k < self.neurons@[i2].parameters@.len() ==> eng@[((
                    #[trigger] self.neurons@[i2].parameters@[k]) as int)] == (GNode {
                        value: v0[self.neurons@[i2].parameters@[k] as int].value,
                        grad: crate::rational::ratio_zero(),
                        needs_grad: v0[self.neurons@[i2].parameters@[k] as int].needs_grad,
                        operation: v0[self.neurons@[i2].parameters@[k] as int].operation,
                        prev: v0[self.neurons@[i2].parameters@[k] as int].prev,
                        reset: true,
                    }),
            decreases n - i,
        {
            let ghost vpre = eng@;
            let nr = &self.neurons[i];
            proof {
                assert(self.neurons@[i as int].wf(v0));
                crate::neuron::lemma_neuron_wf_grow(self.neurons@[i as int], v0, eng@);
            }
            nr.zero_grad(eng);
            proof {
                assert forall|t: int|
                    0 <= t < v0.len() implies (#[trigger] eng@[t]).operation == v0[
                    t].operation by {
                    if crate::model::ord_contains(self.neurons@[i as int].parameters@, t) {
                        let kq = choose|kq: int|
                            0 <= kq < self.neurons@[i as int].parameters@.len() && ((
                            #[trigger] self.neurons@[i as int].parameters@[kq]) as int) == t;
                        assert(eng@[t].operation == vpre[t].operation);
                    } else {
                        assert(eng@[t] == vpre[t]);
                    }
                }
                assert forall|i2: int, k: int|
                    0 <= i2 < i + 1 && 0 <= k < self.neurons@[i2].parameters@.len() implies eng@[
                    ((#[trigger] self.neurons@[i2].parameters@[k]) as int)] == (GNode {
                    value: v0[self.neurons@[i2].parameters@[k] as int].value,
                    grad: crate::rational::ratio_zero(),
                    needs_grad: v0[self.neurons@[i2].parameters@[k] as int].needs_grad,
                    operation: v0[self.neurons@[i2].parameters@[k] as int].operation,
                    prev: v0[self.neurons@[i2].parameters@[k] as int].prev,
                    reset: true,
                }) by {
                    let p = self.neurons@[i2].parameters@[k] as int;
                    if i2 < i {
                        if crate::model::ord_contains(self.neurons@[i as int].parameters@, p) {
                            let kq = choose|kq: int|
                                0 <= kq < self.neurons@[i as int].parameters@.len() && ((
                                #[trigger] self.neurons@[i as int].parameters@[kq]) as int)
                                    == p;
                            assert(self.neurons@[i2].parameters@[k] == self.neurons@[
                                i as int].parameters@[kq]);
                            assert(false);
                        }
                        assert(eng@[p] == vpre[p]);
                    } else {
                        assert(vpre[p] == v0[p]) by {
                            if exists|i3: int, k3: int|
                                0 <= i3 < i && 0 <= k3 < self.neurons@[i3].parameters@.len()
                                    && ((#[trigger] self.neurons@[i3].parameters@[k3]) as int)
                                    == p {
                                let (i3, k3) = choose|i3: int, k3: int|
                                    0 <= i3 < i && 0 <= k3 < self.neurons@[
                                        i3].parameters@.len() && ((#[trigger] self.neurons@[
                                        i3].parameters@[k3]) as int) == p;
                                assert(self.neurons@[i3].parameters@[k3] == self.neurons@[
                                    i as int].parameters@[k]);
                                assert(false);
                            }
                        }
                    }
                }
            }
            i += 1;
        }
    }

    /// One gradient-descent step over every neuron: each trainable
    /// parameter moves against its gradient, `value := value - grad ·
    /// alpha`.  Nothing else changes; the step succeeds whenever every
    /// exact updated value fits in storage.
    #[verifier::loop_isolation(false)]
    pub fn update(&self, eng: &mut Engine, alpha: Rat) -> (ok: bool)
        requires
            old(eng).wf(),
            self.wf(old(eng)@),
            alpha.wf(),
        ensures
            final(eng).wf(),
            final(eng).seed == old(eng).seed,
            final(eng)@.len() == old(eng)@.len(),
            forall|t: int|
                0 <= t < old(eng)@.len() && !self.is_param(t) ==> final(eng)@[t] == old(
                    eng,
                )@[t],
            forall|i: int, k: int|
                0 <= i < self.neurons@.len() && 0 <= k < self.neurons@[i].parameters@.len()
                    ==> {
                    let nd1 = old(eng)@[(#[trigger] self.neurons@[i].parameters@[k]) as int];
                    let nd2 = final(eng)@[self.neurons@[i].parameters@[k] as int];
                    &&& nd2.grad == nd1.grad
                    &&& nd2.needs_grad == nd1.needs_grad
                    &&& nd2.operation == nd1.operation
                    &&& nd2.prev == nd1.prev
                    &&& nd2.reset == nd1.reset
                },
            ok ==> (forall|i: int, k: int|
                0 <= i < self.neurons@.len() && 0 <= k < self.neurons@[i].parameters@.len()
                    && old(eng)@[(#[trigger] self.neurons@[i].parameters@[k]) as int].needs_grad
                    ==> models(
                    final(eng)@[self.neurons@[i].parameters@[k] as int].value,
                    ratio_sub(
                        old(eng)@[self.neurons@[i].parameters@[k] as int].value,
                        ratio_mul(
                            old(eng)@[self.neurons@[i].parameters@[k] as int].grad,
                            alpha@,
                        ),
                    ),
                )),
            (forall|i: int, k: int|
                0 <= i < self.neurons@.len() && 0 <= k < self.neurons@[i].parameters@.len()
                    && old(eng)@[(#[trigger] self.neurons@[i].parameters@[k]) as int].needs_grad
                    ==> {
                    let nd1 = old(eng)@[self.neurons@[i].parameters@[k] as int];
                    &&& fits(ratio_mul(nd1.grad, alpha@))
                    &&& fits(ratio_sub(nd1.value, ratio_mul(nd1.grad, alpha@)))
                }) ==> ok,
    {
        let ghost v0 = eng@;
        let n = self.neurons.len();
        let mut i: usize = 0;
        while i < n
            invariant
                eng.wf(),
                eng.seed == old(eng).seed,
                i <= n,
                eng@.len() == v0.len(),
                forall|t: int|
                    0 <= t < v0.len() ==> (#[trigger] eng@[t]).operation == v0[t].operation,
                forall|t: int|
                    0 <= t < v0.len() && !(exists|i2: int, k: int|
                        0 <= i2 < i && 0 <= k < self.neurons@[i2].parameters@.len() && ((
                        #[trigger] self.neurons@[i2].parameters@[k]) as int) == t) ==> eng@[t]
                        == v0[t],
                forall|i2: int, k: int|
                    0 <= i2 < i && 0 <= k < self.neurons@[i2].parameters@.len() && v0[(
                    #[trigger] self.neurons@[i2].parameters@[k]) as int].needs_grad ==> {
                        let nd1 = v0[self.neurons@[i2].parameters@[k] as int];
                        let nd2 = eng@[self.neurons@[i2].parameters@[k] as int];
                        &&& nd2.grad == nd1.grad
                        &&& nd2.needs_grad == nd1.needs_grad
                        &&& nd2.operation == nd1.operation
                        &&& nd2.prev == nd1.prev
                        &&& nd2.reset == nd1.reset
                        &&& models(
                            nd2.value,
                            ratio_sub(nd1.value, ratio_mul(nd1.grad, alpha@)),
                        )
                    },
                forall|i2: int, k: int|
                    0 <= i2 < i && 0 <= k < self.neurons@[i2].parameters@.len() && !v0[(
                    #[trigger] self.neurons@[i2].parameters@[k]) as int].needs_grad ==> eng@[
                        self.neurons@[i2].parameters@[k] as int] == v0[self.neurons@[
                        i2].parameters@[k] as int],
                forall|i2: int, k: int|
                    0 <= i2 < i && 0 <= k < self.neurons@[i2].parameters@.len() ==> {
                        let nd1 = v0[(#[trigger] self.neurons@[i2].parameters@[k]) as int];
                        let nd2 = eng@[self.neurons@[i2].parameters@[k] as int];
                        &&& nd2.grad == nd1.grad
                        &&& nd2.needs_grad == nd1.needs_grad
                        &&& nd2.operation == nd1.operation
                        &&& nd2.prev == nd1.prev
                        &&& nd2.reset == nd1.reset
                    },
            decreases n - i,
        {
            let ghost vpre = eng@;
            let nr = &self.neurons[i];
            proof {
                assert(self.neurons@[i as int].wf(v0));
                crate::neuron::lemma_neuron_wf_grow(self.neurons@[i as int], v0, eng@);
                assert forall|k: int|
                    0 <= k < self.neurons@[i as int].parameters@.len() implies vpre[(
                #[trigger] self.neurons@[i as int].parameters@[k]) as int] == v0[self.neurons@[
                    i as int].parameters@[k] as int] by {
                    let p = self.neurons@[i as int].parameters@[k] as int;
                    if exists|i3: int, k3: int|
                        0 <= i3 < i && 0 <= k3 < self.neurons@[i3].parameters@.len() && ((
                        #[trigger] self.neurons@[i3].parameters@[k3]) as int) == p {
                        let (i3, k3) = choose|i3: int, k3: int|
                            0 <= i3 < i && 0 <= k3 < self.neurons@[i3].parameters@.len() && ((
                            #[trigger] self.neurons@[i3].parameters@[k3]) as int) == p;
                        assert(self.neurons@[i3].parameters@[k3] == self.neurons@[
                            i as int].parameters@[k]);
                        assert(false);
                    }
                }
            }
            let okn = nr.update(eng, alpha);
            proof {
                assert forall|i2: int, k: int|
                    0 <= i2 < i + 1 && 0 <= k < self.neurons@[i2].parameters@.len() implies {
                    let nd1 = v0[(#[trigger] self.neurons@[i2].parameters@[k]) as int];
                    let nd2 = eng@[self.neurons@[i2].parameters@[k] as int];
                    &&& nd2.grad == nd1.grad
                    &&& nd2.needs_grad == nd1.needs_grad
                    &&& nd2.operation == nd1.operation
                    &&& nd2.prev == nd1.prev
                    &&& nd2.reset == nd1.reset
                } by {
                    let p = self.neurons@[i2].parameters@[k] as int;
                    if i2 < i {
                        if crate::model::ord_contains(self.neurons@[i as int].parameters@, p) {
                            let kq = choose|kq: int|
                                0 <= kq < self.neurons@[i as int].parameters@.len() && ((
                                #[trigger] self.neurons@[i as int].parameters@[kq]) as int)
                                    == p;
                            assert(self.neurons@[i2].parameters@[k] == self.neurons@[
                                i as int].parameters@[kq]);
                            assert(false);
                        }
                        assert(eng@[p] == vpre[p]);
                    }
                }
                assert forall|t: int|
                    0 <= t < v0.len() implies (#[trigger] eng@[t]).operation == v0[
                    t].operation by {
                    if crate::model::ord_contains(self.neurons@[i as int].parameters@, t) {
                        let kq = choose|kq: int|
                            0 <= kq < self.neurons@[i as int].parameters@.len() && ((
                            #[trigger] self.neurons@[i as int].parameters@[kq]) as int) == t;
                        assert(eng@[t].operation == vpre[t].operation);
                    } else {
                        assert(eng@[t] == vpre[t]);
                    }
                }
            }
            if !okn {
                proof {
                    assert forall|i2: int, k: int|
                        0 <= i2 < self.neurons@.len() && 0 <= k < self.neurons@[
                            i2].parameters@.len() implies {
                        let nd1 = v0[(#[trigger] self.neurons@[i2].parameters@[k]) as int];
                        let nd2 = eng@[self.neurons@[i2].parameters@[k] as int];
                        &&& nd2.grad == nd1.grad
                        &&& nd2.needs_grad == nd1.needs_grad
                        &&& nd2.operation == nd1.operation
                        &&& nd2.prev == nd1.prev
                        &&& nd2.reset == nd1.reset
                    } by {
                        let p = self.neurons@[i2].parameters@[k] as int;
                        if i2 > i {
                            if crate::model::ord_contains(
                                self.neurons@[i as int].parameters@,
                                p,
                            ) {
                                let kq = choose|kq: int|
                                    0 <= kq < self.neurons@[i as int].parameters@.len() && ((
                                    #[trigger] self.neurons@[i as int].parameters@[kq]) as int)
                                        == p;
                                assert(self.neurons@[i as int].parameters@[kq]
                                    == self.neurons@[i2].parameters@[k]);
                                assert(false);
                            }
                            assert(vpre[p] == v0[p]) by {
                                if exists|i3: int, k3: int|
                                    0 <= i3 < i && 0 <= k3 < self.neurons@[
                                        i3].parameters@.len() && ((#[trigger] self.neurons@[
                                        i3].parameters@[k3]) as int) == p {
                                    let (i3, k3) = choose|i3: int, k3: int|
                                        0 <= i3 < i && 0 <= k3 < self.neurons@[
                                            i3].parameters@.len() && ((
                                        #[trigger] self.neurons@[i3].parameters@[k3]) as int)
                                            == p;
                                    assert(self.neurons@[i3].parameters@[k3] == self.neurons@[
                                        i2].parameters@[k]);
                                    assert(false);
                                }
                            }
                            assert(eng@[p] == vpre[p]);
                        }
                    }
                }
                return false;
            }
            proof {
                assert forall|i2: int, k: int|
                    0 <= i2 < i + 1 && 0 <= k < self.neurons@[i2].parameters@.len() && v0[(
                #[trigger] self.neurons@[i2].parameters@[k]) as int].needs_grad implies {
                    let nd1 = v0[self.neurons@[i2].parameters@[k] as int];
                    let nd2 = eng@[self.neurons@[i2].parameters@[k] as int];
                    &&& nd2.grad == nd1.grad
                    &&& nd2.needs_grad == nd1.needs_grad
                    &&& nd2.operation == nd1.operation
                    &&& nd2.prev == nd1.prev
                    &&& nd2.reset == nd1.reset
                    &&& models(nd2.value, ratio_sub(nd1.value, ratio_mul(nd1.grad, alpha@)))
                } by {
                    let p = self.neurons@[i2].parameters@[k] as int;
                    if i2 < i {
                        if crate::model::ord_contains(self.neurons@[i as int].parameters@, p) {
                            let kq = choose|kq: int|
                                0 <= kq < self.neurons@[i as int].parameters@.len() && ((
                                #[trigger] self.neurons@[i as int].parameters@[kq]) as int)
                                    == p;
                            assert(self.neurons@[i2].parameters@[k] == self.neurons@[
                                i as int].parameters@[kq]);
                            assert(false);
                        }
                        assert(eng@[p] == vpre[p]);
                    }
                }
                assert forall|i2: int, k: int|
                    0 <= i2 < i + 1 && 0 <= k < self.neurons@[i2].parameters@.len() && !v0[(
                #[trigger] self.neurons@[i2].parameters@[k]) as int].needs_grad implies eng@[
                    self.neurons@[i2].parameters@[k] as int] == v0[self.neurons@[
                    i2].parameters@[k] as int] by {
                    let p = self.neurons@[i2].parameters@[k] as int;
                    if i2 < i {
                        if crate::model::ord_contains(self.neurons@[i as int].parameters@, p) {
                            let kq = choose|kq: int|
                                0 <= kq < self.neurons@[i as int].parameters@.len() && ((
                                #[trigger] self.neurons@[i as int].parameters@[kq]) as int)
                                    == p;
                            assert(self.neurons@[i2].parameters@[k] == self.neurons@[
                                i as int].parameters@[kq]);
                            assert(false);
                        }
                        assert(eng@[p] == vpre[p]);
                    }
                }
            }
            i += 1;
        }
        true
    }

    /// Stores the given scalars into the shared input nodes of the
    /// layer's neurons, in order.  When the same node stands at several
    /// input positions the last position's scalar is the one that
    /// remains.
    #[verifier::loop_isolation(false)]
    pub fn set(&self, eng: &mut Engine, inputs: Vec<Rat>)
        requires
            old(eng).wf(),
            self.wf(old(eng)@),
            self.neurons@.len() > 0,
            inputs@.len() == self.neurons@[0].inputs@.len(),
            forall|k: int| 0 <= k < inputs@.len() ==> (#[trigger] inputs@[k]).wf(),
        ensures
            final(eng).wf(),
            final(eng).seed == old(eng).seed,
            final(eng)@.len() == old(eng)@.len(),
            forall|t: int|
                0 <= t < old(eng)@.len() ==> {
                    let n1 = old(eng)@[t];
                    let n2 = #[trigger] final(eng)@[t];
                    &&& n2.grad == n1.grad
                    &&& n2.needs_grad == n1.needs_grad
                    &&& n2.operation == n1.operation
                    &&& n2.prev == n1.prev
                    &&& n2.reset == n1.reset
                },
            forall|t: int|
                0 <= t < old(eng)@.len() && !crate::model::ord_contains(
                    self.neurons@[0].inputs@,
                    t,
                ) ==> final(eng)@[t] == old(eng)@[t],
            forall|k: int|
                0 <= k < self.neurons@[0].inputs@.len() && (forall|k2: int|
                    k < k2 < self.neurons@[0].inputs@.len() ==> self.neurons@[0].inputs@[k2]
                        != self.neurons@[0].inputs@[k]) ==> final(eng)@[(
                #[trigger] self.neurons@[0].inputs@[k]) as int].value == inputs@[k]@,
    {
        let ghost v0 = eng@;
        let n = self.neurons.len();
        let mut i: usize = 0;
        while i < n
            invariant
                eng.wf(),
                eng.seed == old(eng).seed,
                i <= n,
                eng@.len() == v0.len(),
                forall|t: int|
                    0 <= t < v0.len() ==> {
                        let n1 = v0[t];
                        let n2 = #[trigger] eng@[t];
                        &&& n2.grad == n1.grad
                        &&& n2.needs_grad == n1.needs_grad
                        &&& n2.operation == n1.operation
                        &&& n2.prev == n1.prev
                        &&& n2.reset == n1.reset
                    },
                forall|t: int|
                    0 <= t < v0.len() && !crate::model::ord_contains(
                        self.neurons@[0].inputs@,
                        t,
                    ) ==> eng@[t] == v0[t],
                i > 0 ==> forall|k: int|
                    0 <= k < self.neurons@[0].inputs@.len() && (forall|k2: int|
                        k < k2 < self.neurons@[0].inputs@.len() ==> self.neurons@[0].inputs@[
                            k2] != self.neurons@[0].inputs@[k]) ==> eng@[(
                    #[trigger] self.neurons@[0].inputs@[k]) as int].value == inputs@[k]@,
            decreases n - i,
        {
            let nr = &self.neurons[i];
            proof {
                assert(self.neurons@[i as int].wf(v0));
                crate::neuron::lemma_neuron_wf_grow(self.neurons@[i as int], v0, eng@);
                assert(self.neurons@[i as int].inputs@ == self.neurons@[0].inputs@);
            }
            let vals = clone_rats(&inputs);
            nr.set(eng, vals);
            i += 1;
        }
    }
}

/// Copies a list of scalars, element for element.
fn clone_rats(xs: &Vec<Rat>) -> (r: Vec<Rat>)
    ensures
        r@ == xs@,
{
    let mut r: Vec<Rat> = Vec::new();
    let mut i: usize = 0;
    while i < xs.len()
        invariant
            i <= xs@.len(),
            r@ == xs@.take(i as int),
        decreases xs@.len() - i,
    {
        r.push(xs[i]);
        proof {
            assert(r@ =~= xs@.take(i as int + 1));
        }
        i += 1;
    }
    proof {
        assert(xs@.take(xs@.len() as int) =~= xs@);
    }
    r
}

} // verus!
