use vstd::prelude::*;

use crate::engine::{Engine, Value};
use crate::layer::Layer;
use crate::model::GNode;
use crate::rational::{fits, models, ratio_mul, ratio_sub, Rat};

verus! {

/// A multi-layer perceptron: a stack of layers where each layer reads
/// the previous layer's outputs, the first reading a row of dedicated
/// input leaves.
pub struct MLP {
    pub layers: Vec<Layer>,
}

/// A row of zero-valued input fractions.
pub open spec fn zero_row(n: int) -> Seq<crate::rational::Ratio> {
    Seq::new(n as nat, |i: int| crate::rational::ratio_zero())
}

/// Every possible row of drawn parameters keeps the affine chain over
/// `n` zero-valued inputs within storage.
pub open spec fn grid_draws_fit(n: int) -> bool {
    forall|ps: Seq<crate::rational::Ratio>|
        #![trigger crate::neuron::affine_chain_fits(ps, zero_row(n), n)]
        ps.len() == n + 1 && (forall|k: int|
            0 <= k < ps.len() ==> crate::neuron::on_unit_grid(#[trigger] ps[k]))
            ==> crate::neuron::affine_chain_fits(ps, zero_row(n), n)
}

impl MLP {
    pub open spec fn wf(self, v: Seq<GNode>) -> bool {
        &&& self.layers@.len() > 0
        &&& (forall|l: int| 0 <= l < self.layers@.len() ==> (#[trigger] self.layers@[l]).wf(v))
        &&& (forall|l: int|
            0 <= l < self.layers@.len() ==> (#[trigger] self.layers@[l]).neurons@.len() > 0)
        &&& (forall|l: int|
            1 <= l < self.layers@.len() ==> (#[trigger] self.layers@[l]).neurons@[0].inputs@
                == self.layers@[l - 1].outputs@)
        &&& (forall|l1: int, i1: int, k1: int, l2: int, i2: int, k2: int|
            0 <= l1 < l2 < self.layers@.len() && 0 <= i1 < self.layers@[l1].neurons@.len() && 0
                <= k1 < self.layers@[l1].neurons@[i1].parameters@.len() && 0 <= i2
                < self.layers@[l2].neurons@.len() && 0 <= k2 < self.layers@[l2].neurons@[
                i2].parameters@.len() ==> (#[trigger] self.layers@[l1].neurons@[i1].parameters@[
                k1]) != (#[trigger] self.layers@[l2].neurons@[i2].parameters@[k2]))
    }

    /// `t` is the index of a trainable parameter of some layer.
    pub open spec fn is_param(self, t: int) -> bool {
        exists|l: int| 0 <= l < self.layers@.len() && (#[trigger] self.layers@[l]).is_param(t)
    }

    /// Builds the network: one fresh zero-valued input leaf per input,
    /// then one layer per entry of `sizes`, each wired to the previous
    /// layer's outputs.  `None` is returned when a layer cannot be built
    /// or the arena would outgrow its index space.
    #[verifier::loop_isolation(false)]
    pub fn new(eng: &mut Engine, sizes: Vec<usize>, linears: Vec<bool>, input_size: usize) -> (r:
        Option<MLP>)
        requires
            old(eng).wf(),
            sizes@.len() == linears@.len(),
            sizes@.len() > 0,
            forall|l: int| 0 <= l < sizes@.len() ==> (#[trigger] sizes@[l]) > 0,
        ensures
            final(eng).wf(),
            final(eng).seed == old(eng).seed,
            final(eng)@.len() >= old(eng)@.len(),
            final(eng)@.take(old(eng)@.len() as int) == old(eng)@,
            r matches Some(m) ==> {
                &&& m.wf(final(eng)@)
                &&& m.layers@.len() == sizes@.len()
                &&& (forall|l: int|
                    0 <= l < sizes@.len() ==> (#[trigger] m.layers@[l]).neurons@.len()
                        == sizes@[l])
                &&& m.layers@[0].neurons@[0].inputs@.len() == input_size
                &&& (forall|k: int|
                    0 <= k < input_size ==> ((#[trigger] m.layers@[0].neurons@[0].inputs@[
                        k]) as int) == old(eng)@.len() + k)
                &&& (forall|k: int|
                    0 <= k < input_size ==> #[trigger] final(eng)@[old(eng)@.len() + k]
                        == (GNode {
                        value: crate::rational::ratio_zero(),
                        grad: crate::rational::ratio_zero(),
                        needs_grad: false,
                        operation: crate::operation::Operation::NONE,
                        prev: Seq::empty(),
                        reset: false,
                    }))
            },
            (sizes@.len() == 1 && old(eng)@.len() + input_size + (sizes@[0] as int) * (3
                * input_size + 3) <= 0x1_0000_0000 && grid_draws_fit(input_size as int))
                ==> r is Some,
    {
        let ghost e0 = *eng;
        let ghost premise = sizes@.len() == 1 && e0@.len() + input_size + (sizes@[0] as int) * (
        3 * input_size + 3) <= 0x1_0000_0000 && grid_draws_fit(input_size as int);
        if (eng.len() as u128) + (input_size as u128) > 0x1_0000_0000u128 {
            proof {
                assert(eng@.take(e0@.len() as int) =~= e0@);
                if premise {
                    crate::rational::lemma_pos_prod_pub(
                        sizes@[0] as int,
                        3 * input_size + 3,
                    );
                    assert(false);
                }
            }
            return None;
        }
        let mut current: Vec<usize> = Vec::new();
        let mut k: usize = 0;
        while k < input_size
            invariant
                eng.wf(),
                eng.seed == e0.seed,
                k <= input_size,
                current@.len() == k,
                eng@.len() == e0@.len() + k,
                eng@.take(e0@.len() as int) == e0@,
                forall|t: int|
                    0 <= t < k ==> ((#[trigger] current@[t]) as int) == e0@.len() + t,
                forall|t: int|
                    0 <= t < k ==> #[trigger] eng@[e0@.len() + t] == (GNode {
                        value: crate::rational::ratio_zero(),
                        grad: crate::rational::ratio_zero(),
                        needs_grad: false,
                        operation: crate::operation::Operation::NONE,
                        prev: Seq::empty(),
                        reset: false,
                    }),
            decreases input_size - k,
        {
            let ghost epre = *eng;
            let p = Value::from(eng, Rat::zero());
            proof {
                assert(eng@.take(epre@.len() as int) =~= epre@);
                crate::model::lemma_prefix_trans(e0@, epre@, eng@);
            }
            current.push(p);
            k += 1;
        }
        let ghost eleaves = *eng;
        let ghost cur0 = current@;
        let mut layers: Vec<Layer> = Vec::new();
        let mut l: usize = 0;
        while l < sizes.len()
            invariant
                eng.wf(),
                eng.seed == e0.seed,
                l <= sizes@.len(),
                layers@.len() == l,
                eng@.len() >= e0@.len(),
                eng@.take(e0@.len() as int) == e0@,
                forall|t: int| 0 <= t < l ==> (#[trigger] layers@[t]).wf(eng@),
                forall|t: int|
                    0 <= t < l ==> (#[trigger] layers@[t]).neurons@.len() == sizes@[t],
                forall|t: int, i: int, k2: int|
                    0 <= t < l && 0 <= i < layers@[t].neurons@.len() && 0 <= k2 < layers@[
                        t].neurons@[i].parameters@.len() ==> ((#[trigger] layers@[t].neurons@[
                        i].parameters@[k2]) as int) < eng@.len(),
                forall|l1: int, i1: int, k1: int, l2: int, i2: int, k2: int|
                    0 <= l1 < l2 < l && 0 <= i1 < layers@[l1].neurons@.len() && 0 <= k1
                        < layers@[l1].neurons@[i1].parameters@.len() && 0 <= i2 < layers@[
                        l2].neurons@.len() && 0 <= k2 < layers@[l2].neurons@[
                        i2].parameters@.len() ==> (#[trigger] layers@[l1].neurons@[
                        i1].parameters@[k1]) != (#[trigger] layers@[l2].neurons@[
                        i2].parameters@[k2]),
                forall|t: int|
                    0 <= t < current@.len() ==> ((#[trigger] current@[t]) as int) < eng@.len(),
                forall|t1: int, t2: int|
                    0 <= t1 < t2 < current@.len() ==> (#[trigger] current@[t1]) < (
                    #[trigger] current@[t2]),
                eng@.len() >= eleaves@.len(),
                eng@.take(eleaves@.len() as int) == eleaves@,
                l == 0 ==> *eng == eleaves,
                l == 0 ==> current@ == cur0,
                l >= 1 ==> current@ == layers@[l - 1].outputs@,
                l >= 1 ==> layers@[0].neurons@[0].inputs@ == cur0,
                forall|t: int|
                    1 <= t < l ==> (#[trigger] layers@[t]).neurons@[0].inputs@ == layers@[t
                        - 1].outputs@,
            decreases sizes@.len() - l,
        {
            let n_neurons = sizes[l];
            proof {
                if premise {
                    assert((sizes@[0] as int) <= (sizes@[0] as int) * (3 * input_size + 3))
                        by (nonlinear_arith)
                        requires
                            0 <= sizes@[0] as int,
                            1 <= 3 * input_size + 3,
                    {
                    }
                }
            }
            if (n_neurons as u128) > 0x1_0000_0000u128 || (current.len() as u128)
                > 0x1_0000_0000u128 {
                proof {
                    if premise {
                        assert(false);
                    }
                }
                return None;
            }
            let per: u128 = 3 * (current.len() as u128) + 3;
            if per > 0x4_0000_0000u128 {
                proof {
                    if premise {
                        assert(false);
                    }
                }
                return None;
            }
            proof {
                assert((n_neurons as int) * (per as int) <= 0x1_0000_0000 * 0x4_0000_0000)
                    by (nonlinear_arith)
                    requires
                        0 <= n_neurons as int <= 0x1_0000_0000,
                        0 <= per as int <= 0x4_0000_0000,
                {
                }
            }
            let need: u128 = (n_neurons as u128) * per;
            if (eng.len() as u128) + need > 0x1_0000_0000u128 {
                proof {
                    if premise {
                        assert(eng@.len() == e0@.len() + input_size);
                        assert(false);
                    }
                }
                return None;
            }
            let ghost epre = *eng;
            let layer = match Layer::new(eng, n_neurons, &current, linears[l]) {
                None => {
                    proof {
                        crate::model::lemma_prefix_trans(e0@, epre@, eng@);
                        if premise {
                            assert(crate::neuron::node_values(epre@, current@) =~= zero_row(
                                input_size as int,
                            ));
                            assert forall|ps: Seq<crate::rational::Ratio>|
                                ps.len() == current@.len() + 1 && (forall|k2: int|
                                    0 <= k2 < ps.len() ==> crate::neuron::on_unit_grid(
                                        #[trigger] ps[k2],
                                    )) implies #[trigger] crate::neuron::affine_chain_fits(
                                ps,
                                crate::neuron::node_values(epre@, current@),
                                current@.len() as int,
                            ) by {
                                assert(crate::neuron::affine_chain_fits(
                                    ps,
                                    zero_row(input_size as int),
                                    input_size as int,
                                ));
                            }
                            assert(false);
                        }
                    }
                    return None;
                },
                Some(layer) => layer,
            };
            proof {
                crate::model::lemma_prefix_trans(e0@, epre@, eng@);
                assert forall|t: int|
                    0 <= t < epre@.len() implies (#[trigger] eng@[t]).operation == epre@[
                    t].operation by {
                    assert(eng@.take(epre@.len() as int)[t] == epre@[t]);
                }
                assert forall|t: int| 0 <= t < l implies (#[trigger] layers@[t]).wf(eng@) by {
                    assert(layers@[t].wf(epre@));
                    assert forall|i: int|
                        0 <= i < layers@[t].neurons@.len() implies (#[trigger] layers@[
                        t].neurons@[i]).wf(eng@) by {
                        crate::neuron::lemma_neuron_wf_grow(layers@[t].neurons@[i], epre@, eng@);
                    }
                }
            }
            let outs = clone_indices(&layer.outputs);
            proof {
                assert forall|i: int, k2: int|
                    0 <= i < layer.neurons@.len() && 0 <= k2 < layer.neurons@[
                        i].parameters@.len() implies ((#[trigger] layer.neurons@[i].parameters@[
                    k2]) as int) >= epre@.len() by {
                    assert(layer.neurons@[i].wf(eng@));
                }
            }
            layers.push(layer);
            current = outs;
            l += 1;
        }
        proof {
            assert forall|k2: int|
                0 <= k2 < input_size implies #[trigger] eng@[e0@.len() + k2] == (GNode {
                value: crate::rational::ratio_zero(),
                grad: crate::rational::ratio_zero(),
                needs_grad: false,
                operation: crate::operation::Operation::NONE,
                prev: Seq::empty(),
                reset: false,
            }) by {
                assert(eng@.take(eleaves@.len() as int)[e0@.len() + k2] == eleaves@[e0@.len()
                    + k2]);
            }
        }
        Some(MLP { layers })
    }

    /// Stores the given scalars into the network's input leaves through
    /// the first layer, in order; were the same node handed in at several
    /// positions, the last position's scalar would remain.
    pub fn set(&self, eng: &mut Engine, inputs: Vec<Rat>)
        requires
            old(eng).wf(),
            self.wf(old(eng)@),
            inputs@.len() == self.layers@[0].neurons@[0].inputs@.len(),
            forall|k: int| 0 <= k < inputs@.len() ==> (#[trigger] inputs@[k]).wf(),
        ensures
            final(eng).wf(),
            final(eng).seed == old(eng).seed,
            final(eng)@.len() == old(eng)@.len(),
            forall|t: int|
                0 <= t < old(eng)@.len() ==> {
                    let n1 = old(eng)@[t];
                    let n2 = #[trigger] final(eng)@[t];
                    &&& n2.grad == n1.grad
                    &&& n2.needs_grad == n1.needs_grad
                    &&& n2.operation == n1.operation
                    &&& n2.prev == n1.prev
                    &&& n2.reset == n1.reset
                },
            forall|t: int|
                0 <= t < old(eng)@.len() && !crate::model::ord_contains(
                    self.layers@[0].neurons@[0].inputs@,
                    t,
                ) ==> final(eng)@[t] == old(eng)@[t],
            forall|k: int|
                0 <= k < self.layers@[0].neurons@[0].inputs@.len() && (forall|k2: int|
                    k < k2 < self.layers@[0].neurons@[0].inputs@.len() ==> self.layers@[
                        0].neurons@[0].inputs@[k2] != self.layers@[0].neurons@[0].inputs@[k])
                    ==> final(eng)@[(
                #[trigger] self.layers@[0].neurons@[0].inputs@[k]) as int].value == inputs@[
                    k]@,
    {
        let l0 = &self.layers[0];
        l0.set(eng, inputs);
    }

    /// The output nodes of the last layer, in order.
    pub fn outputs(&self, eng: &Engine) -> (r: Vec<usize>)
        requires
            eng.wf(),
            self.wf(eng@),
        ensures
            r@ == self.layers@[self.layers@.len() - 1].outputs@,
            forall|k: int| 0 <= k < r@.len() ==> ((#[trigger] r@[k]) as int) < eng@.len(),
    {
        let last = &self.layers[self.layers.len() - 1];
        proof {
            assert(self.layers@[self.layers@.len() - 1].wf(eng@));
            assert forall|k: int|
                0 <= k < last.outputs@.len() implies ((#[trigger] last.outputs@[k]) as int)
                < eng@.len() by {
                assert(last.outputs@[k] == last.neurons@[k].output);
                assert(last.neurons@[k].wf(eng@));
            }
        }
        clone_indices(&last.outputs)
    }

    /// Clears the gradient accumulator of every trainable parameter of
    /// every layer and raises its pending-reset marker; nothing else
    /// changes.
    #[verifier::loop_isolation(false)]
    pub fn zero_grad(&self, eng: &mut Engine)
        requires
            old(eng).wf(),
            self.wf(old(eng)@),
        ensures
            final(eng).wf(),
            final(eng).seed == old(eng).seed,
            final(eng)@.len() == old(eng)@.len(),
            forall|t: int|
                0 <= t < old(eng)@.len() && !self.is_param(t) ==> final(eng)@[t] == old(
                    eng,
                )@[t],
            forall|l: int, i: int, k: int|
                0 <= l < self.layers@.len() && 0 <= i < self.layers@[l].neurons@.len() && 0 <= k
                    < self.layers@[l].neurons@[i].parameters@.len() ==> final(eng)@[((
                #[trigger] self.layers@[l].neurons@[i].parameters@[k]) as int)] == (GNode {
                    value: old(eng)@[self.layers@[l].neurons@[i].parameters@[k] as int].value,
                    grad: crate::rational::ratio_zero(),
                    needs_grad: old(eng)@[self.layers@[l].neurons@[i].parameters@[
                        k] as int].needs_grad,
                    operation: old(eng)@[self.layers@[l].neurons@[i].parameters@[
                        k] as int].operation,
                    prev: old(eng)@[self.layers@[l].neurons@[i].parameters@[k] as int].prev,
                    reset: true,
                }),
    {
        let ghost v0 = eng@;
        let n = self.layers.len();
        let mut l: usize = 0;
        while l < n
            invariant
                eng.wf(),
                eng.seed == old(eng).seed,
                l <= n,
                eng@.len() == v0.len(),
                forall|t: int|
                    0 <= t < v0.len() ==> (#[trigger] eng@[t]).operation == v0[t].operation,
                forall|t: int|
                    0 <= t < v0.len() && !(exists|l2: int|
                        0 <= l2 < l && (#[trigger] self.layers@[l2]).is_param(t)) ==> eng@[t]
                        == v0[t],
                forall|l2: int, i: int, k: int|
                    0 <= l2 < l && 0 <= i < self.layers@[l2].neurons@.len() && 0 <= k
                        < self.layers@[l2].neurons@[i].parameters@.len() ==> eng@[((
                    #[trigger] self.layers@[l2].neurons@[i].parameters@[k]) as int)] == (GNode {
                        value: v0[self.layers@[l2].neurons@[i].parameters@[k] as int].value,
                        grad: crate::rational::ratio_zero(),
                        needs_grad: v0[self.layers@[l2].neurons@[i].parameters@[
                            k] as int].needs_grad,
                        operation: v0[self.layers@[l2].neurons@[i].parameters@[
                            k] as int].operation,
                        prev: v0[self.layers@[l2].neurons@[i].parameters@[k] as int].prev,
                        reset: true,
                    }),
            decreases n - l,
        {
            let ghost vpre = eng@;
            let lr = &self.layers[l];
            proof {
                assert(self.layers@[l as int].wf(v0));
                lemma_layer_wf_grow(self.layers@[l as int], v0, eng@);
            }
            lr.zero_grad(eng);
            proof {
                assert forall|t: int|
                    0 <= t < v0.len() implies (#[trigger] eng@[t]).operation == v0[
                    t].operation by {
                    if self.layers@[l as int].is_param(t) {
                        let (i3, k3) = choose|i3: int, k3: int|
                            0 <= i3 < self.layers@[l as int].neurons@.len() && 0 <= k3
                                < self.layers@[l as int].neurons@[i3].parameters@.len() && ((
                            #[trigger] self.layers@[l as int].neurons@[i3].parameters@[
                                k3]) as int) == t;
                        assert(eng@[t].operation == vpre[t].operation);
                    } else {
                        assert(eng@[t] == vpre[t]);
                    }
                }
                assert forall|l2: int, i: int, k: int|
                    0 <= l2 < l + 1 && 0 <= i < self.layers@[l2].neurons@.len() && 0 <= k
                        < self.layers@[l2].neurons@[i].parameters@.len() implies eng@[((
                #[trigger] self.layers@[l2].neurons@[i].parameters@[k]) as int)] == (GNode {
                    value: v0[self.layers@[l2].neurons@[i].parameters@[k] as int].value,
                    grad: crate::rational::ratio_zero(),
                    needs_grad: v0[self.layers@[l2].neurons@[i].parameters@[
                        k] as int].needs_grad,
                    operation: v0[self.layers@[l2].neurons@[i].parameters@[k] as int].operation,
                    prev: v0[self.layers@[l2].neurons@[i].parameters@[k] as int].prev,
                    reset: true,
                }) by {
                    let p = self.layers@[l2].neurons@[i].parameters@[k] as int;
                    if l2 < l {
                        if self.layers@[l as int].is_param(p) {
                            let (i3, k3) = choose|i3: int, k3: int|
                                0 <= i3 < self.layers@[l as int].neurons@.len() && 0 <= k3
                                    < self.layers@[l as int].neurons@[i3].parameters@.len()
                                    && ((#[trigger] self.layers@[l as int].neurons@[
                                    i3].parameters@[k3]) as int) == p;
                            assert(self.layers@[l2].neurons@[i].parameters@[k] == self.layers@[
                                l as int].neurons@[i3].parameters@[k3]);
                            assert(false);
                        }
                        assert(eng@[p] == vpre[p]);
                    } else {
                        assert(vpre[p] == v0[p]) by {
                            if exists|l3: int|
                                0 <= l3 < l && (#[trigger] self.layers@[l3]).is_param(p) {
                                let l3 = choose|l3: int|
                                    0 <= l3 < l && (#[trigger] self.layers@[l3]).is_param(p);
                                let (i3, k3) = choose|i3: int, k3: int|
                                    0 <= i3 < self.layers@[l3].neurons@.len() && 0 <= k3
                                        < self.layers@[l3].neurons@[i3].parameters@.len() && ((
                                    #[trigger] self.layers@[l3].neurons@[i3].parameters@[
                                        k3]) as int) == p;
                                assert(self.layers@[l3].neurons@[i3].parameters@[k3]
                                    == self.layers@[l2].neurons@[i].parameters@[k]);
                                assert(false);
                            }
                        }
                    }
                }
            }
            l += 1;
        }
    }

    /// One gradient-descent step over the whole network: every trainable
    /// parameter moves against its gradient, `value := value - grad ·
    /// alpha`.  Nothing else changes; the step succeeds whenever every
    /// exact updated value fits in storage.
    #[verifier::loop_isolation(false)]
    pub fn update(&self, eng: &mut Engine, alpha: Rat) -> (ok: bool)
        requires
            old(eng).wf(),
            self.wf(old(eng)@),
            alpha.wf(),
        ensures
            final(eng).wf(),
            final(eng).seed == old(eng).seed,
            final(eng)@.len() == old(eng)@.len(),
            forall|t: int|
                0 <= t < old(eng)@.len() && !self.is_param(t) ==> final(eng)@[t] == old(
                    eng,
                )@[t],
            ok ==> (forall|l: int, i: int, k: int|
                0 <= l < self.layers@.len() && 0 <= i < self.layers@[l].neurons@.len() && 0 <= k
                    < self.layers@[l].neurons@[i].parameters@.len() && old(eng)@[(
                #[trigger] self.layers@[l].neurons@[i].parameters@[k]) as int].needs_grad ==> {
                    let nd1 = old(eng)@[self.layers@[l].neurons@[i].parameters@[k] as int];
                    let nd2 = final(eng)@[self.layers@[l].neurons@[i].parameters@[k] as int];
                    &&& nd2.grad == nd1.grad
                    &&& nd2.needs_grad == nd1.needs_grad
                    &&& nd2.operation == nd1.operation
                    &&& nd2.prev == nd1.prev
                    &&& nd2.reset == nd1.reset
                    &&& models(nd2.value, ratio_sub(nd1.value, ratio_mul(nd1.grad, alpha@)))
                }),
            (forall|l: int, i: int, k: int|
                0 <= l < self.layers@.len() && 0 <= i < self.layers@[l].neurons@.len() && 0 <= k
                    < self.layers@[l].neurons@[i].parameters@.len() && old(eng)@[(
                #[trigger] self.layers@[l].neurons@[i].parameters@[k]) as int].needs_grad ==> {
                    let nd1 = old(eng)@[self.layers@[l].neurons@[i].parameters@[k] as int];
                    &&& fits(ratio_mul(nd1.grad, alpha@))
                    &&& fits(ratio_sub(nd1.value, ratio_mul(nd1.grad, alpha@)))
                }) ==> ok,
    {
        let ghost v0 = eng@;
        let n = self.layers.len();
        let mut l: usize = 0;
        while l < n
            invariant
                eng.wf(),
                eng.seed == old(eng).seed,
                l <= n,
                eng@.len() == v0.len(),
                forall|t: int|
                    0 <= t < v0.len() ==> (#[trigger] eng@[t]).operation == v0[t].operation,
                forall|t: int|
                    0 <= t < v0.len() && !(exists|l2: int|
                        0 <= l2 < l && (#[trigger] self.layers@[l2]).is_param(t)) ==> eng@[t]
                        == v0[t],
                forall|l2: int, i: int, k: int|
                    0 <= l2 < l && 0 <= i < self.layers@[l2].neurons@.len() && 0 <= k
                        < self.layers@[l2].neurons@[i].parameters@.len() && v0[(
                    #[trigger] self.layers@[l2].neurons@[i].parameters@[k]) as int].needs_grad
                        ==> {
                        let nd1 = v0[self.layers@[l2].neurons@[i].parameters@[k] as int];
                        let nd2 = eng@[self.layers@[l2].neurons@[i].parameters@[k] as int];
                        &&& nd2.grad == nd1.grad
                        &&& nd2.needs_grad == nd1.needs_grad
                        &&& nd2.operation == nd1.operation
                        &&& nd2.prev == nd1.prev
                        &&& nd2.reset == nd1.reset
                        &&& models(
                            nd2.value,
                            ratio_sub(nd1.value, ratio_mul(nd1.grad, alpha@)),
                        )
                    },
            decreases n - l,
        {
            let ghost vpre = eng@;
            let lr = &self.layers[l];
            proof {
                assert(self.layers@[l as int].wf(v0));
                lemma_layer_wf_grow(self.layers@[l as int], v0, eng@);
                assert forall|i: int, k: int|
                    0 <= i < self.layers@[l as int].neurons@.len() && 0 <= k < self.layers@[
                        l as int].neurons@[i].parameters@.len() implies vpre[(
                #[trigger] self.layers@[l as int].neurons@[i].parameters@[k]) as int] == v0[
                    self.layers@[l as int].neurons@[i].parameters@[k] as int] by {
                    let p = self.layers@[l as int].neurons@[i].parameters@[k] as int;
                    if exists|l3: int| 0 <= l3 < l && (#[trigger] self.layers@[l3]).is_param(
                        p,
                    ) {
                        let l3 = choose|l3: int|
                            0 <= l3 < l && (#[trigger] self.layers@[l3]).is_param(p);
                        let (i3, k3) = choose|i3: int, k3: int|
                            0 <= i3 < self.layers@[l3].neurons@.len() && 0 <= k3
                                < self.layers@[l3].neurons@[i3].parameters@.len() && ((
                            #[trigger] self.layers@[l3].neurons@[i3].parameters@[k3]) as int)
                                == p;
                        assert(self.layers@[l3].neurons@[i3].parameters@[k3] == self.layers@[
                            l as int].neurons@[i].parameters@[k]);
                        assert(false);
                    }
                }
            }
            let okl = lr.update(eng, alpha);
            proof {
                assert forall|t: int|
                    0 <= t < v0.len() implies (#[trigger] eng@[t]).operation == v0[
                    t].operation by {
                    if self.layers@[l as int].is_param(t) {
                        let (i3, k3) = choose|i3: int, k3: int|
                            0 <= i3 < self.layers@[l as int].neurons@.len() && 0 <= k3
                                < self.layers@[l as int].neurons@[i3].parameters@.len() && ((
                            #[trigger] self.layers@[l as int].neurons@[i3].parameters@[
                                k3]) as int) == t;
                        assert(eng@[t].operation == vpre[t].operation);
                    } else {
                        assert(eng@[t] == vpre[t]);
                    }
                }
            }
            if !okl {
                return false;
            }
            proof {
                assert forall|l2: int, i: int, k: int|
                    0 <= l2 < l + 1 && 0 <= i < self.layers@[l2].neurons@.len() && 0 <= k
                        < self.layers@[l2].neurons@[i].parameters@.len() && v0[(
                #[trigger] self.layers@[l2].neurons@[i].parameters@[k]) as int].needs_grad implies {
                    let nd1 = v0[self.layers@[l2].neurons@[i].parameters@[k] as int];
                    let nd2 = eng@[self.layers@[l2].neurons@[i].parameters@[k] as int];
                    &&& nd2.grad == nd1.grad
                    &&& nd2.needs_grad == nd1.needs_grad
                    &&& nd2.operation == nd1.operation
                    &&& nd2.prev == nd1.prev
                    &&& nd2.reset == nd1.reset
                    &&& models(nd2.value, ratio_sub(nd1.value, ratio_mul(nd1.grad, alpha@)))
                } by {
                    let p = self.layers@[l2].neurons@[i].parameters@[k] as int;
                    if l2 < l {
                        if self.layers@[l as int].is_param(p) {
                            let (i3, k3) = choose|i3: int, k3: int|
                                0 <= i3 < self.layers@[l as int].neurons@.len() && 0 <= k3
                                    < self.layers@[l as int].neurons@[i3].parameters@.len()
                                    && ((#[trigger] self.layers@[l as int].neurons@[
                                    i3].parameters@[k3]) as int) == p;
                            assert(self.layers@[l2].neurons@[i].parameters@[k] == self.layers@[
                                l as int].neurons@[i3].parameters@[k3]);
                            assert(false);
                        }
                        assert(eng@[p] == vpre[p]);
                    }
                }
            }
            l += 1;
        }
        true
    }
}

/// A layer stays well formed in any later state: indices only grow past
/// it and node operations never change after construction.
pub proof fn lemma_layer_wf_grow(l: Layer, v1: Seq<GNode>, v2: Seq<GNode>)
    requires
        l.wf(v1),
        v2.len() >= v1.len(),
        forall|t: int| 0 <= t < v1.len() ==> (#[trigger] v2[t]).operation == v1[t].operation,
    ensures
        l.wf(v2),
{
    assert forall|i: int| 0 <= i < l.neurons@.len() implies (#[trigger] l.neurons@[i]).wf(
        v2,
    ) by {
        crate::neuron::lemma_neuron_wf_grow(l.neurons@[i], v1, v2);
    }
}

/// Copies a list of node indices, element for element.
pub fn clone_indices(xs: &Vec<usize>) -> (r: Vec<usize>)
    ensures
        r@ == xs@,
{
    let mut r: Vec<usize> = Vec::new();
    let mut i: usize = 0;
    while i < xs.len()
        invariant
            i <= xs@.len(),
            r@ == xs@.take(i as int),
        decreases xs@.len() - i,
    {
        r.push(xs[i]);
        proof {
            assert(r@ =~= xs@.take(i as int + 1));
        }
        i += 1;
    }
    proof {
        assert(xs@.take(xs@.len() as int) =~= xs@);
    }
    r
}

} // verus!
