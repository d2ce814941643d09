use vstd::prelude::*;

use crate::id::Identifier;
use crate::model::{graph_wf, is_topo, node_wf, GNode};
use crate::operation::Operation;
use crate::rational::{fits, models, ratio_add, ratio_mul, ratio_zero, Rat, Ratio};

verus! {

/// One graph node: the record that holds a scalar value, its gradient
/// accumulator, the operation that produced it, the indices of its
/// operands, and the traversal bookkeeping.  Nodes live in an `Engine`
/// arena and refer to each other by index, so a node may stand as the
/// operand of arbitrarily many consumers.
pub struct Value {
    pub value: Rat,
    pub grad: Rat,
    pub needs_grad: bool,
    pub id: Identifier,
    pub operation: Operation,
    pub previous_nodes: Vec<usize>,
    pub has_been_reset: bool,
    pub backward_graph: Vec<usize>,
}

impl View for Value {
    type V = GNode;

    open spec fn view(&self) -> GNode {
        GNode {
            value: self.value@,
            grad: self.grad@,
            needs_grad: self.needs_grad,
            operation: self.operation,
            prev: self.previous_nodes@.map_values(|x: usize| x as int),
            reset: self.has_been_reset,
        }
    }
}

/// The arena that owns every node of a computation graph, together with
/// the process-wide configuration the nodes need: the deterministic-seed
/// switch for random leaf initialization.  A node's identifier is its
/// index, so identifiers are issued strictly increasing and never reused.
pub struct Engine {
    pub nodes: Vec<Value>,
    pub seed: u64,
}

impl View for Engine {
    type V = Seq<GNode>;

    open spec fn view(&self) -> Seq<GNode> {
        self.nodes@.map_values(|nd: Value| nd@)
    }
}

impl Engine {
    /// Everything except memo validity: nodes are well formed and each
    /// node's identifier is its index.
    pub open spec fn wf_core(self) -> bool {
        &&& graph_wf(self@)
        &&& self.nodes@.len() <= 0x1_0000_0000
        &&& (forall|i: int|
            0 <= i < self.nodes@.len() ==> (#[trigger] self.nodes@[i]).id.value as int == i)
    }

    /// The memoized order of node `i`, when present, is its true
    /// traversal order.
    pub open spec fn memo_valid(self, i: int) -> bool {
        self.nodes@[i].backward_graph@.len() == 0 || is_topo(
            self@,
            i,
            self.nodes@[i].backward_graph@,
        )
    }

    pub open spec fn wf(self) -> bool {
        &&& self.wf_core()
        &&& (forall|i: int| 0 <= i < self.nodes@.len() ==> #[trigger] self.memo_valid(i))
    }

    pub fn new() -> (e: Engine)
        ensures
            e.wf(),
            e@.len() == 0,
            e.seed == 0,
    {
        Engine { nodes: Vec::new(), seed: 0 }
    }

    /// Configures the process-wide deterministic seed for random leaf
    /// initialization; zero means non-deterministic.  The switch is set
    /// at most once, before any random leaf is drawn.
    pub fn set_seed(&mut self, seed: u64)
        requires
            old(self).seed == 0,
        ensures
            final(self).nodes == old(self).nodes,
            final(self).seed == seed,
    {
        self.seed = seed;
    }

    pub fn len(&self) -> (n: usize)
        ensures
            n == self@.len(),
    {
        self.nodes.len()
    }

    pub fn get_value(&self, i: usize) -> (r: Rat)
        requires
            i < self@.len(),
        ensures
            r@ == self@[i as int].value,
    {
        self.nodes[i].value
    }

    pub fn get_grad(&self, i: usize) -> (r: Rat)
        requires
            i < self@.len(),
        ensures
            r@ == self@[i as int].grad,
    {
        self.nodes[i].grad
    }

    pub fn get_needs_grad(&self, i: usize) -> (r: bool)
        requires
            i < self@.len(),
        ensures
            r == self@[i as int].needs_grad,
    {
        self.nodes[i].needs_grad
    }

    pub fn get_operation(&self, i: usize) -> (r: Operation)
        requires
            i < self@.len(),
        ensures
            r == self@[i as int].operation,
    {
        self.nodes[i].operation
    }

    pub fn get_id(&self, i: usize) -> (r: Identifier)
        requires
            i < self@.len(),
        ensures
            r == self.nodes@[i as int].id,
    {
        self.nodes[i].id
    }

    /// Stores a new scalar into a node, typically a leaf before the next
    /// forward pass.
    pub fn set_value(&mut self, i: usize, r: Rat)
        requires
            old(self).wf(),
            i < old(self)@.len(),
            r.wf(),
        ensures
            final(self).wf(),
            final(self).seed == old(self).seed,
            final(self)@ == old(self)@.update(
                i as int,
                (GNode {
                    value: r@,
                    grad: old(self)@[i as int].grad,
                    needs_grad: old(self)@[i as int].needs_grad,
                    operation: old(self)@[i as int].operation,
                    prev: old(self)@[i as int].prev,
                    reset: old(self)@[i as int].reset,
                }),
            ),
    {
        let ghost e1 = *self;
        let nd = &mut self.nodes[i];
        nd.value = r;
        proof {
            assert forall|t: int|
                0 <= t < e1.nodes@.len() implies (#[trigger] e1.nodes@[t]).value.wf()
                && e1.nodes@[t].grad.wf() by {
                assert(crate::model::node_wf(e1@, t));
                assert(e1@[t] == e1.nodes@[t]@);
            }
            lemma_wf_update(e1, *self);
            assert(self@ =~= e1@.update(i as int, self@[i as int]));
        }
    }

    /// Stores a gradient into a node; `backward` requires the caller to
    /// seed the target's gradient this way first.
    pub fn set_grad(&mut self, i: usize, r: Rat)
        requires
            old(self).wf(),
            i < old(self)@.len(),
            r.wf(),
        ensures
            final(self).wf(),
            final(self).seed == old(self).seed,
            final(self)@ == old(self)@.update(
                i as int,
                (GNode {
                    value: old(self)@[i as int].value,
                    grad: r@,
                    needs_grad: old(self)@[i as int].needs_grad,
                    operation: old(self)@[i as int].operation,
                    prev: old(self)@[i as int].prev,
                    reset: old(self)@[i as int].reset,
                }),
            ),
    {
        let ghost e1 = *self;
        let nd = &mut self.nodes[i];
        nd.grad = r;
        proof {
            assert forall|t: int|
                0 <= t < e1.nodes@.len() implies (#[trigger] e1.nodes@[t]).value.wf()
                && e1.nodes@[t].grad.wf() by {
                assert(crate::model::node_wf(e1@, t));
                assert(e1@[t] == e1.nodes@[t]@);
            }
            lemma_wf_update(e1, *self);
            assert(self@ =~= e1@.update(i as int, self@[i as int]));
        }
    }

    /// Marks or unmarks a node as taking part in gradient propagation.
    pub fn set_needs_grad(&mut self, i: usize, b: bool)
        requires
            old(self).wf(),
            i < old(self)@.len(),
        ensures
            final(self).wf(),
            final(self).seed == old(self).seed,
            final(self)@ == old(self)@.update(
                i as int,
                (GNode {
                    value: old(self)@[i as int].value,
                    grad: old(self)@[i as int].grad,
                    needs_grad: b,
                    operation: old(self)@[i as int].operation,
                    prev: old(self)@[i as int].prev,
                    reset: old(self)@[i as int].reset,
                }),
            ),
    {
        let ghost e1 = *self;
        let nd = &mut self.nodes[i];
        nd.needs_grad = b;
        proof {
            assert forall|t: int|
                0 <= t < e1.nodes@.len() implies (#[trigger] e1.nodes@[t]).value.wf()
                && e1.nodes@[t].grad.wf() by {
                assert(crate::model::node_wf(e1@, t));
                assert(e1@[t] == e1.nodes@[t]@);
            }
            lemma_wf_update(e1, *self);
            assert(self@ =~= e1@.update(i as int, self@[i as int]));
        }
    }
}

impl Engine {
    /// Appends a freshly built node; its identifier is its index and its
    /// memoized order starts empty.
    pub(crate) fn push_node(&mut self, operation: Operation, previous_nodes: Vec<usize>, value: Rat, needs_grad: bool) -> (i: usize)
        requires
            old(self).wf(),
            old(self)@.len() < 0x1_0000_0000,
            previous_nodes@.len() == operation.arity(),
            forall|k: int|
                0 <= k < previous_nodes@.len() ==> ((#[trigger] previous_nodes@[k]) as int)
                    < old(self)@.len(),
            value.wf(),
        ensures
            final(self).wf(),
            final(self).seed == old(self).seed,
            i == old(self)@.len(),
            final(self)@ == old(self)@.push(
                (GNode {
                    value: value@,
                    grad: ratio_zero(),
                    needs_grad: needs_grad,
                    operation: operation,
                    prev: previous_nodes@.map_values(|x: usize| x as int),
                    reset: false,
                }),
            ),
    {
        let ghost e1 = *self;
        let i = self.nodes.len();
        let node = Value {
            value,
            grad: Rat::zero(),
            needs_grad,
            id: Identifier { value: i as u32 },
            operation,
            previous_nodes,
            has_been_reset: false,
            backward_graph: Vec::new(),
        };
        self.nodes.push(node);
        proof {
            lemma_wf_push(e1, *self);
            assert(self@ =~= e1@.push(self@[i as int]));
        }
        i
    }

    /// Builds the sum node of two existing nodes.  The fresh node holds
    /// the exact sum of the operands' current values, takes part in
    /// gradient propagation, and starts with gradient zero.  `None` is
    /// returned, and nothing changes, only when the sum cannot be stored.
    pub fn add(&mut self, left: usize, right: usize) -> (r: Option<usize>)
        requires
            old(self).wf(),
            left < old(self)@.len(),
            right < old(self)@.len(),
            old(self)@.len() < 0x1_0000_0000,
        ensures
            final(self).wf(),
            final(self).seed == old(self).seed,
            r matches Some(i) ==> {
                &&& i == old(self)@.len()
                &&& final(self)@.len() == old(self)@.len() + 1
                &&& final(self)@.take(old(self)@.len() as int) == old(self)@
                &&& ({
                    let nd = final(self)@[i as int];
                    &&& nd.operation == Operation::ADD
                    &&& nd.prev == seq![left as int, right as int]
                    &&& nd.needs_grad
                    &&& !nd.reset
                    &&& nd.grad == ratio_zero()
                    &&& models(
                        nd.value,
                        ratio_add(
                            old(self)@[left as int].value,
                            old(self)@[right as int].value,
                        ),
                    )
                })
            },
            r is None ==> *final(self) == *old(self),
            fits(ratio_add(old(self)@[left as int].value, old(self)@[right as int].value))
                ==> r is Some,
    {
        proof {
            assert(node_wf(self@, left as int));
            assert(node_wf(self@, right as int));
        }
        let a = self.nodes[left].value;
        let b = self.nodes[right].value;
        match a.checked_add(&b) {
            None => None,
            Some(val) => {
                let ghost e1 = *self;
                let mut prev: Vec<usize> = Vec::new();
                prev.push(left);
                prev.push(right);
                let i = self.push_node(Operation::ADD, prev, val, true);
                proof {
                    assert(self@[i as int].prev =~= seq![left as int, right as int]);
                    assert(self@.take(e1@.len() as int) =~= e1@);
                }
                Some(i)
            },
        }
    }

    /// Builds the product node of two existing nodes; the two operand
    /// slots may name the same node, which is how squaring is expressed.
    /// `None` is returned, and nothing changes, only when the product
    /// cannot be stored.
    pub fn mul(&mut self, left: usize, right: usize) -> (r: Option<usize>)
        requires
            old(self).wf(),
            left < old(self)@.len(),
            right < old(self)@.len(),
            old(self)@.len() < 0x1_0000_0000,
        ensures
            final(self).wf(),
            final(self).seed == old(self).seed,
            r matches Some(i) ==> {
                &&& i == old(self)@.len()
                &&& final(self)@.len() == old(self)@.len() + 1
                &&& final(self)@.take(old(self)@.len() as int) == old(self)@
                &&& ({
                    let nd = final(self)@[i as int];
                    &&& nd.operation == Operation::MUL
                    &&& nd.prev == seq![left as int, right as int]
                    &&& nd.needs_grad
                    &&& !nd.reset
                    &&& nd.grad == ratio_zero()
                    &&& models(
                        nd.value,
                        ratio_mul(
                            old(self)@[left as int].value,
                            old(self)@[right as int].value,
                        ),
                    )
                })
            },
            r is None ==> *final(self) == *old(self),
            fits(ratio_mul(old(self)@[left as int].value, old(self)@[right as int].value))
                ==> r is Some,
    {
        proof {
            assert(node_wf(self@, left as int));
            assert(node_wf(self@, right as int));
        }
        let a = self.nodes[left].value;
        let b = self.nodes[right].value;
        match a.checked_mul(&b) {
            None => None,
            Some(val) => {
                let ghost e1 = *self;
                let mut prev: Vec<usize> = Vec::new();
                prev.push(left);
                prev.push(right);
                let i = self.push_node(Operation::MUL, prev, val, true);
                proof {
                    assert(self@[i as int].prev =~= seq![left as int, right as int]);
                    assert(self@.take(e1@.len() as int) =~= e1@);
                }
                Some(i)
            },
        }
    }

    /// Builds the rectified-linear node of an existing node: its value is
    /// the operand's current value when strictly positive, zero
    /// otherwise.  Rectification never fails.
    pub fn relu(&mut self, node: usize) -> (r: usize)
        requires
            old(self).wf(),
            node < old(self)@.len(),
            old(self)@.len() < 0x1_0000_0000,
        ensures
            final(self).wf(),
            final(self).seed == old(self).seed,
            r == old(self)@.len(),
            final(self)@.len() == old(self)@.len() + 1,
            final(self)@.take(old(self)@.len() as int) == old(self)@,
            ({
                let nd = final(self)@[r as int];
                &&& nd.operation == Operation::RELU
                &&& nd.prev == seq![node as int]
                &&& nd.needs_grad
                &&& !nd.reset
                &&& nd.grad == ratio_zero()
                &&& nd.value == crate::rational::ratio_relu(old(self)@[node as int].value)
            }),
    {
        proof {
            assert(node_wf(self@, node as int));
        }
        let v = self.nodes[node].value;
        let val = if v.is_positive() {
            v
        } else {
            Rat::zero()
        };
        let ghost e1 = *self;
        let mut prev: Vec<usize> = Vec::new();
        prev.push(node);
        let i = self.push_node(Operation::RELU, prev, val, true);
        proof {
            assert(self@[i as int].prev =~= seq![node as int]);
            assert(self@.take(e1@.len() as int) =~= e1@);
        }
        i
    }

    /// Negation, derived as multiplication by a fresh literal leaf
    /// holding minus one.  On success the leaf stands at the old length
    /// and the product node right after it; when the product cannot be
    /// stored only the leaf has been appended.
    pub fn inv(&mut self, node: usize) -> (r: Option<usize>)
        requires
            old(self).wf(),
            node < old(self)@.len(),
            old(self)@.len() + 2 <= 0x1_0000_0000,
        ensures
            final(self).wf(),
            final(self).seed == old(self).seed,
            final(self)@.take(old(self)@.len() as int) == old(self)@,
            final(self)@.len() > old(self)@.len(),
            final(self)@[old(self)@.len() as int] == (GNode {
                value: Ratio { n: -1, d: 1 },
                grad: ratio_zero(),
                needs_grad: false,
                operation: Operation::NONE,
                prev: Seq::empty(),
                reset: false,
            }),
            r matches Some(i) ==> {
                &&& i == old(self)@.len() + 1
                &&& final(self)@.len() == old(self)@.len() + 2
                &&& ({
                    let nd = final(self)@[i as int];
                    &&& nd.operation == Operation::MUL
                    &&& nd.prev == seq![node as int, old(self)@.len() as int]
                    &&& nd.needs_grad
                    &&& !nd.reset
                    &&& nd.grad == ratio_zero()
                    &&& models(
                        nd.value,
                        ratio_mul(old(self)@[node as int].value, (Ratio { n: -1, d: 1 })),
                    )
                })
            },
            fits(ratio_mul(old(self)@[node as int].value, (Ratio { n: -1, d: 1 })))
                ==> r is Some,
    {
        let m1 = crate::engine::Value::from(self, Rat::from_int(-1));
        let ghost emid = *self;
        let r = self.mul(node, m1);
        proof {
            if r is Some {
                assert(self@.take(emid@.len() as int)[m1 as int] == emid@[m1 as int]);
            }
        }
        r
    }

    /// Squaring, derived as the product of a node with itself: both
    /// operand slots name the same node, so backward propagation adds the
    /// contribution of each slot into that one node.
    pub fn pow(&mut self, node: usize) -> (r: Option<usize>)
        requires
            old(self).wf(),
            node < old(self)@.len(),
            old(self)@.len() < 0x1_0000_0000,
        ensures
            final(self).wf(),
            final(self).seed == old(self).seed,
            r matches Some(i) ==> {
                &&& i == old(self)@.len()
                &&& final(self)@.len() == old(self)@.len() + 1
                &&& final(self)@.take(old(self)@.len() as int) == old(self)@
                &&& ({
                    let nd = final(self)@[i as int];
                    &&& nd.operation == Operation::MUL
                    &&& nd.prev == seq![node as int, node as int]
                    &&& nd.needs_grad
                    &&& !nd.reset
                    &&& nd.grad == ratio_zero()
                    &&& models(
                        nd.value,
                        ratio_mul(
                            old(self)@[node as int].value,
                            old(self)@[node as int].value,
                        ),
                    )
                })
            },
            r is None ==> *final(self) == *old(self),
            fits(
                ratio_mul(old(self)@[node as int].value, old(self)@[node as int].value),
            ) ==> r is Some,
    {
        self.mul(node, node)
    }
}

/// A state whose nodes keep their construction data and memoized orders,
/// with well-formed scalars, stays well formed: memo validity depends
/// only on the operand lists.
pub proof fn lemma_wf_update(e1: Engine, e2: Engine)
    requires
        e1.wf(),
        e2.nodes@.len() == e1.nodes@.len(),
        forall|i: int|
            0 <= i < e1.nodes@.len() ==> {
                let n1 = e1.nodes@[i];
                let n2 = #[trigger] e2.nodes@[i];
                &&& n2.operation == n1.operation
                &&& n2.previous_nodes@ == n1.previous_nodes@
                &&& n2.id == n1.id
                &&& n2.backward_graph@ == n1.backward_graph@
                &&& n2.value.wf()
                &&& n2.grad.wf()
            },
    ensures
        e2.wf(),
{
    assert forall|i: int| 0 <= i < e2@.len() implies (#[trigger] e2@[i]).prev == e1@[i].prev by {
        assert(e2.nodes@[i].previous_nodes@ == e1.nodes@[i].previous_nodes@);
    }
    assert forall|i: int| 0 <= i < e2@.len() implies #[trigger] node_wf(e2@, i) by {
        assert(node_wf(e1@, i));
    }
    assert forall|i: int| 0 <= i < e2.nodes@.len() implies #[trigger] e2.memo_valid(i) by {
        assert(e1.memo_valid(i));
        if e2.nodes@[i].backward_graph@.len() != 0 {
            crate::model::lemma_is_topo_prefix(e1@, e2@, i, e2.nodes@[i].backward_graph@);
        }
    }
}

/// A state extended by one fresh node with smaller-index operands, an
/// identifier equal to its index, and an empty memo stays well formed.
pub proof fn lemma_wf_push(e1: Engine, e2: Engine)
    requires
        e1.wf(),
        e2.nodes@.len() == e1.nodes@.len() + 1,
        forall|i: int| 0 <= i < e1.nodes@.len() ==> #[trigger] e2.nodes@[i] == e1.nodes@[i],
        ({
            let nd = e2.nodes@[e1.nodes@.len() as int];
            &&& nd.previous_nodes@.len() == nd.operation.arity()
            &&& (forall|k: int|
                0 <= k < nd.previous_nodes@.len() ==> ((#[trigger] nd.previous_nodes@[k]) as int)
                    < e1.nodes@.len())
            &&& nd.id.value as int == e1.nodes@.len()
            &&& nd.backward_graph@.len() == 0
            &&& nd.value.wf()
            &&& nd.grad.wf()
        }),
        e1.nodes@.len() < 0x1_0000_0000,
    ensures
        e2.wf(),
        e2@ == e1@.push(e2@[e1.nodes@.len() as int]),
{
    let n = e1.nodes@.len() as int;
    assert forall|i: int| 0 <= i < n implies (#[trigger] e2@[i]) == e1@[i] by {
        assert(e2.nodes@[i] == e1.nodes@[i]);
    }
    assert(e2@ =~= e1@.push(e2@[n]));
    assert forall|i: int| 0 <= i < e2@.len() implies #[trigger] node_wf(e2@, i) by {
        if i < n {
            assert(node_wf(e1@, i));
        }
    }
    assert forall|i: int| 0 <= i < e2.nodes@.len() implies #[trigger] e2.memo_valid(i) by {
        if i < n {
            assert(e1.memo_valid(i));
            if e2.nodes@[i].backward_graph@.len() != 0 {
                crate::model::lemma_is_topo_prefix(e1@, e2@, i, e2.nodes@[i].backward_graph@);
            }
        }
    }
}

} // verus!
