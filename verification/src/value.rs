use vstd::prelude::*;

use rand::Rng;
use rand::SeedableRng;

use crate::engine::{lemma_wf_update, Engine, Value};
use crate::model::GNode;
use crate::operation::Operation;
use crate::rational::{ratio_zero, Rat};

verus! {

/// Relies on rand::thread_rng and rand::Rng::gen_range: a draw from a
/// constant non-empty range lies within that range.
#[verifier::external_body]
fn draw_index() -> (r: u64)
    ensures
        r < 1048576,
{
    rand::thread_rng().gen_range(0u64..1048576u64)
}

/// What a freshly seeded deterministic generator draws from the unit
/// grid: a pure function of the seed, the same in every process and on
/// every machine.
pub uninterp spec fn seeded_draw_of(seed: u64) -> u64;

/// Relies on rand_chacha::ChaCha8Rng::seed_from_u64 (a pure expansion of
/// the seed) and rand::Rng::gen_range: the draw is a function of the
/// seed alone and lies within the constant non-empty range.
#[verifier::external_body]
fn draw_index_seeded(seed: u64) -> (r: u64)
    ensures
        r == seeded_draw_of(seed),
        r < 1048576,
{
    rand_chacha::ChaCha8Rng::seed_from_u64(seed).gen_range(0u64..1048576u64)
}

impl Value {
    /// Builds a literal leaf holding the given scalar: gradient zero, not
    /// yet taking part in gradient propagation.
    pub fn from(eng: &mut Engine, value: Rat) -> (i: usize)
        requires
            old(eng).wf(),
            old(eng)@.len() < 0x1_0000_0000,
            value.wf(),
        ensures
            final(eng).wf(),
            final(eng).seed == old(eng).seed,
            i == old(eng)@.len(),
            final(eng)@ == old(eng)@.push(
                (GNode {
                    value: value@,
                    grad: ratio_zero(),
                    needs_grad: false,
                    operation: Operation::NONE,
                    prev: Seq::empty(),
                    reset: false,
                }),
            ),
    {
        let i = eng.push_node(Operation::NONE, Vec::new(), value, false);
        proof {
            assert(final(eng)@[i as int].prev =~= Seq::<int>::empty());
            assert(final(eng)@ =~= old(eng)@.push(
                (GNode {
                    value: value@,
                    grad: ratio_zero(),
                    needs_grad: false,
                    operation: Operation::NONE,
                    prev: Seq::empty(),
                    reset: false,
                }),
            ));
        }
        i
    }

    /// Builds a random leaf: its value is drawn uniformly from the
    /// 2^20-step grid of [0, 1) — from the thread generator when no seed
    /// is configured, else from a deterministic generator seeded with the
    /// engine's configured seed, so that repeated runs, and repeated
    /// draws within a run, reproduce the same initialization.
    pub fn random(eng: &mut Engine) -> (i: usize)
        requires
            old(eng).wf(),
            old(eng)@.len() < 0x1_0000_0000,
        ensures
            final(eng).wf(),
            final(eng).seed == old(eng).seed,
            i == old(eng)@.len(),
            final(eng)@.len() == old(eng)@.len() + 1,
            final(eng)@.take(old(eng)@.len() as int) == old(eng)@,
            ({
                let nd = final(eng)@[i as int];
                &&& nd.operation == Operation::NONE
                &&& nd.prev == Seq::<int>::empty()
                &&& !nd.needs_grad
                &&& !nd.reset
                &&& nd.grad == ratio_zero()
                &&& 0 <= nd.value.n < 1048576
                &&& nd.value.d == 1048576
                &&& (old(eng).seed != 0 ==> nd.value.n == seeded_draw_of(old(eng).seed) as int)
            }),
    {
        let draw: u64 = if eng.seed == 0 {
            draw_index()
        } else {
            draw_index_seeded(eng.seed)
        };
        let v = Rat::new(draw as i64, 1048576);
        let ghost e1 = *eng;
        let i = eng.push_node(Operation::NONE, Vec::new(), v, false);
        proof {
            assert(final(eng)@[i as int].prev =~= Seq::<int>::empty());
            assert(final(eng)@.take(e1@.len() as int) =~= e1@);
        }
        i
    }

    /// Clears a node's gradient accumulator and raises its pending-reset
    /// marker; the next backward pass propagates the marker to every
    /// consumer so no stale gradient survives.
    pub fn zero_grad(eng: &mut Engine, i: usize)
        requires
            old(eng).wf(),
            i < old(eng)@.len(),
        ensures
            final(eng).wf(),
            final(eng).seed == old(eng).seed,
            final(eng)@ == old(eng)@.update(
                i as int,
                (GNode {
                    value: old(eng)@[i as int].value,
                    grad: ratio_zero(),
                    needs_grad: old(eng)@[i as int].needs_grad,
                    operation: old(eng)@[i as int].operation,
                    prev: old(eng)@[i as int].prev,
                    reset: true,
                }),
            ),
    {
        let ghost e1 = *eng;
        let nd = &mut eng.nodes[i];
        nd.grad = Rat::zero();
        nd.has_been_reset = true;
        proof {
            assert forall|t: int|
                0 <= t < e1.nodes@.len() implies (#[trigger] e1.nodes@[t]).value.wf()
                && e1.nodes@[t].grad.wf() by {
                assert(crate::model::node_wf(e1@, t));
                assert(e1@[t] == e1.nodes@[t]@);
            }
            lemma_wf_update(e1, *eng);
            assert(eng@ =~= e1@.update(i as int, eng@[i as int]));
        }
    }
}

/// Computes the traversal order of a root: the ascending list of every
/// node reachable from it through operand edges, the root excluded.  A
/// descending sweep suffices to close the reachable set because every
/// operand index is smaller than its consumer's, and it keeps the call
/// stack flat no matter how deep the graph is.
#[verifier::loop_isolation(false)]
fn compute_order(eng: &Engine, root: usize) -> (ord: Vec<usize>)
    requires
        eng.wf(),
        root < eng@.len(),
    ensures
        crate::model::is_topo(eng@, root as int, ord@),
{
    let n = eng.nodes.len();
    let mut marked: Vec<bool> = Vec::new();
    let mut t: usize = 0;
    while t < n
        invariant
            marked@.len() == t,
            t <= n,
            forall|q: int| 0 <= q < t ==> !(#[trigger] marked@[q]),
        decreases n - t,
    {
        marked.push(false);
        t += 1;
    }
    marked[root] = true;
    let mut i: usize = root + 1;
    while i > 0
        invariant
            i <= root + 1,
            marked@.len() == n,
            marked@[root as int],
            forall|j: int|
                0 <= j < n && #[trigger] marked@[j] ==> j == root as int || crate::model::reaches(
                    eng@,
                    root as int,
                    j,
                ),
            forall|j: int| root < j < n ==> !(#[trigger] marked@[j]),
            forall|t2: int, k: int|
                i <= t2 < n && marked@[t2] && 0 <= k < eng@[t2].prev.len() && 0 <= (
                #[trigger] eng@[t2].prev[k]) < n ==> marked@[eng@[t2].prev[k]],
        decreases i,
    {
        i -= 1;
        if marked[i] {
            let m = eng.nodes[i].previous_nodes.len();
            let mut k: usize = 0;
            while k < m
                invariant
                    k <= m,
                    m == eng@[i as int].prev.len(),
                    marked@.len() == n,
                    marked@[root as int],
                    marked@[i as int],
                    forall|j: int|
                        0 <= j < n && #[trigger] marked@[j] ==> j == root as int
                            || crate::model::reaches(eng@, root as int, j),
                    forall|j: int| root < j < n ==> !(#[trigger] marked@[j]),
                    forall|t2: int, kk: int|
                        i < t2 < n && marked@[t2] && 0 <= kk < eng@[t2].prev.len() && 0 <= (
                        #[trigger] eng@[t2].prev[kk]) < n ==> marked@[eng@[t2].prev[kk]],
                    forall|kk: int|
                        0 <= kk < k && 0 <= (#[trigger] eng@[i as int].prev[kk]) < n ==> marked@[
                            eng@[i as int].prev[kk]
                        ],
                decreases m - k,
            {
                proof {
                    assert(crate::model::node_wf(eng@, i as int));
                    if i as int == root as int {
                        crate::model::lemma_reaches_edge(eng@, root as int, k as int);
                    } else {
                        crate::model::lemma_reaches_extend(eng@, root as int, i as int, k as int);
                    }
                }
                let p = eng.nodes[i].previous_nodes[k];
                marked[p] = true;
                k += 1;
            }
        }
    }
    proof {
        assert forall|t2: int, k: int|
            0 <= t2 < n && marked@[t2] && 0 <= k < eng@[t2].prev.len() implies marked@[
            #[trigger] eng@[t2].prev[k]
        ] by {
            assert(crate::model::node_wf(eng@, t2));
        }
        assert forall|j: int|
            crate::model::reaches(eng@, root as int, j) implies 0 <= j < n && marked@[j] by {
            crate::model::lemma_closed_marked(eng@, marked@, root as int, j);
        }
    }
    let mut ord: Vec<usize> = Vec::new();
    let mut j: usize = 0;
    while j < root
        invariant
            j <= root,
            forall|q: int| 0 <= q < ord@.len() ==> ((#[trigger] ord@[q]) as int) < j,
            forall|q1: int, q2: int|
                0 <= q1 < q2 < ord@.len() ==> (#[trigger] ord@[q1]) < (#[trigger] ord@[q2]),
            forall|t2: int|
                0 <= t2 < j ==> (marked@[t2] <==> crate::model::ord_contains(ord@, t2)),
        decreases root - j,
    {
        let ghost ord0 = ord@;
        if marked[j] {
            ord.push(j);
            proof {
                assert(ord@[ord@.len() - 1] == j);
                assert(crate::model::ord_contains(ord@, j as int));
                assert forall|t2: int|
                    0 <= t2 < j && crate::model::ord_contains(ord0, t2) implies {
                    crate::model::ord_contains(ord@, t2)
                } by {
                    let q = choose|q: int| 0 <= q < ord0.len() && (#[trigger] ord0[q]) as int == t2;
                    assert(ord@[q] as int == t2);
                }
                assert forall|t2: int|
                    0 <= t2 < j && crate::model::ord_contains(ord@, t2) implies {
                    crate::model::ord_contains(ord0, t2)
                } by {
                    let q = choose|q: int| 0 <= q < ord@.len() && (#[trigger] ord@[q]) as int == t2;
                    assert(q < ord0.len());
                    assert(ord0[q] as int == t2);
                }
            }
        }
        j += 1;
    }
    proof {
        assert forall|jj: int|
            crate::model::ord_contains(ord@, jj) implies crate::model::reaches(
            eng@,
            root as int,
            jj,
        ) by {
            let q = choose|q: int| 0 <= q < ord@.len() && (#[trigger] ord@[q]) as int == jj;
            assert((ord@[q] as int) < root);
            assert(marked@[jj]);
        }
        assert forall|jj: int|
            crate::model::reaches(eng@, root as int, jj) implies crate::model::ord_contains(
            ord@,
            jj,
        ) by {
            crate::model::lemma_reaches_below(eng@, root as int, jj);
            assert(marked@[jj]);
        }
    }
    ord
}

/// Computes and memoizes the traversal order of a node on first use;
/// later calls reuse the stored order, which stays valid because operand
/// lists never change after construction.
#[verifier::loop_isolation(false)]
fn ensure_order(eng: &mut Engine, root: usize)
    requires
        old(eng).wf(),
        root < old(eng)@.len(),
    ensures
        final(eng).wf(),
        final(eng).seed == old(eng).seed,
        final(eng)@ == old(eng)@,
        final(eng).nodes@.len() == old(eng).nodes@.len(),
        forall|t: int|
            0 <= t < old(eng).nodes@.len() && t != root as int ==> final(eng).nodes@[t] == old(
                eng,
            ).nodes@[t],
        ({
            let n1 = old(eng).nodes@[root as int];
            let n2 = final(eng).nodes@[root as int];
            &&& n2.value == n1.value
            &&& n2.grad == n1.grad
            &&& n2.needs_grad == n1.needs_grad
            &&& n2.id == n1.id
            &&& n2.operation == n1.operation
            &&& n2.previous_nodes == n1.previous_nodes
            &&& n2.has_been_reset == n1.has_been_reset
        }),
        crate::model::is_topo(
            final(eng)@,
            root as int,
            final(eng).nodes@[root as int].backward_graph@,
        ),
{
    if eng.nodes[root].backward_graph.len() == 0 {
        let ord = compute_order(eng, root);
        let ghost e1 = *eng;
        let nd = &mut eng.nodes[root];
        nd.backward_graph = ord;
        proof {
            assert forall|t: int| 0 <= t < e1.nodes@.len() implies #[trigger] eng@[t] == e1@[t] by {
                assert(eng.nodes@[t]@ == e1.nodes@[t]@);
            }
            assert(eng@ =~= e1@);
            assert forall|t: int|
                0 <= t < eng.nodes@.len() implies #[trigger] eng.memo_valid(t) by {
                if t == root as int {
                    assert(crate::model::is_topo(e1@, root as int, ord@));
                } else {
                    assert(e1.memo_valid(t));
                }
            }
        }
    } else {
        proof {
            assert(eng.memo_valid(root as int));
        }
    }
}

/// Recomputes one node's value from its operands' current values, as the
/// per-operation forward rules prescribe; leaves are left untouched.
/// Returns false, changing nothing, only when the exact result cannot be
/// stored.
fn forward_step(eng: &mut Engine, j: usize) -> (ok: bool)
    requires
        old(eng).wf(),
        j < old(eng)@.len(),
    ensures
        final(eng).wf(),
        final(eng).seed == old(eng).seed,
        final(eng).nodes@.len() == old(eng).nodes@.len(),
        forall|t: int|
            0 <= t < old(eng).nodes@.len() && t != j as int ==> final(eng).nodes@[t] == old(
                eng,
            ).nodes@[t],
        ({
            let n1 = old(eng).nodes@[j as int];
            let n2 = final(eng).nodes@[j as int];
            &&& n2.grad == n1.grad
            &&& n2.needs_grad == n1.needs_grad
            &&& n2.id == n1.id
            &&& n2.operation == n1.operation
            &&& n2.previous_nodes == n1.previous_nodes
            &&& n2.has_been_reset == n1.has_been_reset
            &&& n2.backward_graph == n1.backward_graph
        }),
        ok ==> crate::rational::models(
            final(eng)@[j as int].value,
            crate::model::step_exact(old(eng)@, j as int),
        ),
        crate::rational::fits(crate::model::step_exact(old(eng)@, j as int)) ==> ok,
        !ok ==> *final(eng) == *old(eng),
        old(eng)@[j as int].operation == Operation::NONE ==> *final(eng) == *old(eng),
{
    proof {
        assert(crate::model::node_wf(eng@, j as int));
    }
    let op = eng.nodes[j].operation;
    match op {
        Operation::NONE => {
            proof {
                crate::rational::lemma_models_refl(eng@[j as int].value);
            }
            true
        },
        Operation::ADD | Operation::MUL => {
            let p0 = eng.nodes[j].previous_nodes[0];
            let p1 = eng.nodes[j].previous_nodes[1];
            proof {
                assert(eng@[j as int].prev[0] == p0 as int);
                assert(eng@[j as int].prev[1] == p1 as int);
                assert(0 <= (p0 as int) < j as int);
                assert(0 <= (p1 as int) < j as int);
                assert(crate::model::node_wf(eng@, p0 as int));
                assert(crate::model::node_wf(eng@, p1 as int));
            }
            let a = eng.nodes[p0].value;
            let b = eng.nodes[p1].value;
            let res = if matches!(op, Operation::ADD) {
                a.checked_add(&b)
            } else {
                a.checked_mul(&b)
            };
            match res {
                None => false,
                Some(val) => {
                    let ghost e1 = *eng;
                    let nd = &mut eng.nodes[j];
                    nd.value = val;
                    proof {
                        assert forall|t: int|
                            0 <= t < e1.nodes@.len() implies (#[trigger] e1.nodes@[t]).value.wf()
                            && e1.nodes@[t].grad.wf() by {
                            assert(crate::model::node_wf(e1@, t));
                            assert(e1@[t] == e1.nodes@[t]@);
                        }
                        crate::engine::lemma_wf_update(e1, *eng);
                    }
                    true
                },
            }
        },
        Operation::RELU => {
            let p0 = eng.nodes[j].previous_nodes[0];
            proof {
                assert(eng@[j as int].prev[0] == p0 as int);
                assert(0 <= (p0 as int) < j as int);
                assert(crate::model::node_wf(eng@, p0 as int));
            }
            let a = eng.nodes[p0].value;
            let val = if a.is_positive() {
                a
            } else {
                Rat::zero()
            };
            let ghost e1 = *eng;
            let nd = &mut eng.nodes[j];
            nd.value = val;
            proof {
                assert forall|t: int|
                    0 <= t < e1.nodes@.len() implies (#[trigger] e1.nodes@[t]).value.wf()
                    && e1.nodes@[t].grad.wf() by {
                    assert(crate::model::node_wf(e1@, t));
                    assert(e1@[t] == e1.nodes@[t]@);
                }
                crate::engine::lemma_wf_update(e1, *eng);
                crate::rational::lemma_models_refl(val@);
            }
            true
        },
    }
}

impl Value {
    /// The forward evaluator: recomputes every ancestor of the target in
    /// child-first order from the current leaf values, then the target
    /// itself, walking the memoized traversal order.  Gradients, markers
    /// and the graph's structure are untouched; nodes outside the
    /// target's ancestry keep their values.  On success every recomputed
    /// value represents its node's exact recomputed fraction; the pass
    /// succeeds whenever every exact recomputed fraction fits in storage.
    #[verifier::loop_isolation(false)]
    pub fn forward(eng: &mut Engine, root: usize) -> (ok: bool)
        requires
            old(eng).wf(),
            root < old(eng)@.len(),
        ensures
            final(eng).wf(),
            final(eng).seed == old(eng).seed,
            crate::model::same_but_values(old(eng)@, final(eng)@),
            forall|j: int|
                0 <= j < old(eng)@.len() && !(j == root as int || crate::model::reaches(
                    old(eng)@,
                    root as int,
                    j,
                )) ==> final(eng)@[j].value == old(eng)@[j].value,
            ok ==> (forall|j: int|
                0 <= j < old(eng)@.len() && (j == root as int || crate::model::reaches(
                    old(eng)@,
                    root as int,
                    j,
                )) ==> crate::rational::models(
                    final(eng)@[j].value,
                    crate::model::eval(old(eng)@, j),
                )),
            !ok ==> (forall|j: int|
                0 <= j < old(eng)@.len() ==> final(eng)@[j].value == old(eng)@[j].value
                    || crate::rational::models(
                    final(eng)@[j].value,
                    crate::model::eval(old(eng)@, j),
                )),
            forall|j: int|
                0 <= j < old(eng)@.len() && (#[trigger] old(eng)@[j]).operation
                    == Operation::NONE ==> final(eng)@[j].value == old(eng)@[j].value,
            crate::model::eval_fits(old(eng)@, root as int) ==> ok,
    {
        ensure_order(eng, root);
        let ghost v0 = eng@;
        let ghost ord = eng.nodes@[root as int].backward_graph@;
        let n = eng.nodes[root].backward_graph.len();
        let mut p: usize = 0;
        while p < n
            invariant
                eng.wf(),
                eng@.len() == v0.len(),
                eng.seed == old(eng).seed,
                p <= n,
                n == ord.len(),
                eng.nodes@[root as int].backward_graph@ == ord,
                crate::model::is_topo(v0, root as int, ord),
                crate::model::same_but_values(v0, eng@),
                forall|q: int|
                    0 <= q < p ==> crate::rational::models(
                        eng@[(#[trigger] ord[q]) as int].value,
                        crate::model::eval(v0, ord[q] as int),
                    ),
                forall|t: int|
                    0 <= t < v0.len() && !crate::model::ord_contains(ord.take(p as int), t)
                        ==> eng@[t].value == v0[t].value,
                forall|t: int|
                    0 <= t < v0.len() && (#[trigger] v0[t]).operation == Operation::NONE
                        ==> eng@[t].value == v0[t].value,
            decreases n - p,
        {
            let j = eng.nodes[root].backward_graph[p];
            let ghost vpre = eng@;
            proof {
                assert(j == ord[p as int]);
                assert((j as int) < root as int);
                crate::model::lemma_step_congruence(
                    vpre,
                    v0,
                    root as int,
                    ord,
                    p as int,
                    j as int,
                );
            }
            let sok = forward_step(eng, j);
            if !sok {
                proof {
                    if crate::model::eval_fits(v0, root as int) {
                        assert(crate::model::ord_contains(ord, j as int)) by {
                            assert(ord[p as int] as int == j as int);
                        }
                        assert(crate::model::reaches(v0, root as int, j as int));
                        assert(crate::rational::fits(crate::model::eval(v0, j as int)));
                        crate::rational::lemma_fits_models(
                            crate::model::step_exact(vpre, j as int),
                            crate::model::eval(v0, j as int),
                        );
                        assert(false);
                    }
                    assert forall|t: int|
                        0 <= t < v0.len() implies eng@[t].value == v0[t].value
                        || crate::rational::models(
                        eng@[t].value,
                        crate::model::eval(v0, t),
                    ) by {
                        if crate::model::ord_contains(ord.take(p as int), t) {
                            let q = choose|q: int|
                                0 <= q < ord.take(p as int).len() && (#[trigger] ord.take(
                                    p as int,
                                )[q]) as int == t;
                            assert(ord[q] as int == t);
                            assert(crate::rational::models(
                                eng@[t].value,
                                crate::model::eval(v0, t),
                            ));
                        }
                    }
                    assert forall|t: int|
                        0 <= t < v0.len() && !(t == root as int || crate::model::reaches(
                            v0,
                            root as int,
                            t,
                        )) implies eng@[t].value == v0[t].value by {
                        assert(!crate::model::ord_contains(ord, t));
                        if crate::model::ord_contains(ord.take(p as int), t) {
                            let q = choose|q: int|
                                0 <= q < ord.take(p as int).len() && (#[trigger] ord.take(
                                    p as int,
                                )[q]) as int == t;
                            assert(ord[q] as int == t);
                            assert(false);
                        }
                    }
                }
                return false;
            }
            proof {
                crate::rational::lemma_models_trans(
                    eng@[j as int].value,
                    crate::model::step_exact(vpre, j as int),
                    crate::model::eval(v0, j as int),
                );
                assert forall|q: int|
                    0 <= q < p + 1 implies crate::rational::models(
                    eng@[(#[trigger] ord[q]) as int].value,
                    crate::model::eval(v0, ord[q] as int),
                ) by {
                    if q < p {
                        assert(ord[q] < ord[p as int]);
                        assert(eng@[ord[q] as int].value == vpre[ord[q] as int].value);
                    }
                }
                assert forall|t: int|
                    0 <= t < v0.len() && !crate::model::ord_contains(
                        ord.take(p as int + 1),
                        t,
                    ) implies eng@[t].value == v0[t].value by {
                    assert(ord.take(p as int + 1)[p as int] == ord[p as int]);
                    assert(t != j as int);
                    if crate::model::ord_contains(ord.take(p as int), t) {
                        let q = choose|q: int|
                            0 <= q < ord.take(p as int).len() && (#[trigger] ord.take(
                                p as int,
                            )[q]) as int == t;
                        assert(ord.take(p as int + 1)[q] as int == t);
                        assert(false);
                    }
                }
            }
            p += 1;
        }
        let ghost vpre = eng@;
        proof {
            assert(ord.take(n as int) =~= ord);
            crate::model::lemma_step_congruence(
                vpre,
                v0,
                root as int,
                ord,
                n as int,
                root as int,
            );
        }
        let sok = forward_step(eng, root);
        if !sok {
            proof {
                if crate::model::eval_fits(v0, root as int) {
                    crate::rational::lemma_fits_models(
                        crate::model::step_exact(vpre, root as int),
                        crate::model::eval(v0, root as int),
                    );
                    assert(false);
                }
                assert forall|t: int|
                    0 <= t < v0.len() implies eng@[t].value == v0[t].value
                    || crate::rational::models(eng@[t].value, crate::model::eval(v0, t)) by {
                    if crate::model::ord_contains(ord, t) {
                        let q = choose|q: int|
                            0 <= q < ord.len() && (#[trigger] ord[q]) as int == t;
                        assert(crate::rational::models(
                            eng@[t].value,
                            crate::model::eval(v0, t),
                        ));
                    }
                }
            }
            return false;
        }
        proof {
            crate::rational::lemma_models_trans(
                eng@[root as int].value,
                crate::model::step_exact(vpre, root as int),
                crate::model::eval(v0, root as int),
            );
            assert forall|j: int|
                0 <= j < v0.len() && (j == root as int || crate::model::reaches(
                    v0,
                    root as int,
                    j,
                )) implies crate::rational::models(
                eng@[j].value,
                crate::model::eval(v0, j),
            ) by {
                if j != root as int {
                    assert(crate::model::ord_contains(ord, j));
                    let q = choose|q: int| 0 <= q < ord.len() && (#[trigger] ord[q]) as int == j;
                    assert((ord[q] as int) < root as int);
                    assert(eng@[j].value == vpre[j].value);
                }
            }
            assert forall|j: int|
                0 <= j < v0.len() && !(j == root as int || crate::model::reaches(
                    v0,
                    root as int,
                    j,
                )) implies eng@[j].value == v0[j].value by {
                assert(!crate::model::ord_contains(ord, j));
                if crate::model::ord_contains(ord.take(n as int), j) {
                    let q = choose|q: int|
                        0 <= q < ord.take(n as int).len() && (#[trigger] ord.take(
                            n as int,
                        )[q]) as int == j;
                    assert(ord[q] as int == j);
                    assert(false);
                }
                assert(vpre[j].value == v0[j].value);
            }
        }
        true
    }
}

/// One step of the stale-gradient reset pass: if any operand of node `j`
/// carries the pending-reset marker, the node's gradient is cleared and
/// it takes the marker itself.
#[verifier::loop_isolation(false)]
fn reset_step_exec(eng: &mut Engine, j: usize)
    requires
        old(eng).wf(),
        j < old(eng)@.len(),
    ensures
        final(eng).wf(),
        final(eng).seed == old(eng).seed,
        final(eng).nodes@.len() == old(eng).nodes@.len(),
        forall|t: int|
            0 <= t < old(eng).nodes@.len() ==> {
                let n1 = old(eng).nodes@[t];
                let n2 = #[trigger] final(eng).nodes@[t];
                &&& n2.value == n1.value
                &&& n2.needs_grad == n1.needs_grad
                &&& n2.id == n1.id
                &&& n2.operation == n1.operation
                &&& n2.previous_nodes == n1.previous_nodes
                &&& n2.backward_graph == n1.backward_graph
            },
        final(eng)@ == crate::model::reset_step(old(eng)@, j as int),
{
    proof {
        assert(crate::model::node_wf(eng@, j as int));
    }
    let ghost v = eng@;
    let m = eng.nodes[j].previous_nodes.len();
    let mut found = false;
    let mut k: usize = 0;
    while k < m
        invariant
            k <= m,
            found <==> exists|kk: int|
                0 <= kk < k && 0 <= (#[trigger] v[j as int].prev[kk]) < v.len() && v[v[j as
                    int].prev[kk]].reset,
        decreases m - k,
    {
        let p = eng.nodes[j].previous_nodes[k];
        proof {
            assert(v[j as int].prev[k as int] == p as int);
            assert(0 <= (p as int) < j as int);
        }
        if eng.nodes[p].has_been_reset {
            found = true;
        }
        k += 1;
    }
    proof {
        assert(found == crate::model::any_operand_reset(v, j as int));
    }
    if found {
        let ghost e1 = *eng;
        let nd = &mut eng.nodes[j];
        nd.grad = Rat::zero();
        nd.has_been_reset = true;
        proof {
            assert forall|t: int|
                0 <= t < e1.nodes@.len() implies (#[trigger] e1.nodes@[t]).value.wf()
                && e1.nodes@[t].grad.wf() by {
                assert(crate::model::node_wf(e1@, t));
                assert(e1@[t] == e1.nodes@[t]@);
            }
            crate::engine::lemma_wf_update(e1, *eng);
            assert(eng@ =~= crate::model::reset_step(v, j as int));
        }
    } else {
        proof {
            assert(eng@ =~= crate::model::reset_step(v, j as int));
        }
    }
}

/// One chain-rule visit of node `j`: per the operation's rule, the
/// node's gradient, scaled for products by the opposite operand's value,
/// is accumulated into each operand that takes part in gradient
/// propagation.  Returns false only when an exact update cannot be
/// stored.
fn backstep_exec(eng: &mut Engine, j: usize) -> (ok: bool)
    requires
        old(eng).wf(),
        j < old(eng)@.len(),
    ensures
        final(eng).wf(),
        final(eng).seed == old(eng).seed,
        final(eng).nodes@.len() == old(eng).nodes@.len(),
        forall|t: int|
            0 <= t < old(eng).nodes@.len() ==> {
                let n1 = old(eng).nodes@[t];
                let n2 = #[trigger] final(eng).nodes@[t];
                &&& n2.value == n1.value
                &&& n2.needs_grad == n1.needs_grad
                &&& n2.id == n1.id
                &&& n2.operation == n1.operation
                &&& n2.previous_nodes == n1.previous_nodes
                &&& n2.has_been_reset == n1.has_been_reset
                &&& n2.backward_graph == n1.backward_graph
            },
        ok ==> crate::model::graph_models(
            final(eng)@,
            crate::model::backstep(old(eng)@, j as int),
        ),
        crate::model::backstep_fits(old(eng)@, j as int) ==> ok,
{
    proof {
        assert(crate::model::node_wf(eng@, j as int));
    }
    let ghost v = eng@;
    let op = eng.nodes[j].operation;
    match op {
        Operation::NONE => {
            proof {
                crate::model::lemma_graph_models_refl(v);
            }
            true
        },
        Operation::ADD => {
            let p0 = eng.nodes[j].previous_nodes[0];
            let p1 = eng.nodes[j].previous_nodes[1];
            proof {
                assert(v[j as int].prev[0] == p0 as int);
                assert(v[j as int].prev[1] == p1 as int);
                assert(0 <= (p0 as int) < j as int);
                assert(0 <= (p1 as int) < j as int);
                assert(crate::model::node_wf(v, p0 as int));
                assert(crate::model::node_wf(v, p1 as int));
            }
            let g = eng.nodes[j].grad;
            let ghost m1 = if v[p0 as int].needs_grad {
                crate::model::add_grad(v, p0 as int, v[j as int].grad)
            } else {
                v
            };
            if eng.nodes[p0].needs_grad {
                let g0 = eng.nodes[p0].grad;
                match g0.checked_add(&g) {
                    None => {
                        proof {
                            if crate::model::backstep_fits(v, j as int) {
                                assert(false);
                            }
                        }
                        return false;
                    },
                    Some(ng) => {
                        let ghost e1 = *eng;
                        let nd = &mut eng.nodes[p0];
                        nd.grad = ng;
                        proof {
                            assert forall|t: int|
                                0 <= t < e1.nodes@.len() implies (#[trigger] e1.nodes@[
                                t]).value.wf() && e1.nodes@[t].grad.wf() by {
                                assert(crate::model::node_wf(e1@, t));
                                assert(e1@[t] == e1.nodes@[t]@);
                            }
                            crate::engine::lemma_wf_update(e1, *eng);
                            assert forall|t: int|
                                0 <= t < v.len() implies crate::model::node_models(
                                eng@[t],
                                m1[t],
                            ) by {
                                assert(crate::model::node_wf(v, t));
                                if t != p0 as int {
                                    crate::rational::lemma_models_refl(v[t].value);
                                    crate::rational::lemma_models_refl(v[t].grad);
                                } else {
                                    crate::rational::lemma_models_refl(v[t].value);
                                }
                            }
                            assert(crate::model::graph_models(eng@, m1));
                        }
                    },
                }
            } else {
                proof {
                    crate::model::lemma_graph_models_refl(v);
                    assert(crate::model::graph_models(eng@, m1));
                }
            }
            let ghost mid = eng@;
            let ghost m2 = if m1[p1 as int].needs_grad {
                crate::model::add_grad(m1, p1 as int, v[j as int].grad)
            } else {
                m1
            };
            proof {
                assert(crate::model::backstep(v, j as int) == m2);
            }
            if eng.nodes[p1].needs_grad {
                let g1 = eng.nodes[p1].grad;
                proof {
                    assert(crate::model::node_models(mid[p1 as int], m1[p1 as int]));
                    crate::rational::lemma_models_refl(v[j as int].grad);
                    crate::rational::lemma_add_models(
                        g1@,
                        m1[p1 as int].grad,
                        g@,
                        v[j as int].grad,
                    );
                }
                match g1.checked_add(&g) {
                    None => {
                        proof {
                            if crate::model::backstep_fits(v, j as int) {
                                crate::rational::lemma_fits_models(
                                    crate::rational::ratio_add(g1@, g@),
                                    crate::rational::ratio_add(
                                        m1[p1 as int].grad,
                                        v[j as int].grad,
                                    ),
                                );
                                assert(false);
                            }
                        }
                        return false;
                    },
                    Some(ng1) => {
                        let ghost e1 = *eng;
                        let nd = &mut eng.nodes[p1];
                        nd.grad = ng1;
                        proof {
                            assert forall|t: int|
                                0 <= t < e1.nodes@.len() implies (#[trigger] e1.nodes@[
                                t]).value.wf() && e1.nodes@[t].grad.wf() by {
                                assert(crate::model::node_wf(e1@, t));
                                assert(e1@[t] == e1.nodes@[t]@);
                            }
                            crate::engine::lemma_wf_update(e1, *eng);
                            crate::rational::lemma_models_trans(
                                ng1@,
                                crate::rational::ratio_add(g1@, g@),
                                crate::rational::ratio_add(m1[p1 as int].grad, v[j as int].grad),
                            );
                            assert forall|t: int|
                                0 <= t < v.len() implies crate::model::node_models(
                                eng@[t],
                                m2[t],
                            ) by {
                                if t != p1 as int {
                                    assert(crate::model::node_models(mid[t], m1[t]));
                                }
                            }
                            assert(crate::model::graph_models(eng@, m2));
                        }
                    },
                }
            } else {
                proof {
                    assert(crate::model::graph_models(eng@, m2));
                }
            }
            true
        },
        Operation::MUL => {
            let p0 = eng.nodes[j].previous_nodes[0];
            let p1 = eng.nodes[j].previous_nodes[1];
            proof {
                assert(v[j as int].prev[0] == p0 as int);
                assert(v[j as int].prev[1] == p1 as int);
                assert(0 <= (p0 as int) < j as int);
                assert(0 <= (p1 as int) < j as int);
                assert(crate::model::node_wf(v, p0 as int));
                assert(crate::model::node_wf(v, p1 as int));
            }
            let g = eng.nodes[j].grad;
            let a0 = eng.nodes[p0].value;
            let a1 = eng.nodes[p1].value;
            let ghost c0 = crate::rational::ratio_mul(v[p1 as int].value, v[j as int].grad);
            let ghost c1 = crate::rational::ratio_mul(v[p0 as int].value, v[j as int].grad);
            let ghost m1 = if v[p0 as int].needs_grad {
                crate::model::add_grad(v, p0 as int, c0)
            } else {
                v
            };
            if eng.nodes[p0].needs_grad {
                let t0 = match a1.checked_mul(&g) {
                    None => {
                        proof {
                            if crate::model::backstep_fits(v, j as int) {
                                assert(false);
                            }
                        }
                        return false;
                    },
                    Some(t0) => t0,
                };
                let g0 = eng.nodes[p0].grad;
                proof {
                    crate::rational::lemma_models_refl(v[p0 as int].grad);
                    crate::rational::lemma_add_models(g0@, v[p0 as int].grad, t0@, c0);
                }
                match g0.checked_add(&t0) {
                    None => {
                        proof {
                            if crate::model::backstep_fits(v, j as int) {
                                crate::rational::lemma_fits_models(
                                    crate::rational::ratio_add(g0@, t0@),
                                    crate::rational::ratio_add(v[p0 as int].grad, c0),
                                );
                                assert(false);
                            }
                        }
                        return false;
                    },
                    Some(ng) => {
                        let ghost e1 = *eng;
                        let nd = &mut eng.nodes[p0];
                        nd.grad = ng;
                        proof {
                            assert forall|t: int|
                                0 <= t < e1.nodes@.len() implies (#[trigger] e1.nodes@[
                                t]).value.wf() && e1.nodes@[t].grad.wf() by {
                                assert(crate::model::node_wf(e1@, t));
                                assert(e1@[t] == e1.nodes@[t]@);
                            }
                            crate::engine::lemma_wf_update(e1, *eng);
                            crate::rational::lemma_models_trans(
                                ng@,
                                crate::rational::ratio_add(g0@, t0@),
                                crate::rational::ratio_add(v[p0 as int].grad, c0),
                            );
                            assert forall|t: int|
                                0 <= t < v.len() implies crate::model::node_models(
                                eng@[t],
                                m1[t],
                            ) by {
                                assert(crate::model::node_wf(v, t));
                                crate::rational::lemma_models_refl(v[t].value);
                                if t != p0 as int {
                                    crate::rational::lemma_models_refl(v[t].grad);
                                }
                            }
                            assert(crate::model::graph_models(eng@, m1));
                        }
                    },
                }
            } else {
                proof {
                    crate::model::lemma_graph_models_refl(v);
                    assert(crate::model::graph_models(eng@, m1));
                }
            }
            let ghost mid = eng@;
            let ghost m2 = if m1[p1 as int].needs_grad {
                crate::model::add_grad(m1, p1 as int, c1)
            } else {
                m1
            };
            proof {
                assert(crate::model::backstep(v, j as int) == m2);
            }
            if eng.nodes[p1].needs_grad {
                let t1 = match a0.checked_mul(&g) {
                    None => {
                        proof {
                            if crate::model::backstep_fits(v, j as int) {
                                assert(false);
                            }
                        }
                        return false;
                    },
                    Some(t1) => t1,
                };
                let g1 = eng.nodes[p1].grad;
                proof {
                    assert(crate::model::node_models(mid[p1 as int], m1[p1 as int]));
                    crate::rational::lemma_add_models(g1@, m1[p1 as int].grad, t1@, c1);
                }
                match g1.checked_add(&t1) {
                    None => {
                        proof {
                            if crate::model::backstep_fits(v, j as int) {
                                crate::rational::lemma_fits_models(
                                    crate::rational::ratio_add(g1@, t1@),
                                    crate::rational::ratio_add(m1[p1 as int].grad, c1),
                                );
                                assert(false);
                            }
                        }
                        return false;
                    },
                    Some(ng1) => {
                        let ghost e1 = *eng;
                        let nd = &mut eng.nodes[p1];
                        nd.grad = ng1;
                        proof {
                            assert forall|t: int|
                                0 <= t < e1.nodes@.len() implies (#[trigger] e1.nodes@[
                                t]).value.wf() && e1.nodes@[t].grad.wf() by {
                                assert(crate::model::node_wf(e1@, t));
                                assert(e1@[t] == e1.nodes@[t]@);
                            }
                            crate::engine::lemma_wf_update(e1, *eng);
                            crate::rational::lemma_models_trans(
                                ng1@,
                                crate::rational::ratio_add(g1@, t1@),
                                crate::rational::ratio_add(m1[p1 as int].grad, c1),
                            );
                            assert forall|t: int|
                                0 <= t < v.len() implies crate::model::node_models(
                                eng@[t],
                                m2[t],
                            ) by {
                                if t != p1 as int {
                                    assert(crate::model::node_models(mid[t], m1[t]));
                                }
                            }
                            assert(crate::model::graph_models(eng@, m2));
                        }
                    },
                }
            } else {
                proof {
                    assert(crate::model::graph_models(eng@, m2));
                }
            }
            true
        },
        Operation::RELU => {
            let p0 = eng.nodes[j].previous_nodes[0];
            proof {
                assert(v[j as int].prev[0] == p0 as int);
                assert(0 <= (p0 as int) < j as int);
                assert(crate::model::node_wf(v, p0 as int));
            }
            let g = eng.nodes[j].grad;
            let vj = eng.nodes[j].value;
            if eng.nodes[p0].needs_grad && vj.is_positive() {
                let g0 = eng.nodes[p0].grad;
                match g0.checked_add(&g) {
                    None => {
                        proof {
                            if crate::model::backstep_fits(v, j as int) {
                                assert(false);
                            }
                        }
                        return false;
                    },
                    Some(ng) => {
                        let ghost e1 = *eng;
                        let nd = &mut eng.nodes[p0];
                        nd.grad = ng;
                        proof {
                            assert forall|t: int|
                                0 <= t < e1.nodes@.len() implies (#[trigger] e1.nodes@[
                                t]).value.wf() && e1.nodes@[t].grad.wf() by {
                                assert(crate::model::node_wf(e1@, t));
                                assert(e1@[t] == e1.nodes@[t]@);
                            }
                            crate::engine::lemma_wf_update(e1, *eng);
                            assert forall|t: int|
                                0 <= t < v.len() implies crate::model::node_models(
                                eng@[t],
                                crate::model::backstep(v, j as int)[t],
                            ) by {
                                assert(crate::model::node_wf(v, t));
                                crate::rational::lemma_models_refl(v[t].value);
                                if t != p0 as int {
                                    crate::rational::lemma_models_refl(v[t].grad);
                                }
                            }
                            assert(crate::model::graph_models(
                                eng@,
                                crate::model::backstep(v, j as int),
                            ));
                        }
                    },
                }
            } else {
                proof {
                    crate::model::lemma_graph_models_refl(v);
                    assert(crate::model::backstep(v, j as int) == v);
                }
            }
            true
        },
    }
}

impl Value {
    /// The backward propagator.  The caller seeds the target's gradient
    /// first; the pass then walks the memoized order three times: a
    /// stale-gradient reset sweep in dependency order, the chain rule at
    /// the target, and the chain rule along the order in reverse, each
    /// visited node settling (its pending-reset marker clearing) before
    /// it pushes its gradient into its operands.  Contributions are
    /// accumulated, never overwritten, so a node standing under several
    /// consumers receives their sum.  Values and the graph's structure
    /// are untouched.  On success the state represents the mathematical
    /// backward pass exactly; the pass succeeds whenever every exact
    /// accumulator update fits in storage.
    #[verifier::loop_isolation(false)]
    pub fn backward(eng: &mut Engine, root: usize) -> (ok: bool)
        requires
            old(eng).wf(),
            root < old(eng)@.len(),
        ensures
            final(eng).wf(),
            final(eng).seed == old(eng).seed,
            crate::model::same_but_grads(old(eng)@, final(eng)@),
            crate::model::is_topo(
                old(eng)@,
                root as int,
                final(eng).nodes@[root as int].backward_graph@,
            ),
            ({
                let ord = final(eng).nodes@[root as int].backward_graph@;
                let m = crate::model::backward_model(old(eng)@, root as int, ord);
                &&& (ok ==> crate::model::graph_models(final(eng)@, m))
                &&& (crate::model::backward_fits(old(eng)@, root as int, ord) ==> ok)
            }),
    {
        ensure_order(eng, root);
        let ghost v0 = eng@;
        let ghost nodes0 = eng.nodes@;
        let ghost ord = eng.nodes@[root as int].backward_graph@;
        let n = eng.nodes[root].backward_graph.len();
        let mut p: usize = 0;
        while p < n
            invariant
                eng.wf(),
                eng.seed == old(eng).seed,
                p <= n,
                n == ord.len(),
                eng.nodes@.len() == nodes0.len(),
                forall|t: int|
                    0 <= t < nodes0.len() ==> {
                        let n1 = nodes0[t];
                        let n2 = #[trigger] eng.nodes@[t];
                        &&& n2.value == n1.value
                        &&& n2.needs_grad == n1.needs_grad
                        &&& n2.id == n1.id
                        &&& n2.operation == n1.operation
                        &&& n2.previous_nodes == n1.previous_nodes
                        &&& n2.backward_graph == n1.backward_graph
                    },
                eng@ == crate::model::reset_pass(v0, ord, p as int),
            decreases n - p,
        {
            let j = eng.nodes[root].backward_graph[p];
            proof {
                assert(j == ord[p as int]);
                assert((j as int) < root as int);
            }
            reset_step_exec(eng, j);
            p += 1;
        }
        let ghost m1 = crate::model::reset_pass(v0, ord, n as int);
        let ghost vpre_root = eng@;
        let ok1 = backstep_exec(eng, root);
        let ghost m2 = crate::model::backstep(m1, root as int);
        if !ok1 {
            proof {
                if crate::model::backward_fits(v0, root as int, ord) {
                    assert(crate::model::backstep_fits(m1, root as int));
                    assert(false);
                }
                assert(crate::model::same_but_grads(v0, eng@));
            }
            return false;
        }
        proof {
            assert(crate::model::graph_models(eng@, m2));
        }
        let mut q: usize = n;
        while q > 0
            invariant
                eng.wf(),
                eng.seed == old(eng).seed,
                q <= n,
                n == ord.len(),
                eng.nodes@.len() == nodes0.len(),
                forall|t: int|
                    0 <= t < nodes0.len() ==> {
                        let n1 = nodes0[t];
                        let n2 = #[trigger] eng.nodes@[t];
                        &&& n2.value == n1.value
                        &&& n2.needs_grad == n1.needs_grad
                        &&& n2.id == n1.id
                        &&& n2.operation == n1.operation
                        &&& n2.previous_nodes == n1.previous_nodes
                        &&& n2.backward_graph == n1.backward_graph
                    },
                crate::model::graph_models(eng@, crate::model::back_pass(m2, ord, q as int)),
            decreases q,
        {
            q -= 1;
            let j = eng.nodes[root].backward_graph[q];
            proof {
                assert(j == ord[q as int]);
                assert((j as int) < root as int);
            }
            let ghost bpq = crate::model::back_pass(m2, ord, q as int + 1);
            let ghost target = crate::model::back_pass(m2, ord, q as int);
            proof {
                assert(target == crate::model::backstep(
                    crate::model::clear_reset(bpq, j as int),
                    j as int,
                ));
            }
            let ghost vpre = eng@;
            let ghost e1 = *eng;
            let nd = &mut eng.nodes[j];
            nd.has_been_reset = false;
            proof {
                assert forall|t: int|
                    0 <= t < e1.nodes@.len() implies (#[trigger] e1.nodes@[t]).value.wf()
                    && e1.nodes@[t].grad.wf() by {
                    assert(crate::model::node_wf(e1@, t));
                    assert(e1@[t] == e1.nodes@[t]@);
                }
                crate::engine::lemma_wf_update(e1, *eng);
                assert(eng@ =~= crate::model::clear_reset(vpre, j as int));
                crate::model::lemma_clear_congruence(vpre, bpq, j as int);
                assert(crate::model::graph_models(
                    eng@,
                    crate::model::clear_reset(bpq, j as int),
                ));
            }
            let ghost vpre2 = eng@;
            let okq = backstep_exec(eng, j);
            if !okq {
                proof {
                    if crate::model::backward_fits(v0, root as int, ord) {
                        crate::model::lemma_back_pass_fits_suffix(m2, ord, q as int);
                        assert(crate::model::backstep_fits(
                            crate::model::clear_reset(bpq, j as int),
                            j as int,
                        ));
                        crate::model::lemma_backstep_congruence(
                            vpre2,
                            crate::model::clear_reset(bpq, j as int),
                            j as int,
                        );
                        assert(false);
                    }
                    assert(crate::model::same_but_grads(v0, eng@));
                }
                return false;
            }
            proof {
                crate::model::lemma_backstep_congruence(
                    vpre2,
                    crate::model::clear_reset(bpq, j as int),
                    j as int,
                );
                crate::model::lemma_graph_models_trans(
                    eng@,
                    crate::model::backstep(vpre2, j as int),
                    target,
                );
            }
        }
        proof {
            assert(crate::model::graph_models(
                eng@,
                crate::model::backward_model(v0, root as int, ord),
            ));
            assert(crate::model::same_but_grads(v0, eng@));
        }
        true
    }
}

} // verus!
