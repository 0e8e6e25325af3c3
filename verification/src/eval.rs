//! Evaluation order and synchronous signal propagation.
//!
//! The settled value of every gate is defined mathematically by `node_val`:
//! wires out of the `MetaInput` keep whatever value `set_input` gave them,
//! and every other gate's output is its boolean function applied to the
//! settled values of its incoming wires.  One pass of the evaluator over a
//! topological order makes every wire carry its settled value, and further
//! passes change nothing.

use vstd::prelude::*;

use crate::circuit::Circuit;
use crate::circuit::Gate;
use crate::circuit::lemma_same_structure_preserves_arity;
use crate::circuit::lemma_same_structure_preserves_wf;

verus! {

impl Circuit {
    /// The signal that the `k`-th incoming wire of gate `v` carries once the
    /// circuit has settled: a wire out of the `MetaInput` keeps its
    /// externally set value, every other wire carries the settled output of
    /// its source gate.
    pub open spec fn wire_val(self, v: int, k: int) -> bool
        decreases v, 0int,
    {
        if self.wf() && 0 <= v < self.num_nodes() && 0 <= k < self.in_deg(v) {
            let u = self.in_src(v, k);
            if self.kind_of(u) is MetaInput {
                self.in_val(v, k)
            } else {
                self.node_val(u)
            }
        } else {
            false
        }
    }

    /// The settled output of gate `v`: its boolean function applied to the
    /// settled values of its incoming wires.  The `MetaInput` computes no
    /// output; its entry here is arbitrary and never read, since its
    /// outgoing wires keep their externally set values.
    pub open spec fn node_val(self, v: int) -> bool
        decreases v, 1int,
    {
        if self.wf() && 0 <= v < self.num_nodes() {
            match self.kind_of(v) {
                Gate::Or => self.wire_val(v, 0) || self.wire_val(v, 1),
                Gate::And => self.wire_val(v, 0) && self.wire_val(v, 1),
                Gate::Xor => self.wire_val(v, 0) != self.wire_val(v, 1),
                Gate::Not => !self.wire_val(v, 0),
                Gate::Output => self.wire_val(v, 0),
                Gate::Input => self.wire_val(v, 0),
                Gate::MetaInput => false,
            }
        } else {
            false
        }
    }

    /// The output gate `v` computes from the signals currently on its
    /// incoming wires, one evaluation step, with no assumption that the
    /// inputs have settled.
    pub open spec fn gate_out(self, v: int) -> bool {
        match self.kind_of(v) {
            Gate::Or => self.in_val(v, 0) || self.in_val(v, 1),
            Gate::And => self.in_val(v, 0) && self.in_val(v, 1),
            Gate::Xor => self.in_val(v, 0) != self.in_val(v, 1),
            Gate::Not => !self.in_val(v, 0),
            Gate::Output => self.in_val(v, 0),
            Gate::Input => self.in_val(v, 0),
            Gate::MetaInput => false,
        }
    }

    /// A circuit is settled when every wire not fed by the `MetaInput`
    /// carries exactly the output its source gate computes from the source's
    /// own current incoming signals.
    pub open spec fn settled(self) -> bool {
        forall|v: int, k: int|
            0 <= v < self.num_nodes() && 0 <= k < self.in_deg(v) && !(self.kind_of(
                #[trigger] self.in_src(v, k),
            ) is MetaInput) ==> self.in_val(v, k) == self.gate_out(self.in_src(v, k))
    }

    /// Whether, in `order`, the source of the `k`-th incoming wire of the
    /// gate at position `j` appears at some strictly earlier position.
    pub open spec fn src_scheduled(self, order: Seq<usize>, j: int, k: int) -> bool {
        exists|i: int| 0 <= i < j && (#[trigger] order[i]) as int == self.in_src(order[j] as int, k)
    }

    /// Whether `order` lists every gate exactly once, with the source of
    /// every wire placed strictly before the wire's target.
    pub open spec fn is_topo_order(self, order: Seq<usize>) -> bool {
        &&& order.len() == self.num_nodes()
        &&& forall|i: int| 0 <= i < order.len() ==> (#[trigger] order[i]) < self.num_nodes()
        &&& forall|i: int, j: int| 0 <= i < j < order.len() ==> order[i] != order[j]
        &&& forall|v: int| 0 <= v < self.num_nodes() ==> #[trigger] order.contains(v as usize)
        &&& forall|j: int, k: int|
            0 <= j < order.len() && 0 <= k < self.in_deg(order[j] as int)
                ==> #[trigger] self.src_scheduled(order, j, k)
    }

    /// Computes the order in which the evaluator visits the gates: every
    /// gate exactly once, each wire's source before its target.  Wires
    /// always run from older gates to newer ones, so creation order is such
    /// an order, and this returns it.
    ///
    /// The order reflects the structure at the time of the call: after any
    /// further gate is added, the caller must compute it anew.
    pub fn update_order(&self) -> (order: Vec<usize>)
        requires
            self.wf(),
        ensures
            self.is_topo_order(order@),
            order@.len() == self.num_nodes(),
            forall|i: int| 0 <= i < order@.len() ==> (#[trigger] order@[i]) as int == i,
    {
        let mut order: Vec<usize> = Vec::new();
        let mut v: usize = 0;
        while v < self.nodes.len()
            invariant
                v <= self.nodes@.len(),
                order@.len() == v,
                forall|i: int| 0 <= i < v ==> (#[trigger] order@[i]) as int == i,
            decreases self.nodes@.len() - v,
        {
            order.push(v);
            v += 1;
        }
        proof {
            assert forall|w: int| 0 <= w < self.num_nodes() implies #[trigger] order@.contains(
                w as usize,
            ) by {
                assert(order@[w] == w as usize);
            }
            assert forall|j: int, k: int|
                0 <= j < order@.len() && 0 <= k < self.in_deg(order@[j] as int)
                    implies #[trigger] self.src_scheduled(order@, j, k) by {
                let u: int = self.in_src(order@[j] as int, k);
                assert(order@[j] as int == j);
                assert(0 <= u < j);
                assert((order@[u]) as int == u);
            }
        }
        order
    }
}

/// Whether one of the first `i` entries of `order` is gate `u`.
spec fn scheduled(order: Seq<usize>, i: int, u: int) -> bool {
    exists|j: int| 0 <= j < i && (#[trigger] order[j]) as int == u
}

/// The signal on the wire `(w, k)` of circuit `c` after the gates named by
/// the first `i` entries of `order` have each recomputed their output from
/// their incoming wires and written it onto their outgoing wires, in order.
/// When the entries processed so far respect the wire directions, a
/// processed source has already seen its own inputs settle, so the wire
/// carries the source's settled value.
spec fn pass_val(c: Circuit, order: Seq<usize>, i: int, w: int, k: int) -> bool {
    let u = c.in_src(w, k);
    if !(c.kind_of(u) is MetaInput) && scheduled(order, i, u) {
        c.node_val(u)
    } else {
        c.in_val(w, k)
    }
}

/// The signal on the wire `(w, k)` in the middle of step `i`'s write-out:
/// the gates of the first `i` entries of `order` have written their
/// outgoing wires, and gate `u` has additionally written those of its
/// outgoing wires that precede position `(pv, pk)` in a scan of all wires.
spec fn scan_val(
    c: Circuit,
    order: Seq<usize>,
    i: int,
    u: int,
    pv: int,
    pk: int,
    w: int,
    k: int,
) -> bool {
    if (w < pv || (w == pv && k < pk)) && c.in_src(w, k) == u {
        c.node_val(u)
    } else {
        pass_val(c, order, i, w, k)
    }
}

/// In a settled circuit every wire already carries its settled value, and
/// every gate's one-step output equals its settled output.
proof fn lemma_settled_wire_vals(c: Circuit, v: int)
    requires
        c.wf(),
        c.arity_ok(),
        c.settled(),
        0 <= v < c.num_nodes(),
    ensures
        forall|k: int| 0 <= k < c.in_deg(v) ==> #[trigger] c.in_val(v, k) == c.wire_val(v, k),
        !(c.kind_of(v) is MetaInput) ==> c.gate_out(v) == c.node_val(v),
    decreases v,
{
    assert forall|k: int| 0 <= k < c.in_deg(v) implies #[trigger] c.in_val(v, k) == c.wire_val(
        v,
        k,
    ) by {
        let u: int = c.in_src(v, k);
        if !(c.kind_of(u) is MetaInput) {
            lemma_settled_wire_vals(c, u);
            assert(c.in_val(v, k) == c.gate_out(u));
        }
    }
    if !(c.kind_of(v) is MetaInput) {
        assert(c.node_arity_ok(v));
    }
}

/// Law: a settled circuit is a fixed point of evaluation.  An evaluation
/// pass writes onto every wire the settled value `wire_val` (wires out of
/// the `MetaInput` keep their externally set signal); in a settled circuit
/// every wire already carries that value, so a further pass changes no
/// wire.
pub proof fn lemma_settled_is_fixed_point(c: Circuit)
    requires
        c.wf(),
        c.arity_ok(),
        c.settled(),
    ensures
        forall|v: int, k: int|
            0 <= v < c.num_nodes() && 0 <= k < c.in_deg(v)
                ==> #[trigger] c.in_val(v, k) == c.wire_val(v, k),
{
    assert forall|v: int, k: int|
        0 <= v < c.num_nodes() && 0 <= k < c.in_deg(v) implies #[trigger] c.in_val(v, k)
        == c.wire_val(v, k) by {
        lemma_settled_wire_vals(c, v);
    }
}

/// Settled values depend only on the structure and on the signals of the
/// wires out of the `MetaInput`, never on the signals of the other wires.
pub proof fn lemma_node_val_structural(c1: Circuit, c2: Circuit, v: int)
    requires
        c1.wf(),
        c2.wf(),
        c1.same_structure(c2),
        forall|w: int, k: int|
            0 <= w < c1.num_nodes() && 0 <= k < c1.in_deg(w) && c1.kind_of(
                c1.in_src(w, k),
            ) is MetaInput ==> #[trigger] c1.in_val(w, k) == c2.in_val(w, k),
        0 <= v < c1.num_nodes(),
    ensures
        c1.node_val(v) == c2.node_val(v),
        forall|k: int| 0 <= k < c1.in_deg(v) ==> #[trigger] c1.wire_val(v, k) == c2.wire_val(v, k),
    decreases v,
{
    assert forall|k: int| 0 <= k < c1.in_deg(v) implies #[trigger] c1.wire_val(v, k)
        == c2.wire_val(v, k) by {
        let u: int = c1.in_src(v, k);
        assert(c2.in_src(v, k) == u);
        assert(c2.kind_of(u) == c1.kind_of(u));
        assert(c2.in_deg(v) == c1.in_deg(v));
        if c1.kind_of(u) is MetaInput {
            assert(c1.in_val(v, k) == c2.in_val(v, k));
        } else {
            lemma_node_val_structural(c1, c2, u);
        }
    }
    assert(c2.kind_of(v) == c1.kind_of(v));
    assert(c2.in_deg(v) == c1.in_deg(v));
    assert(c1.wire_val(v, 0) == c2.wire_val(v, 0));
    assert(c1.wire_val(v, 1) == c2.wire_val(v, 1));
}

/// Growing a circuit never changes the settled value of an existing gate:
/// a gate's settled value depends only on the gates at or below its own
/// handle, and construction only appends.
pub proof fn lemma_extends_node_val(c1: Circuit, c0: Circuit, v: int)
    requires
        c0.wf(),
        c1.wf(),
        c1.extends(c0),
        0 <= v < c0.num_nodes(),
    ensures
        c1.node_val(v) == c0.node_val(v),
        forall|k: int| 0 <= k < c0.in_deg(v) ==> #[trigger] c1.wire_val(v, k) == c0.wire_val(v, k),
    decreases v,
{
    crate::circuit::lemma_extends_accessors(c1, c0);
    assert forall|k: int| 0 <= k < c0.in_deg(v) implies #[trigger] c1.wire_val(v, k)
        == c0.wire_val(v, k) by {
        let u: int = c0.in_src(v, k);
        assert(c1.in_src(v, k) == u);
        assert(c1.kind_of(u) == c0.kind_of(u));
        assert(c1.in_deg(v) == c0.in_deg(v));
        assert(c1.in_val(v, k) == c0.in_val(v, k));
        if !(c0.kind_of(u) is MetaInput) {
            lemma_extends_node_val(c1, c0, u);
        }
    }
    assert(c1.kind_of(v) == c0.kind_of(v));
    assert(c1.in_deg(v) == c0.in_deg(v));
    assert(c1.wire_val(v, 0) == c0.wire_val(v, 0));
    assert(c1.wire_val(v, 1) == c0.wire_val(v, 1));
}

/// Extending the processed prefix of `order` by the entry at position `i`
/// schedules exactly that entry's gate, and keeps every other gate's
/// status.
proof fn lemma_scheduled_step(order: Seq<usize>, i: int, u: int, w: int)
    requires
        0 <= i < order.len(),
        order[i] as int == u,
    ensures
        scheduled(order, i + 1, w) <==> (scheduled(order, i, w) || w == u),
{
    if scheduled(order, i + 1, w) {
        let j: int = choose|j: int| 0 <= j < i + 1 && (#[trigger] order[j]) as int == w;
        if j < i {
            assert(scheduled(order, i, w));
        }
    }
    if w == u {
        assert(0 <= i < i + 1 && order[i] as int == w);
        assert(scheduled(order, i + 1, w));
    }
}

impl Circuit {
    /// Propagates every signal one step forward: visits the gates in the
    /// given order; recomputes each gate's output from the signals currently
    /// on its incoming wires (the `MetaInput`, which is driven only by
    /// `set_input`, is skipped) and overwrites every outgoing wire of the
    /// gate with it.
    ///
    /// Over a true source-before-sink order, as `update_order` returns, a
    /// single pass settles the whole circuit: every wire ends up carrying
    /// its settled value `wire_val`, computed from the structure and the
    /// external inputs at entry.  A further pass with unchanged inputs
    /// rewrites every wire with the value it already carries.
    #[verifier::loop_isolation(false)]
    pub fn update_signals_once(&mut self, order: &Vec<usize>)
        requires
            old(self).wf(),
            old(self).arity_ok(),
            old(self).is_topo_order(order@),
        ensures
            final(self).wf(),
            final(self).arity_ok(),
            final(self).same_structure(*old(self)),
            forall|v: int, k: int|
                0 <= v < old(self).num_nodes() && 0 <= k < old(self).in_deg(v)
                    ==> #[trigger] final(self).in_val(v, k) == old(self).wire_val(v, k),
            final(self).settled(),
            forall|v: int|
                0 <= v < old(self).num_nodes() ==> #[trigger] final(self).node_val(v) == old(
                    self,
                ).node_val(v),
            old(self).settled() ==> forall|v: int, k: int|
                0 <= v < old(self).num_nodes() && 0 <= k < old(self).in_deg(v)
                    ==> #[trigger] final(self).in_val(v, k) == old(self).in_val(v, k),
    {
        let ghost c0: Circuit = *old(self);
        let mut i: usize = 0;
        while i < order.len()
            invariant
                i <= order@.len(),
                self.wf(),
                self.same_structure(c0),
                forall|w: int, k: int|
                    0 <= w < c0.num_nodes() && 0 <= k < c0.in_deg(w)
                        ==> #[trigger] self.in_val(w, k) == pass_val(c0, order@, i as int, w, k),
            decreases order@.len() - i,
        {
            let u = order[i];
            proof {
                assert((order@[i as int]) < c0.num_nodes());
            }
            let kind = self.nodes[u].kind;
            if !(matches!(kind, Gate::MetaInput)) {
                proof {
                    assert(self.kind_of(u as int) == c0.kind_of(u as int));
                    assert(self.in_deg(u as int) == c0.in_deg(u as int));
                    assert(c0.node_arity_ok(u as int));
                    assert forall|k: int| 0 <= k < c0.in_deg(u as int) implies #[trigger] self
                        .in_val(u as int, k) == c0.wire_val(u as int, k) by {
                        let w: int = c0.in_src(u as int, k);
                        if !(c0.kind_of(w) is MetaInput) {
                            assert(c0.src_scheduled(order@, i as int, k));
                            assert(scheduled(order@, i as int, w));
                        }
                    }
                }
                let value: bool = match kind {
                    Gate::Or => {
                        let r = self.get_2_in(u);
                        r.0 || r.1
                    },
                    Gate::Xor => {
                        let r = self.get_2_in(u);
                        r.0 != r.1
                    },
                    Gate::And => {
                        let r = self.get_2_in(u);
                        r.0 && r.1
                    },
                    Gate::Not => !self.get_1_in(u),
                    Gate::Input => self.get_1_in(u),
                    Gate::Output => self.get_1_in(u),
                    Gate::MetaInput => false,
                };
                proof {
                    assert(value == c0.node_val(u as int));
                }
                let mut v: usize = 0;
                while v < self.nodes.len()
                    invariant
                        v <= self.nodes@.len(),
                        self.wf(),
                        self.same_structure(c0),
                        i < order@.len(),
                        (order@[i as int]) == u,
                        u < c0.num_nodes(),
                        !(c0.kind_of(u as int) is MetaInput),
                        value == c0.node_val(u as int),
                        forall|w: int, k: int|
                            0 <= w < c0.num_nodes() && 0 <= k < c0.in_deg(w)
                                ==> #[trigger] self.in_val(w, k) == scan_val(
                                c0,
                                order@,
                                i as int,
                                u as int,
                                v as int,
                                0,
                                w,
                                k,
                            ),
                    decreases self.nodes@.len() - v,
                {
                    let deg = self.nodes[v].ins.len();
                    proof {
                        assert(self.in_deg(v as int) == c0.in_deg(v as int));
                    }
                    let mut k: usize = 0;
                    while k < deg
                        invariant
                            k <= deg,
                            v < self.nodes@.len(),
                            deg == c0.in_deg(v as int),
                            self.wf(),
                            self.same_structure(c0),
                            value == c0.node_val(u as int),
                            forall|w: int, k2: int|
                                0 <= w < c0.num_nodes() && 0 <= k2 < c0.in_deg(w)
                                    ==> #[trigger] self.in_val(w, k2) == scan_val(
                                    c0,
                                    order@,
                                    i as int,
                                    u as int,
                                    v as int,
                                    k as int,
                                    w,
                                    k2,
                                ),
                        decreases deg - k,
                    {
                        proof {
                            assert(self.in_deg(v as int) == c0.in_deg(v as int));
                        }
                        let src = self.nodes[v].ins[k].0;
                        if src == u {
                            let ghost pre: Circuit = *self;
                            self.nodes[v].ins[k] = (src, value);
                            proof {
                                assert(self.nodes@[v as int].ins@[k as int] == (src, value));
                                assert forall|w: int|
                                    0 <= w < c0.num_nodes() && w != v as int implies self.nodes@[w]
                                    == pre.nodes@[w] by {}
                                assert(self.nodes@[v as int].kind == pre.nodes@[v as int].kind);
                                assert(self.nodes@[v as int].ins@.len() == pre.nodes@[v as
                                    int].ins@.len());
                                assert forall|k2: int|
                                    0 <= k2 < c0.in_deg(v as int) && k2 != k as int implies self
                                        .nodes@[v as int].ins@[k2] == pre.nodes@[v as
                                        int].ins@[k2] by {}
                                assert(pre.in_src(v as int, k as int) == src as int);
                                assert(c0.in_src(v as int, k as int) == src as int);
                                assert forall|w: int|
                                    0 <= w < c0.num_nodes() implies #[trigger] self.kind_of(w)
                                    == c0.kind_of(w) by {
                                    assert(pre.kind_of(w) == c0.kind_of(w));
                                }
                                assert forall|w: int|
                                    0 <= w < c0.num_nodes() implies #[trigger] self.in_deg(w)
                                    == c0.in_deg(w) by {
                                    assert(pre.in_deg(w) == c0.in_deg(w));
                                }
                                assert forall|w: int, k2: int|
                                    0 <= w < c0.num_nodes() && 0 <= k2 < c0.in_deg(w)
                                        implies #[trigger] self.in_src(w, k2) == c0.in_src(
                                        w,
                                        k2,
                                    ) by {
                                    assert(pre.in_src(w, k2) == c0.in_src(w, k2));
                                }
                                assert(self.same_structure(c0));
                                crate::circuit::lemma_same_structure_preserves_wf(*self, c0);
                                assert forall|w: int, k2: int|
                                    0 <= w < c0.num_nodes() && 0 <= k2 < c0.in_deg(w)
                                        implies #[trigger] self.in_val(w, k2) == scan_val(
                                        c0,
                                        order@,
                                        i as int,
                                        u as int,
                                        v as int,
                                        k as int + 1,
                                        w,
                                        k2,
                                    ) by {
                                    assert(pre.in_val(w, k2) == scan_val(
                                        c0,
                                        order@,
                                        i as int,
                                        u as int,
                                        v as int,
                                        k as int,
                                        w,
                                        k2,
                                    ));
                                    if w == v as int && k2 == k as int {
                                        assert(self.in_val(w, k2) == value);
                                        assert(c0.in_src(w, k2) == u as int);
                                    } else {
                                        assert(self.in_val(w, k2) == pre.in_val(w, k2));
                                    }
                                }
                            }
                        } else {
                            proof {
                                assert forall|w: int, k2: int|
                                    0 <= w < c0.num_nodes() && 0 <= k2 < c0.in_deg(w)
                                        implies #[trigger] self.in_val(w, k2) == scan_val(
                                        c0,
                                        order@,
                                        i as int,
                                        u as int,
                                        v as int,
                                        k as int + 1,
                                        w,
                                        k2,
                                    ) by {
                                    assert(self.in_val(w, k2) == scan_val(
                                        c0,
                                        order@,
                                        i as int,
                                        u as int,
                                        v as int,
                                        k as int,
                                        w,
                                        k2,
                                    ));
                                    if w == v as int && k2 == k as int {
                                        assert(self.in_src(w, k2) == src as int);
                                        assert(c0.in_src(w, k2) == src as int);
                                        assert(c0.in_src(w, k2) != u as int);
                                    }
                                }
                            }
                        }
                        k += 1;
                    }
                    v += 1;
                }
                proof {
                    assert forall|w: int, k: int|
                        0 <= w < c0.num_nodes() && 0 <= k < c0.in_deg(w) implies #[trigger] self
                        .in_val(w, k) == pass_val(c0, order@, i as int + 1, w, k) by {
                        lemma_scheduled_step(order@, i as int, u as int, c0.in_src(w, k));
                        assert(self.in_val(w, k) == scan_val(
                            c0,
                            order@,
                            i as int,
                            u as int,
                            c0.num_nodes(),
                            0,
                            w,
                            k,
                        ));
                    }
                }
            } else {
                proof {
                    assert forall|w: int, k: int|
                        0 <= w < c0.num_nodes() && 0 <= k < c0.in_deg(w) implies #[trigger] self
                        .in_val(w, k) == pass_val(c0, order@, i as int + 1, w, k) by {
                        lemma_scheduled_step(order@, i as int, u as int, c0.in_src(w, k));
                    }
                }
            }
            i += 1;
        }
        proof {
            let c1: Circuit = *self;
            assert forall|v: int, k: int|
                0 <= v < c0.num_nodes() && 0 <= k < c0.in_deg(v) implies #[trigger] c1.in_val(v, k)
                == c0.wire_val(v, k) by {
                let w: int = c0.in_src(v, k);
                if !(c0.kind_of(w) is MetaInput) {
                    assert(order@.contains(w as usize));
                    let j: int = choose|j: int|
                        0 <= j < order@.len() && (#[trigger] order@[j]) == w as usize;
                    assert(scheduled(order@, order@.len() as int, w));
                }
            }
            lemma_same_structure_preserves_arity(c1, c0);
            assert forall|v: int, k: int|
                0 <= v < c1.num_nodes() && 0 <= k < c1.in_deg(v) && !(c1.kind_of(
                    #[trigger] c1.in_src(v, k),
                ) is MetaInput) implies c1.in_val(v, k) == c1.gate_out(c1.in_src(v, k)) by {
                let w: int = c1.in_src(v, k);
                assert(w == c0.in_src(v, k));
                assert(c1.kind_of(w) == c0.kind_of(w));
                assert(c1.in_val(v, k) == c0.wire_val(v, k));
                assert(c0.wire_val(v, k) == c0.node_val(w));
                assert(c0.node_arity_ok(w));
                assert(c1.in_deg(w) == c0.in_deg(w));
                assert forall|k2: int| 0 <= k2 < c0.in_deg(w) implies #[trigger] c1.in_val(w, k2)
                    == c0.wire_val(w, k2) by {}
                assert(c1.gate_out(w) == c0.node_val(w));
            }
            assert(c1.settled());
            assert forall|v: int, k: int|
                0 <= v < c1.num_nodes() && 0 <= k < c1.in_deg(v) && c1.kind_of(
                    c1.in_src(v, k),
                ) is MetaInput implies #[trigger] c1.in_val(v, k) == c0.in_val(v, k) by {
                assert(c1.in_val(v, k) == c0.wire_val(v, k));
            }
            assert forall|v: int| 0 <= v < c0.num_nodes() implies #[trigger] c1.node_val(v)
                == c0.node_val(v) by {
                lemma_node_val_structural(c1, c0, v);
            }
            if c0.settled() {
                lemma_settled_is_fixed_point(c0);
            }
        }
    }
}

} // verus!
