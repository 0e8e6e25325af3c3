//! Gate records, wires, and the structural invariants of a circuit.
//!
//! A circuit is an arena of gate records indexed by a stable handle (the
//! record's position in the arena).  Each record holds a gate's kind and
//! the list of its incoming wires, each wire carrying the handle of the
//! producing gate and the boolean signal currently on the wire.  Every wire
//! runs from an older gate to a newer one, so the graph is acyclic by
//! construction.

use vstd::prelude::*;

verus! {

/// A gate kind.  `MetaInput` is the single synthetic source node from which
/// every `Input` gate is driven.
#[derive(Copy, Clone, PartialEq, Eq, Structural, Debug)]
pub enum Gate {
    Or,
    And,
    Xor,
    Not,
    Output,
    Input,
    MetaInput,
}

/// One gate record: its kind and its incoming wires.  A wire `(u, s)` runs
/// from gate `u` to this gate and currently carries the
/// signal `s`.
pub struct Node {
    pub kind: Gate,
    pub ins: Vec<(usize, bool)>,
}

/// A simulated digital circuit: an arena of gate records.  The structure is
/// a directed acyclic graph; the handle of a gate is its index in the arena.
///
/// Input values are all driven from a single `MetaInput` gate at handle 0;
/// they can be changed with `set_input`.  Construction methods return the
/// new gate's handle, which can later be used to read that gate's input
/// signals.
pub struct Circuit {
    pub nodes: Vec<Node>,
}

impl Circuit {
    /// The number of gates in the circuit.
    pub open spec fn num_nodes(self) -> int {
        self.nodes@.len() as int
    }

    /// The kind of gate `v`.
    pub open spec fn kind_of(self, v: int) -> Gate {
        self.nodes@[v].kind
    }

    /// The number of incoming wires of gate `v`.
    pub open spec fn in_deg(self, v: int) -> int {
        self.nodes@[v].ins@.len() as int
    }

    /// The source gate of the `k`-th incoming wire of gate `v`.
    pub open spec fn in_src(self, v: int, k: int) -> int {
        self.nodes@[v].ins@[k].0 as int
    }

    /// The signal currently carried by the `k`-th incoming wire of gate `v`.
    pub open spec fn in_val(self, v: int, k: int) -> bool {
        self.nodes@[v].ins@[k].1
    }

    /// The structural invariant of a circuit, checked or preserved by every
    /// operation:
    ///
    /// * there is at least one gate, and handle 0 holds the one and only
    ///   `MetaInput`;
    /// * the `MetaInput` has no incoming wires;
    /// * every wire runs from a strictly older gate to a newer one, so the
    ///   graph has no directed cycle;
    /// * every gate other than the `MetaInput` has at least one incoming
    ///   wire, and every `Input` gate has exactly one, sourced at the
    ///   `MetaInput`.
    pub open spec fn wf(self) -> bool {
        &&& 1 <= self.num_nodes()
        &&& self.kind_of(0) is MetaInput
        &&& self.in_deg(0) == 0
        &&& forall|v: int| 1 <= v < self.num_nodes() ==> !((#[trigger] self.kind_of(v)) is MetaInput)
        &&& forall|v: int| 1 <= v < self.num_nodes() ==> 1 <= #[trigger] self.in_deg(v)
        &&& forall|v: int, k: int|
            0 <= v < self.num_nodes() && 0 <= k < self.in_deg(v)
                ==> 0 <= #[trigger] self.in_src(v, k) < v
        &&& forall|v: int|
            0 <= v < self.num_nodes() && (#[trigger] self.kind_of(v)) is Input
                ==> self.in_deg(v) == 1 && self.in_src(v, 0) == 0
    }

    /// Whether gate `v` has the fan-in its kind demands: one incoming wire
    /// for `Input`, `Output` and `Not`, two for `And`, `Or` and `Xor`.
    pub open spec fn node_arity_ok(self, v: int) -> bool {
        match self.kind_of(v) {
            Gate::MetaInput => true,
            Gate::Input | Gate::Output | Gate::Not => self.in_deg(v) == 1,
            Gate::And | Gate::Or | Gate::Xor => self.in_deg(v) == 2,
        }
    }

    /// Whether every gate has the fan-in its kind demands.  This is a
    /// precondition of evaluation, established lazily rather than at
    /// construction time.
    pub open spec fn arity_ok(self) -> bool {
        forall|v: int| 0 <= v < self.num_nodes() ==> #[trigger] self.node_arity_ok(v)
    }

    /// Whether `self` and `other` have the same gates and wires, signal
    /// values aside.  Simulation (`set_input`, signal propagation) never
    /// changes the structure.
    pub open spec fn same_structure(self, other: Circuit) -> bool {
        &&& self.num_nodes() == other.num_nodes()
        &&& forall|v: int|
            0 <= v < self.num_nodes() ==> #[trigger] self.kind_of(v) == other.kind_of(v)
        &&& forall|v: int| 0 <= v < self.num_nodes() ==> #[trigger] self.in_deg(v) == other.in_deg(v)
        &&& forall|v: int, k: int|
            0 <= v < self.num_nodes() && 0 <= k < self.in_deg(v)
                ==> #[trigger] self.in_src(v, k) == other.in_src(v, k)
    }

    /// Whether `self` is `other` with zero or more gates appended: the gates
    /// of `other` are untouched, wires and signals included.  Construction
    /// only ever grows a circuit.
    pub open spec fn extends(self, other: Circuit) -> bool {
        &&& other.num_nodes() <= self.num_nodes()
        &&& forall|v: int| 0 <= v < other.num_nodes() ==> self.nodes@[v] == other.nodes@[v]
    }

    /// The handle of the single `MetaInput` gate.
    pub fn meta_input() -> (r: usize)
        ensures
            r == 0,
    {
        0
    }

    /// Creates a circuit holding only the `MetaInput` gate.
    pub fn new() -> (c: Circuit)
        ensures
            c.wf(),
            c.arity_ok(),
            c.num_nodes() == 1,
    {
        let mut nodes: Vec<Node> = Vec::new();
        nodes.push(Node { kind: Gate::MetaInput, ins: Vec::new() });
        Circuit { nodes }
    }

    /// Appends one gate record, wiring in the given incoming wires.
    fn push_gate(&mut self, kind: Gate, ins: Vec<(usize, bool)>) -> (r: usize)
        requires
            old(self).wf(),
            !(kind is MetaInput),
            1 <= ins@.len(),
            forall|k: int| 0 <= k < ins@.len() ==> (#[trigger] ins@[k]).0 < old(self).num_nodes(),
            kind is Input ==> ins@.len() == 1 && ins@[0].0 == 0,
            match kind {
                Gate::MetaInput => false,
                Gate::Input | Gate::Output | Gate::Not => ins@.len() == 1,
                Gate::And | Gate::Or | Gate::Xor => ins@.len() == 2,
            },
        ensures
            final(self).wf(),
            old(self).arity_ok() ==> final(self).arity_ok(),
            final(self).extends(*old(self)),
            final(self).num_nodes() == old(self).num_nodes() + 1,
            r == old(self).num_nodes(),
            final(self).kind_of(r as int) == kind,
            final(self).in_deg(r as int) == ins@.len(),
            forall|k: int|
                0 <= k < ins@.len() ==> final(self).in_src(r as int, k) == (#[trigger] ins@[k]).0,
            forall|k: int|
                0 <= k < ins@.len() ==> final(self).in_val(r as int, k) == (#[trigger] ins@[k]).1,
    {
        let r = self.nodes.len();
        self.nodes.push(Node { kind, ins });
        proof {
            let c0 = *old(self);
            let c1 = *self;
            assert(c1.nodes@ =~= c0.nodes@.push(c1.nodes@[r as int]));
            lemma_extends_accessors(c1, c0);
            assert forall|v: int| 1 <= v < c1.num_nodes() implies !((#[trigger] c1.kind_of(
                v,
            )) is MetaInput) by {
                if v < c0.num_nodes() {
                    assert(c1.kind_of(v) == c0.kind_of(v));
                }
            }
            assert forall|v: int| 1 <= v < c1.num_nodes() implies 1 <= #[trigger] c1.in_deg(v) by {
                if v < c0.num_nodes() {
                    assert(c1.in_deg(v) == c0.in_deg(v));
                }
            }
            assert forall|v: int, k: int|
                0 <= v < c1.num_nodes() && 0 <= k < c1.in_deg(v) implies 0 <= #[trigger] c1.in_src(
                v,
                k,
            ) < v by {
                if v < c0.num_nodes() {
                    assert(c1.in_src(v, k) == c0.in_src(v, k));
                } else {
                    assert(c1.in_src(v, k) == ins@[k].0);
                }
            }
            assert forall|v: int|
                0 <= v < c1.num_nodes() && (#[trigger] c1.kind_of(v)) is Input implies c1.in_deg(v)
                == 1 && c1.in_src(v, 0) == 0 by {
                if v < c0.num_nodes() {
                    assert(c1.kind_of(v) == c0.kind_of(v));
                    assert(c1.in_deg(v) == c0.in_deg(v));
                    assert(c1.in_src(v, 0) == c0.in_src(v, 0));
                }
            }
            if c0.arity_ok() {
                assert forall|v: int|
                    0 <= v < c1.num_nodes() implies #[trigger] c1.node_arity_ok(v) by {
                    if v < c0.num_nodes() {
                        assert(c0.node_arity_ok(v));
                        assert(c1.kind_of(v) == c0.kind_of(v));
                        assert(c1.in_deg(v) == c0.in_deg(v));
                    }
                }
            }
        }
        r
    }

    /// Adds an `Input` gate, wired from the `MetaInput` with an initial
    /// signal of `false`, and returns its handle.
    pub fn add_input(&mut self) -> (r: usize)
        requires
            old(self).wf(),
        ensures
            final(self).wf(),
            old(self).arity_ok() ==> final(self).arity_ok(),
            final(self).extends(*old(self)),
            final(self).num_nodes() == old(self).num_nodes() + 1,
            r == old(self).num_nodes(),
            final(self).kind_of(r as int) is Input,
            final(self).in_deg(r as int) == 1,
            final(self).in_src(r as int, 0) == 0,
            !final(self).in_val(r as int, 0),
    {
        let mut ins: Vec<(usize, bool)> = Vec::new();
        ins.push((0, false));
        proof {
            assert(ins@[0] == (0usize, false));
        }
        self.push_gate(Gate::Input, ins)
    }

    /// Adds an `Or` gate fed by `a` and `b`, its wires initially `false`,
    /// and returns its handle.
    pub fn add_or(&mut self, a: usize, b: usize) -> (r: usize)
        requires
            old(self).wf(),
            a < old(self).num_nodes(),
            b < old(self).num_nodes(),
        ensures
            final(self).wf(),
            old(self).arity_ok() ==> final(self).arity_ok(),
            final(self).extends(*old(self)),
            final(self).num_nodes() == old(self).num_nodes() + 1,
            r == old(self).num_nodes(),
            final(self).kind_of(r as int) is Or,
            final(self).in_deg(r as int) == 2,
            final(self).in_src(r as int, 0) == a,
            final(self).in_src(r as int, 1) == b,
            !final(self).in_val(r as int, 0),
            !final(self).in_val(r as int, 1),
    {
        let mut ins: Vec<(usize, bool)> = Vec::new();
        ins.push((a, false));
        ins.push((b, false));
        proof {
            assert(ins@[0] == (a, false));
            assert(ins@[1] == (b, false));
        }
        self.push_gate(Gate::Or, ins)
    }

    /// Adds an `Xor` gate fed by `a` and `b`, its wires initially `false`,
    /// and returns its handle.
    pub fn add_xor(&mut self, a: usize, b: usize) -> (r: usize)
        requires
            old(self).wf(),
            a < old(self).num_nodes(),
            b < old(self).num_nodes(),
        ensures
            final(self).wf(),
            old(self).arity_ok() ==> final(self).arity_ok(),
            final(self).extends(*old(self)),
            final(self).num_nodes() == old(self).num_nodes() + 1,
            r == old(self).num_nodes(),
            final(self).kind_of(r as int) is Xor,
            final(self).in_deg(r as int) == 2,
            final(self).in_src(r as int, 0) == a,
            final(self).in_src(r as int, 1) == b,
            !final(self).in_val(r as int, 0),
            !final(self).in_val(r as int, 1),
    {
        let mut ins: Vec<(usize, bool)> = Vec::new();
        ins.push((a, false));
        ins.push((b, false));
        proof {
            assert(ins@[0] == (a, false));
            assert(ins@[1] == (b, false));
        }
        self.push_gate(Gate::Xor, ins)
    }

    /// Adds an `And` gate fed by `a` and `b`, its wires initially `false`,
    /// and returns its handle.
    pub fn add_and(&mut self, a: usize, b: usize) -> (r: usize)
        requires
            old(self).wf(),
            a < old(self).num_nodes(),
            b < old(self).num_nodes(),
        ensures
            final(self).wf(),
            old(self).arity_ok() ==> final(self).arity_ok(),
            final(self).extends(*old(self)),
            final(self).num_nodes() == old(self).num_nodes() + 1,
            r == old(self).num_nodes(),
            final(self).kind_of(r as int) is And,
            final(self).in_deg(r as int) == 2,
            final(self).in_src(r as int, 0) == a,
            final(self).in_src(r as int, 1) == b,
            !final(self).in_val(r as int, 0),
            !final(self).in_val(r as int, 1),
    {
        let mut ins: Vec<(usize, bool)> = Vec::new();
        ins.push((a, false));
        ins.push((b, false));
        proof {
            assert(ins@[0] == (a, false));
            assert(ins@[1] == (b, false));
        }
        self.push_gate(Gate::And, ins)
    }

    /// Adds a `Not` gate fed by `a`, its wire initially `false`, and
    /// returns its handle.
    pub fn add_not(&mut self, a: usize) -> (r: usize)
        requires
            old(self).wf(),
            a < old(self).num_nodes(),
        ensures
            final(self).wf(),
            old(self).arity_ok() ==> final(self).arity_ok(),
            final(self).extends(*old(self)),
            final(self).num_nodes() == old(self).num_nodes() + 1,
            r == old(self).num_nodes(),
            final(self).kind_of(r as int) is Not,
            final(self).in_deg(r as int) == 1,
            final(self).in_src(r as int, 0) == a,
            !final(self).in_val(r as int, 0),
    {
        let mut ins: Vec<(usize, bool)> = Vec::new();
        ins.push((a, false));
        proof {
            assert(ins@[0] == (a, false));
        }
        self.push_gate(Gate::Not, ins)
    }

    /// Adds an `Output` gate fed by `a`, its wire initially `false`, and
    /// returns its handle.
    pub fn add_output(&mut self, a: usize) -> (r: usize)
        requires
            old(self).wf(),
            a < old(self).num_nodes(),
        ensures
            final(self).wf(),
            old(self).arity_ok() ==> final(self).arity_ok(),
            final(self).extends(*old(self)),
            final(self).num_nodes() == old(self).num_nodes() + 1,
            r == old(self).num_nodes(),
            final(self).kind_of(r as int) is Output,
            final(self).in_deg(r as int) == 1,
            final(self).in_src(r as int, 0) == a,
            !final(self).in_val(r as int, 0),
    {
        let mut ins: Vec<(usize, bool)> = Vec::new();
        ins.push((a, false));
        proof {
            assert(ins@[0] == (a, false));
        }
        self.push_gate(Gate::Output, ins)
    }

    /// Sets the external value driven into the `Input` gate `input`: the
    /// signal on its single wire from the `MetaInput` becomes `value`.  The
    /// change takes effect on the next evaluation pass.  No other wire and
    /// no structure changes.
    pub fn set_input(&mut self, input: usize, value: bool)
        requires
            old(self).wf(),
            input < old(self).num_nodes(),
            old(self).kind_of(input as int) is Input,
        ensures
            final(self).wf(),
            old(self).arity_ok() ==> final(self).arity_ok(),
            final(self).same_structure(*old(self)),
            final(self).in_val(input as int, 0) == value,
            forall|v: int, k: int|
                0 <= v < final(self).num_nodes() && 0 <= k < final(self).in_deg(v) && !(v == input && k == 0)
                    ==> #[trigger] final(self).in_val(v, k) == old(self).in_val(v, k),
    {
        let src = self.nodes[input].ins[0].0;
        self.nodes[input].ins[0] = (src, value);
        proof {
            lemma_same_structure_preserves_wf(*self, *old(self));
            if old(self).arity_ok() {
                lemma_same_structure_preserves_arity(*self, *old(self));
            }
        }
    }

    /// Reads the single incoming signal of an `Input`, `Output` or `Not`
    /// gate.
    pub fn get_1_in(&self, gate: usize) -> (r: bool)
        requires
            gate < self.num_nodes(),
            self.kind_of(gate as int) is Input || self.kind_of(gate as int) is Output
                || self.kind_of(gate as int) is Not,
            self.in_deg(gate as int) == 1,
        ensures
            r == self.in_val(gate as int, 0),
    {
        self.nodes[gate].ins[0].1
    }

    /// Reads the two incoming signals of an `Or`, `Xor` or `And` gate, in
    /// wiring order.
    pub fn get_2_in(&self, gate: usize) -> (r: (bool, bool))
        requires
            gate < self.num_nodes(),
            self.kind_of(gate as int) is Or || self.kind_of(gate as int) is Xor
                || self.kind_of(gate as int) is And,
            self.in_deg(gate as int) == 2,
        ensures
            r.0 == self.in_val(gate as int, 0),
            r.1 == self.in_val(gate as int, 1),
    {
        (self.nodes[gate].ins[0].1, self.nodes[gate].ins[1].1)
    }

    /// Re-checks the structural invariant of the whole circuit at run time,
    /// reporting whether it holds.  Construction keeps the invariant, so on
    /// a circuit built through this interface the check always succeeds;
    /// it is offered to callers that hold a circuit of unknown provenance.
    pub fn check_invariants(&self) -> (ok: bool)
        ensures
            ok == self.wf(),
    {
        if self.nodes.len() == 0 {
            return false;
        }
        if !(matches!(self.nodes[0].kind, Gate::MetaInput)) {
            return false;
        }
        if self.nodes[0].ins.len() != 0 {
            return false;
        }
        let mut v: usize = 1;
        while v < self.nodes.len()
            invariant
                1 <= v <= self.nodes@.len(),
                1 <= self.num_nodes(),
                self.kind_of(0) is MetaInput,
                self.in_deg(0) == 0,
                forall|w: int| 1 <= w < v ==> !((#[trigger] self.kind_of(w)) is MetaInput),
                forall|w: int| 1 <= w < v ==> 1 <= #[trigger] self.in_deg(w),
                forall|w: int, k: int|
                    0 <= w < v && 0 <= k < self.in_deg(w)
                        ==> 0 <= #[trigger] self.in_src(w, k) < w,
                forall|w: int|
                    0 <= w < v && (#[trigger] self.kind_of(w)) is Input
                        ==> self.in_deg(w) == 1 && self.in_src(w, 0) == 0,
            decreases self.nodes@.len() - v,
        {
            if matches!(self.nodes[v].kind, Gate::MetaInput) {
                proof {
                    assert(self.kind_of(v as int) is MetaInput);
                }
                return false;
            }
            let deg = self.nodes[v].ins.len();
            if deg == 0 {
                proof {
                    assert(self.in_deg(v as int) == 0);
                }
                return false;
            }
            let mut k: usize = 0;
            while k < deg
                invariant
                    0 <= k <= deg,
                    v < self.nodes@.len(),
                    deg == self.in_deg(v as int),
                    forall|j: int| 0 <= j < k ==> 0 <= #[trigger] self.in_src(v as int, j) < v,
                decreases deg - k,
            {
                if self.nodes[v].ins[k].0 >= v {
                    proof {
                        assert(self.in_src(v as int, k as int) >= v);
                    }
                    return false;
                }
                k += 1;
            }
            if matches!(self.nodes[v].kind, Gate::Input) {
                if deg != 1 || self.nodes[v].ins[0].0 != 0 {
                    return false;
                }
            }
            v += 1;
        }
        true
    }
}

/// On the gates of `c0`, a circuit that extends `c0` agrees with it on
/// every accessor: kinds, degrees, wire sources and wire signals.
pub proof fn lemma_extends_accessors(c1: Circuit, c0: Circuit)
    requires
        c1.extends(c0),
    ensures
        forall|v: int| 0 <= v < c0.num_nodes() ==> #[trigger] c1.kind_of(v) == c0.kind_of(v),
        forall|v: int| 0 <= v < c0.num_nodes() ==> #[trigger] c1.in_deg(v) == c0.in_deg(v),
        forall|v: int, k: int|
            0 <= v < c0.num_nodes() ==> #[trigger] c1.in_src(v, k) == c0.in_src(v, k),
        forall|v: int, k: int|
            0 <= v < c0.num_nodes() ==> #[trigger] c1.in_val(v, k) == c0.in_val(v, k),
{
    assert forall|v: int| 0 <= v < c0.num_nodes() implies #[trigger] c1.kind_of(v) == c0.kind_of(
        v,
    ) by {
        assert(c1.nodes@[v] == c0.nodes@[v]);
    }
    assert forall|v: int| 0 <= v < c0.num_nodes() implies #[trigger] c1.in_deg(v) == c0.in_deg(
        v,
    ) by {
        assert(c1.nodes@[v] == c0.nodes@[v]);
    }
    assert forall|v: int, k: int|
        0 <= v < c0.num_nodes() implies #[trigger] c1.in_src(v, k) == c0.in_src(v, k) by {
        assert(c1.nodes@[v] == c0.nodes@[v]);
    }
    assert forall|v: int, k: int|
        0 <= v < c0.num_nodes() implies #[trigger] c1.in_val(v, k) == c0.in_val(v, k) by {
        assert(c1.nodes@[v] == c0.nodes@[v]);
    }
}

/// A circuit with the same gates and wires as a well-formed one is itself
/// well-formed: the invariant speaks only of the structure, never of the
/// signal values.
pub proof fn lemma_same_structure_preserves_wf(c1: Circuit, c2: Circuit)
    requires
        c1.same_structure(c2),
        c2.wf(),
    ensures
        c1.wf(),
{
    assert forall|v: int| 1 <= v < c1.num_nodes() implies !((#[trigger] c1.kind_of(
        v,
    )) is MetaInput) by {
        assert(c1.kind_of(v) == c2.kind_of(v));
    }
    assert forall|v: int| 1 <= v < c1.num_nodes() implies 1 <= #[trigger] c1.in_deg(v) by {
        assert(c1.in_deg(v) == c2.in_deg(v));
    }
    assert forall|v: int, k: int|
        0 <= v < c1.num_nodes() && 0 <= k < c1.in_deg(v) implies 0 <= #[trigger] c1.in_src(v, k)
        < v by {
        assert(c1.in_deg(v) == c2.in_deg(v));
        assert(c1.in_src(v, k) == c2.in_src(v, k));
    }
    assert forall|v: int|
        0 <= v < c1.num_nodes() && (#[trigger] c1.kind_of(v)) is Input implies c1.in_deg(v) == 1
        && c1.in_src(v, 0) == 0 by {
        assert(c1.kind_of(v) == c2.kind_of(v));
        assert(c1.in_deg(v) == c2.in_deg(v));
        assert(c1.in_src(v, 0) == c2.in_src(v, 0));
    }
}

/// Law: the single-source invariant.  In every well-formed circuit exactly
/// one gate — the one at handle 0 — has kind `MetaInput`, and it has zero
/// incoming wires.  No operation of this interface can wire into an
/// existing gate at all: every new wire targets a freshly created gate, so
/// nothing can ever give the `MetaInput` an incoming wire.
pub proof fn lemma_single_source(c: Circuit)
    requires
        c.wf(),
    ensures
        c.kind_of(0) is MetaInput,
        c.in_deg(0) == 0,
        forall|v: int| 1 <= v < c.num_nodes() ==> !((#[trigger] c.kind_of(v)) is MetaInput),
{
}

/// Fan-in arity, like well-formedness, depends only on the structure.
pub proof fn lemma_same_structure_preserves_arity(c1: Circuit, c2: Circuit)
    requires
        c1.same_structure(c2),
        c2.arity_ok(),
    ensures
        c1.arity_ok(),
{
    assert forall|v: int| 0 <= v < c1.num_nodes() implies #[trigger] c1.node_arity_ok(v) by {
        assert(c2.node_arity_ok(v));
        assert(c1.kind_of(v) == c2.kind_of(v));
        assert(c1.in_deg(v) == c2.in_deg(v));
    }
}

} // verus!
