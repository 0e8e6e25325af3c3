//! Composite adder circuits.
//!
//! A half adder combines two bits into a sum and a carry; a full adder adds
//! a carry-in as well; a ripple-carry adder chains one half adder and a run
//! of full adders into an n-bit binary adder, the carry rippling from each
//! stage to the next.  The shape predicates pin down the wiring these
//! builders create, and the value laws derive from the wiring what the
//! circuit computes once it settles: bit by bit the full-adder truth table,
//! and over whole bit groups binary addition.

use vstd::prelude::*;

use vstd::arithmetic::div_mod::lemma_mod_multiples_vanish;
use vstd::arithmetic::div_mod::lemma_small_mod;
use vstd::arithmetic::power2::lemma2_to64;
use vstd::arithmetic::power2::lemma_pow2_pos;
use vstd::arithmetic::power2::lemma_pow2_unfold;
use vstd::arithmetic::power2::pow2;

use crate::circuit::Circuit;
use crate::circuit::lemma_extends_accessors;

verus! {

/// The wiring a half adder leaves behind: `s` is an `Xor` of `a` and `b`,
/// and `cy` an `And` of the same two gates.
pub open spec fn half_adder_shape(c: Circuit, a: int, b: int, s: int, cy: int) -> bool {
    &&& 0 <= a < c.num_nodes()
    &&& 0 <= b < c.num_nodes()
    &&& 0 <= s < c.num_nodes()
    &&& 0 <= cy < c.num_nodes()
    &&& c.kind_of(s) is Xor
    &&& c.in_deg(s) == 2
    &&& c.in_src(s, 0) == a
    &&& c.in_src(s, 1) == b
    &&& c.kind_of(cy) is And
    &&& c.in_deg(cy) == 2
    &&& c.in_src(cy, 0) == a
    &&& c.in_src(cy, 1) == b
}

/// The wiring a full adder leaves behind.  The shared intermediate `axb`
/// is an `Xor` of `a` and `b`; the sum `s` folds the carry-in into it; the
/// carry-out `cout` is an `Or` of the two ways a carry arises.
pub open spec fn full_adder_shape(
    c: Circuit,
    a: int,
    b: int,
    cin: int,
    axb: int,
    s: int,
    i1: int,
    i2: int,
    cout: int,
) -> bool {
    &&& 0 <= a < c.num_nodes()
    &&& 0 <= b < c.num_nodes()
    &&& 0 <= cin < c.num_nodes()
    &&& 0 <= axb < c.num_nodes()
    &&& 0 <= s < c.num_nodes()
    &&& 0 <= i1 < c.num_nodes()
    &&& 0 <= i2 < c.num_nodes()
    &&& 0 <= cout < c.num_nodes()
    &&& c.kind_of(axb) is Xor
    &&& c.in_deg(axb) == 2
    &&& c.in_src(axb, 0) == a
    &&& c.in_src(axb, 1) == b
    &&& c.kind_of(s) is Xor
    &&& c.in_deg(s) == 2
    &&& c.in_src(s, 0) == axb
    &&& c.in_src(s, 1) == cin
    &&& c.kind_of(i1) is And
    &&& c.in_deg(i1) == 2
    &&& c.in_src(i1, 0) == a
    &&& c.in_src(i1, 1) == b
    &&& c.kind_of(i2) is And
    &&& c.in_deg(i2) == 2
    &&& c.in_src(i2, 0) == cin
    &&& c.in_src(i2, 1) == axb
    &&& c.kind_of(cout) is Or
    &&& c.in_deg(cout) == 2
    &&& c.in_src(cout, 0) == i1
    &&& c.in_src(cout, 1) == i2
}

/// The wiring `ripple_carry` leaves behind for bit groups `a` and `b`: a
/// half adder on the lowest bits, then one full adder per further bit,
/// each chaining the previous stage's carry; `s` collects the sum gates
/// and `cout` is the last carry.
pub open spec fn adder_chain(
    c: Circuit,
    a: Seq<usize>,
    b: Seq<usize>,
    s: Seq<usize>,
    cout: int,
) -> bool
    decreases a.len(),
{
    if a.len() == 0 || a.len() != b.len() || a.len() != s.len() {
        false
    } else if a.len() == 1 {
        half_adder_shape(c, a[0] as int, b[0] as int, s[0] as int, cout)
    } else {
        exists|cp: int, axb: int, i1: int, i2: int|
            #![trigger full_adder_shape(c, a.last() as int, b.last() as int, cp, axb, s.last() as int, i1, i2, cout)]
            adder_chain(c, a.drop_last(), b.drop_last(), s.drop_last(), cp) && full_adder_shape(
                c,
                a.last() as int,
                b.last() as int,
                cp,
                axb,
                s.last() as int,
                i1,
                i2,
                cout,
            )
    }
}

/// The unsigned number encoded by the settled outputs of the gates `hs`,
/// least significant bit first: bit `i` contributes `2^i` when gate
/// `hs[i]` settles to true.
pub open spec fn node_vals_num(c: Circuit, hs: Seq<usize>) -> nat
    decreases hs.len(),
{
    if hs.len() == 0 {
        0
    } else {
        node_vals_num(c, hs.drop_last()) + if c.node_val(hs.last() as int) {
            pow2((hs.len() - 1) as nat)
        } else {
            0
        }
    }
}

impl Circuit {
    /// Builds a half adder over `a` and `b` and returns the handles
    /// `(sum, carry)`: `sum` an `Xor` gate and `carry` an `And` gate, both
    /// fed by `a` and `b`.
    pub fn half_adder(&mut self, a: usize, b: usize) -> (r: (usize, usize))
        requires
            old(self).wf(),
            a < old(self).num_nodes(),
            b < old(self).num_nodes(),
        ensures
            final(self).wf(),
            old(self).arity_ok() ==> final(self).arity_ok(),
            final(self).extends(*old(self)),
            final(self).num_nodes() == old(self).num_nodes() + 2,
            r.0 == old(self).num_nodes(),
            r.1 == old(self).num_nodes() + 1,
            half_adder_shape(*final(self), a as int, b as int, r.0 as int, r.1 as int),
    {
        let s = self.add_xor(a, b);
        let ghost c1: Circuit = *self;
        let c = self.add_and(a, b);
        proof {
            lemma_extends_accessors(*self, c1);
            assert(self.kind_of(s as int) == c1.kind_of(s as int));
            assert(self.in_deg(s as int) == c1.in_deg(s as int));
            assert(self.in_src(s as int, 0) == c1.in_src(s as int, 0));
            assert(self.in_src(s as int, 1) == c1.in_src(s as int, 1));
        }
        (s, c)
    }

    /// Builds a full adder over `a`, `b` and the carry-in `c_in`, and
    /// returns the handles `(sum, carry_out)`.  The intermediate
    /// `Xor(a, b)` gate is shared between the sum and the carry wiring,
    /// not duplicated.
    pub fn full_adder(&mut self, a: usize, b: usize, c_in: usize) -> (r: (usize, usize))
        requires
            old(self).wf(),
            a < old(self).num_nodes(),
            b < old(self).num_nodes(),
            c_in < old(self).num_nodes(),
        ensures
            final(self).wf(),
            old(self).arity_ok() ==> final(self).arity_ok(),
            final(self).extends(*old(self)),
            final(self).num_nodes() == old(self).num_nodes() + 5,
            r.0 == old(self).num_nodes() + 1,
            r.1 == old(self).num_nodes() + 4,
            full_adder_shape(
                *final(self),
                a as int,
                b as int,
                c_in as int,
                old(self).num_nodes(),
                r.0 as int,
                old(self).num_nodes() + 2,
                old(self).num_nodes() + 3,
                r.1 as int,
            ),
    {
        let a_x_b = self.add_xor(a, b);
        let ghost c1: Circuit = *self;
        let s = self.add_xor(a_x_b, c_in);
        let ghost c2: Circuit = *self;
        let i1 = self.add_and(a, b);
        let ghost c3: Circuit = *self;
        let i2 = self.add_and(c_in, a_x_b);
        let ghost c4: Circuit = *self;
        let c_out = self.add_or(i1, i2);
        proof {
            lemma_extends_accessors(*self, c4);
            lemma_extends_accessors(c4, c3);
            lemma_extends_accessors(c3, c2);
            lemma_extends_accessors(c2, c1);
            assert(self.kind_of(a_x_b as int) is Xor);
            assert(self.in_deg(a_x_b as int) == 2);
            assert(self.in_src(a_x_b as int, 0) == a);
            assert(self.in_src(a_x_b as int, 1) == b);
            assert(self.kind_of(s as int) is Xor);
            assert(self.in_deg(s as int) == 2);
            assert(self.in_src(s as int, 0) == a_x_b);
            assert(self.in_src(s as int, 1) == c_in);
            assert(self.kind_of(i1 as int) is And);
            assert(self.in_deg(i1 as int) == 2);
            assert(self.in_src(i1 as int, 0) == a);
            assert(self.in_src(i1 as int, 1) == b);
            assert(self.kind_of(i2 as int) is And);
            assert(self.in_deg(i2 as int) == 2);
            assert(self.in_src(i2 as int, 0) == c_in);
            assert(self.in_src(i2 as int, 1) == a_x_b);
            assert forall|v: int| 0 <= v < c1.num_nodes() implies self.nodes@[v] == c1.nodes@[v] by {
                assert(c2.nodes@[v] == c1.nodes@[v]);
                assert(c3.nodes@[v] == c2.nodes@[v]);
                assert(c4.nodes@[v] == c3.nodes@[v]);
                assert(self.nodes@[v] == c4.nodes@[v]);
            }
            assert forall|v: int|
                0 <= v < old(self).num_nodes() implies self.nodes@[v] == old(self).nodes@[v] by {
                assert(c1.nodes@[v] == old(self).nodes@[v]);
            }
            assert(self.extends(*old(self)));
        }
        (s, c_out)
    }

    /// Builds a ripple-carry adder over the equally long, least
    /// significant first bit groups `a` and `b`.  Returns the sum gates in
    /// the same bit order together with the final carry gate: bit 0 comes
    /// from a half adder on `a[0]` and `b[0]`, every further bit from a
    /// full adder fed by the previous stage's carry.
    pub fn ripple_carry(&mut self, a: &Vec<usize>, b: &Vec<usize>) -> (r: (Vec<usize>, usize))
        requires
            old(self).wf(),
            a@.len() == b@.len(),
            1 <= a@.len(),
            forall|i: int| 0 <= i < a@.len() ==> (#[trigger] a@[i]) < old(self).num_nodes(),
            forall|i: int| 0 <= i < b@.len() ==> (#[trigger] b@[i]) < old(self).num_nodes(),
        ensures
            final(self).wf(),
            old(self).arity_ok() ==> final(self).arity_ok(),
            final(self).extends(*old(self)),
            r.0@.len() == a@.len(),
            r.1 < final(self).num_nodes(),
            forall|i: int| 0 <= i < r.0@.len() ==> (#[trigger] r.0@[i]) < final(self).num_nodes(),
            adder_chain(*final(self), a@, b@, r.0@, r.1 as int),
    {
        let (s0, c0) = self.half_adder(a[0], b[0]);
        let mut out: Vec<usize> = Vec::new();
        out.push(s0);
        let mut c: usize = c0;
        let mut i: usize = 1;
        proof {
            assert(a@.subrange(0, 1) =~= seq![a@[0]]);
            assert(b@.subrange(0, 1) =~= seq![b@[0]]);
            assert(adder_chain(*self, a@.subrange(0, 1), b@.subrange(0, 1), out@, c as int));
        }
        while i < a.len()
            invariant
                1 <= i <= a@.len(),
                a@.len() == b@.len(),
                forall|j: int| 0 <= j < a@.len() ==> (#[trigger] a@[j]) < old(self).num_nodes(),
                forall|j: int| 0 <= j < b@.len() ==> (#[trigger] b@[j]) < old(self).num_nodes(),
                self.wf(),
                old(self).arity_ok() ==> self.arity_ok(),
                self.extends(*old(self)),
                out@.len() == i,
                c < self.num_nodes(),
                forall|j: int| 0 <= j < out@.len() ==> (#[trigger] out@[j]) < self.num_nodes(),
                adder_chain(*self, a@.subrange(0, i as int), b@.subrange(0, i as int), out@, c as int),
            decreases a@.len() - i,
        {
            let ghost pre: Circuit = *self;
            let ghost out_pre = out@;
            let (si, ci) = self.full_adder(a[i], b[i], c);
            out.push(si);
            proof {
                lemma_adder_chain_extends(
                    *self,
                    pre,
                    a@.subrange(0, i as int),
                    b@.subrange(0, i as int),
                    out_pre,
                    c as int,
                );
                assert(a@.subrange(0, i + 1).drop_last() =~= a@.subrange(0, i as int));
                assert(b@.subrange(0, i + 1).drop_last() =~= b@.subrange(0, i as int));
                assert(out@.drop_last() =~= out_pre);
                assert(a@.subrange(0, i + 1).last() == a@[i as int]);
                assert(b@.subrange(0, i + 1).last() == b@[i as int]);
                assert(out@.last() == si);
                assert(full_adder_shape(
                    *self,
                    a@[i as int] as int,
                    b@[i as int] as int,
                    c as int,
                    pre.num_nodes(),
                    si as int,
                    pre.num_nodes() + 2,
                    pre.num_nodes() + 3,
                    ci as int,
                ));
                assert(adder_chain(
                    *self,
                    a@.subrange(0, i + 1),
                    b@.subrange(0, i + 1),
                    out@,
                    ci as int,
                ));
                lemma_extends_accessors(*self, pre);
                assert forall|j: int| 0 <= j < out@.len() implies (#[trigger] out@[j])
                    < self.num_nodes() by {
                    if j < out_pre.len() {
                        assert(out@[j] == out_pre[j]);
                    }
                }
            }
            let c_next = ci;
            c = c_next;
            i += 1;
        }
        proof {
            assert(a@.subrange(0, a@.len() as int) =~= a@);
            assert(b@.subrange(0, b@.len() as int) =~= b@);
        }
        (out, c)
    }
}

/// Law: the half adder computes one-bit addition.  With both operands fed
/// by real gates, the sum gate settles to the exclusive or of the operand
/// values and the carry gate to their conjunction.
pub proof fn lemma_half_adder_value(c: Circuit, a: int, b: int, s: int, cy: int)
    requires
        c.wf(),
        half_adder_shape(c, a, b, s, cy),
        a != 0,
        b != 0,
    ensures
        c.node_val(s) == (c.node_val(a) != c.node_val(b)),
        c.node_val(cy) == (c.node_val(a) && c.node_val(b)),
{
    assert(!(c.kind_of(a) is MetaInput));
    assert(!(c.kind_of(b) is MetaInput));
    assert(c.wire_val(s, 0) == c.node_val(a));
    assert(c.wire_val(s, 1) == c.node_val(b));
    assert(c.wire_val(cy, 0) == c.node_val(a));
    assert(c.wire_val(cy, 1) == c.node_val(b));
}

/// Law: the full adder truth table.  With all three operands fed by real
/// gates, for each of the eight input combinations the sum gate settles to
/// `a XOR b XOR c_in` and the carry-out gate to
/// `(a AND b) OR (c_in AND (a XOR b))`.
pub proof fn lemma_full_adder_value(
    c: Circuit,
    a: int,
    b: int,
    cin: int,
    axb: int,
    s: int,
    i1: int,
    i2: int,
    cout: int,
)
    requires
        c.wf(),
        full_adder_shape(c, a, b, cin, axb, s, i1, i2, cout),
        a != 0,
        b != 0,
        cin != 0,
    ensures
        c.node_val(s) == ((c.node_val(a) != c.node_val(b)) != c.node_val(cin)),
        c.node_val(cout) == ((c.node_val(a) && c.node_val(b)) || (c.node_val(cin) && (c.node_val(a)
            != c.node_val(b)))),
{
    assert(!(c.kind_of(a) is MetaInput));
    assert(!(c.kind_of(b) is MetaInput));
    assert(!(c.kind_of(cin) is MetaInput));
    assert(!(c.kind_of(axb) is MetaInput));
    assert(!(c.kind_of(i1) is MetaInput));
    assert(!(c.kind_of(i2) is MetaInput));
    assert(c.wire_val(axb, 0) == c.node_val(a));
    assert(c.wire_val(axb, 1) == c.node_val(b));
    assert(c.node_val(axb) == (c.node_val(a) != c.node_val(b)));
    assert(c.wire_val(s, 0) == c.node_val(axb));
    assert(c.wire_val(s, 1) == c.node_val(cin));
    assert(c.node_val(s) == (c.node_val(axb) != c.node_val(cin)));
    assert(c.wire_val(i1, 0) == c.node_val(a));
    assert(c.wire_val(i1, 1) == c.node_val(b));
    assert(c.node_val(i1) == (c.node_val(a) && c.node_val(b)));
    assert(c.wire_val(i2, 0) == c.node_val(cin));
    assert(c.wire_val(i2, 1) == c.node_val(axb));
    assert(c.node_val(i2) == (c.node_val(cin) && c.node_val(axb)));
    assert(c.wire_val(cout, 0) == c.node_val(i1));
    assert(c.wire_val(cout, 1) == c.node_val(i2));
    assert(c.node_val(cout) == (c.node_val(i1) || c.node_val(i2)));
}

/// The carry gate of an adder chain is an `And` or an `Or` gate, so in
/// particular not the `MetaInput`.
proof fn lemma_adder_chain_cout(c: Circuit, a: Seq<usize>, b: Seq<usize>, s: Seq<usize>, cout: int)
    requires
        c.wf(),
        adder_chain(c, a, b, s, cout),
    ensures
        0 <= cout < c.num_nodes(),
        cout != 0,
        !(c.kind_of(cout) is MetaInput),
    decreases a.len(),
{
    if a.len() == 1 {
        assert(half_adder_shape(c, a[0] as int, b[0] as int, s[0] as int, cout));
    } else {
        let (cp, axb, i1, i2): (int, int, int, int) = choose|cp: int, axb: int, i1: int, i2: int|
            #![trigger full_adder_shape(c, a.last() as int, b.last() as int, cp, axb, s.last() as int, i1, i2, cout)]
            adder_chain(c, a.drop_last(), b.drop_last(), s.drop_last(), cp) && full_adder_shape(
                c,
                a.last() as int,
                b.last() as int,
                cp,
                axb,
                s.last() as int,
                i1,
                i2,
                cout,
            );
        assert(c.kind_of(cout) is Or);
    }
}

/// The number encoded by `len` bits stays below `2^len`.
proof fn lemma_node_vals_num_bound(c: Circuit, hs: Seq<usize>)
    ensures
        node_vals_num(c, hs) < pow2(hs.len() as nat),
    decreases hs.len(),
{
    if hs.len() == 0 {
        lemma2_to64();
    } else {
        lemma_node_vals_num_bound(c, hs.drop_last());
        lemma_pow2_unfold(hs.len() as nat);
    }
}

/// Law: the ripple-carry adder adds.  Take an adder chain over the bit
/// groups `a` and `b`, all fed by real gates.  Once the circuit settles,
/// the sum gates and the final carry together encode exactly the sum of
/// the two operand numbers; in particular the sum gates alone encode that
/// sum modulo `2^n`, where `n` is the width of the groups.
pub proof fn lemma_adder_chain_value(
    c: Circuit,
    a: Seq<usize>,
    b: Seq<usize>,
    s: Seq<usize>,
    cout: int,
)
    requires
        c.wf(),
        adder_chain(c, a, b, s, cout),
        forall|i: int| 0 <= i < a.len() ==> 1 <= #[trigger] a[i],
        forall|i: int| 0 <= i < b.len() ==> 1 <= #[trigger] b[i],
    ensures
        node_vals_num(c, s) + pow2(a.len() as nat) * (if c.node_val(cout) {
            1nat
        } else {
            0nat
        }) == node_vals_num(c, a) + node_vals_num(c, b),
        node_vals_num(c, s) == (node_vals_num(c, a) + node_vals_num(c, b)) % pow2(a.len() as nat),
    decreases a.len(),
{
    let m = a.len() as nat;
    let va = node_vals_num(c, a);
    let vb = node_vals_num(c, b);
    let vs = node_vals_num(c, s);
    let co: nat = if c.node_val(cout) {
        1nat
    } else {
        0nat
    };
    if a.len() == 1 {
        lemma_half_adder_value(c, a[0] as int, b[0] as int, s[0] as int, cout);
        lemma2_to64();
        assert(a.drop_last().len() == 0);
        assert(va == if c.node_val(a[0] as int) {
            1nat
        } else {
            0nat
        });
    } else {
        let (cp, axb, i1, i2): (int, int, int, int) = choose|cp: int, axb: int, i1: int, i2: int|
            #![trigger full_adder_shape(c, a.last() as int, b.last() as int, cp, axb, s.last() as int, i1, i2, cout)]
            adder_chain(c, a.drop_last(), b.drop_last(), s.drop_last(), cp) && full_adder_shape(
                c,
                a.last() as int,
                b.last() as int,
                cp,
                axb,
                s.last() as int,
                i1,
                i2,
                cout,
            );
        assert forall|i: int| 0 <= i < a.drop_last().len() implies 1 <= #[trigger] a.drop_last()[i] by {
            assert(a.drop_last()[i] == a[i]);
        }
        assert forall|i: int| 0 <= i < b.drop_last().len() implies 1 <= #[trigger] b.drop_last()[i] by {
            assert(b.drop_last()[i] == b[i]);
        }
        lemma_adder_chain_value(c, a.drop_last(), b.drop_last(), s.drop_last(), cp);
        lemma_adder_chain_cout(c, a.drop_last(), b.drop_last(), s.drop_last(), cp);
        assert(1 <= a.last() && 1 <= b.last());
        lemma_full_adder_value(
            c,
            a.last() as int,
            b.last() as int,
            cp,
            axb,
            s.last() as int,
            i1,
            i2,
            cout,
        );
        let va0 = node_vals_num(c, a.drop_last());
        let vb0 = node_vals_num(c, b.drop_last());
        let vs0 = node_vals_num(c, s.drop_last());
        let cpv: nat = if c.node_val(cp) {
            1nat
        } else {
            0nat
        };
        let la: nat = if c.node_val(a.last() as int) {
            1nat
        } else {
            0nat
        };
        let lb: nat = if c.node_val(b.last() as int) {
            1nat
        } else {
            0nat
        };
        let ls: nat = if c.node_val(s.last() as int) {
            1nat
        } else {
            0nat
        };
        assert(vs0 + pow2((m - 1) as nat) * cpv == va0 + vb0);
        assert(ls + 2 * co == la + lb + cpv);
        assert(va == va0 + pow2((m - 1) as nat) * la);
        assert(vb == vb0 + pow2((m - 1) as nat) * lb);
        assert(vs == vs0 + pow2((m - 1) as nat) * ls);
        lemma_pow2_unfold(m);
        assert(pow2(m) == 2 * pow2((m - 1) as nat));
        assert(vs + pow2(m) * co == vs0 + pow2((m - 1) as nat) * ls + 2 * pow2((m - 1) as nat)
            * co) by (nonlinear_arith)
            requires
                vs == vs0 + pow2((m - 1) as nat) * ls,
                pow2(m) == 2 * pow2((m - 1) as nat),
        ;
        assert(pow2((m - 1) as nat) * ls + 2 * pow2((m - 1) as nat) * co == pow2((m - 1) as nat) * (
        la + lb + cpv)) by (nonlinear_arith)
            requires
                ls + 2 * co == la + lb + cpv,
        ;
        assert(pow2((m - 1) as nat) * (la + lb + cpv) == pow2((m - 1) as nat) * la + pow2(
            (m - 1) as nat,
        ) * lb + pow2((m - 1) as nat) * cpv) by (nonlinear_arith);
        assert(vs + pow2(m) * co == va + vb);
    }
    assert(vs + pow2(m) * co == va + vb);
    lemma_node_vals_num_bound(c, s);
    lemma_pow2_pos(m);
    if c.node_val(cout) {
        assert((pow2(m) * 1 + vs as int) % (pow2(m) as int) == vs as int % (pow2(m) as int)) by {
            lemma_mod_multiples_vanish(1, vs as int, pow2(m) as int);
        }
        lemma_small_mod(vs, pow2(m));
    } else {
        lemma_small_mod(vs, pow2(m));
    }
}

/// A grown circuit keeps every adder shape it had: the shapes speak only
/// of gates that already existed, and growing never rewires them.
proof fn lemma_adder_chain_extends(
    c1: Circuit,
    c0: Circuit,
    a: Seq<usize>,
    b: Seq<usize>,
    s: Seq<usize>,
    cout: int,
)
    requires
        c1.extends(c0),
        adder_chain(c0, a, b, s, cout),
    ensures
        adder_chain(c1, a, b, s, cout),
    decreases a.len(),
{
    lemma_extends_accessors(c1, c0);
    if a.len() == 1 {
        assert(half_adder_shape(c1, a[0] as int, b[0] as int, s[0] as int, cout));
    } else {
        let (cp, axb, i1, i2): (int, int, int, int) = choose|cp: int, axb: int, i1: int, i2: int|
            #![trigger full_adder_shape(c0, a.last() as int, b.last() as int, cp, axb, s.last() as int, i1, i2, cout)]
            adder_chain(c0, a.drop_last(), b.drop_last(), s.drop_last(), cp) && full_adder_shape(
                c0,
                a.last() as int,
                b.last() as int,
                cp,
                axb,
                s.last() as int,
                i1,
                i2,
                cout,
            );
        lemma_adder_chain_extends(c1, c0, a.drop_last(), b.drop_last(), s.drop_last(), cp);
        assert(full_adder_shape(
            c1,
            a.last() as int,
            b.last() as int,
            cp,
            axb,
            s.last() as int,
            i1,
            i2,
            cout,
        ));
    }
}

} // verus!
