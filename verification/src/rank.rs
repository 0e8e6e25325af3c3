//! Longest-path layering.
//!
//! Every gate is assigned a rank: the number of wires on the longest path
//! from the `MetaInput` to that gate.  Taking the longest path, not the
//! shortest and not a first-visit depth, is what makes the rank strictly
//! increase along every wire, even where paths of different lengths reach
//! the same gate (as the carry chain of a ripple-carry adder does).  The
//! graph is acyclic with every wire running from an older gate to a newer
//! one, so the longest path to a gate is one more than the largest rank
//! among its wire sources.

use vstd::prelude::*;

use crate::circuit::Circuit;

verus! {

impl Circuit {
    /// The rank of gate `v`: the length in wires of the longest path from
    /// the `MetaInput` to `v`.  The `MetaInput` itself has rank 0; every
    /// other gate is one more than the largest rank among its wire
    /// sources.
    pub open spec fn rank_spec(self, v: int) -> int
        decreases v, 1int, 0int,
    {
        if self.wf() && 0 <= v < self.num_nodes() {
            if v == 0 {
                0
            } else {
                1 + self.max_in_rank(v, self.in_deg(v))
            }
        } else {
            0
        }
    }

    /// The largest rank among the sources of the first `m` incoming wires
    /// of gate `v`.
    pub open spec fn max_in_rank(self, v: int, m: int) -> int
        decreases v, 0int, m,
    {
        if self.wf() && 1 <= v < self.num_nodes() && 1 <= m <= self.in_deg(v) {
            let r = self.rank_spec(self.in_src(v, m - 1));
            if m == 1 {
                r
            } else {
                let r0 = self.max_in_rank(v, m - 1);
                if r0 < r {
                    r
                } else {
                    r0
                }
            }
        } else {
            0
        }
    }
}

/// A gate's rank never exceeds its handle: every wire comes from a
/// strictly older gate, so no path out of the `MetaInput` is longer than
/// the target's position in creation order.
pub proof fn lemma_rank_bounds(c: Circuit, v: int)
    requires
        c.wf(),
        0 <= v < c.num_nodes(),
    ensures
        0 <= c.rank_spec(v) <= v,
    decreases v, 1int,
{
    if v > 0 {
        lemma_max_in_rank_bounds(c, v, c.in_deg(v));
    }
}

/// The largest source rank among the first `m` wires of gate `v` stays
/// below `v`.
proof fn lemma_max_in_rank_bounds(c: Circuit, v: int, m: int)
    requires
        c.wf(),
        1 <= v < c.num_nodes(),
        1 <= m <= c.in_deg(v),
    ensures
        0 <= c.max_in_rank(v, m) <= v - 1,
    decreases v, 0int, m,
{
    let u = c.in_src(v, m - 1);
    assert(0 <= u < v);
    lemma_rank_bounds(c, u);
    if m > 1 {
        lemma_max_in_rank_bounds(c, v, m - 1);
    }
}

/// The largest source rank among the first `m` wires is no smaller than
/// any single one of them.
proof fn lemma_max_in_rank_ge(c: Circuit, v: int, m: int, k: int)
    requires
        c.wf(),
        1 <= v < c.num_nodes(),
        1 <= m <= c.in_deg(v),
        0 <= k < m,
    ensures
        c.rank_spec(c.in_src(v, k)) <= c.max_in_rank(v, m),
    decreases m,
{
    if k < m - 1 {
        lemma_max_in_rank_ge(c, v, m - 1, k);
    }
}

/// Law: ranks strictly increase along every wire.  For a wire from `u` to
/// `v`, the longest path to `u` extended by that wire is a path to `v`, so
/// the rank of `v` exceeds the rank of `u`.
pub proof fn lemma_rank_monotonic(c: Circuit, v: int, k: int)
    requires
        c.wf(),
        0 <= v < c.num_nodes(),
        0 <= k < c.in_deg(v),
    ensures
        c.rank_spec(c.in_src(v, k)) < c.rank_spec(v),
{
    assert(v != 0);
    lemma_max_in_rank_ge(c, v, c.in_deg(v), k);
}

impl Circuit {
    /// Computes every gate's rank, indexed by handle: entry `v`
    /// of the result is the length of the longest path from the
    /// `MetaInput` to gate `v`.  Along every wire the rank strictly
    /// increases, so each layer of gates of equal rank has its inputs only
    /// in earlier layers.
    pub fn ranks(&self) -> (r: Vec<u32>)
        requires
            self.wf(),
            self.num_nodes() <= u32::MAX as int,
        ensures
            r@.len() == self.num_nodes(),
            forall|v: int|
                0 <= v < self.num_nodes() ==> (#[trigger] r@[v]) as int == self.rank_spec(v),
            forall|v: int| 0 <= v < self.num_nodes() ==> (#[trigger] r@[v]) as int <= v,
            forall|v: int, k: int|
                0 <= v < self.num_nodes() && 0 <= k < self.in_deg(v)
                    ==> r@[#[trigger] self.in_src(v, k)] < r@[v],
    {
        let mut r: Vec<u32> = Vec::new();
        r.push(0);
        let mut v: usize = 1;
        while v < self.nodes.len()
            invariant
                1 <= v <= self.nodes@.len(),
                self.wf(),
                self.num_nodes() <= u32::MAX as int,
                r@.len() == v,
                forall|w: int| 0 <= w < v ==> (#[trigger] r@[w]) as int == self.rank_spec(w),
            decreases self.nodes@.len() - v,
        {
            let deg = self.nodes[v].ins.len();
            proof {
                assert(deg == self.in_deg(v as int));
                assert(1 <= self.in_deg(v as int));
                assert(0 <= self.in_src(v as int, 0) < v);
            }
            let src0 = self.nodes[v].ins[0].0;
            let mut best: u32 = r[src0];
            let mut j: usize = 1;
            proof {
                assert(best as int == self.max_in_rank(v as int, 1));
            }
            while j < deg
                invariant
                    1 <= j <= deg,
                    v < self.nodes@.len(),
                    deg == self.in_deg(v as int),
                    self.wf(),
                    r@.len() == v,
                    forall|w: int| 0 <= w < v ==> (#[trigger] r@[w]) as int == self.rank_spec(w),
                    best as int == self.max_in_rank(v as int, j as int),
                decreases deg - j,
            {
                proof {
                    assert(0 <= self.in_src(v as int, j as int) < v);
                }
                let s = self.nodes[v].ins[j].0;
                let rs = r[s];
                if rs > best {
                    best = rs;
                }
                j += 1;
            }
            proof {
                lemma_max_in_rank_bounds(*self, v as int, deg as int);
                assert(best as int <= v - 1);
                assert(self.rank_spec(v as int) == 1 + best as int);
            }
            r.push(best + 1);
            v += 1;
        }
        proof {
            assert forall|w: int| 0 <= w < self.num_nodes() implies (#[trigger] r@[w]) as int
                <= w by {
                lemma_rank_bounds(*self, w);
            }
            assert forall|w: int, k: int|
                0 <= w < self.num_nodes() && 0 <= k < self.in_deg(w) implies r@[#[trigger] self
                .in_src(w, k)] < r@[w] by {
                lemma_rank_monotonic(*self, w, k);
            }
        }
        r
    }
}

/// Inverts a rank assignment into layers: entry `L` of the result lists,
/// in ascending handle order, exactly the gates whose rank is `L`.  The
/// layers run from rank 0 to the largest rank present, so the last layer
/// is never empty.  Consumers (a layout, a renderer) get the same sequence
/// for the same assignment.
/// Whether gate `w` appears somewhere in `layer`.
pub open spec fn appears(layer: Seq<usize>, w: int) -> bool {
    exists|i: int| 0 <= i < layer.len() && (#[trigger] layer[i]) as int == w
}

pub fn flip_ranks(ranks: &Vec<u32>) -> (layers: Vec<Vec<usize>>)
    requires
        1 <= ranks@.len(),
        forall|w: int| 0 <= w < ranks@.len() ==> (#[trigger] ranks@[w]) < u32::MAX,
    ensures
        1 <= layers@.len(),
        forall|w: int| 0 <= w < ranks@.len() ==> (#[trigger] ranks@[w]) < layers@.len(),
        forall|l: int, i: int|
            0 <= l < layers@.len() && 0 <= i < layers@[l]@.len() ==> (#[trigger] layers@[l]@[i])
                < ranks@.len() && ranks@[layers@[l]@[i] as int] == l,
        forall|l: int, i: int, j: int|
            0 <= l < layers@.len() && 0 <= i < j < layers@[l]@.len()
                ==> layers@[l]@[i] < layers@[l]@[j],
        forall|w: int|
            0 <= w < ranks@.len() ==> #[trigger] appears(layers@[ranks@[w] as int]@, w),
        0 < layers@[layers@.len() - 1]@.len(),
{
    let mut m: u32 = ranks[0];
    let mut w: usize = 1;
    while w < ranks.len()
        invariant
            1 <= w <= ranks@.len(),
            forall|x: int| 0 <= x < w ==> (#[trigger] ranks@[x]) <= m,
            exists|x: int| 0 <= x < w && (#[trigger] ranks@[x]) == m,
        decreases ranks@.len() - w,
    {
        let rw = ranks[w];
        if rw > m {
            m = rw;
        }
        w += 1;
    }
    proof {
        let x0: int = choose|x0: int| 0 <= x0 < ranks@.len() && (#[trigger] ranks@[x0]) == m;
        assert(ranks@[x0] < u32::MAX);
    }
    let mut layers: Vec<Vec<usize>> = Vec::new();
    let mut l: usize = 0;
    while l < (m as usize) + 1
        invariant
            m < u32::MAX,
            layers@.len() == l,
            l <= m as usize + 1,
            forall|x: int| 0 <= x < l ==> (#[trigger] layers@[x])@.len() == 0,
        decreases m as usize + 1 - l,
    {
        layers.push(Vec::new());
        l += 1;
    }
    let ghost mut pos: Seq<int> = Seq::empty();
    let mut w: usize = 0;
    while w < ranks.len()
        invariant
            w <= ranks@.len(),
            layers@.len() == m as usize + 1,
            pos.len() == w,
            forall|x: int| 0 <= x < ranks@.len() ==> (#[trigger] ranks@[x]) <= m,
            exists|x: int| 0 <= x < ranks@.len() && (#[trigger] ranks@[x]) == m,
            forall|l2: int, i: int|
                0 <= l2 < layers@.len() && 0 <= i < layers@[l2]@.len()
                    ==> (#[trigger] layers@[l2]@[i]) < w && ranks@[layers@[l2]@[i] as int] == l2,
            forall|l2: int, i: int, j: int|
                0 <= l2 < layers@.len() && 0 <= i < j < layers@[l2]@.len()
                    ==> layers@[l2]@[i] < layers@[l2]@[j],
            forall|x: int|
                0 <= x < w ==> 0 <= #[trigger] pos[x] < layers@[ranks@[x] as int]@.len()
                    && (layers@[ranks@[x] as int]@[pos[x]]) as int == x,
        decreases ranks@.len() - w,
    {
        let rw = ranks[w];
        let ghost pre = layers@;
        proof {
            assert(ranks@[w as int] <= m);
        }
        layers[rw as usize].push(w);
        proof {
            pos = pos.push(pre[rw as int]@.len() as int);
            assert(layers@[rw as int]@ =~= pre[rw as int]@.push(w));
            assert forall|l2: int|
                0 <= l2 < layers@.len() && l2 != rw as int implies layers@[l2] == pre[l2] by {}
            assert forall|x: int|
                0 <= x < w + 1 implies 0 <= #[trigger] pos[x] < layers@[ranks@[x] as int]@.len()
                    && (layers@[ranks@[x] as int]@[pos[x]]) as int == x by {
                if x == w as int {
                    assert(pos[x] == pre[rw as int]@.len() as int);
                    assert((layers@[rw as int]@[pos[x]]) as int == x);
                }
            }
        }
        w += 1;
    }
    proof {
        assert forall|x: int|
            0 <= x < ranks@.len() implies #[trigger] appears(layers@[ranks@[x] as int]@, x) by {
            assert((layers@[ranks@[x] as int]@[pos[x]]) as int == x);
        }
        let x: int = choose|x: int| 0 <= x < ranks@.len() && (#[trigger] ranks@[x]) == m;
        assert((layers@[ranks@[x] as int]@[pos[x]]) as int == x);
    }
    layers
}

} // verus!
