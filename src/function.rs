use vstd::prelude::*;

use crate::arm::Block;

use std::collections::{BTreeMap, BTreeSet};

verus! {

/// A function: its blocks, in increasing order of start address.
#[derive(Debug)]
pub struct Function {
    pub name: String,
    pub start_addr: u64,
    pub end_addr: u64,
    pub blocks: Vec<Block>,
}

/// A node of the dominator tree: its immediate dominator (`None` at the entry)
/// and the nodes below it.
#[derive(Debug)]
pub struct Dominates {
    pub parent: Option<u64>,
    pub dominates: Vec<u64>,
}

/// `idxs` maps each element of `ordering` to its position, and nothing else.
pub open spec fn ordering_ok(ordering: Seq<u64>, idxs: Map<u64, usize>) -> bool {
    &&& forall|i: int|
        0 <= i < ordering.len() ==> idxs.contains_key(#[trigger] ordering[i]) && idxs[ordering[i]] == i
    &&& forall|a: u64| #[trigger] idxs.contains_key(a) ==> idxs[a] < ordering.len() && ordering[idxs[a] as int] == a
}

/// Every block with an immediate dominator is in the order, and so is its
/// immediate dominator.
pub open spec fn idoms_ok(idoms: Map<u64, u64>, idxs: Map<u64, usize>) -> bool {
    forall|k: u64| #[trigger] idoms.contains_key(k) ==> idxs.contains_key(k) && idoms.contains_key(idoms[k])
}

/// Whether `a` is `x` or is reached from `x` by following `idoms` at most
/// `n` times.
pub open spec fn on_chain(idoms: Map<u64, u64>, a: u64, x: u64, n: nat) -> bool
    decreases n,
{
    a == x || (n > 0 && idoms.contains_key(x) && on_chain(idoms, a, idoms[x], (n - 1) as nat))
}

proof fn lemma_on_chain_step(idoms: Map<u64, u64>, y: u64, x: u64, n: nat)
    requires
        on_chain(idoms, y, x, n),
        idoms.contains_key(y),
    ensures
        on_chain(idoms, idoms[y], x, n + 1),
    decreases n,
{
    if y == x {
        if idoms[x] != x {
            assert(on_chain(idoms, idoms[x], idoms[x], n));
        }
    } else {
        lemma_on_chain_step(idoms, y, idoms[x], (n - 1) as nat);
    }
}

/// `a` is `x` or lies above it on its chain of immediate dominators.
pub open spec fn ancestor(idoms: Map<u64, u64>, a: u64, x: u64) -> bool {
    exists|n: nat| #[trigger] on_chain(idoms, a, x, n)
}

/// Along a chain, positions in the order never grow.
proof fn lemma_chain_index(
    idoms: Map<u64, u64>,
    ordering: Seq<u64>,
    idxs: Map<u64, usize>,
    a: u64,
    x: u64,
    n: nat,
)
    requires
        ordering_ok(ordering, idxs),
        idoms_ok(idoms, idxs),
        ordering.len() > 0,
        idoms_precede(idoms, idxs, ordering[0]),
        idoms.contains_key(ordering[0]) && idoms[ordering[0]] == ordering[0],
        idoms.contains_key(x),
        on_chain(idoms, a, x, n),
    ensures
        idoms.contains_key(a),
        idxs[a] <= idxs[x],
    decreases n,
{
    if a != x {
        lemma_chain_index(idoms, ordering, idxs, a, idoms[x], (n - 1) as nat);
    }
}

/// Walks two blocks up the dominator tree, always moving the one later in the
/// depth-first order, until they meet; returns the meeting block, a common
/// ancestor of both on their chains of immediate dominators.
pub fn intersect(
    idoms: &BTreeMap<u64, u64>,
    ordering: &[u64],
    ordering_idxs: &BTreeMap<u64, usize>,
    b1: u64,
    b2: u64,
) -> (r: u64)
    requires
        ordering_ok(ordering@, ordering_idxs@),
        idoms_ok(idoms@, ordering_idxs@),
        ordering@.len() > 0,
        idoms_precede(idoms@, ordering_idxs@, ordering@[0]),
        idoms@.contains_key(ordering@[0]) && idoms@[ordering@[0]] == ordering@[0],
        idoms@.contains_key(b1),
        idoms@.contains_key(b2),
    ensures
        idoms@.contains_key(r),
        ordering_idxs@[r] <= ordering_idxs@[b1],
        ordering_idxs@[r] <= ordering_idxs@[b2],
        ancestor(idoms@, r, b1),
        ancestor(idoms@, r, b2),
        forall|x: u64|
            #[trigger] ancestor(idoms@, x, b1) && ancestor(idoms@, x, b2) ==> ordering_idxs@[x]
                <= ordering_idxs@[r],
{
    let mut finger1: usize = *ordering_idxs.get(&b1).unwrap();
    let mut finger2: usize = *ordering_idxs.get(&b2).unwrap();
    let ghost mut n1: nat = 0;
    let ghost mut n2: nat = 0;
    proof {
        assert(on_chain(idoms@, b1, b1, 0));
        assert(on_chain(idoms@, b2, b2, 0));
    }
    while finger1 != finger2
        invariant
            ordering_ok(ordering@, ordering_idxs@),
            idoms_ok(idoms@, ordering_idxs@),
            ordering@.len() > 0,
            idoms_precede(idoms@, ordering_idxs@, ordering@[0]),
            finger1 < ordering@.len(),
            finger2 < ordering@.len(),
            idoms@.contains_key(ordering@[finger1 as int]),
            idoms@.contains_key(ordering@[finger2 as int]),
            finger1 <= ordering_idxs@[b1],
            finger2 <= ordering_idxs@[b2],
            on_chain(idoms@, ordering@[finger1 as int], b1, n1),
            on_chain(idoms@, ordering@[finger2 as int], b2, n2),
            idoms@.contains_key(ordering@[0]) && idoms@[ordering@[0]] == ordering@[0],
            forall|x: u64|
                #[trigger] ancestor(idoms@, x, b1) && ancestor(idoms@, x, b2) ==> ancestor(
                    idoms@,
                    x,
                    ordering@[finger1 as int],
                ) && ancestor(idoms@, x, ordering@[finger2 as int]),
        decreases finger1 + finger2,
    {
        if finger1 > finger2 {
            let x = ordering[finger1];
            let up = *idoms.get(&x).unwrap();
            proof {
                assert(x != ordering@[0]);
                lemma_on_chain_step(idoms@, x, b1, n1);
                n1 = n1 + 1;
                let y2 = ordering@[finger2 as int];
                assert forall|z: u64|
                    #[trigger] ancestor(idoms@, z, b1) && ancestor(idoms@, z, b2) implies ancestor(idoms@, z, up) by {
                    let k1 = choose|k: nat| #[trigger] on_chain(idoms@, z, x, k);
                    let k2 = choose|k: nat| #[trigger] on_chain(idoms@, z, y2, k);
                    lemma_chain_index(idoms@, ordering@, ordering_idxs@, z, y2, k2);
                    assert(z != x);
                    assert(on_chain(idoms@, z, up, (k1 - 1) as nat));
                }
            }
            finger1 = *ordering_idxs.get(&up).unwrap();
        } else {
            let x = ordering[finger2];
            let up = *idoms.get(&x).unwrap();
            proof {
                assert(x != ordering@[0]);
                lemma_on_chain_step(idoms@, x, b2, n2);
                n2 = n2 + 1;
                let y1 = ordering@[finger1 as int];
                assert forall|z: u64|
                    #[trigger] ancestor(idoms@, z, b1) && ancestor(idoms@, z, b2) implies ancestor(idoms@, z, up) by {
                    let k2 = choose|k: nat| #[trigger] on_chain(idoms@, z, x, k);
                    let k1 = choose|k: nat| #[trigger] on_chain(idoms@, z, y1, k);
                    lemma_chain_index(idoms@, ordering@, ordering_idxs@, z, y1, k1);
                    assert(z != x);
                    assert(on_chain(idoms@, z, up, (k2 - 1) as nat));
                }
            }
            finger2 = *ordering_idxs.get(&up).unwrap();
        }
    }
    proof {
        let r = ordering@[finger1 as int];
        assert(on_chain(idoms@, r, b1, n1));
        assert(on_chain(idoms@, r, b2, n2));
        assert forall|z: u64|
            #[trigger] ancestor(idoms@, z, b1) && ancestor(idoms@, z, b2) implies ordering_idxs@[z]
                <= ordering_idxs@[r] by {
            let k = choose|k: nat| #[trigger] on_chain(idoms@, z, r, k);
            lemma_chain_index(idoms@, ordering@, ordering_idxs@, z, r, k);
        }
    }
    ordering[finger1]
}

/// Each block other than the entry comes after its immediate dominator in
/// the depth-first order.
pub open spec fn idoms_precede(idoms: Map<u64, u64>, idxs: Map<u64, usize>, start: u64) -> bool {
    forall|k: u64| #[trigger] idoms.contains_key(k) && k != start ==> idxs[idoms[k]] < idxs[k]
}

/// Each element is smaller than the next.
pub open spec fn increasing(s: Seq<u64>) -> bool {
    forall|x: int, y: int| 0 <= x < y < s.len() ==> #[trigger] s[x] < #[trigger] s[y]
}

/// Two increasing sequences with the same elements are equal.
pub proof fn lemma_increasing_unique(a: Seq<u64>, b: Seq<u64>)
    requires
        increasing(a),
        increasing(b),
        forall|c: u64| a.contains(c) <==> b.contains(c),
    ensures
        a == b,
    decreases a.len(),
{
    if a.len() == 0 {
        if b.len() > 0 {
            assert(b.contains(b[0]));
        }
        assert(a =~= b);
    } else if b.len() == 0 {
        assert(a.contains(a[0]));
    } else {
        // The least elements agree.
        assert(a.contains(b[0]) && b.contains(a[0]));
        let i = a.index_of(b[0]);
        let j = b.index_of(a[0]);
        if a[0] != b[0] {
            if a[0] < b[0] {
                assert(j > 0);
                assert(b[0] < b[j]);
            } else {
                assert(i > 0);
                assert(a[0] < a[i]);
            }
        }
        let a1 = a.drop_first();
        let b1 = b.drop_first();
        assert forall|c: u64| a1.contains(c) <==> b1.contains(c) by {
            if a1.contains(c) {
                let x = a1.index_of(c);
                assert(a[x + 1] == c);
                assert(b.contains(c));
                let y = b.index_of(c);
                assert(y != 0);
                assert(b1[y - 1] == c);
            }
            if b1.contains(c) {
                let y = b1.index_of(c);
                assert(b[y + 1] == c);
                assert(a.contains(c));
                let x = a.index_of(c);
                assert(x != 0);
                assert(a1[x - 1] == c);
            }
        }
        assert(increasing(a1)) by {
            assert forall|x: int, y: int| 0 <= x < y < a1.len() implies #[trigger] a1[x] < #[trigger] a1[y] by {
                assert(a[x + 1] < a[y + 1]);
            }
        }
        assert(increasing(b1)) by {
            assert forall|x: int, y: int| 0 <= x < y < b1.len() implies #[trigger] b1[x] < #[trigger] b1[y] by {
                assert(b[x + 1] < b[y + 1]);
            }
        }
        lemma_increasing_unique(a1, b1);
        assert(a =~= seq![a[0]] + a1);
        assert(b =~= seq![b[0]] + b1);
    }
}

/// The number of `false` entries.
pub open spec fn count_false(s: Seq<bool>) -> nat
    decreases s.len(),
{
    if s.len() == 0 {
        0
    } else {
        count_false(s.drop_last()) + if s.last() {
            0nat
        } else {
            1nat
        }
    }
}

proof fn lemma_count_false_update(s: Seq<bool>, i: int)
    requires
        0 <= i < s.len(),
        !s[i],
    ensures
        count_false(s.update(i, true)) + 1 == count_false(s),
    decreases s.len(),
{
    let t = s.update(i, true);
    if i < s.len() - 1 {
        assert(t.drop_last() =~= s.drop_last().update(i, true));
        lemma_count_false_update(s.drop_last(), i);
    } else {
        assert(t.drop_last() =~= s.drop_last());
    }
}

impl Function {
    /// Block start addresses strictly increase.
    pub open spec fn wf(&self) -> bool {
        forall|i: int, j: int|
            0 <= i < j < self.blocks@.len() ==> (#[trigger] self.blocks@[i]).start_addr
                < (#[trigger] self.blocks@[j]).start_addr
    }

    pub open spec fn has_block(&self, a: u64) -> bool {
        exists|i: int| 0 <= i < self.blocks@.len() && (#[trigger] self.blocks@[i]).start_addr == a
    }

    /// An edge of the control-flow graph: `v` is a successor of block `u`
    /// and is itself a block of the function.
    pub open spec fn is_edge(&self, u: u64, v: u64) -> bool {
        &&& exists|i: int|
            0 <= i < self.blocks@.len() && (#[trigger] self.blocks@[i]).start_addr == u
                && self.blocks@[i].dests@.contains(v)
        &&& self.has_block(v)
    }

    pub open spec fn is_path(&self, p: Seq<u64>) -> bool {
        &&& p.len() > 0
        &&& forall|k: int| 0 <= k < p.len() - 1 ==> self.is_edge(#[trigger] p[k], p[k + 1])
    }

    /// Whether some path leads from `s` to `v`.
    pub open spec fn reaches(&self, s: u64, v: u64) -> bool {
        exists|p: Seq<u64>| #[trigger] self.is_path(p) && p[0] == s && p.last() == v
    }

    /// Every path from the entry to `b` passes through `d`.
    pub open spec fn dominates(&self, d: u64, b: u64) -> bool {
        forall|p: Seq<u64>|
            #[trigger] self.is_path(p) && p[0] == self.start_addr && p.last() == b ==> p.contains(d)
    }

    /// `d` is the immediate dominator of `b`: it strictly dominates `b`, and
    /// every other block that strictly dominates `b` dominates `d`.
    pub open spec fn is_idom(&self, d: u64, b: u64) -> bool {
        &&& d != b
        &&& self.dominates(d, b)
        &&& forall|e: u64| e != b && #[trigger] self.dominates(e, b) ==> self.dominates(e, d)
    }

    proof fn lemma_path_prefix(&self, p: Seq<u64>, i: int)
        requires
            self.is_path(p),
            0 <= i < p.len(),
        ensures
            self.is_path(p.subrange(0, i + 1)),
    {
        let q = p.subrange(0, i + 1);
        assert forall|k: int| 0 <= k < q.len() - 1 implies self.is_edge(#[trigger] q[k], q[k + 1]) by {
            assert(q[k] == p[k] && q[k + 1] == p[k + 1]);
        }
    }

    proof fn lemma_path_join(&self, p: Seq<u64>, q: Seq<u64>)
        requires
            self.is_path(p),
            self.is_path(q),
            p.last() == q[0],
        ensures
            self.is_path(p + q.drop_first()),
            (p + q.drop_first())[0] == p[0],
            (p + q.drop_first()).last() == q.last(),
    {
        let r = p + q.drop_first();
        assert forall|k: int| 0 <= k < r.len() - 1 implies self.is_edge(#[trigger] r[k], r[k + 1]) by {
            if k < p.len() - 1 {
                assert(r[k] == p[k] && r[k + 1] == p[k + 1]);
            } else {
                let m = k - (p.len() - 1);
                assert(r[k] == q[m] && r[k + 1] == q[m + 1]);
            }
        }
        if q.len() == 1 {
            assert(r =~= p);
        }
    }

    /// Dominance is transitive.
    pub proof fn lemma_dominates_trans(&self, e: u64, c: u64, d: u64)
        requires
            self.dominates(e, c),
            self.dominates(c, d),
        ensures
            self.dominates(e, d),
    {
        assert forall|p: Seq<u64>|
            #[trigger] self.is_path(p) && p[0] == self.start_addr && p.last() == d implies p.contains(e) by {
            let i = p.index_of(c);
            self.lemma_path_prefix(p, i);
            let q = p.subrange(0, i + 1);
            assert(q.last() == c);
            assert(q.contains(e));
            let j = q.index_of(e);
            assert(p[j] == e);
        }
    }

    /// The last position at or before `i` that holds `x` or `y`.
    proof fn last_hit(r: Seq<u64>, x: u64, y: u64, i: int) -> (j: int)
        requires
            0 <= i < r.len(),
            exists|k: int| 0 <= k <= i && (r[k] == x || r[k] == y),
        ensures
            0 <= j <= i,
            r[j] == x || r[j] == y,
            forall|k: int| j < k <= i ==> r[k] != x && r[k] != y,
        decreases i,
    {
        if r[i] == x || r[i] == y {
            i
        } else {
            Self::last_hit(r, x, y, i - 1)
        }
    }

    /// Two blocks that strictly dominate a reached block are ordered by
    /// dominance.
    pub proof fn lemma_dominators_ordered(&self, b: u64, d1: u64, d2: u64)
        requires
            self.reaches(self.start_addr, b),
            self.dominates(d1, b),
            self.dominates(d2, b),
            d1 != b,
            d2 != b,
        ensures
            self.dominates(d1, d2) || self.dominates(d2, d1),
    {
        if !self.dominates(d1, d2) && !self.dominates(d2, d1) {
            let p1 = choose|p: Seq<u64>|
                #[trigger] self.is_path(p) && p[0] == self.start_addr && p.last() == d1 && !p.contains(d2);
            let p2 = choose|p: Seq<u64>|
                #[trigger] self.is_path(p) && p[0] == self.start_addr && p.last() == d2 && !p.contains(d1);
            let r = choose|p: Seq<u64>| #[trigger] self.is_path(p) && p[0] == self.start_addr && p.last() == b;
            assert(r.contains(d1));
            let a = r.index_of(d1);
            let j = Self::last_hit(r, d1, d2, r.len() - 1);
            assert(j < r.len() - 1);
            if r[j] == d1 {
                self.lemma_detour(p1, r, j, d1, d2);
            } else {
                self.lemma_detour(p2, r, j, d2, d1);
            }
        }
    }

    /// A path from the entry to `x` that avoids `y`, followed by the part of
    /// `r` after its last visit to `x` or `y` (which is `x`), avoids `y`.
    proof fn lemma_detour(&self, p: Seq<u64>, r: Seq<u64>, j: int, x: u64, y: u64)
        requires
            self.is_path(p),
            p[0] == self.start_addr,
            p.last() == x,
            !p.contains(y),
            self.is_path(r),
            0 <= j < r.len() - 1,
            r[j] == x,
            forall|k: int| j < k <= r.len() - 1 ==> r[k] != x && r[k] != y,
        ensures
            !self.dominates(y, r.last()),
    {
        let t = r.subrange(j, r.len() as int);
        assert forall|k: int| 0 <= k < t.len() - 1 implies self.is_edge(#[trigger] t[k], t[k + 1]) by {
            assert(t[k] == r[j + k] && t[k + 1] == r[j + k + 1]);
        }
        self.lemma_path_join(p, t);
        let q = p + t.drop_first();
        assert(!q.contains(y)) by {
            if q.contains(y) {
                let z = q.index_of(y);
                if z < p.len() {
                    assert(p[z] == y);
                } else {
                    assert(q[z] == r[j + 1 + (z - p.len())]);
                }
            }
        }
        assert(self.is_path(q) && q[0] == self.start_addr && q.last() == r.last());
    }

    /// The entry dominates every block.
    pub proof fn lemma_entry_dominates(&self, b: u64)
        ensures
            self.dominates(self.start_addr, b),
    {
        assert forall|p: Seq<u64>|
            #[trigger] self.is_path(p) && p[0] == self.start_addr && p.last() == b implies p.contains(
            self.start_addr,
        ) by {
            assert(p[0] == self.start_addr);
        }
    }

    /// `g` is this function with the block that starts at `d` removed: the
    /// same entry and the same blocks and successors otherwise.
    pub open spec fn is_without(&self, g: Function, d: u64) -> bool {
        &&& g.start_addr == self.start_addr
        &&& forall|j: int|
            0 <= j < g.blocks@.len() ==> (#[trigger] g.blocks@[j]).start_addr != d && exists|i: int|
                0 <= i < self.blocks@.len() && (#[trigger] self.blocks@[i]).start_addr == g.blocks@[j].start_addr
                    && self.blocks@[i].dests@ == g.blocks@[j].dests@
        &&& forall|i: int|
            0 <= i < self.blocks@.len() && (#[trigger] self.blocks@[i]).start_addr != d ==> exists|j: int|
                0 <= j < g.blocks@.len() && (#[trigger] g.blocks@[j]).start_addr == self.blocks@[i].start_addr
                    && g.blocks@[j].dests@ == self.blocks@[i].dests@
    }

    #[verifier::rlimit(30)]
    proof fn lemma_without_edge_back(&self, g: Function, d: u64, u: u64, w: u64)
        requires
            self.wf(),
            self.is_without(g, d),
            g.is_edge(u, w),
        ensures
            self.is_edge(u, w) && u != d && w != d,
    {
        let j = choose|j: int|
            0 <= j < g.blocks@.len() && (#[trigger] g.blocks@[j]).start_addr == u && g.blocks@[j].dests@.contains(w);
        let j2 = choose|j2: int| 0 <= j2 < g.blocks@.len() && (#[trigger] g.blocks@[j2]).start_addr == w;
        assert(g.blocks@[j].start_addr != d);
        assert(g.blocks@[j2].start_addr != d);
        let i = choose|i: int|
            0 <= i < self.blocks@.len() && (#[trigger] self.blocks@[i]).start_addr == g.blocks@[j].start_addr
                && self.blocks@[i].dests@ == g.blocks@[j].dests@;
        let i2 = choose|i: int|
            0 <= i < self.blocks@.len() && (#[trigger] self.blocks@[i]).start_addr == g.blocks@[j2].start_addr
                && self.blocks@[i].dests@ == g.blocks@[j2].dests@;
        assert(self.blocks@[i2].start_addr == w);
        assert(self.blocks@[i].dests@.contains(w));
    }

    #[verifier::rlimit(30)]
    proof fn lemma_without_edge_forth(&self, g: Function, d: u64, u: u64, w: u64)
        requires
            self.wf(),
            self.is_without(g, d),
            self.is_edge(u, w),
            u != d,
            w != d,
        ensures
            g.is_edge(u, w),
    {
        let i = choose|i: int|
            0 <= i < self.blocks@.len() && (#[trigger] self.blocks@[i]).start_addr == u && self.blocks@[i].dests@.contains(w);
        let i2 = choose|i2: int| 0 <= i2 < self.blocks@.len() && (#[trigger] self.blocks@[i2]).start_addr == w;
        let j = choose|j: int|
            0 <= j < g.blocks@.len() && (#[trigger] g.blocks@[j]).start_addr == self.blocks@[i].start_addr
                && g.blocks@[j].dests@ == self.blocks@[i].dests@;
        let j2 = choose|j: int|
            0 <= j < g.blocks@.len() && (#[trigger] g.blocks@[j]).start_addr == self.blocks@[i2].start_addr
                && g.blocks@[j].dests@ == self.blocks@[i2].dests@;
        assert(g.blocks@[j2].start_addr == w);
        assert(g.blocks@[j].dests@.contains(w));
    }

    proof fn lemma_without_edge(&self, g: Function, d: u64, u: u64, w: u64)
        requires
            self.wf(),
            self.is_without(g, d),
        ensures
            g.is_edge(u, w) <==> (self.is_edge(u, w) && u != d && w != d),
    {
        if g.is_edge(u, w) {
            self.lemma_without_edge_back(g, d, u, w);
        }
        if self.is_edge(u, w) && u != d && w != d {
            self.lemma_without_edge_forth(g, d, u, w);
        }
    }

    /// With `d` removed, `v` is reached from the entry exactly when `d` does
    /// not dominate `v` (for `d` other than the entry).
    pub proof fn lemma_without_dominates(&self, g: Function, d: u64, v: u64)
        requires
            self.wf(),
            self.is_without(g, d),
            d != self.start_addr,
        ensures
            g.reaches(self.start_addr, v) <==> !self.dominates(d, v),
    {
        assert forall|u: u64, w: u64| #[trigger] g.is_edge(u, w) <==> (self.is_edge(u, w) && u != d && w != d) by {
            self.lemma_without_edge(g, d, u, w);
        }
        if g.reaches(self.start_addr, v) {
            let p = choose|p: Seq<u64>| #[trigger] g.is_path(p) && p[0] == self.start_addr && p.last() == v;
            assert forall|k: int| 0 <= k < p.len() - 1 implies self.is_edge(#[trigger] p[k], p[k + 1]) by {
                assert(g.is_edge(p[k], p[k + 1]));
            }
            assert(self.is_path(p));
            assert(!p.contains(d)) by {
                if p.contains(d) {
                    let z = p.index_of(d);
                    if z == 0 {
                    } else {
                        assert(g.is_edge(p[z - 1], p[z]));
                    }
                }
            }
        }
        if !self.dominates(d, v) {
            let p = choose|p: Seq<u64>|
                #[trigger] self.is_path(p) && p[0] == self.start_addr && p.last() == v && !p.contains(d);
            assert forall|k: int| 0 <= k < p.len() - 1 implies g.is_edge(#[trigger] p[k], p[k + 1]) by {
                assert(self.is_edge(p[k], p[k + 1]));
                assert(p[k] != d) by {
                    if p[k] == d {
                        assert(p.contains(d));
                    }
                }
                assert(p[k + 1] != d) by {
                    if p[k + 1] == d {
                        assert(p.contains(d));
                    }
                }
            }
            assert(g.is_path(p));
        }
    }

    /// A copy of the graph of this function without the block at `d`.
    fn without(&self, d: u64) -> (g: Function)
        requires
            self.wf(),
        ensures
            g.wf(),
            self.is_without(g, d),
    {
        let mut blocks: Vec<Block> = Vec::new();
        let ghost mut src: Seq<int> = Seq::empty();
        let ghost mut pos: Map<int, int> = Map::empty();
        let mut i: usize = 0;
        while i < self.blocks.len()
            invariant
                self.wf(),
                i <= self.blocks@.len(),
                src.len() == blocks@.len(),
                forall|j: int|
                    0 <= j < blocks@.len() ==> 0 <= #[trigger] src[j] < i && self.blocks@[src[j]].start_addr
                        == blocks@[j].start_addr && self.blocks@[src[j]].dests@ == blocks@[j].dests@
                        && blocks@[j].start_addr != d,
                forall|j1: int, j2: int| 0 <= j1 < j2 < src.len() ==> #[trigger] src[j1] < #[trigger] src[j2],
                forall|k: int|
                    0 <= k < i && self.blocks@[k].start_addr != d ==> #[trigger] pos.contains_key(k) && 0 <= pos[k]
                        < src.len() && src[pos[k]] == k,
            decreases self.blocks@.len() - i,
        {
            let b = &self.blocks[i];
            if b.start_addr != d {
                let mut dests: Vec<u64> = Vec::new();
                let mut t: usize = 0;
                while t < b.dests.len()
                    invariant
                        t <= b.dests@.len(),
                        dests@ == b.dests@.subrange(0, t as int),
                    decreases b.dests@.len() - t,
                {
                    dests.push(b.dests[t]);
                    t = t + 1;
                }
                assert(dests@ =~= b.dests@);
                proof {
                    let src0 = src;
                    let pos0 = pos;
                    pos = pos.insert(i as int, src.len() as int);
                    src = src.push(i as int);
                    assert forall|k: int|
                        0 <= k < i + 1 && self.blocks@[k].start_addr != d implies #[trigger] pos.contains_key(k)
                            && 0 <= pos[k] < src.len() && src[pos[k]] == k by {
                        if k < i {
                            assert(pos0.contains_key(k));
                            assert(pos[k] == pos0[k]);
                            assert(src[pos0[k]] == src0[pos0[k]]);
                        }
                    }
                    assert forall|j1: int, j2: int| 0 <= j1 < j2 < src.len() implies #[trigger] src[j1] < #[trigger] src[j2] by {
                        if j2 < src0.len() {
                            assert(src[j1] == src0[j1] && src[j2] == src0[j2]);
                        } else {
                            assert(src[j1] == src0[j1]);
                        }
                    }
                }
                blocks.push(Block {
                    start_addr: b.start_addr,
                    end_addr: b.end_addr,
                    is_thumb: b.is_thumb,
                    dests,
                    insns: Vec::new(),
                });
            }
            i = i + 1;
        }
        let g = Function { name: String::new(), start_addr: self.start_addr, end_addr: self.end_addr, blocks };
        proof {
            assert forall|j1: int, j2: int|
                0 <= j1 < j2 < g.blocks@.len() implies (#[trigger] g.blocks@[j1]).start_addr
                    < (#[trigger] g.blocks@[j2]).start_addr by {
                assert(src[j1] < src[j2]);
                assert(self.blocks@[src[j1]].start_addr < self.blocks@[src[j2]].start_addr);
            }
            assert forall|j: int|
                0 <= j < g.blocks@.len() implies (#[trigger] g.blocks@[j]).start_addr != d && exists|k: int|
                    0 <= k < self.blocks@.len() && (#[trigger] self.blocks@[k]).start_addr == g.blocks@[j].start_addr
                        && self.blocks@[k].dests@ == g.blocks@[j].dests@ by {
                let k = src[j];
                assert(self.blocks@[k].start_addr == g.blocks@[j].start_addr);
            }
            assert forall|k: int|
                0 <= k < self.blocks@.len() && (#[trigger] self.blocks@[k]).start_addr != d implies exists|j: int|
                    0 <= j < g.blocks@.len() && (#[trigger] g.blocks@[j]).start_addr == self.blocks@[k].start_addr
                        && g.blocks@[j].dests@ == self.blocks@[k].dests@ by {
                assert(pos.contains_key(k));
                let j = pos[k];
                assert(src[j] == k);
                assert(g.blocks@[j].start_addr == self.blocks@[k].start_addr);
            }
        }
        g
    }

    /// A block dominates itself.
    proof fn lemma_dominates_self(&self, b: u64)
        ensures
            self.dominates(b, b),
    {
        assert forall|p: Seq<u64>|
            #[trigger] self.is_path(p) && p[0] == self.start_addr && p.last() == b implies p.contains(b) by {
            assert(p[p.len() - 1] == b);
        }
    }

    /// Only the entry and blocks of the function dominate a reached block.
    proof fn lemma_dominator_is_block(&self, e: u64, b: u64)
        requires
            self.reaches(self.start_addr, b),
            self.dominates(e, b),
        ensures
            e == self.start_addr || self.has_block(e),
    {
        let p = choose|p: Seq<u64>| #[trigger] self.is_path(p) && p[0] == self.start_addr && p.last() == b;
        let z = p.index_of(e);
        if z > 0 {
            assert(self.is_edge(p[z - 1], p[z]));
        }
    }

    /// A dominator of a reached block reaches it.
    pub proof fn lemma_dominator_reaches(&self, a: u64, b: u64)
        requires
            self.reaches(self.start_addr, b),
            self.dominates(a, b),
        ensures
            self.reaches(a, b),
    {
        let p = choose|p: Seq<u64>| #[trigger] self.is_path(p) && p[0] == self.start_addr && p.last() == b;
        let z = p.index_of(a);
        let t = p.subrange(z, p.len() as int);
        assert forall|k: int| 0 <= k < t.len() - 1 implies self.is_edge(#[trigger] t[k], t[k + 1]) by {
            assert(t[k] == p[z + k] && t[k + 1] == p[z + k + 1]);
        }
        assert(self.is_path(t) && t[0] == a && t.last() == b);
    }

    /// For each block, the addresses reached from the entry once that block
    /// is removed (empty for the entry's own block).
    fn avoid_table(&self) -> (r: Vec<BTreeSet<u64>>)
        requires
            self.wf(),
        ensures
            r@.len() == self.blocks@.len(),
            forall|i: int, v: u64|
                0 <= i < r@.len() && self.blocks@[i].start_addr != self.start_addr ==> (
                #[trigger] r@[i]@.contains(v) <==> !self.dominates(self.blocks@[i].start_addr, v)),
    {
        let mut r: Vec<BTreeSet<u64>> = Vec::new();
        let mut i: usize = 0;
        while i < self.blocks.len()
            invariant
                self.wf(),
                i <= self.blocks@.len(),
                r@.len() == i,
                forall|k: int, v: u64|
                    0 <= k < i && self.blocks@[k].start_addr != self.start_addr ==> (#[trigger] r@[k]@.contains(v)
                        <==> !self.dominates(self.blocks@[k].start_addr, v)),
            decreases self.blocks@.len() - i,
        {
            let d = self.blocks[i].start_addr;
            if d == self.start_addr {
                r.push(BTreeSet::new());
            } else {
                let g = self.without(d);
                let set = g.compute_reachable(self.start_addr);
                proof {
                    assert forall|v: u64| set@.contains(v) <==> !self.dominates(d, v) by {
                        self.lemma_without_dominates(g, d, v);
                    }
                }
                r.push(set);
            }
            proof {
                assert forall|k: int, v: u64|
                    0 <= k < i + 1 && self.blocks@[k].start_addr != self.start_addr implies (#[trigger] r@[k]@.contains(v)
                        <==> !self.dominates(self.blocks@[k].start_addr, v)) by {
                    if k == i {
                    }
                }
            }
            i = i + 1;
        }
        r
    }

    /// Whether block `i` dominates `b`.
    fn dominates_exec(&self, avoid: &Vec<BTreeSet<u64>>, i: usize, b: u64) -> (r: bool)
        requires
            self.wf(),
            avoid@.len() == self.blocks@.len(),
            i < self.blocks@.len(),
            forall|k: int, v: u64|
                0 <= k < avoid@.len() && self.blocks@[k].start_addr != self.start_addr ==> (
                #[trigger] avoid@[k]@.contains(v) <==> !self.dominates(self.blocks@[k].start_addr, v)),
        ensures
            r == self.dominates(self.blocks@[i as int].start_addr, b),
    {
        if self.blocks[i].start_addr == self.start_addr {
            proof {
                self.lemma_entry_dominates(b);
            }
            true
        } else {
            !avoid[i].contains(&b)
        }
    }

    /// `m` maps the entry to itself and every other block reached from the
    /// entry to its immediate dominator, and holds nothing else.
    pub open spec fn is_idom_map(&self, m: Map<u64, u64>) -> bool {
        &&& m.contains_key(self.start_addr) && m[self.start_addr] == self.start_addr
        &&& forall|k: u64| #[trigger] m.contains_key(k) <==> self.reaches(self.start_addr, k)
        &&& forall|k: u64| #[trigger] m.contains_key(k) && k != self.start_addr ==> self.is_idom(m[k], k)
    }

    /// The immediate dominator of reached block `b`, found by keeping, over
    /// all blocks that strictly dominate `b`, the one the others dominate.
    fn nearest_dominator(&self, avoid: &Vec<BTreeSet<u64>>, b: u64) -> (c: u64)
        requires
            self.wf(),
            avoid@.len() == self.blocks@.len(),
            forall|k: int, v: u64|
                0 <= k < avoid@.len() && self.blocks@[k].start_addr != self.start_addr ==> (
                #[trigger] avoid@[k]@.contains(v) <==> !self.dominates(self.blocks@[k].start_addr, v)),
            self.reaches(self.start_addr, b),
            b != self.start_addr,
        ensures
            self.is_idom(c, b),
    {
        let mut c: u64 = self.start_addr;
        let mut ci: usize = 0;
        let mut at_entry = true;
        proof {
            self.lemma_entry_dominates(b);
        }
        let mut i: usize = 0;
        while i < self.blocks.len()
            invariant
                self.wf(),
                avoid@.len() == self.blocks@.len(),
                forall|k: int, v: u64|
                    0 <= k < avoid@.len() && self.blocks@[k].start_addr != self.start_addr ==> (
                    #[trigger] avoid@[k]@.contains(v) <==> !self.dominates(self.blocks@[k].start_addr, v)),
                self.reaches(self.start_addr, b),
                b != self.start_addr,
                i <= self.blocks@.len(),
                c != b,
                self.dominates(c, b),
                at_entry ==> c == self.start_addr,
                !at_entry ==> ci < self.blocks@.len() && self.blocks@[ci as int].start_addr == c,
                forall|k: int|
                    0 <= k < i && (#[trigger] self.blocks@[k]).start_addr != b && self.dominates(
                        self.blocks@[k].start_addr,
                        b,
                    ) ==> self.dominates(self.blocks@[k].start_addr, c),
            decreases self.blocks@.len() - i,
        {
            let d = self.blocks[i].start_addr;
            if d != b && self.dominates_exec(avoid, i, b) {
                let c_over_d = if at_entry {
                    proof {
                        self.lemma_entry_dominates(d);
                    }
                    true
                } else {
                    self.dominates_exec(avoid, ci, d)
                };
                if c_over_d {
                    proof {
                        assert forall|k: int|
                            0 <= k < i + 1 && (#[trigger] self.blocks@[k]).start_addr != b && self.dominates(
                                self.blocks@[k].start_addr,
                                b,
                            ) implies self.dominates(self.blocks@[k].start_addr, d) by {
                            if k < i {
                                self.lemma_dominates_trans(self.blocks@[k].start_addr, c, d);
                            } else {
                                self.lemma_dominates_self(d);
                            }
                        }
                    }
                    c = d;
                    ci = i;
                    at_entry = false;
                } else {
                    proof {
                        self.lemma_dominators_ordered(b, c, d);
                    }
                }
            }
            i = i + 1;
        }
        proof {
            assert forall|e: u64| e != b && #[trigger] self.dominates(e, b) implies self.dominates(e, c) by {
                self.lemma_dominator_is_block(e, b);
                if e == self.start_addr {
                    self.lemma_entry_dominates(c);
                } else {
                    let k = choose|k: int| 0 <= k < self.blocks@.len() && (#[trigger] self.blocks@[k]).start_addr == e;
                    assert(self.blocks@[k].start_addr != b);
                }
            }
        }
        c
    }

    /// The first position at or after `i` that holds `x` or `y`.
    proof fn first_hit(r: Seq<u64>, x: u64, y: u64, i: int) -> (j: int)
        requires
            0 <= i < r.len(),
            exists|k: int| i <= k < r.len() && (r[k] == x || r[k] == y),
        ensures
            i <= j < r.len(),
            r[j] == x || r[j] == y,
            forall|k: int| i <= k < j ==> r[k] != x && r[k] != y,
        decreases r.len() - i,
    {
        if r[i] == x || r[i] == y {
            i
        } else {
            Self::first_hit(r, x, y, i + 1)
        }
    }

    /// Two distinct blocks reached from the entry never dominate each other.
    proof fn lemma_dominates_antisymmetric(&self, x: u64, y: u64)
        requires
            self.reaches(self.start_addr, x),
            self.dominates(x, y),
            self.dominates(y, x),
        ensures
            x == y,
    {
        if x != y {
            let p = choose|p: Seq<u64>| #[trigger] self.is_path(p) && p[0] == self.start_addr && p.last() == x;
            assert(p.contains(y));
            assert(p[p.len() - 1] == x);
            let j = Self::first_hit(p, x, y, 0);
            self.lemma_path_prefix(p, j);
            let q = p.subrange(0, j + 1);
            if p[j] == x {
                assert(q.contains(y));
                let z = q.index_of(y);
                assert(p[z] == y);
            } else {
                assert(q.contains(x));
                let z = q.index_of(x);
                assert(p[z] == x);
            }
        }
    }

    /// A reached block has one immediate dominator.
    pub proof fn lemma_idom_unique(&self, b: u64, d1: u64, d2: u64)
        requires
            self.reaches(self.start_addr, b),
            self.is_idom(d1, b),
            self.is_idom(d2, b),
        ensures
            d1 == d2,
    {
        let p = choose|p: Seq<u64>| #[trigger] self.is_path(p) && p[0] == self.start_addr && p.last() == b;
        let z = p.index_of(d1);
        self.lemma_path_prefix(p, z);
        assert(self.is_path(p.subrange(0, z + 1)) && p.subrange(0, z + 1)[0] == self.start_addr
            && p.subrange(0, z + 1).last() == d1);
        self.lemma_dominates_antisymmetric(d1, d2);
    }

    /// There is one map of immediate dominators: computing it twice gives
    /// the same map.
    pub proof fn lemma_idom_map_unique(&self, m1: Map<u64, u64>, m2: Map<u64, u64>)
        requires
            self.is_idom_map(m1),
            self.is_idom_map(m2),
        ensures
            m1 == m2,
    {
        assert forall|k: u64| m1.contains_key(k) implies m1[k] == m2[k] by {
            assert(self.reaches(self.start_addr, k));
            assert(m2.contains_key(k));
            if k != self.start_addr {
                self.lemma_idom_unique(k, m1[k], m2[k]);
            }
        }
        assert forall|k: u64| m1.contains_key(k) <==> m2.contains_key(k) by {
            if m2.contains_key(k) {
                assert(self.reaches(self.start_addr, k));
            }
        }
        assert(m1 =~= m2);
    }

    fn idom_map(&self, avoid: &Vec<BTreeSet<u64>>) -> (r: BTreeMap<u64, u64>)
        requires
            self.wf(),
            avoid@.len() == self.blocks@.len(),
            forall|k: int, v: u64|
                0 <= k < avoid@.len() && self.blocks@[k].start_addr != self.start_addr ==> (
                #[trigger] avoid@[k]@.contains(v) <==> !self.dominates(self.blocks@[k].start_addr, v)),
        ensures
            self.is_idom_map(r@),
    {
        let reach = self.compute_reachable(self.start_addr);
        let mut r: BTreeMap<u64, u64> = BTreeMap::new();
        r.insert(self.start_addr, self.start_addr);
        let mut i: usize = 0;
        while i < self.blocks.len()
            invariant
                self.wf(),
                avoid@.len() == self.blocks@.len(),
                forall|k: int, v: u64|
                    0 <= k < avoid@.len() && self.blocks@[k].start_addr != self.start_addr ==> (
                    #[trigger] avoid@[k]@.contains(v) <==> !self.dominates(self.blocks@[k].start_addr, v)),
                forall|v: u64| reach@.contains(v) <==> self.reaches(self.start_addr, v),
                i <= self.blocks@.len(),
                r@.contains_key(self.start_addr) && r@[self.start_addr] == self.start_addr,
                forall|k: u64|
                    #[trigger] r@.contains_key(k) <==> (k == self.start_addr || (self.reaches(self.start_addr, k)
                        && exists|j: int| 0 <= j < i && (#[trigger] self.blocks@[j]).start_addr == k)),
                forall|k: u64| #[trigger] r@.contains_key(k) && k != self.start_addr ==> self.is_idom(r@[k], k),
            decreases self.blocks@.len() - i,
        {
            let b = self.blocks[i].start_addr;
            if b != self.start_addr && reach.contains(&b) {
                let c = self.nearest_dominator(avoid, b);
                r.insert(b, c);
            }
            proof {
                assert forall|k: u64|
                    #[trigger] r@.contains_key(k) <==> (k == self.start_addr || (self.reaches(self.start_addr, k)
                        && exists|j: int| 0 <= j < i + 1 && (#[trigger] self.blocks@[j]).start_addr == k)) by {
                    if k == b {
                        assert(self.blocks@[i as int].start_addr == k);
                    }
                    if exists|j: int| 0 <= j < i + 1 && (#[trigger] self.blocks@[j]).start_addr == k {
                        let j = choose|j: int| 0 <= j < i + 1 && (#[trigger] self.blocks@[j]).start_addr == k;
                        if j < i {
                            assert(exists|j: int| 0 <= j < i && (#[trigger] self.blocks@[j]).start_addr == k);
                        }
                    }
                }
            }
            i = i + 1;
        }
        proof {
            assert(self.is_path(seq![self.start_addr]));
            assert forall|k: u64| #[trigger] r@.contains_key(k) <==> self.reaches(self.start_addr, k) by {
                if self.reaches(self.start_addr, k) && k != self.start_addr {
                    let p = choose|p: Seq<u64>| #[trigger] self.is_path(p) && p[0] == self.start_addr && p.last() == k;
                    assert(p.len() > 1);
                    assert(self.is_edge(p[p.len() - 2], p[p.len() - 1]));
                    let j = choose|j: int| 0 <= j < self.blocks@.len() && (#[trigger] self.blocks@[j]).start_addr == k;
                    assert(exists|j: int| 0 <= j < self.blocks@.len() && (#[trigger] self.blocks@[j]).start_addr == k);
                }
            }
        }
        r
    }

    /// The index of the block that starts at `addr`.
    pub fn find_block(&self, addr: u64) -> (r: Option<usize>)
        requires
            self.wf(),
        ensures
            match r {
                Some(i) => i < self.blocks@.len() && self.blocks@[i as int].start_addr == addr,
                None => !self.has_block(addr),
            },
    {
        let mut i: usize = 0;
        while i < self.blocks.len()
            invariant
                i <= self.blocks@.len(),
                forall|j: int| 0 <= j < i ==> (#[trigger] self.blocks@[j]).start_addr != addr,
            decreases self.blocks@.len() - i,
        {
            if self.blocks[i].start_addr == addr {
                return Some(i);
            }
            i = i + 1;
        }
        None
    }

    /// Extending a path by an edge gives a path.
    pub proof fn lemma_reaches_step(&self, s: u64, u: u64, v: u64)
        requires
            self.reaches(s, u),
            self.is_edge(u, v),
        ensures
            self.reaches(s, v),
    {
        let p = choose|p: Seq<u64>| #[trigger] self.is_path(p) && p[0] == s && p.last() == u;
        let q = p.push(v);
        assert forall|k: int| 0 <= k < q.len() - 1 implies self.is_edge(#[trigger] q[k], q[k + 1]) by {
            if k < p.len() - 1 {
                assert(q[k] == p[k] && q[k + 1] == p[k + 1]);
            }
        }
        assert(self.is_path(q) && q[0] == s && q.last() == v);
    }

    /// Reachability is transitive.
    pub proof fn lemma_reaches_trans(&self, s: u64, t: u64, v: u64)
        requires
            self.reaches(s, t),
            self.reaches(t, v),
        ensures
            self.reaches(s, v),
    {
        let p = choose|p: Seq<u64>| #[trigger] self.is_path(p) && p[0] == s && p.last() == t;
        let q = choose|q: Seq<u64>| #[trigger] self.is_path(q) && q[0] == t && q.last() == v;
        let r = p + q.drop_first();
        assert forall|k: int| 0 <= k < r.len() - 1 implies self.is_edge(#[trigger] r[k], r[k + 1]) by {
            if k < p.len() - 1 {
                assert(r[k] == p[k] && r[k + 1] == p[k + 1]);
            } else {
                let m = k - (p.len() - 1);
                assert(r[k] == q[m] && r[k + 1] == q[m + 1]);
            }
        }
        if q.len() == 1 {
            assert(r =~= p);
        }
        assert(self.is_path(r) && r[0] == s && r.last() == v);
    }

    /// Every block reached from `s` lies in a set that holds `s` and is
    /// closed under edges.
    proof fn lemma_closed_holds_reached(&self, s: u64, c: Set<u64>, v: u64)
        requires
            c.contains(s),
            forall|u: u64, w: u64| c.contains(u) && #[trigger] self.is_edge(u, w) ==> c.contains(w),
            self.reaches(s, v),
        ensures
            c.contains(v),
    {
        let p = choose|p: Seq<u64>| #[trigger] self.is_path(p) && p[0] == s && p.last() == v;
        assert forall|k: int| 0 <= k < p.len() implies c.contains(#[trigger] p[k]) by {
            self.lemma_path_prefix_in(p, c, k);
        }
    }

    proof fn lemma_path_prefix_in(&self, p: Seq<u64>, c: Set<u64>, k: int)
        requires
            self.is_path(p),
            c.contains(p[0]),
            forall|u: u64, w: u64| c.contains(u) && #[trigger] self.is_edge(u, w) ==> c.contains(w),
            0 <= k < p.len(),
        ensures
            c.contains(p[k]),
        decreases k,
    {
        if k > 0 {
            self.lemma_path_prefix_in(p, c, k - 1);
            assert(self.is_edge(p[k - 1], p[k]));
        }
    }

    /// Every visited block is reached from `s`.
    pub open spec fn visited_reached(&self, s: u64, visited: Seq<bool>) -> bool {
        forall|j: int|
            0 <= j < visited.len() && #[trigger] visited[j] ==> self.reaches(s, self.blocks@[j].start_addr)
    }

    /// Every visited block other than `skip` and off the stack has all its
    /// successor blocks visited.
    pub open spec fn visited_closed(&self, visited: Seq<bool>, stack: Seq<usize>, skip: int) -> bool {
        forall|i: int, m: int|
            0 <= i < visited.len() && 0 <= m < visited.len() && visited[i] && i != skip
                && !stack.contains(i as usize) && #[trigger] self.blocks@[i].dests@.contains(
                #[trigger] self.blocks@[m].start_addr,
            ) ==> visited[m]
    }

    pub open spec fn stack_ok(visited: Seq<bool>, stack: Seq<usize>) -> bool {
        &&& stack.no_duplicates()
        &&& forall|k: int| 0 <= k < stack.len() ==> #[trigger] stack[k] < visited.len() && visited[stack[k] as int]
    }

    pub open spec fn entry_visited(&self, s: u64, visited: Seq<bool>) -> bool {
        self.has_block(s) ==> exists|j: int|
            0 <= j < visited.len() && visited[j] && #[trigger] self.blocks@[j].start_addr == s
    }

    /// Marks and pushes the unvisited successors of block `j`.
    fn visit_successors(&self, s: u64, j: usize, visited: &mut Vec<bool>, stack: &mut Vec<usize>)
        requires
            self.wf(),
            old(visited)@.len() == self.blocks@.len(),
            j < self.blocks@.len(),
            old(visited)@[j as int],
            !old(stack)@.contains(j),
            Self::stack_ok(old(visited)@, old(stack)@),
            self.visited_reached(s, old(visited)@),
            self.visited_closed(old(visited)@, old(stack)@, j as int),
            self.entry_visited(s, old(visited)@),
        ensures
            final(visited)@.len() == self.blocks@.len(),
            Self::stack_ok(final(visited)@, final(stack)@),
            self.visited_reached(s, final(visited)@),
            self.visited_closed(final(visited)@, final(stack)@, -1),
            self.entry_visited(s, final(visited)@),
            count_false(final(visited)@) <= count_false(old(visited)@),
            count_false(final(visited)@) == count_false(old(visited)@) ==> final(stack)@ == old(
                stack,
            )@,
    {
        let n = self.blocks.len();
        let dests = &self.blocks[j].dests;
        let ghost v0 = visited@;
        let ghost s0 = stack@;
        let mut t: usize = 0;
        while t < dests.len()
            invariant
                self.wf(),
                n == self.blocks@.len(),
                j < n,
                *dests == self.blocks@[j as int].dests,
                t <= dests@.len(),
                visited@.len() == n,
                visited@[j as int],
                !stack@.contains(j),
                Self::stack_ok(visited@, stack@),
                self.visited_reached(s, visited@),
                self.visited_closed(visited@, stack@, j as int),
                self.entry_visited(s, visited@),
                forall|i: int, m: int|
                    0 <= i < t && 0 <= m < n && self.blocks@[m].start_addr == #[trigger] dests@[i]
                        ==> #[trigger] visited@[m],
                count_false(visited@) <= count_false(v0),
                count_false(visited@) == count_false(v0) ==> stack@ == s0,
            decreases dests@.len() - t,
        {
            let d = dests[t];
            match self.find_block(d) {
                Some(m) => {
                    if !visited[m] {
                        let ghost vb = visited@;
                        let ghost sb = stack@;
                        proof {
                            lemma_count_false_update(visited@, m as int);
                            assert(self.is_edge(self.blocks@[j as int].start_addr, d));
                            self.lemma_reaches_step(s, self.blocks@[j as int].start_addr, d);
                        }
                        visited.set(m, true);
                        stack.push(m);
                        proof {
                            assert(stack@ == sb.push(m));
                            assert forall|k: int| 0 <= k < stack@.len() implies #[trigger] stack@[k]
                                < visited@.len() && visited@[stack@[k] as int] by {
                                if k < sb.len() {
                                    assert(stack@[k] == sb[k]);
                                }
                            }
                            assert(stack@.no_duplicates()) by {
                                assert forall|a: int, b: int|
                                    0 <= a < b < stack@.len() implies stack@[a] != stack@[b] by {
                                    if b == sb.len() {
                                        assert(vb[sb[a] as int]);
                                    } else {
                                        assert(stack@[a] == sb[a] && stack@[b] == sb[b]);
                                    }
                                }
                            }
                            assert forall|i: int, q: int|
                                0 <= i < n && 0 <= q < n && visited@[i] && i != j && !stack@.contains(
                                    i as usize,
                                ) && #[trigger] self.blocks@[i].dests@.contains(
                                    #[trigger] self.blocks@[q].start_addr,
                                ) implies visited@[q] by {
                                if i != m {
                                    assert(vb[i]);
                                    if sb.contains(i as usize) {
                                        let a = sb.index_of(i as usize);
                                        assert(stack@[a] == i as usize);
                                    }
                                } else {
                                    assert(stack@[sb.len() as int] == m);
                                }
                            }
                            assert forall|j2: int|
                                0 <= j2 < n && #[trigger] visited@[j2] implies self.reaches(
                                s,
                                self.blocks@[j2].start_addr,
                            ) by {
                                if j2 != m {
                                    assert(vb[j2]);
                                }
                            }
                            if self.has_block(s) {
                                let e = choose|e: int|
                                    0 <= e < n && vb[e] && #[trigger] self.blocks@[e].start_addr == s;
                                assert(visited@[e]);
                            }
                        }
                    }
                },
                None => {},
            }
            t = t + 1;
        }
        proof {
            assert forall|i: int, m: int|
                0 <= i < n && 0 <= m < n && visited@[i] && i != -1 && !stack@.contains(i as usize)
                    && #[trigger] self.blocks@[i].dests@.contains(
                    #[trigger] self.blocks@[m].start_addr,
                ) implies visited@[m] by {
                if i == j {
                    let k = dests@.index_of(self.blocks@[m].start_addr);
                    assert(dests@[k] == self.blocks@[m].start_addr);
                }
            }
        }
    }

    /// The addresses reachable from `start_addr` along successor edges that
    /// lead to blocks of the function; `start_addr` itself is always included.
    pub fn compute_reachable(&self, start_addr: u64) -> (r: BTreeSet<u64>)
        requires
            self.wf(),
        ensures
            forall|v: u64| r@.contains(v) <==> self.reaches(start_addr, v),
    {
        let n = self.blocks.len();
        let mut visited: Vec<bool> = Vec::new();
        let mut k: usize = 0;
        while k < n
            invariant
                k <= n == self.blocks@.len(),
                visited@.len() == k,
                forall|j: int| 0 <= j < k ==> !visited@[j],
            decreases n - k,
        {
            visited.push(false);
            k = k + 1;
        }
        let mut stack: Vec<usize> = Vec::new();
        proof {
            assert(self.is_path(seq![start_addr]));
        }
        match self.find_block(start_addr) {
            Some(i0) => {
                visited.set(i0, true);
                stack.push(i0);
                assert(stack@[0] == i0);
            },
            None => {},
        }
        while stack.len() > 0
            invariant
                self.wf(),
                n == self.blocks@.len(),
                visited@.len() == n,
                Self::stack_ok(visited@, stack@),
                self.visited_reached(start_addr, visited@),
                self.visited_closed(visited@, stack@, -1),
                self.entry_visited(start_addr, visited@),
            decreases count_false(visited@), stack@.len(),
        {
            let ghost prev = stack@;
            let j = stack.pop().unwrap();
            assert(prev == stack@.push(j));
            assert(!stack@.contains(j)) by {
                if stack@.contains(j) {
                    let a = stack@.index_of(j);
                    assert(prev[a] == prev[prev.len() - 1]);
                }
            }
            proof {
                assert forall|k2: int| 0 <= k2 < stack@.len() implies #[trigger] stack@[k2]
                    < visited@.len() && visited@[stack@[k2] as int] by {
                    assert(stack@[k2] == prev[k2]);
                }
                assert forall|i: int, m: int|
                    0 <= i < n && 0 <= m < n && visited@[i] && i != j && !stack@.contains(i as usize)
                        && #[trigger] self.blocks@[i].dests@.contains(
                        #[trigger] self.blocks@[m].start_addr,
                    ) implies visited@[m] by {
                    if prev.contains(i as usize) {
                        let a = prev.index_of(i as usize);
                        if a < stack@.len() {
                            assert(stack@[a] == i as usize);
                        }
                    }
                }
            }
            self.visit_successors(start_addr, j, &mut visited, &mut stack);
        }
        self.collect_visited(start_addr, &visited)
    }

    /// `start_addr` and the start addresses of the visited blocks.
    fn collect_visited(&self, start_addr: u64, visited: &Vec<bool>) -> (r: BTreeSet<u64>)
        requires
            self.wf(),
            visited@.len() == self.blocks@.len(),
            self.visited_reached(start_addr, visited@),
            self.visited_closed(visited@, Seq::empty(), -1),
            self.entry_visited(start_addr, visited@),
        ensures
            forall|v: u64| r@.contains(v) <==> self.reaches(start_addr, v),
    {
        let n = self.blocks.len();
        let mut r: BTreeSet<u64> = BTreeSet::new();
        r.insert(start_addr);
        let mut i: usize = 0;
        while i < n
            invariant
                i <= n == self.blocks@.len(),
                visited@.len() == n,
                forall|v: u64|
                    r@.contains(v) <==> (v == start_addr || exists|j: int|
                        0 <= j < i && visited@[j] && #[trigger] self.blocks@[j].start_addr == v),
            decreases n - i,
        {
            if visited[i] {
                r.insert(self.blocks[i].start_addr);
            }
            i = i + 1;
        }
        proof {
            assert forall|v: u64| r@.contains(v) implies self.reaches(start_addr, v) by {
                if v == start_addr {
                    assert(self.is_path(seq![start_addr]));
                } else {
                    let j = choose|j: int|
                        0 <= j < n && visited@[j] && #[trigger] self.blocks@[j].start_addr == v;
                    assert(visited@[j]);
                }
            }
            assert forall|u: u64, w: u64| r@.contains(u) && #[trigger] self.is_edge(u, w) implies r@.contains(
                w,
            ) by {
                let a = choose|a: int|
                    0 <= a < self.blocks@.len() && (#[trigger] self.blocks@[a]).start_addr == u
                        && self.blocks@[a].dests@.contains(w);
                let b = choose|b: int|
                    0 <= b < self.blocks@.len() && (#[trigger] self.blocks@[b]).start_addr == w;
                let j = if u != start_addr {
                    choose|j: int| 0 <= j < n && visited@[j] && #[trigger] self.blocks@[j].start_addr == u
                } else {
                    choose|j: int|
                        0 <= j < n && visited@[j] && #[trigger] self.blocks@[j].start_addr == start_addr
                };
                assert(j == a);
                assert(!Seq::<usize>::empty().contains(j as usize));
                assert(self.blocks@[a].dests@.contains(self.blocks@[b].start_addr));
                assert(visited@[b]);
            }
            assert forall|v: u64| self.reaches(start_addr, v) implies r@.contains(v) by {
                self.lemma_closed_holds_reached(start_addr, r@, v);
            }
        }
        r
    }

    /// The immediate dominator of each block reached from the entry, and the
    /// entry mapped to itself.
    pub fn compute_immediate_dominators(&self) -> (r: BTreeMap<u64, u64>)
        requires
            self.wf(),
        ensures
            self.is_idom_map(r@),
    {
        let avoid = self.avoid_table();
        self.idom_map(&avoid)
    }

    /// Whether `c` belongs in the `dominates` list of `a`: a block reached
    /// from the entry that `a` strictly dominates, or the entry itself in
    /// its own list.
    pub open spec fn listed_under(&self, a: u64, c: u64) -> bool {
        &&& self.reaches(self.start_addr, c)
        &&& ((c != a && self.dominates(a, c)) || (c == a && a == self.start_addr))
    }

    /// `doms` is the dominator tree: one record for each block reached from
    /// the entry, whose parent is its immediate dominator (`None` at the
    /// entry) and whose list holds, once each, exactly the blocks
    /// `listed_under` it.
    pub open spec fn is_dominator_tree(&self, doms: Map<u64, Dominates>) -> bool {
        &&& forall|k: u64| #[trigger] doms.contains_key(k) <==> self.reaches(self.start_addr, k)
        &&& forall|k: u64|
            #[trigger] doms.contains_key(k) ==> if k == self.start_addr {
                doms[k].parent is None
            } else {
                doms[k].parent is Some && self.is_idom(doms[k].parent->0, k)
            }
        &&& forall|k: u64, c: u64|
            #[trigger] doms.contains_key(k) ==> (#[trigger] doms[k].dominates@.contains(c) <==> self.listed_under(k, c))
        &&& forall|k: u64| #[trigger] doms.contains_key(k) ==> increasing(doms[k].dominates@)
    }

    /// The dominator tree is unique in everything but the identity of its
    /// vectors: two maps that are dominator trees of this function have the
    /// same keys, parents and lists.
    pub proof fn lemma_dominator_tree_unique(&self, d1: Map<u64, Dominates>, d2: Map<u64, Dominates>)
        requires
            self.is_dominator_tree(d1),
            self.is_dominator_tree(d2),
        ensures
            forall|k: u64| #[trigger] d1.contains_key(k) <==> d2.contains_key(k),
            forall|k: u64|
                #[trigger] d1.contains_key(k) ==> d1[k].parent == d2[k].parent && d1[k].dominates@
                    == d2[k].dominates@,
    {
        assert forall|k: u64| #[trigger] d1.contains_key(k) implies d1[k].parent == d2[k].parent
            && d1[k].dominates@ == d2[k].dominates@ by {
            assert(d2.contains_key(k));
            if k != self.start_addr {
                self.lemma_idom_unique(k, d1[k].parent->0, d2[k].parent->0);
            }
            assert forall|c: u64| d1[k].dominates@.contains(c) <==> d2[k].dominates@.contains(c) by {
                assert(d1[k].dominates@.contains(c) <==> self.listed_under(k, c));
                assert(d2[k].dominates@.contains(c) <==> self.listed_under(k, c));
            }
            lemma_increasing_unique(d1[k].dominates@, d2[k].dominates@);
        }
        assert forall|k: u64| #[trigger] d1.contains_key(k) <==> d2.contains_key(k) by {
            assert(d1.contains_key(k) <==> self.reaches(self.start_addr, k));
        }
    }

    /// The list of blocks `listed_under` `a`, where `a` is the entry (`ai`
    /// is `None`) or block `ai`.
    fn dominated_list(
        &self,
        avoid: &Vec<BTreeSet<u64>>,
        reach: &BTreeSet<u64>,
        a: u64,
        ai: Option<usize>,
    ) -> (r: Vec<u64>)
        requires
            self.wf(),
            avoid@.len() == self.blocks@.len(),
            forall|k: int, v: u64|
                0 <= k < avoid@.len() && self.blocks@[k].start_addr != self.start_addr ==> (
                #[trigger] avoid@[k]@.contains(v) <==> !self.dominates(self.blocks@[k].start_addr, v)),
            forall|v: u64| reach@.contains(v) <==> self.reaches(self.start_addr, v),
            match ai {
                None => a == self.start_addr,
                Some(i) => i < self.blocks@.len() && self.blocks@[i as int].start_addr == a,
            },
            self.has_block(self.start_addr),
        ensures
            forall|c: u64| r@.contains(c) <==> self.listed_under(a, c),
            increasing(r@),
    {
        let mut r: Vec<u64> = Vec::new();
        let mut i: usize = 0;
        while i < self.blocks.len()
            invariant
                self.wf(),
                avoid@.len() == self.blocks@.len(),
                forall|k: int, v: u64|
                    0 <= k < avoid@.len() && self.blocks@[k].start_addr != self.start_addr ==> (
                    #[trigger] avoid@[k]@.contains(v) <==> !self.dominates(self.blocks@[k].start_addr, v)),
                forall|v: u64| reach@.contains(v) <==> self.reaches(self.start_addr, v),
                match ai {
                    None => a == self.start_addr,
                    Some(x) => x < self.blocks@.len() && self.blocks@[x as int].start_addr == a,
                },
                i <= self.blocks@.len(),
                forall|c: u64|
                    r@.contains(c) <==> (self.listed_under(a, c) && exists|j: int|
                        0 <= j < i && (#[trigger] self.blocks@[j]).start_addr == c),
                forall|x: int, y: int| 0 <= x < y < r@.len() ==> #[trigger] r@[x] < #[trigger] r@[y],
                i < self.blocks@.len() ==> forall|x: int| 0 <= x < r@.len() ==> #[trigger] r@[x] < self.blocks@[i as int].start_addr,
            decreases self.blocks@.len() - i,
        {
            let c = self.blocks[i].start_addr;
            let dom = match ai {
                None => {
                    proof {
                        self.lemma_entry_dominates(c);
                    }
                    true
                },
                Some(x) => self.dominates_exec(avoid, x, c),
            };
            let ghost before = r@;
            if reach.contains(&c) && ((c != a && dom) || (c == a && a == self.start_addr)) {
                r.push(c);
            }
            proof {
                assert(self.listed_under(a, c) <==> (reach@.contains(c) && ((c != a && dom) || (c == a && a == self.start_addr))));
                assert forall|d: u64|
                    r@.contains(d) <==> (self.listed_under(a, d) && exists|j: int|
                        0 <= j < i + 1 && (#[trigger] self.blocks@[j]).start_addr == d) by {
                    if r@.contains(d) && d != c {
                        let z = r@.index_of(d);
                        assert(before[z] == d);
                        assert(before.contains(d));
                    }
                    if before.contains(d) {
                        let z = before.index_of(d);
                        assert(r@[z] == d);
                    }
                    if d == c && self.listed_under(a, d) {
                        assert(r@[r@.len() - 1] == c);
                    }
                    if exists|j: int| 0 <= j < i + 1 && (#[trigger] self.blocks@[j]).start_addr == d {
                        let j = choose|j: int| 0 <= j < i + 1 && (#[trigger] self.blocks@[j]).start_addr == d;
                        if j < i {
                            assert(exists|j: int| 0 <= j < i && (#[trigger] self.blocks@[j]).start_addr == d);
                        }
                    }
                    if exists|j: int| 0 <= j < i && (#[trigger] self.blocks@[j]).start_addr == d {
                        let j = choose|j: int| 0 <= j < i && (#[trigger] self.blocks@[j]).start_addr == d;
                        assert(d < c);
                    }
                }
                assert forall|x: int, y: int| 0 <= x < y < r@.len() implies #[trigger] r@[x] < #[trigger] r@[y] by {
                    if y < before.len() {
                        assert(r@[x] == before[x] && r@[y] == before[y]);
                    } else {
                        assert(r@[x] == before[x]);
                    }
                }
                if i + 1 < self.blocks@.len() {
                    assert(c < self.blocks@[i + 1].start_addr);
                    assert forall|x: int| 0 <= x < r@.len() implies #[trigger] r@[x] < self.blocks@[i + 1].start_addr by {
                        if x < before.len() {
                            assert(r@[x] == before[x]);
                        }
                    }
                }
            }
            i = i + 1;
        }
        proof {
            assert forall|c: u64| self.listed_under(a, c) implies exists|j: int|
                0 <= j < self.blocks@.len() && (#[trigger] self.blocks@[j]).start_addr == c by {
                if c == self.start_addr {
                } else {
                    self.lemma_reached_is_block(c);
                }
            }

        }
        r
    }

    /// A block other than the entry that is reached from the entry is a block
    /// of the function.
    proof fn lemma_reached_is_block(&self, k: u64)
        requires
            self.reaches(self.start_addr, k),
            k != self.start_addr,
        ensures
            self.has_block(k),
    {
        let p = choose|p: Seq<u64>| #[trigger] self.is_path(p) && p[0] == self.start_addr && p.last() == k;
        assert(p.len() > 1);
        assert(self.is_edge(p[p.len() - 2], p[p.len() - 1]));
    }

    /// The dominator tree: for each block reached from the entry, its
    /// immediate dominator (`None` for the entry) and the blocks it strictly
    /// dominates (the entry also lists itself).
    pub fn compute_dominators(&self) -> (r: BTreeMap<u64, Dominates>)
        requires
            self.wf(),
        ensures
            self.is_dominator_tree(r@),
    {
        let avoid = self.avoid_table();
        let idoms = self.idom_map(&avoid);
        let reach = self.compute_reachable(self.start_addr);
        let mut r: BTreeMap<u64, Dominates> = BTreeMap::new();
        proof {
            assert(self.is_path(seq![self.start_addr]));
        }
        match self.find_block(self.start_addr) {
            None => {
                proof {
                    assert forall|k: u64| self.reaches(self.start_addr, k) implies k == self.start_addr by {
                        if k != self.start_addr {
                            let p = choose|p: Seq<u64>| #[trigger] self.is_path(p) && p[0] == self.start_addr && p.last() == k;
                            assert(self.is_edge(p[0], p[1]));
                        }
                    }
                }
                let mut list: Vec<u64> = Vec::new();
                list.push(self.start_addr);
                proof {
                    assert forall|c: u64| list@.contains(c) <==> self.listed_under(self.start_addr, c) by {
                        if c == self.start_addr {
                            assert(list@[0] == c);
                        }
                    }
                }
                r.insert(self.start_addr, Dominates { parent: None, dominates: list });
                proof {
                    assert forall|k: u64| #[trigger] r@.contains_key(k) <==> self.reaches(self.start_addr, k) by {}
                }
            },
            Some(_) => {
                let mut i: usize = 0;
                while i < self.blocks.len()
                    invariant
                        self.wf(),
                        self.has_block(self.start_addr),
                        avoid@.len() == self.blocks@.len(),
                        forall|k: int, v: u64|
                            0 <= k < avoid@.len() && self.blocks@[k].start_addr != self.start_addr ==> (
                            #[trigger] avoid@[k]@.contains(v) <==> !self.dominates(self.blocks@[k].start_addr, v)),
                        forall|v: u64| reach@.contains(v) <==> self.reaches(self.start_addr, v),
                        self.is_idom_map(idoms@),
                        i <= self.blocks@.len(),
                        forall|k: u64|
                            #[trigger] r@.contains_key(k) <==> (self.reaches(self.start_addr, k) && exists|j: int|
                                0 <= j < i && (#[trigger] self.blocks@[j]).start_addr == k),
                        forall|k: u64|
                            #[trigger] r@.contains_key(k) ==> if k == self.start_addr {
                                r@[k].parent is None
                            } else {
                                r@[k].parent is Some && self.is_idom(r@[k].parent->0, k)
                            },
                        forall|k: u64, c: u64|
                            #[trigger] r@.contains_key(k) ==> (#[trigger] r@[k].dominates@.contains(c) <==> self.listed_under(k, c)),
                        forall|k: u64| #[trigger] r@.contains_key(k) ==> increasing(r@[k].dominates@),
                    decreases self.blocks@.len() - i,
                {
                    let a = self.blocks[i].start_addr;
                    if reach.contains(&a) {
                        let ai = if a == self.start_addr {
                            None
                        } else {
                            Some(i)
                        };
                        let list = self.dominated_list(&avoid, &reach, a, ai);
                        let parent = if a == self.start_addr {
                            None
                        } else {
                            Some(*idoms.get(&a).unwrap())
                        };
                        r.insert(a, Dominates { parent, dominates: list });
                    }
                    proof {
                        assert forall|k: u64|
                            #[trigger] r@.contains_key(k) <==> (self.reaches(self.start_addr, k) && exists|j: int|
                                0 <= j < i + 1 && (#[trigger] self.blocks@[j]).start_addr == k) by {
                            if k == a {
                                assert(self.blocks@[i as int].start_addr == k);
                            }
                            if exists|j: int| 0 <= j < i + 1 && (#[trigger] self.blocks@[j]).start_addr == k {
                                let j = choose|j: int| 0 <= j < i + 1 && (#[trigger] self.blocks@[j]).start_addr == k;
                                if j < i {
                                    assert(exists|j: int| 0 <= j < i && (#[trigger] self.blocks@[j]).start_addr == k);
                                }
                            }
                        }
                    }
                    i = i + 1;
                }
                proof {
                    assert forall|k: u64| #[trigger] r@.contains_key(k) <==> self.reaches(self.start_addr, k) by {
                        if self.reaches(self.start_addr, k) {
                            if k != self.start_addr {
                                self.lemma_reached_is_block(k);
                            }
                            let j = choose|j: int| 0 <= j < self.blocks@.len() && (#[trigger] self.blocks@[j]).start_addr == k;
                        }
                    }
                }
            },
        }
        r
    }

    /// An ancestor of `x` in the tree of immediate dominators dominates `x`.
    pub proof fn lemma_ancestor_dominates(&self, m: Map<u64, u64>, a: u64, x: u64, n: nat)
        requires
            self.is_idom_map(m),
            on_chain(m, a, x, n),
        ensures
            self.dominates(a, x),
        decreases n,
    {
        if a == x {
            self.lemma_dominates_self(x);
        } else {
            self.lemma_ancestor_dominates(m, a, m[x], (n - 1) as nat);
            if x != self.start_addr {
                self.lemma_dominates_trans(a, m[x], x);
            }
        }
    }

    /// Reachability shrinks down the dominator tree: what a reached block
    /// `s` reaches, each of its ancestors in the tree of immediate dominators
    /// reaches too.
    pub proof fn lemma_reachable_below_ancestor(&self, m: Map<u64, u64>, a: u64, s: u64, n: nat)
        requires
            self.is_idom_map(m),
            self.reaches(self.start_addr, s),
            on_chain(m, a, s, n),
        ensures
            forall|v: u64| self.reaches(s, v) ==> #[trigger] self.reaches(a, v),
    {
        self.lemma_ancestor_dominates(m, a, s, n);
        self.lemma_dominator_reaches(a, s);
        self.lemma_reachable_monotone(a, s);
    }

    /// Whatever is reachable from a block is reachable from every block that
    /// reaches it, and so from each of its dominators: `compute_reachable(s)`
    /// is a subset of `compute_reachable(t)` whenever `t` reaches `s`.
    pub proof fn lemma_reachable_monotone(&self, t: u64, s: u64)
        requires
            self.reaches(t, s),
        ensures
            forall|v: u64| self.reaches(s, v) ==> #[trigger] self.reaches(t, v),
    {
        assert forall|v: u64| self.reaches(s, v) implies #[trigger] self.reaches(t, v) by {
            self.lemma_reaches_trans(t, s, v);
        }
    }
}

} // verus!
