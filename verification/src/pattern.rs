//! The global sparsity pattern: every (row, column) pair of global degrees of
//! freedom that some element's local contribution could touch, sorted by row
//! then column, without duplicates.

use vstd::prelude::*;

use crate::space::{solution_dim_ok, Space};

verus! {

/// Strict row-major order on index pairs.
pub open spec fn pair_lt(p: (usize, usize), q: (usize, usize)) -> bool {
    p.0 < q.0 || (p.0 == q.0 && p.1 < q.1)
}

/// Some local node of `nodes` is the global node `node`.
pub open spec fn elem_has_node(nodes: Seq<usize>, node: int) -> bool {
    exists|i: int| 0 <= i < nodes.len() && nodes[i] == node
}

/// The pair (`r`, `c`) of global degrees of freedom receives a contribution
/// from some element under solution dimension `s`: both row and column are in
/// bounds and some element holds both their nodes.
pub open spec fn pair_touched(space: Space, s: nat, r: int, c: int) -> bool {
    &&& 0 <= r < space.num_nodes * s
    &&& 0 <= c < space.num_nodes * s
    &&& exists|e: int|
        0 <= e < space.spec_num_elements() && elem_has_node(
            #[trigger] space.element_nodes@[e]@,
            r / (s as int),
        ) && elem_has_node(space.element_nodes@[e]@, c / (s as int))
}

/// An immutable sparsity pattern: the sorted, deduplicated (row, column)
/// pairs, and the number of global degrees of freedom they index into.
pub struct SparsePattern {
    pub entries: Vec<(usize, usize)>,
    pub num_dofs: usize,
}

impl SparsePattern {
    /// Entries strictly sorted by row then column (hence duplicate-free) and
    /// within bounds.
    pub open spec fn wf(self) -> bool {
        &&& forall|a: int, b: int|
            0 <= a < b < self.entries@.len() ==> pair_lt(
                #[trigger] self.entries@[a],
                #[trigger] self.entries@[b],
            )
        &&& forall|k: int|
            0 <= k < self.entries@.len() ==> (#[trigger] self.entries@[k]).0 < self.num_dofs
                && self.entries@[k].1 < self.num_dofs
    }

    /// The pair stands somewhere in the pattern.
    pub open spec fn contains_pair(self, r: int, c: int) -> bool {
        exists|k: int|
            0 <= k < self.entries@.len() && (#[trigger] self.entries@[k]).0 == r
                && self.entries@[k].1 == c
    }

    /// Number of nonzero locations.
    pub fn nnz(&self) -> (n: usize)
        ensures
            n == self.entries@.len(),
    {
        self.entries.len()
    }

    /// Distinct positions of a well-formed pattern hold distinct pairs.
    pub proof fn lemma_entries_injective(self, a: int, b: int)
        requires
            self.wf(),
            0 <= a < self.entries@.len(),
            0 <= b < self.entries@.len(),
            a != b,
        ensures
            self.entries@[a] != self.entries@[b],
    {
    }
}

/// Does the element hold the global node?
fn elem_contains_node(nodes: &Vec<usize>, node: usize) -> (b: bool)
    ensures
        b == elem_has_node(nodes@, node as int),
{
    let mut i: usize = 0;
    while i < nodes.len()
        invariant
            i <= nodes@.len(),
            forall|j: int| 0 <= j < i ==> #[trigger] nodes@[j] != node,
        decreases nodes@.len() - i,
    {
        if nodes[i] == node {
            return true;
        }
        i = i + 1;
    }
    false
}

/// Does some element hold both global nodes?
fn space_touches_nodes(space: &Space, rn: usize, cn: usize) -> (b: bool)
    ensures
        b == exists|e: int|
            0 <= e < space.spec_num_elements() && elem_has_node(
                #[trigger] space.element_nodes@[e]@,
                rn as int,
            ) && elem_has_node(space.element_nodes@[e]@, cn as int),
{
    let mut e: usize = 0;
    while e < space.element_nodes.len()
        invariant
            e <= space.spec_num_elements(),
            forall|e2: int|
                0 <= e2 < e ==> !(elem_has_node(#[trigger] space.element_nodes@[e2]@, rn as int)
                    && elem_has_node(space.element_nodes@[e2]@, cn as int)),
        decreases space.spec_num_elements() - e,
    {
        let nodes = &space.element_nodes[e];
        if elem_contains_node(nodes, rn) && elem_contains_node(nodes, cn) {
            return true;
        }
        e = e + 1;
    }
    false
}

/// Build the sparsity pattern of `space` under solution dimension
/// `solution_dim`: exactly the touched pairs, sorted by row then column,
/// without duplicates. The result is a pure function of the space and the
/// dimension, so repeated runs yield identical patterns.
pub fn build_pattern(space: &Space, solution_dim: usize) -> (p: SparsePattern)
    requires
        space.wf(),
        solution_dim_ok(solution_dim as int),
    ensures
        p.wf(),
        p.num_dofs == space.num_nodes * solution_dim,
        forall|r: int, c: int|
            p.contains_pair(r, c) <==> pair_touched(*space, solution_dim as nat, r, c),
{
    let s = solution_dim;
    let nd = space.num_dofs(s);
    let mut entries: Vec<(usize, usize)> = Vec::new();
    let mut r: usize = 0;
    while r < nd
        invariant
            r <= nd,
            s == solution_dim,
            space.wf(),
            solution_dim_ok(s as int),
            nd == space.num_nodes * s,
            forall|a: int, b: int|
                0 <= a < b < entries@.len() ==> pair_lt(
                    #[trigger] entries@[a],
                    #[trigger] entries@[b],
                ),
            forall|k: int|
                0 <= k < entries@.len() ==> (#[trigger] entries@[k]).0 < r
                    && entries@[k].1 < nd,
            forall|k: int|
                0 <= k < entries@.len() ==> pair_touched(
                    *space,
                    s as nat,
                    (#[trigger] entries@[k]).0 as int,
                    entries@[k].1 as int,
                ),
            forall|rr: int, cc: int|
                pair_touched(*space, s as nat, rr, cc) && rr < r ==> exists|k: int|
                    0 <= k < entries@.len() && (#[trigger] entries@[k]).0 == rr
                        && entries@[k].1 == cc,
        decreases nd - r,
    {
        let rn = r / s;
        proof {
            assert(0 <= r as int / s as int && r as int / (s as int) < space.num_nodes) by (nonlinear_arith)
                requires
                    0 <= r < space.num_nodes * s,
                    1 <= s,
            ;
        }
        let mut c: usize = 0;
        while c < nd
            invariant
                c <= nd,
                r < nd,
                s == solution_dim,
                space.wf(),
                solution_dim_ok(s as int),
                nd == space.num_nodes * s,
                rn == r as int / s as int,
                forall|a: int, b: int|
                    0 <= a < b < entries@.len() ==> pair_lt(
                        #[trigger] entries@[a],
                        #[trigger] entries@[b],
                    ),
                forall|k: int|
                    0 <= k < entries@.len() ==> ((#[trigger] entries@[k]).0 < r || (
                    entries@[k].0 == r && entries@[k].1 < c)) && entries@[k].0 < nd
                        && entries@[k].1 < nd,
                forall|k: int|
                    0 <= k < entries@.len() ==> pair_touched(
                        *space,
                        s as nat,
                        (#[trigger] entries@[k]).0 as int,
                        entries@[k].1 as int,
                    ),
                forall|rr: int, cc: int|
                    pair_touched(*space, s as nat, rr, cc) && (rr < r || (rr == r && cc < c))
                        ==> exists|k: int|
                        0 <= k < entries@.len() && (#[trigger] entries@[k]).0 == rr
                            && entries@[k].1 == cc,
            decreases nd - c,
        {
            let cn = c / s;
            proof {
                assert(0 <= c as int / s as int && c as int / (s as int) < space.num_nodes) by (nonlinear_arith)
                    requires
                        0 <= c < space.num_nodes * s,
                        1 <= s,
                ;
            }
            if space_touches_nodes(space, rn, cn) {
                let ghost old_entries = entries@;
                entries.push((r, c));
                proof {
                    assert(pair_touched(*space, s as nat, r as int, c as int));
                    assert forall|rr: int, cc: int|
                        pair_touched(*space, s as nat, rr, cc) && (rr < r || (rr == r && cc < c
                            + 1)) implies exists|k: int|
                        0 <= k < entries@.len() && (#[trigger] entries@[k]).0 == rr
                            && entries@[k].1 == cc by {
                        if rr == r && cc == c {
                            assert(entries@[entries@.len() - 1] == (r, c));
                        } else {
                            let k = choose|k: int|
                                0 <= k < old_entries.len() && (#[trigger] old_entries[k]).0 == rr
                                    && old_entries[k].1 == cc;
                            assert(entries@[k] == old_entries[k]);
                        }
                    }
                }
            } else {
                proof {
                    assert(!pair_touched(*space, s as nat, r as int, c as int));
                }
            }
            c = c + 1;
        }
        r = r + 1;
    }
    let ghost es = entries@;
    let p = SparsePattern { entries, num_dofs: nd };
    proof {
        assert(p.entries@ == es);
        assert forall|rr: int, cc: int|
            p.contains_pair(rr, cc) <==> pair_touched(*space, s as nat, rr, cc) by {
            if p.contains_pair(rr, cc) {
                let k = choose|k: int|
                    0 <= k < p.entries@.len() && (#[trigger] p.entries@[k]).0 == rr
                        && p.entries@[k].1 == cc;
                assert(es[k] == p.entries@[k]);
                assert(pair_touched(*space, s as nat, es[k].0 as int, es[k].1 as int));
            }
            if pair_touched(*space, s as nat, rr, cc) {
                assert(rr < nd);
                let k = choose|k: int|
                    0 <= k < es.len() && (#[trigger] es[k]).0 == rr && es[k].1 == cc;
                assert((#[trigger] p.entries@[k]).0 == rr && p.entries@[k].1 == cc);
                assert(p.contains_pair(rr, cc));
            }
        }
    }
    p
}

/// Any two well-formed patterns with the same pair membership hold identical
/// entry lists: the sorted, deduplicated pattern of a touched-pair set is
/// unique, whatever order or partitioning produced it.
pub proof fn lemma_pattern_deterministic(p1: SparsePattern, p2: SparsePattern)
    requires
        p1.wf(),
        p2.wf(),
        forall|r: int, c: int| p1.contains_pair(r, c) <==> p2.contains_pair(r, c),
    ensures
        p1.entries@ == p2.entries@,
{
    assert forall|p: (usize, usize)|
        p1.entries@.contains(p) <==> p2.entries@.contains(p) by {
        if p1.entries@.contains(p) {
            assert(p1.contains_pair(p.0 as int, p.1 as int));
            assert(p2.contains_pair(p.0 as int, p.1 as int));
            let k2 = choose|k2: int|
                0 <= k2 < p2.entries@.len() && (#[trigger] p2.entries@[k2]).0 == p.0
                    && p2.entries@[k2].1 == p.1;
            assert(p2.entries@[k2] == p);
            assert(p2.entries@.contains(p));
        }
        if p2.entries@.contains(p) {
            assert(p2.contains_pair(p.0 as int, p.1 as int));
            assert(p1.contains_pair(p.0 as int, p.1 as int));
            let k1 = choose|k1: int|
                0 <= k1 < p1.entries@.len() && (#[trigger] p1.entries@[k1]).0 == p.0
                    && p1.entries@[k1].1 == p.1;
            assert(p1.entries@[k1] == p);
            assert(p1.entries@.contains(p));
        }
    }
    lemma_sorted_unique(p1.entries@, p2.entries@);
}

/// Strictly sorted pair sequences with the same members are equal.
proof fn lemma_sorted_unique(a: Seq<(usize, usize)>, b: Seq<(usize, usize)>)
    requires
        forall|i: int, j: int| 0 <= i < j < a.len() ==> pair_lt(#[trigger] a[i], #[trigger] a[j]),
        forall|i: int, j: int| 0 <= i < j < b.len() ==> pair_lt(#[trigger] b[i], #[trigger] b[j]),
        forall|p: (usize, usize)| a.contains(p) <==> b.contains(p),
    ensures
        a == b,
    decreases a.len(),
{
    if a.len() == 0 {
        if b.len() > 0 {
            assert(b.contains(b[0]));
            assert(a.contains(b[0]));
        }
        assert(a =~= b);
    } else {
        assert(a.contains(a[0]));
        assert(b.contains(a[0]));
        assert(a.contains(b[0]));
        let ka = choose|k: int| 0 <= k < a.len() && a[k] == b[0];
        let kb = choose|k: int| 0 <= k < b.len() && b[k] == a[0];
        if ka > 0 {
            assert(pair_lt(a[0], a[ka]));
        }
        if kb > 0 {
            assert(pair_lt(b[0], b[kb]));
        }
        assert(a[0] == b[0]);
        let at = a.subrange(1, a.len() as int);
        let bt = b.subrange(1, b.len() as int);
        assert forall|p: (usize, usize)| at.contains(p) <==> bt.contains(p) by {
            lemma_tail_membership(a, p);
            lemma_tail_membership(b, p);
        }
        lemma_sorted_unique(at, bt);
        assert forall|i: int| 0 <= i < a.len() implies a[i] == b[i] by {
            if i > 0 {
                assert(at[i - 1] == a[i]);
                assert(bt[i - 1] == b[i]);
            }
        }
        assert(a =~= b);
    }
}

/// For a strictly sorted sequence, a pair stands in the tail exactly when it
/// stands in the whole sequence and is not the head.
proof fn lemma_tail_membership(a: Seq<(usize, usize)>, p: (usize, usize))
    requires
        a.len() > 0,
        forall|i: int, j: int| 0 <= i < j < a.len() ==> pair_lt(#[trigger] a[i], #[trigger] a[j]),
    ensures
        a.subrange(1, a.len() as int).contains(p) <==> (a.contains(p) && p != a[0]),
{
    let at = a.subrange(1, a.len() as int);
    if at.contains(p) {
        let k = choose|k: int| 0 <= k < at.len() && at[k] == p;
        assert(a[k + 1] == p);
        assert(pair_lt(a[0], a[k + 1]));
        assert(a.contains(p));
    }
    if a.contains(p) && p != a[0] {
        let k = choose|k: int| 0 <= k < a.len() && a[k] == p;
        assert(k > 0);
        assert(at[k - 1] == p);
        assert(at.contains(p));
    }
}

} // verus!
