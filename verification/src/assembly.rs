//! The global assembler: scatter per-element local contributions into a
//! global sparse matrix (through the sparsity pattern) or a dense global
//! vector, serially or partitioned across worker-local buffers that are
//! merged in a fixed order.

use vstd::prelude::*;

use crate::local::{
    assemble_local_matrix, assemble_local_vector, spec_local_matrix, spec_local_vector,
    EllipticOperator,
};
use crate::pattern::{pair_lt, SparsePattern};
use crate::space::{
    element_dofs, lemma_element_dofs_distinct, spec_element_dofs, QuadratureTable, Space,
    solution_dim_ok,
};
use crate::sums::{
    iabs, lemma_sum_bound, lemma_sum_eq, lemma_sum_single, lemma_sum_split, lemma_sum_zero, sum,
};

verus! {

/// A recoverable structural failure of an assembly operation.
#[derive(Clone, Copy, Debug, PartialEq, Eq, Structural)]
pub enum AssemblyError {
    /// The values storage length does not equal the pattern's nonzero count
    /// (or the global vector's length does not cover the degrees of freedom).
    InvalidValuesLength,
    /// A local-to-global index falls outside the global structure.
    IndexOutOfBounds,
}

/// One element's local dense matrix together with its local-to-global map:
/// `values` is row-major of size `dofs.len() * dofs.len()`, and entry
/// `(a, b)` is destined for global position `(dofs[a], dofs[b])`.
pub struct LocalContribution {
    pub dofs: Vec<usize>,
    pub values: Vec<i128>,
}

impl LocalContribution {
    /// Shape and range conditions: a square local matrix over at most 16384
    /// distinct global degrees of freedom, entries within the kernel's output
    /// range.
    pub open spec fn wf(self) -> bool {
        &&& self.dofs@.len() <= 16384
        &&& self.values@.len() == self.dofs@.len() * self.dofs@.len()
        &&& forall|a: int, b: int|
            0 <= a < b < self.dofs@.len() ==> #[trigger] self.dofs@[a] != #[trigger] self.dofs@[b]
        &&& forall|t: int|
            0 <= t < self.values@.len() ==> iabs(#[trigger] self.values@[t] as int)
                <= 0x40000000000000000000000
    }

    /// Every destination pair of this contribution stands in the pattern.
    pub open spec fn covered_by(self, pattern: SparsePattern) -> bool {
        forall|a: int, b: int|
            0 <= a < self.dofs@.len() && 0 <= b < self.dofs@.len() ==> pattern.contains_pair(
                #[trigger] self.dofs@[a] as int,
                #[trigger] self.dofs@[b] as int,
            )
    }
}

/// What local entry `t` (flattened as `a * L + b`) sends to the global slot
/// holding `entry`: the local value if the destination pair is `entry`,
/// otherwise nothing.
pub open spec fn scatter_term(
    entry: (usize, usize),
    dofs: Seq<usize>,
    vals: Seq<i128>,
    t: int,
) -> int {
    let ll = dofs.len() as int;
    if dofs[t / ll] == entry.0 && dofs[t % ll] == entry.1 {
        vals[t] as int
    } else {
        0
    }
}

/// Everything one local contribution sends to the global slot holding
/// `entry`.
pub open spec fn local_slot_sum(entry: (usize, usize), dofs: Seq<usize>, vals: Seq<i128>) -> int {
    sum((dofs.len() * dofs.len()) as nat, |t: int| scatter_term(entry, dofs, vals, t))
}

/// Everything the elements `start..end` send to the global slot holding
/// `entry`.
pub open spec fn range_slot_sum(
    entry: (usize, usize),
    elems: Seq<LocalContribution>,
    start: int,
    end: int,
) -> int {
    sum(
        (end - start) as nat,
        |i: int| local_slot_sum(entry, elems[start + i].dofs@, elems[start + i].values@),
    )
}

/// A prefix of the scatter of one well-formed local contribution moves at
/// most one nonzero value toward any slot, so it is bounded by the local
/// value bound.
proof fn lemma_scatter_prefix_bound(
    entry: (usize, usize),
    dofs: Seq<usize>,
    vals: Seq<i128>,
    m: nat,
)
    requires
        dofs.len() <= 16384,
        vals.len() == dofs.len() * dofs.len(),
        forall|a: int, b: int| 0 <= a < b < dofs.len() ==> #[trigger] dofs[a] != #[trigger] dofs[b],
        forall|t: int|
            0 <= t < vals.len() ==> iabs(#[trigger] vals[t] as int) <= 0x40000000000000000000000,
        m <= vals.len(),
    ensures
        iabs(sum(m, |t: int| scatter_term(entry, dofs, vals, t))) <= 0x40000000000000000000000,
{
    let ll = dofs.len() as int;
    let f = |t: int| scatter_term(entry, dofs, vals, t);
    if exists|a: int, b: int|
        0 <= a < ll && 0 <= b < ll && dofs[a] == entry.0 && dofs[b] == entry.1 {
        let (a, b): (int, int) = choose|a: int, b: int|
            0 <= a < ll && 0 <= b < ll && dofs[a] == entry.0 && dofs[b] == entry.1;
        let t0 = a * ll + b;
        assert(0 <= t0 < ll * ll) by (nonlinear_arith)
            requires
                0 <= a < ll,
                0 <= b < ll,
                t0 == a * ll + b,
        ;
        vstd::arithmetic::div_mod::lemma_fundamental_div_mod_converse_div(t0, ll, a, b);
        vstd::arithmetic::div_mod::lemma_fundamental_div_mod_converse_mod(t0, ll, a, b);
        assert forall|t: int| 0 <= t < m && t != t0 implies #[trigger] f(t) == 0 by {
            let ta = t / ll;
            let tb = t % ll;
            assert(0 <= ta < ll && 0 <= tb < ll && t == ta * ll + tb) by (nonlinear_arith)
                requires
                    0 <= t < ll * ll,
                    1 <= ll,
                    ta == t / ll,
                    tb == t % ll,
            ;
            if dofs[ta] == entry.0 && dofs[tb] == entry.1 {
                assert(ta == a);
                assert(tb == b);
            }
        }
        if t0 < m {
            lemma_sum_single(m, f, t0);
        } else {
            lemma_sum_zero(m, f);
        }
    } else {
        assert forall|t: int| 0 <= t < m implies #[trigger] f(t) == 0 by {
            let ta = t / ll;
            let tb = t % ll;
            assert(0 <= ta < ll && 0 <= tb < ll) by (nonlinear_arith)
                requires
                    0 <= t < ll * ll,
                    1 <= ll,
                    ta == t / ll,
                    tb == t % ll,
            ;
        }
        lemma_sum_zero(m, f);
    }
}

/// One local contribution sends at most its value bound to any slot.
pub proof fn lemma_local_slot_sum_bound(
    entry: (usize, usize),
    local: LocalContribution,
)
    requires
        local.wf(),
    ensures
        iabs(local_slot_sum(entry, local.dofs@, local.values@)) <= 0x40000000000000000000000,
{
    lemma_scatter_prefix_bound(
        entry,
        local.dofs@,
        local.values@,
        (local.dofs@.len() * local.dofs@.len()) as nat,
    );
}

/// A range of elements sends at most its length times the value bound to any
/// slot.
pub proof fn lemma_range_slot_sum_bound(
    entry: (usize, usize),
    elems: Seq<LocalContribution>,
    start: int,
    end: int,
)
    requires
        0 <= start <= end <= elems.len(),
        forall|e: int| 0 <= e < elems.len() ==> (#[trigger] elems[e]).wf(),
    ensures
        iabs(range_slot_sum(entry, elems, start, end)) <= (end - start)
            * 0x40000000000000000000000,
{
    let f = |i: int| local_slot_sum(entry, elems[start + i].dofs@, elems[start + i].values@);
    assert forall|i: int| 0 <= i < end - start implies iabs(#[trigger] f(i))
        <= 0x40000000000000000000000 by {
        lemma_local_slot_sum_bound(entry, elems[start + i]);
    }
    lemma_sum_bound((end - start) as nat, f, 0x40000000000000000000000);
}

/// What a range of elements sends to a slot splits at any point of the range.
/// In particular, assembling the elements in disjoint groups and adding the
/// group results gives exactly the all-at-once assembly.
pub proof fn lemma_range_slot_sum_split(
    entry: (usize, usize),
    elems: Seq<LocalContribution>,
    a: int,
    b: int,
    c: int,
)
    requires
        0 <= a <= b <= c <= elems.len(),
    ensures
        range_slot_sum(entry, elems, a, c) == range_slot_sum(entry, elems, a, b)
            + range_slot_sum(entry, elems, b, c),
{
    let f = |i: int| local_slot_sum(entry, elems[a + i].dofs@, elems[a + i].values@);
    let g = |i: int| local_slot_sum(entry, elems[b + i].dofs@, elems[b + i].values@);
    lemma_sum_split((b - a) as nat, (c - b) as nat, f);
    lemma_sum_eq((c - b) as nat, |i: int| f(i + (b - a)), g);
}

/// Find the slot of the pair (`r`, `c`) in the pattern, if it has one, by
/// binary search over the sorted entries.
pub fn find_slot(pattern: &SparsePattern, r: usize, c: usize) -> (res: Option<usize>)
    requires
        pattern.wf(),
    ensures
        match res {
            Some(k) => 0 <= k < pattern.entries@.len() && pattern.entries@[k as int]
                == (r, c),
            None => !pattern.contains_pair(r as int, c as int),
        },
{
    let n = pattern.entries.len();
    let mut lo: usize = 0;
    let mut hi: usize = n;
    while lo < hi
        invariant
            lo <= hi <= n,
            n == pattern.entries@.len(),
            pattern.wf(),
            forall|k: int| 0 <= k < lo ==> pair_lt(#[trigger] pattern.entries@[k], (r, c)),
            forall|k: int| hi <= k < n ==> pair_lt((r, c), #[trigger] pattern.entries@[k]),
        decreases hi - lo,
    {
        let mid = lo + (hi - lo) / 2;
        let (er, ec) = pattern.entries[mid];
        if er < r || (er == r && ec < c) {
            proof {
                assert forall|k: int| 0 <= k < mid + 1 implies pair_lt(
                    #[trigger] pattern.entries@[k],
                    (r, c),
                ) by {
                    if k < mid {
                        assert(pair_lt(pattern.entries@[k], pattern.entries@[mid as int]));
                    }
                }
            }
            lo = mid + 1;
        } else if er == r && ec == c {
            return Some(mid);
        } else {
            proof {
                assert(pair_lt((r, c), pattern.entries@[mid as int]));
                assert forall|k: int| mid <= k < n implies pair_lt(
                    (r, c),
                    #[trigger] pattern.entries@[k],
                ) by {
                    if k > mid {
                        assert(pair_lt(pattern.entries@[mid as int], pattern.entries@[k]));
                    }
                }
            }
            hi = mid;
        }
    }
    proof {
        assert forall|k: int|
            0 <= k < pattern.entries@.len() implies #[trigger] pattern.entries@[k] != (
        r,
        c,
        ) by {
            if k < lo {
                assert(pair_lt(pattern.entries@[k], (r, c)));
            } else {
                assert(pair_lt((r, c), pattern.entries@[k]));
            }
        }
    }
    None
}

/// Does every destination pair of the contribution stand in the pattern?
fn check_coverage(pattern: &SparsePattern, local: &LocalContribution) -> (b: bool)
    requires
        pattern.wf(),
    ensures
        b == local.covered_by(*pattern),
{
    let ll = local.dofs.len();
    let mut a: usize = 0;
    while a < ll
        invariant
            a <= ll,
            ll == local.dofs@.len(),
            pattern.wf(),
            forall|a2: int, b2: int|
                0 <= a2 < a && 0 <= b2 < ll ==> pattern.contains_pair(
                    #[trigger] local.dofs@[a2] as int,
                    #[trigger] local.dofs@[b2] as int,
                ),
        decreases ll - a,
    {
        let mut b: usize = 0;
        while b < ll
            invariant
                b <= ll,
                a < ll,
                ll == local.dofs@.len(),
                pattern.wf(),
                forall|b2: int|
                    0 <= b2 < b ==> pattern.contains_pair(
                        local.dofs@[a as int] as int,
                        #[trigger] local.dofs@[b2] as int,
                    ),
            decreases ll - b,
        {
            if find_slot(pattern, local.dofs[a], local.dofs[b]).is_none() {
                return false;
            }
            b = b + 1;
        }
        a = a + 1;
    }
    true
}

/// Scatter one element's local matrix into the global values storage through
/// the pattern: each local entry is added onto the slot of its destination
/// pair. On a structural failure the storage is left untouched.
pub fn add_local_to_global(
    values: &mut Vec<i128>,
    pattern: &SparsePattern,
    local: &LocalContribution,
) -> (res: Result<(), AssemblyError>)
    requires
        pattern.wf(),
        local.wf(),
        forall|k: int|
            0 <= k < old(values)@.len() ==> iabs(#[trigger] old(values)@[k] as int)
                <= 0x10000000000000000000000000000,
    ensures
        final(values)@.len() == old(values)@.len(),
        res is Ok <==> old(values)@.len() == pattern.entries@.len() && local.covered_by(*pattern),
        res is Ok ==> forall|k: int|
            0 <= k < final(values)@.len() ==> #[trigger] final(values)@[k] == old(values)@[k]
                + local_slot_sum(pattern.entries@[k], local.dofs@, local.values@),
        res is Err ==> final(values)@ == old(values)@,
        forall|k: int|
            0 <= k < final(values)@.len() ==> iabs(#[trigger] final(values)@[k] as int)
                <= 0x10000000000000000000000000000 + 0x40000000000000000000000,
    {
    let nnz = pattern.nnz();
    if values.len() != nnz {
        return Err(AssemblyError::InvalidValuesLength);
    }
    if !check_coverage(pattern, local) {
        return Err(AssemblyError::IndexOutOfBounds);
    }
    let ll = local.dofs.len();
    proof {
        assert(ll * ll == local.values@.len());
        assert forall|k: int| 0 <= k < values@.len() implies #[trigger] values@[k] == old(
            values,
        )@[k] + sum(0nat, |t: int| scatter_term(pattern.entries@[k], local.dofs@, local.values@, t))
            by {}
    }
    let total = local.values.len();
    let mut t: usize = 0;
    while t < total
        invariant
            t <= total,
            total == local.values@.len(),
            ll == local.dofs@.len(),
            total == ll * ll,
            pattern.wf(),
            local.wf(),
            local.covered_by(*pattern),
            values@.len() == pattern.entries@.len(),
            values@.len() == old(values)@.len(),
            forall|k: int|
                0 <= k < old(values)@.len() ==> iabs(#[trigger] old(values)@[k] as int)
                    <= 0x10000000000000000000000000000,
            forall|k: int|
                0 <= k < values@.len() ==> #[trigger] values@[k] == old(values)@[k] + sum(
                    t as nat,
                    |tt: int| scatter_term(pattern.entries@[k], local.dofs@, local.values@, tt),
                ),
        decreases total - t,
    {
        proof {
            assert(1 <= ll) by (nonlinear_arith)
                requires
                    0 <= t < ll * ll,
                    0 <= ll,
            ;
            assert(0 <= t as int / ll as int && t as int / (ll as int) < ll && 0 <= t as int % (
            ll as int) < ll) by (nonlinear_arith)
                requires
                    0 <= t < ll * ll,
                    1 <= ll,
            ;
        }
        let a = t / ll;
        let b = t % ll;
        let ra = local.dofs[a];
        let cb = local.dofs[b];
        let slot = match find_slot(pattern, ra, cb) {
            Some(k) => k,
            None => {
                proof {
                    assert(pattern.contains_pair(local.dofs@[a as int] as int, local.dofs@[b as int] as int));
                    assert(false);
                }
                return Err(AssemblyError::IndexOutOfBounds);
            },
        };
        let ghost prev = values@;
        let cur = values[slot];
        proof {
            lemma_scatter_prefix_bound(
                pattern.entries@[slot as int],
                local.dofs@,
                local.values@,
                t as nat,
            );
            assert(iabs(old(values)@[slot as int] as int) <= 0x10000000000000000000000000000);
            assert(iabs(cur as int) <= 0x10000000000000000000000000000
                + 0x40000000000000000000000);
            assert(iabs(local.values@[t as int] as int) <= 0x40000000000000000000000);
        }
        let v = local.values[t];
        values.set(slot, cur + v);
        proof {
            let entry_slot = pattern.entries@[slot as int];
            assert(entry_slot.0 == ra && entry_slot.1 == cb);
            assert forall|k: int| 0 <= k < values@.len() implies #[trigger] values@[k] == old(
                values,
            )@[k] + sum(
                (t + 1) as nat,
                |tt: int| scatter_term(pattern.entries@[k], local.dofs@, local.values@, tt),
            ) by {
                let f = |tt: int| scatter_term(pattern.entries@[k], local.dofs@, local.values@, tt);
                assert(sum((t + 1) as nat, f) == sum(t as nat, f) + f(t as int));
                if k == slot {
                    assert(f(t as int) == local.values@[t as int]);
                    assert(values@[k] == prev[k] + local.values@[t as int]);
                } else {
                    pattern.lemma_entries_injective(k, slot as int);
                    assert(pattern.entries@[k] != entry_slot);
                    assert(f(t as int) == 0);
                    assert(values@[k] == prev[k]);
                }
            }
        }
        t = t + 1;
    }
    proof {
        assert forall|k: int| 0 <= k < values@.len() implies iabs(#[trigger] values@[k] as int)
            <= 0x10000000000000000000000000000 + 0x40000000000000000000000 by {
            lemma_scatter_prefix_bound(
                pattern.entries@[k],
                local.dofs@,
                local.values@,
                total as nat,
            );
        }
        assert forall|k: int| 0 <= k < values@.len() implies #[trigger] values@[k] == old(
            values,
        )@[k] + local_slot_sum(pattern.entries@[k], local.dofs@, local.values@) by {
            assert(values@[k] == old(values)@[k] + sum(
                total as nat,
                |tt: int| scatter_term(pattern.entries@[k], local.dofs@, local.values@, tt),
            ));
        }
    }
    Ok(())
}

/// A zero-initialized values storage of the given length.
pub fn zero_values(n: usize) -> (r: Vec<i128>)
    ensures
        r@.len() == n,
        forall|k: int| 0 <= k < n ==> #[trigger] r@[k] == 0,
{
    let mut r: Vec<i128> = Vec::new();
    let mut i: usize = 0;
    while i < n
        invariant
            i <= n,
            r@.len() == i,
            forall|k: int| 0 <= k < i ==> #[trigger] r@[k] == 0,
        decreases n - i,
    {
        r.push(0);
        i = i + 1;
    }
    r
}

/// Are all destination pairs of the elements `start..end` in the pattern?
fn check_range_coverage(
    pattern: &SparsePattern,
    elements: &Vec<LocalContribution>,
    start: usize,
    end: usize,
) -> (b: bool)
    requires
        pattern.wf(),
        start <= end <= elements@.len(),
    ensures
        b == forall|e: int|
            start <= e < end ==> (#[trigger] elements@[e]).covered_by(*pattern),
{
    let mut e: usize = start;
    while e < end
        invariant
            start <= e <= end,
            end <= elements@.len(),
            pattern.wf(),
            forall|e2: int| start <= e2 < e ==> (#[trigger] elements@[e2]).covered_by(*pattern),
        decreases end - e,
    {
        if !check_coverage(pattern, &elements[e]) {
            return false;
        }
        e = e + 1;
    }
    true
}

/// Assemble the elements `start..end` into the values storage: each local
/// contribution is scattered through the pattern and added on. The storage
/// is untouched on a structural failure.
pub fn assemble_range(
    pattern: &SparsePattern,
    elements: &Vec<LocalContribution>,
    start: usize,
    end: usize,
    values: &mut Vec<i128>,
) -> (res: Result<(), AssemblyError>)
    requires
        pattern.wf(),
        elements@.len() <= 0x10000,
        start <= end <= elements@.len(),
        forall|e: int| 0 <= e < elements@.len() ==> (#[trigger] elements@[e]).wf(),
        forall|k: int|
            0 <= k < old(values)@.len() ==> iabs(#[trigger] old(values)@[k] as int)
                <= 0x1000000000000000000000000000,
    ensures
        final(values)@.len() == old(values)@.len(),
        res is Ok <==> old(values)@.len() == pattern.entries@.len() && (forall|e: int|
            start <= e < end ==> (#[trigger] elements@[e]).covered_by(*pattern)),
        res is Ok ==> forall|k: int|
            0 <= k < final(values)@.len() ==> #[trigger] final(values)@[k] == old(values)@[k]
                + range_slot_sum(pattern.entries@[k], elements@, start as int, end as int),
        res is Err ==> final(values)@ == old(values)@,
        forall|k: int|
            0 <= k < final(values)@.len() ==> iabs(#[trigger] final(values)@[k] as int)
                <= 0x1000000000000000000000000000 + 0x10000 * 0x40000000000000000000000,
{
    let nnz = pattern.nnz();
    if values.len() != nnz {
        return Err(AssemblyError::InvalidValuesLength);
    }
    if !check_range_coverage(pattern, elements, start, end) {
        return Err(AssemblyError::IndexOutOfBounds);
    }
    let mut e: usize = start;
    while e < end
        invariant
            start <= e <= end,
            end <= elements@.len(),
            elements@.len() <= 0x10000,
            pattern.wf(),
            values@.len() == pattern.entries@.len(),
            values@.len() == old(values)@.len(),
            forall|e2: int| 0 <= e2 < elements@.len() ==> (#[trigger] elements@[e2]).wf(),
            forall|e2: int| start <= e2 < end ==> (#[trigger] elements@[e2]).covered_by(*pattern),
            forall|k: int|
                0 <= k < old(values)@.len() ==> iabs(#[trigger] old(values)@[k] as int)
                    <= 0x1000000000000000000000000000,
            forall|k: int|
                0 <= k < values@.len() ==> #[trigger] values@[k] == old(values)@[k]
                    + range_slot_sum(pattern.entries@[k], elements@, start as int, e as int),
        decreases end - e,
    {
        proof {
            assert forall|k: int| 0 <= k < values@.len() implies iabs(#[trigger] values@[k] as int)
                <= 0x10000000000000000000000000000 by {
                lemma_range_slot_sum_bound(
                    pattern.entries@[k],
                    elements@,
                    start as int,
                    e as int,
                );
                assert((e - start) * 0x40000000000000000000000 <= 0x10000
                    * 0x40000000000000000000000) by (nonlinear_arith)
                    requires
                        0 <= e - start <= 0x10000,
                ;
            }
        }
        let ghost pre = values@;
        let res = add_local_to_global(values, pattern, &elements[e]);
        proof {
            assert(res is Ok);
            assert forall|k: int| 0 <= k < values@.len() implies #[trigger] values@[k] == old(
                values,
            )@[k] + range_slot_sum(pattern.entries@[k], elements@, start as int, e + 1) by {
                let entry = pattern.entries@[k];
                let f = |i: int|
                    local_slot_sum(
                        entry,
                        elements@[start + i].dofs@,
                        elements@[start + i].values@,
                    );
                assert(sum((e + 1 - start) as nat, f) == sum((e - start) as nat, f) + f(
                    e - start,
                ));
                assert(values@[k] == pre[k] + local_slot_sum(
                    entry,
                    elements@[e as int].dofs@,
                    elements@[e as int].values@,
                ));
            }
        }
        e = e + 1;
    }
    proof {
        assert forall|k: int| 0 <= k < values@.len() implies iabs(#[trigger] values@[k] as int)
            <= 0x1000000000000000000000000000 + 0x10000 * 0x40000000000000000000000 by {
            lemma_range_slot_sum_bound(pattern.entries@[k], elements@, start as int, end as int);
            assert((end - start) * 0x40000000000000000000000 <= 0x10000
                * 0x40000000000000000000000) by (nonlinear_arith)
                requires
                    0 <= end - start <= 0x10000,
            ;
        }
    }
    Ok(())
}

/// Assemble every element into the values storage, in increasing element
/// order: the serial global assembler.
pub fn assemble_matrix(
    pattern: &SparsePattern,
    elements: &Vec<LocalContribution>,
    values: &mut Vec<i128>,
) -> (res: Result<(), AssemblyError>)
    requires
        pattern.wf(),
        elements@.len() <= 0x10000,
        forall|e: int| 0 <= e < elements@.len() ==> (#[trigger] elements@[e]).wf(),
        forall|k: int|
            0 <= k < old(values)@.len() ==> iabs(#[trigger] old(values)@[k] as int)
                <= 0x1000000000000000000000000000,
    ensures
        final(values)@.len() == old(values)@.len(),
        res is Ok <==> old(values)@.len() == pattern.entries@.len() && (forall|e: int|
            0 <= e < elements@.len() ==> (#[trigger] elements@[e]).covered_by(*pattern)),
        res is Ok ==> forall|k: int|
            0 <= k < final(values)@.len() ==> #[trigger] final(values)@[k] == old(values)@[k]
                + range_slot_sum(pattern.entries@[k], elements@, 0, elements@.len() as int),
        res is Err ==> final(values)@ == old(values)@,
{
    let end = elements.len();
    assemble_range(pattern, elements, 0, end, values)
}

/// A partition of the element range `0..num_elements` into consecutive worker
/// ranges: boundaries rise from 0 to the element count.
pub open spec fn partition_ok(boundaries: Seq<usize>, num_elements: int) -> bool {
    &&& boundaries.len() >= 1
    &&& boundaries[0] == 0
    &&& boundaries[boundaries.len() - 1] == num_elements
    &&& forall|w: int|
        0 <= w < boundaries.len() - 1 ==> #[trigger] boundaries[w] <= boundaries[w + 1]
}

/// Assemble with worker-local accumulation: each worker range of the
/// partition is assembled into its own zero buffer, and the buffers are
/// merged into the values storage in ascending worker order. The result is
/// exactly what the serial assembler produces, whatever the partition.
pub fn assemble_matrix_partitioned(
    pattern: &SparsePattern,
    elements: &Vec<LocalContribution>,
    boundaries: &Vec<usize>,
    values: &mut Vec<i128>,
) -> (res: Result<(), AssemblyError>)
    requires
        pattern.wf(),
        elements@.len() <= 0x10000,
        partition_ok(boundaries@, elements@.len() as int),
        forall|e: int| 0 <= e < elements@.len() ==> (#[trigger] elements@[e]).wf(),
        forall|k: int|
            0 <= k < old(values)@.len() ==> iabs(#[trigger] old(values)@[k] as int)
                <= 0x1000000000000000000000000000,
    ensures
        final(values)@.len() == old(values)@.len(),
        res is Ok <==> old(values)@.len() == pattern.entries@.len() && (forall|e: int|
            0 <= e < elements@.len() ==> (#[trigger] elements@[e]).covered_by(*pattern)),
        res is Ok ==> forall|k: int|
            0 <= k < final(values)@.len() ==> #[trigger] final(values)@[k] == old(values)@[k]
                + range_slot_sum(pattern.entries@[k], elements@, 0, elements@.len() as int),
        res is Err ==> final(values)@ == old(values)@,
{
    let nnz = pattern.nnz();
    if values.len() != nnz {
        return Err(AssemblyError::InvalidValuesLength);
    }
    let ne = elements.len();
    if !check_range_coverage(pattern, elements, 0, ne) {
        return Err(AssemblyError::IndexOutOfBounds);
    }
    let nw = boundaries.len() - 1;
    let mut w: usize = 0;
    while w < nw
        invariant
            w <= nw,
            nw == boundaries@.len() - 1,
            ne == elements@.len(),
            elements@.len() <= 0x10000,
            pattern.wf(),
            partition_ok(boundaries@, ne as int),
            values@.len() == pattern.entries@.len(),
            values@.len() == old(values)@.len(),
            values@.len() == nnz,
            forall|e2: int| 0 <= e2 < elements@.len() ==> (#[trigger] elements@[e2]).wf(),
            forall|e2: int| 0 <= e2 < ne ==> (#[trigger] elements@[e2]).covered_by(*pattern),
            forall|k: int|
                0 <= k < old(values)@.len() ==> iabs(#[trigger] old(values)@[k] as int)
                    <= 0x1000000000000000000000000000,
            forall|k: int|
                0 <= k < values@.len() ==> #[trigger] values@[k] == old(values)@[k]
                    + range_slot_sum(
                    pattern.entries@[k],
                    elements@,
                    0,
                    boundaries@[w as int] as int,
                ),
        decreases nw - w,
    {
        proof {
            lemma_partition_prefix(boundaries@, ne as int, w as int);
        }
        let lo = boundaries[w];
        let hi = boundaries[w + 1];
        let mut buf = zero_values(nnz);
        let res = assemble_range(pattern, elements, lo, hi, &mut buf);
        proof {
            assert(res is Ok);
        }
        let ghost pre = values@;
        let mut k: usize = 0;
        while k < nnz
            invariant
                k <= nnz,
                w < nw,
                nw == boundaries@.len() - 1,
                ne == elements@.len(),
                elements@.len() <= 0x10000,
                pattern.wf(),
                partition_ok(boundaries@, ne as int),
                lo == boundaries@[w as int],
                hi == boundaries@[w as int + 1],
                0 <= lo <= hi <= ne,
                values@.len() == nnz,
                values@.len() == pattern.entries@.len(),
                values@.len() == old(values)@.len(),
                buf@.len() == nnz,
                forall|k2: int|
                    0 <= k2 < nnz ==> #[trigger] buf@[k2] == range_slot_sum(
                        pattern.entries@[k2],
                        elements@,
                        lo as int,
                        hi as int,
                    ),
                forall|e2: int| 0 <= e2 < elements@.len() ==> (#[trigger] elements@[e2]).wf(),
                forall|k2: int|
                    0 <= k2 < old(values)@.len() ==> iabs(#[trigger] old(values)@[k2] as int)
                        <= 0x1000000000000000000000000000,
                forall|k2: int|
                    0 <= k2 < nnz ==> #[trigger] pre[k2] == old(values)@[k2] + range_slot_sum(
                        pattern.entries@[k2],
                        elements@,
                        0,
                        lo as int,
                    ),
                forall|k2: int|
                    k <= k2 < nnz ==> #[trigger] values@[k2] == pre[k2],
                forall|k2: int|
                    0 <= k2 < k ==> #[trigger] values@[k2] == old(values)@[k2] + range_slot_sum(
                        pattern.entries@[k2],
                        elements@,
                        0,
                        hi as int,
                    ),
            decreases nnz - k,
        {
            proof {
                lemma_range_slot_sum_bound(pattern.entries@[k as int], elements@, 0, lo as int);
                lemma_range_slot_sum_bound(
                    pattern.entries@[k as int],
                    elements@,
                    lo as int,
                    hi as int,
                );
                assert(lo * 0x40000000000000000000000 <= 0x10000 * 0x40000000000000000000000
                    && (hi - lo) * 0x40000000000000000000000 <= 0x10000
                    * 0x40000000000000000000000) by (nonlinear_arith)
                    requires
                        0 <= lo <= 0x10000,
                        0 <= hi - lo <= 0x10000,
                ;
                lemma_range_slot_sum_split(
                    pattern.entries@[k as int],
                    elements@,
                    0,
                    lo as int,
                    hi as int,
                );
            }
            let cur = values[k];
            let add_on = buf[k];
            values.set(k, cur + add_on);
            k = k + 1;
        }
        w = w + 1;
    }
    proof {
        assert(boundaries@[nw as int] == ne);
    }
    Ok(())
}

/// One element's local dense vector together with its local-to-global map:
/// entry `a` is destined for the global degree of freedom `dofs[a]`.
pub struct LocalVectorContribution {
    pub dofs: Vec<usize>,
    pub values: Vec<i128>,
}

impl LocalVectorContribution {
    /// Shape and range conditions: one value per local degree of freedom,
    /// entries within the kernel's output range.
    pub open spec fn wf(self) -> bool {
        &&& self.dofs@.len() <= 16384
        &&& self.values@.len() == self.dofs@.len()
        &&& forall|t: int|
            0 <= t < self.values@.len() ==> iabs(#[trigger] self.values@[t] as int)
                <= 0x40000000000000000000000
    }

    /// Every destination index lies within a global vector of length `n`.
    pub open spec fn in_bounds(self, n: int) -> bool {
        forall|a: int| 0 <= a < self.dofs@.len() ==> (#[trigger] self.dofs@[a]) < n
    }
}

/// What local entry `a` sends to global degree of freedom `d`.
pub open spec fn vector_term(d: int, dofs: Seq<usize>, vals: Seq<i128>, a: int) -> int {
    if dofs[a] == d {
        vals[a] as int
    } else {
        0
    }
}

/// Everything one local vector sends to global degree of freedom `d`.
pub open spec fn vector_slot_sum(d: int, dofs: Seq<usize>, vals: Seq<i128>) -> int {
    sum(dofs.len(), |a: int| vector_term(d, dofs, vals, a))
}

/// Everything the elements `start..end` send to global degree of freedom `d`.
pub open spec fn vector_range_sum(
    d: int,
    elems: Seq<LocalVectorContribution>,
    start: int,
    end: int,
) -> int {
    sum(
        (end - start) as nat,
        |i: int| vector_slot_sum(d, elems[start + i].dofs@, elems[start + i].values@),
    )
}

/// One local vector sends at most its length times the value bound to any
/// degree of freedom.
pub proof fn lemma_vector_slot_sum_bound(d: int, local: LocalVectorContribution)
    requires
        local.wf(),
    ensures
        iabs(vector_slot_sum(d, local.dofs@, local.values@)) <= 0x100000000000000000000000000,
{
    let f = |a: int| vector_term(d, local.dofs@, local.values@, a);
    assert forall|a: int| 0 <= a < local.dofs@.len() implies iabs(#[trigger] f(a))
        <= 0x40000000000000000000000 by {}
    lemma_sum_bound(local.dofs@.len(), f, 0x40000000000000000000000);
    assert(local.dofs@.len() * 0x40000000000000000000000 <= 16384
        * 0x40000000000000000000000) by (nonlinear_arith)
        requires
            local.dofs@.len() <= 16384,
    ;
}

/// A range of elements sends at most its length times the slot bound to any
/// degree of freedom.
pub proof fn lemma_vector_range_sum_bound(
    d: int,
    elems: Seq<LocalVectorContribution>,
    start: int,
    end: int,
)
    requires
        0 <= start <= end <= elems.len(),
        forall|e: int| 0 <= e < elems.len() ==> (#[trigger] elems[e]).wf(),
    ensures
        iabs(vector_range_sum(d, elems, start, end)) <= (end - start)
            * 0x100000000000000000000000000,
{
    let f = |i: int| vector_slot_sum(d, elems[start + i].dofs@, elems[start + i].values@);
    assert forall|i: int| 0 <= i < end - start implies iabs(#[trigger] f(i))
        <= 0x100000000000000000000000000 by {
        lemma_vector_slot_sum_bound(d, elems[start + i]);
    }
    lemma_sum_bound((end - start) as nat, f, 0x100000000000000000000000000);
}

/// What a range of elements sends to a degree of freedom splits at any point
/// of the range: group-wise vector assembly added together equals assembling
/// all at once.
pub proof fn lemma_vector_range_sum_split(
    d: int,
    elems: Seq<LocalVectorContribution>,
    a: int,
    b: int,
    c: int,
)
    requires
        0 <= a <= b <= c <= elems.len(),
    ensures
        vector_range_sum(d, elems, a, c) == vector_range_sum(d, elems, a, b) + vector_range_sum(
            d,
            elems,
            b,
            c,
        ),
{
    let f = |i: int| vector_slot_sum(d, elems[a + i].dofs@, elems[a + i].values@);
    let g = |i: int| vector_slot_sum(d, elems[b + i].dofs@, elems[b + i].values@);
    lemma_sum_split((b - a) as nat, (c - b) as nat, f);
    lemma_sum_eq((c - b) as nat, |i: int| f(i + (b - a)), g);
}

/// Are all destination indices of the local vector within a global vector of
/// length `n`?
fn check_vector_bounds(local: &LocalVectorContribution, n: usize) -> (b: bool)
    ensures
        b == local.in_bounds(n as int),
{
    let mut a: usize = 0;
    while a < local.dofs.len()
        invariant
            a <= local.dofs@.len(),
            forall|a2: int| 0 <= a2 < a ==> (#[trigger] local.dofs@[a2]) < n,
        decreases local.dofs@.len() - a,
    {
        if local.dofs[a] >= n {
            return false;
        }
        a = a + 1;
    }
    true
}

/// Scatter one element's local vector additively into the dense global
/// vector. The vector is untouched on a structural failure.
pub fn add_local_to_vector(
    global: &mut Vec<i128>,
    local: &LocalVectorContribution,
) -> (res: Result<(), AssemblyError>)
    requires
        local.wf(),
        forall|d: int|
            0 <= d < old(global)@.len() ==> iabs(#[trigger] old(global)@[d] as int)
                <= 0x4000000000000000000000000000000,
    ensures
        final(global)@.len() == old(global)@.len(),
        res is Ok <==> local.in_bounds(old(global)@.len() as int),
        res is Ok ==> forall|d: int|
            0 <= d < final(global)@.len() ==> #[trigger] final(global)@[d] == old(global)@[d]
                + vector_slot_sum(d, local.dofs@, local.values@),
        res is Err ==> final(global)@ == old(global)@,
{
    let n = global.len();
    if !check_vector_bounds(local, n) {
        return Err(AssemblyError::IndexOutOfBounds);
    }
    let ll = local.dofs.len();
    let mut a: usize = 0;
    while a < ll
        invariant
            a <= ll,
            ll == local.dofs@.len(),
            local.wf(),
            local.in_bounds(n as int),
            global@.len() == n,
            global@.len() == old(global)@.len(),
            forall|d: int|
                0 <= d < old(global)@.len() ==> iabs(#[trigger] old(global)@[d] as int)
                    <= 0x4000000000000000000000000000000,
            forall|d: int|
                0 <= d < global@.len() ==> #[trigger] global@[d] == old(global)@[d] + sum(
                    a as nat,
                    |aa: int| vector_term(d, local.dofs@, local.values@, aa),
                ),
        decreases ll - a,
    {
        let dof = local.dofs[a];
        let ghost prev = global@;
        proof {
            let f = |aa: int| vector_term(dof as int, local.dofs@, local.values@, aa);
            assert forall|aa: int| 0 <= aa < a implies iabs(#[trigger] f(aa))
                <= 0x40000000000000000000000 by {}
            lemma_sum_bound(a as nat, f, 0x40000000000000000000000);
            assert(a * 0x40000000000000000000000 <= 16384 * 0x40000000000000000000000)
                by (nonlinear_arith)
                requires
                    0 <= a <= 16384,
            ;
        }
        let cur = global[dof];
        let v = local.values[a];
        global.set(dof, cur + v);
        proof {
            assert forall|d: int| 0 <= d < global@.len() implies #[trigger] global@[d] == old(
                global,
            )@[d] + sum(
                (a + 1) as nat,
                |aa: int| vector_term(d, local.dofs@, local.values@, aa),
            ) by {
                let f = |aa: int| vector_term(d, local.dofs@, local.values@, aa);
                assert(sum((a + 1) as nat, f) == sum(a as nat, f) + f(a as int));
                if d == dof {
                    assert(f(a as int) == local.values@[a as int]);
                } else {
                    assert(f(a as int) == 0);
                    assert(global@[d] == prev[d]);
                }
            }
        }
        a = a + 1;
    }
    Ok(())
}

/// Assemble the elements `start..end` into the dense global vector. The
/// vector is untouched on a structural failure.
pub fn assemble_vector_range(
    elements: &Vec<LocalVectorContribution>,
    start: usize,
    end: usize,
    global: &mut Vec<i128>,
) -> (res: Result<(), AssemblyError>)
    requires
        elements@.len() <= 0x10000,
        start <= end <= elements@.len(),
        forall|e: int| 0 <= e < elements@.len() ==> (#[trigger] elements@[e]).wf(),
        forall|d: int|
            0 <= d < old(global)@.len() ==> iabs(#[trigger] old(global)@[d] as int)
                <= 0x1000000000000000000000000000,
    ensures
        final(global)@.len() == old(global)@.len(),
        res is Ok <==> forall|e: int|
            start <= e < end ==> (#[trigger] elements@[e]).in_bounds(old(global)@.len() as int),
        res is Ok ==> forall|d: int|
            0 <= d < final(global)@.len() ==> #[trigger] final(global)@[d] == old(global)@[d]
                + vector_range_sum(d, elements@, start as int, end as int),
        res is Err ==> final(global)@ == old(global)@,
        forall|d: int|
            0 <= d < final(global)@.len() ==> iabs(#[trigger] final(global)@[d] as int)
                <= 0x1000000000000000000000000000 + 0x10000 * 0x100000000000000000000000000,
{
    let n = global.len();
    let mut e: usize = start;
    while e < end
        invariant
            start <= e <= end,
            end <= elements@.len(),
            global@ == old(global)@,
            n == old(global)@.len(),
            forall|d: int|
                0 <= d < old(global)@.len() ==> iabs(#[trigger] old(global)@[d] as int)
                    <= 0x1000000000000000000000000000,
            forall|e2: int| 0 <= e2 < elements@.len() ==> (#[trigger] elements@[e2]).wf(),
            forall|e2: int| start <= e2 < e ==> (#[trigger] elements@[e2]).in_bounds(n as int),
        decreases end - e,
    {
        if !check_vector_bounds(&elements[e], n) {
            proof {
                assert(!(elements@[e as int]).in_bounds(n as int));
                assert(!(forall|e2: int|
                    start <= e2 < end ==> (#[trigger] elements@[e2]).in_bounds(n as int)));
            }
            return Err(AssemblyError::IndexOutOfBounds);
        }
        e = e + 1;
    }
    let mut e: usize = start;
    while e < end
        invariant
            start <= e <= end,
            end <= elements@.len(),
            elements@.len() <= 0x10000,
            global@.len() == n,
            global@.len() == old(global)@.len(),
            forall|e2: int| 0 <= e2 < elements@.len() ==> (#[trigger] elements@[e2]).wf(),
            forall|e2: int| start <= e2 < end ==> (#[trigger] elements@[e2]).in_bounds(n as int),
            forall|d: int|
                0 <= d < old(global)@.len() ==> iabs(#[trigger] old(global)@[d] as int)
                    <= 0x1000000000000000000000000000,
            forall|d: int|
                0 <= d < global@.len() ==> #[trigger] global@[d] == old(global)@[d]
                    + vector_range_sum(d, elements@, start as int, e as int),
        decreases end - e,
    {
        proof {
            assert forall|d: int| 0 <= d < global@.len() implies iabs(
                #[trigger] global@[d] as int,
            ) <= 0x4000000000000000000000000000000 by {
                lemma_vector_range_sum_bound(d, elements@, start as int, e as int);
                assert((e - start) * 0x100000000000000000000000000 <= 0x10000
                    * 0x100000000000000000000000000) by (nonlinear_arith)
                    requires
                        0 <= e - start <= 0x10000,
                ;
            }
        }
        let ghost pre = global@;
        let res = add_local_to_vector(global, &elements[e]);
        proof {
            assert(res is Ok);
            assert forall|d: int| 0 <= d < global@.len() implies #[trigger] global@[d] == old(
                global,
            )@[d] + vector_range_sum(d, elements@, start as int, e + 1) by {
                let f = |i: int|
                    vector_slot_sum(
                        d,
                        elements@[start + i].dofs@,
                        elements@[start + i].values@,
                    );
                assert(sum((e + 1 - start) as nat, f) == sum((e - start) as nat, f) + f(
                    e - start,
                ));
                assert(global@[d] == pre[d] + vector_slot_sum(
                    d,
                    elements@[e as int].dofs@,
                    elements@[e as int].values@,
                ));
            }
        }
        e = e + 1;
    }
    proof {
        assert forall|d: int| 0 <= d < global@.len() implies iabs(#[trigger] global@[d] as int)
            <= 0x1000000000000000000000000000 + 0x10000 * 0x100000000000000000000000000 by {
            lemma_vector_range_sum_bound(d, elements@, start as int, end as int);
            assert((end - start) * 0x100000000000000000000000000 <= 0x10000
                * 0x100000000000000000000000000) by (nonlinear_arith)
                requires
                    0 <= end - start <= 0x10000,
            ;
        }
    }
    Ok(())
}

/// Assemble every element's local vector into the dense global vector, in
/// increasing element order.
pub fn assemble_vector(
    elements: &Vec<LocalVectorContribution>,
    global: &mut Vec<i128>,
) -> (res: Result<(), AssemblyError>)
    requires
        elements@.len() <= 0x10000,
        forall|e: int| 0 <= e < elements@.len() ==> (#[trigger] elements@[e]).wf(),
        forall|d: int|
            0 <= d < old(global)@.len() ==> iabs(#[trigger] old(global)@[d] as int)
                <= 0x1000000000000000000000000000,
    ensures
        final(global)@.len() == old(global)@.len(),
        res is Ok <==> forall|e: int|
            0 <= e < elements@.len() ==> (#[trigger] elements@[e]).in_bounds(
                old(global)@.len() as int,
            ),
        res is Ok ==> forall|d: int|
            0 <= d < final(global)@.len() ==> #[trigger] final(global)@[d] == old(global)@[d]
                + vector_range_sum(d, elements@, 0, elements@.len() as int),
        res is Err ==> final(global)@ == old(global)@,
{
    let end = elements.len();
    assemble_vector_range(elements, 0, end, global)
}

/// Assemble the global vector with worker-local accumulation: each worker
/// range of the partition fills its own zero buffer, and the buffers are
/// merged into the global vector in ascending worker order. The result is
/// exactly what the serial vector assembler produces, whatever the partition.
pub fn assemble_vector_partitioned(
    elements: &Vec<LocalVectorContribution>,
    boundaries: &Vec<usize>,
    global: &mut Vec<i128>,
) -> (res: Result<(), AssemblyError>)
    requires
        elements@.len() <= 0x10000,
        partition_ok(boundaries@, elements@.len() as int),
        forall|e: int| 0 <= e < elements@.len() ==> (#[trigger] elements@[e]).wf(),
        forall|d: int|
            0 <= d < old(global)@.len() ==> iabs(#[trigger] old(global)@[d] as int)
                <= 0x1000000000000000000000000000,
    ensures
        final(global)@.len() == old(global)@.len(),
        res is Ok <==> forall|e: int|
            0 <= e < elements@.len() ==> (#[trigger] elements@[e]).in_bounds(
                old(global)@.len() as int,
            ),
        res is Ok ==> forall|d: int|
            0 <= d < final(global)@.len() ==> #[trigger] final(global)@[d] == old(global)@[d]
                + vector_range_sum(d, elements@, 0, elements@.len() as int),
        res is Err ==> final(global)@ == old(global)@,
{
    let n = global.len();
    let ne = elements.len();
    let mut e: usize = 0;
    while e < ne
        invariant
            e <= ne,
            ne == elements@.len(),
            global@ == old(global)@,
            n == old(global)@.len(),
            forall|e2: int| 0 <= e2 < elements@.len() ==> (#[trigger] elements@[e2]).wf(),
            forall|e2: int| 0 <= e2 < e ==> (#[trigger] elements@[e2]).in_bounds(n as int),
        decreases ne - e,
    {
        if !check_vector_bounds(&elements[e], n) {
            proof {
                assert(!(elements@[e as int]).in_bounds(n as int));
                assert(!(forall|e2: int|
                    0 <= e2 < elements@.len() ==> (#[trigger] elements@[e2]).in_bounds(
                        n as int,
                    )));
            }
            return Err(AssemblyError::IndexOutOfBounds);
        }
        e = e + 1;
    }
    let nw = boundaries.len() - 1;
    let mut w: usize = 0;
    while w < nw
        invariant
            w <= nw,
            nw == boundaries@.len() - 1,
            ne == elements@.len(),
            elements@.len() <= 0x10000,
            partition_ok(boundaries@, ne as int),
            global@.len() == n,
            global@.len() == old(global)@.len(),
            forall|e2: int| 0 <= e2 < elements@.len() ==> (#[trigger] elements@[e2]).wf(),
            forall|e2: int| 0 <= e2 < ne ==> (#[trigger] elements@[e2]).in_bounds(n as int),
            forall|d: int|
                0 <= d < old(global)@.len() ==> iabs(#[trigger] old(global)@[d] as int)
                    <= 0x1000000000000000000000000000,
            forall|d: int|
                0 <= d < global@.len() ==> #[trigger] global@[d] == old(global)@[d]
                    + vector_range_sum(d, elements@, 0, boundaries@[w as int] as int),
        decreases nw - w,
    {
        proof {
            lemma_partition_prefix(boundaries@, ne as int, w as int);
        }
        let lo = boundaries[w];
        let hi = boundaries[w + 1];
        let mut buf = zero_values(n);
        let res = assemble_vector_range(elements, lo, hi, &mut buf);
        proof {
            assert(res is Ok);
        }
        let ghost pre = global@;
        let mut d: usize = 0;
        while d < n
            invariant
                d <= n,
                w < nw,
                nw == boundaries@.len() - 1,
                ne == elements@.len(),
                elements@.len() <= 0x10000,
                partition_ok(boundaries@, ne as int),
                lo == boundaries@[w as int],
                hi == boundaries@[w as int + 1],
                0 <= lo <= hi <= ne,
                global@.len() == n,
                global@.len() == old(global)@.len(),
                buf@.len() == n,
                forall|d2: int|
                    0 <= d2 < n ==> #[trigger] buf@[d2] == vector_range_sum(
                        d2,
                        elements@,
                        lo as int,
                        hi as int,
                    ),
                forall|e2: int| 0 <= e2 < elements@.len() ==> (#[trigger] elements@[e2]).wf(),
                forall|d2: int|
                    0 <= d2 < old(global)@.len() ==> iabs(#[trigger] old(global)@[d2] as int)
                        <= 0x1000000000000000000000000000,
                forall|d2: int|
                    0 <= d2 < n ==> #[trigger] pre[d2] == old(global)@[d2] + vector_range_sum(
                        d2,
                        elements@,
                        0,
                        lo as int,
                    ),
                forall|d2: int| d <= d2 < n ==> #[trigger] global@[d2] == pre[d2],
                forall|d2: int|
                    0 <= d2 < d ==> #[trigger] global@[d2] == old(global)@[d2]
                        + vector_range_sum(d2, elements@, 0, hi as int),
            decreases n - d,
        {
            proof {
                lemma_vector_range_sum_bound(d as int, elements@, 0, lo as int);
                lemma_vector_range_sum_bound(d as int, elements@, lo as int, hi as int);
                assert(lo * 0x100000000000000000000000000 <= 0x10000
                    * 0x100000000000000000000000000 && (hi - lo)
                    * 0x100000000000000000000000000 <= 0x10000
                    * 0x100000000000000000000000000) by (nonlinear_arith)
                    requires
                        0 <= lo <= 0x10000,
                        0 <= hi - lo <= 0x10000,
                ;
                lemma_vector_range_sum_split(d as int, elements@, 0, lo as int, hi as int);
            }
            let cur = global[d];
            let add_on = buf[d];
            global.set(d, cur + add_on);
            d = d + 1;
        }
        w = w + 1;
    }
    proof {
        assert(boundaries@[nw as int] == ne);
    }
    Ok(())
}

/// No element lists the same global node twice.
pub open spec fn distinct_nodes(space: Space) -> bool {
    forall|e: int, a: int, b: int|
        0 <= e < space.spec_num_elements() && 0 <= a < b < space.element_nodes@[e]@.len() ==> (
        #[trigger] space.element_nodes@[e]@[a]) != (#[trigger] space.element_nodes@[e]@[b])
}

/// Every quadrature point of the table carries gradient data of the
/// geometry dimension for its element's nodes.
pub open spec fn table_has_gradients(
    space: Space,
    qtable: QuadratureTable,
    geometry_dim: int,
) -> bool {
    forall|e: int, q: int|
        0 <= e < qtable.element_rules@.len() && 0 <= q < qtable.element_rules@[e]@.len() ==> (
        #[trigger] qtable.element_rules@[e]@[q]).grad_wf(
            space.element_nodes@[e]@.len() as int,
            geometry_dim,
        )
}

/// Every pair of the element's global degrees of freedom has a slot in the
/// pattern.
pub open spec fn element_pairs_in_pattern(pattern: SparsePattern, dofs: Seq<usize>) -> bool {
    forall|a: int, b: int|
        0 <= a < dofs.len() && 0 <= b < dofs.len() ==> pattern.contains_pair(
            #[trigger] dofs[a] as int,
            #[trigger] dofs[b] as int,
        )
}

/// Everything the whole space sends to the slot holding `entry` under the
/// operator: the sum over elements of the scatter of that element's local
/// matrix through its local-to-global map.
pub open spec fn operator_slot_sum<Op: EllipticOperator>(
    entry: (usize, usize),
    space: Space,
    qtable: QuadratureTable,
    op: Op,
    s: nat,
) -> int {
    sum(
        space.spec_num_elements(),
        |e: int|
            local_slot_sum(
                entry,
                spec_element_dofs(space.element_nodes@[e]@, s),
                spec_local_matrix(
                    op,
                    qtable.element_rules@[e]@,
                    s,
                    (space.element_nodes@[e]@.len() * s) as int,
                ),
            ),
    )
}

/// A pattern holding exactly the touched pairs of a space covers every
/// element of that space: assembling against the pattern built from the same
/// space and solution dimension never fails on coverage.
pub proof fn lemma_built_pattern_covers(pattern: SparsePattern, space: Space, s: nat, e: int)
    requires
        space.wf(),
        1 <= s <= 16,
        forall|r: int, c: int|
            pattern.contains_pair(r, c) <==> crate::pattern::pair_touched(space, s, r, c),
        0 <= e < space.spec_num_elements(),
    ensures
        element_pairs_in_pattern(pattern, spec_element_dofs(space.element_nodes@[e]@, s)),
{
    let nodes = space.element_nodes@[e]@;
    let dofs = spec_element_dofs(nodes, s);
    let sv = s as int;
    assert forall|a: int, b: int|
        0 <= a < dofs.len() && 0 <= b < dofs.len() implies pattern.contains_pair(
        #[trigger] dofs[a] as int,
        #[trigger] dofs[b] as int,
    ) by {
        assert((0 <= a / sv) && (a / sv) < nodes.len() && 0 <= a % sv < sv && (0 <= b / sv) && (b
            / sv) < nodes.len() && 0 <= b % sv < sv) by (nonlinear_arith)
            requires
                0 <= a < nodes.len() * sv,
                0 <= b < nodes.len() * sv,
                1 <= sv,
        ;
        let ia = a / sv;
        let ib = b / sv;
        let na = nodes[ia] as int;
        let nb = nodes[ib] as int;
        assert(na * sv + (a % sv) < space.num_nodes * sv && na * sv + (a % sv) < 0x2000000 && nb
            * sv + (b % sv) < space.num_nodes * sv && nb * sv + (b % sv) < 0x2000000)
            by (nonlinear_arith)
            requires
                0 <= na < space.num_nodes,
                0 <= nb < space.num_nodes,
                space.num_nodes <= 0x100000,
                0 <= a % sv < sv,
                0 <= b % sv < sv,
                1 <= sv <= 16,
        ;
        assert(dofs[a] as int == na * sv + a % sv);
        assert(dofs[b] as int == nb * sv + b % sv);
        vstd::arithmetic::div_mod::lemma_fundamental_div_mod_converse_div(
            na * sv + a % sv,
            sv,
            na,
            a % sv,
        );
        vstd::arithmetic::div_mod::lemma_fundamental_div_mod_converse_div(
            nb * sv + b % sv,
            sv,
            nb,
            b % sv,
        );
        assert(crate::pattern::elem_has_node(nodes, (dofs[a] as int) / sv));
        assert(crate::pattern::elem_has_node(nodes, (dofs[b] as int) / sv));
        assert(crate::pattern::pair_touched(space, s, dofs[a] as int, dofs[b] as int));
    }
}

/// Assemble the operator's global matrix: drive the local contribution
/// kernel once per element of the space and scatter each local matrix into
/// the values storage through the pattern, in increasing element order.
pub fn assemble_operator_matrix<Op: EllipticOperator>(
    space: &Space,
    qtable: &QuadratureTable,
    op: &Op,
    pattern: &SparsePattern,
    geometry_dim: usize,
    values: &mut Vec<i128>,
) -> (res: Result<(), AssemblyError>)
    requires
        space.wf(),
        qtable.wf(*space),
        pattern.wf(),
        geometry_dim <= 16,
        distinct_nodes(*space),
        table_has_gradients(*space, *qtable, geometry_dim as int),
        forall|k: int|
            0 <= k < old(values)@.len() ==> iabs(#[trigger] old(values)@[k] as int)
                <= 0x1000000000000000000000000000,
    ensures
        final(values)@.len() == old(values)@.len(),
        res is Ok <==> old(values)@.len() == pattern.entries@.len() && (forall|e: int|
            0 <= e < space.spec_num_elements() ==> element_pairs_in_pattern(
                *pattern,
                spec_element_dofs(
                    #[trigger] space.element_nodes@[e]@,
                    op.spec_solution_dim(),
                ),
            )),
        res is Ok ==> forall|k: int|
            0 <= k < final(values)@.len() ==> #[trigger] final(values)@[k] == old(values)@[k]
                + operator_slot_sum(
                pattern.entries@[k],
                *space,
                *qtable,
                *op,
                op.spec_solution_dim(),
            ),
        res is Err ==> final(values)@ == old(values)@,
{
    let s = op.solution_dim();
    let ne = space.num_elements();
    let mut elems: Vec<LocalContribution> = Vec::new();
    let mut e: usize = 0;
    while e < ne
        invariant
            e <= ne,
            ne == space.spec_num_elements(),
            space.wf(),
            qtable.wf(*space),
            geometry_dim <= 16,
            distinct_nodes(*space),
            table_has_gradients(*space, *qtable, geometry_dim as int),
            s == op.spec_solution_dim(),
            solution_dim_ok(s as int),
            elems@.len() == e,
            forall|e2: int|
                0 <= e2 < e ==> (#[trigger] elems@[e2]).dofs@ == spec_element_dofs(
                    space.element_nodes@[e2]@,
                    s as nat,
                ),
            forall|e2: int|
                0 <= e2 < e ==> (#[trigger] elems@[e2]).values@ == spec_local_matrix(
                    *op,
                    qtable.element_rules@[e2]@,
                    s as nat,
                    (space.element_nodes@[e2]@.len() * s) as int,
                ),
            forall|e2: int| 0 <= e2 < e ==> (#[trigger] elems@[e2]).wf(),
        decreases ne - e,
    {
        let nodes = &space.element_nodes[e];
        let n = nodes.len();
        let dofs = element_dofs(nodes, s);
        let local = assemble_local_matrix(op, &qtable.element_rules[e], n, geometry_dim);
        proof {
            lemma_element_dofs_distinct(nodes@, s as nat);
            assert(n * s <= 16384 && (n * s) * (n * s) == dofs@.len() * dofs@.len())
                by (nonlinear_arith)
                requires
                    n <= 1024,
                    1 <= s <= 16,
                    dofs@.len() == n * s,
            ;
            assert(local@ =~= spec_local_matrix(
                *op,
                qtable.element_rules@[e as int]@,
                s as nat,
                (n * s) as int,
            ));
        }
        let contribution = LocalContribution { dofs, values: local };
        elems.push(contribution);
        e = e + 1;
    }
    let res = assemble_matrix(pattern, &elems, values);
    proof {
        assert forall|e2: int| 0 <= e2 < ne implies ((#[trigger] elems@[e2]).covered_by(*pattern)
            <==> element_pairs_in_pattern(
            *pattern,
            spec_element_dofs(space.element_nodes@[e2]@, s as nat),
        )) by {
            let ds = spec_element_dofs(space.element_nodes@[e2]@, s as nat);
            assert(elems@[e2].dofs@ == ds);
            if elems@[e2].covered_by(*pattern) {
                assert forall|a: int, b: int|
                    0 <= a < ds.len() && 0 <= b < ds.len() implies pattern.contains_pair(
                    #[trigger] ds[a] as int,
                    #[trigger] ds[b] as int,
                ) by {
                    assert(elems@[e2].dofs@[a] == ds[a] && elems@[e2].dofs@[b] == ds[b]);
                }
            }
            if element_pairs_in_pattern(*pattern, ds) {
                assert forall|a: int, b: int|
                    0 <= a < elems@[e2].dofs@.len() && 0 <= b < elems@[e2].dofs@.len()
                    implies pattern.contains_pair(
                    (#[trigger] elems@[e2].dofs@[a]) as int,
                    (#[trigger] elems@[e2].dofs@[b]) as int,
                ) by {
                    assert(ds[a] == elems@[e2].dofs@[a] && ds[b] == elems@[e2].dofs@[b]);
                }
            }
        }
        if res is Ok {
            assert forall|e2: int| 0 <= e2 < ne implies element_pairs_in_pattern(
                *pattern,
                spec_element_dofs(#[trigger] space.element_nodes@[e2]@, s as nat),
            ) by {
                assert(elems@[e2].covered_by(*pattern));
            }
            assert forall|k: int| 0 <= k < values@.len() implies #[trigger] values@[k] == old(
                values,
            )@[k] + operator_slot_sum(
                pattern.entries@[k],
                *space,
                *qtable,
                *op,
                s as nat,
            ) by {
                let entry = pattern.entries@[k];
                let sn: nat = s as nat;
                let f = |e2: int| local_slot_sum(entry, elems@[0 + e2].dofs@, elems@[0 + e2].values@);
                let g = |e2: int|
                    local_slot_sum(
                        entry,
                        spec_element_dofs(space.element_nodes@[e2]@, sn),
                        spec_local_matrix(
                            *op,
                            qtable.element_rules@[e2]@,
                            sn,
                            (space.element_nodes@[e2]@.len() * sn) as int,
                        ),
                    );
                assert(values@[k] == old(values)@[k] + range_slot_sum(entry, elems@, 0, ne as int));
                assert(range_slot_sum(entry, elems@, 0, ne as int) == sum(ne as nat, f));
                assert forall|e2: int| 0 <= e2 < ne implies #[trigger] f(e2) == g(e2) by {
                    assert(elems@[0 + e2].dofs@ == spec_element_dofs(
                        space.element_nodes@[e2]@,
                        sn,
                    ));
                    assert(elems@[0 + e2].values@ == spec_local_matrix(
                        *op,
                        qtable.element_rules@[e2]@,
                        sn,
                        (space.element_nodes@[e2]@.len() * sn) as int,
                    ));
                }
                lemma_sum_eq(ne as nat, f, g);
                assert(sum(ne as nat, g) == operator_slot_sum(entry, *space, *qtable, *op, sn));
            }
        } else {
            if values@.len() == pattern.entries@.len() && (forall|e2: int|
                0 <= e2 < ne ==> element_pairs_in_pattern(
                    *pattern,
                    spec_element_dofs(#[trigger] space.element_nodes@[e2]@, s as nat),
                )) {
                assert forall|e2: int| 0 <= e2 < ne implies (#[trigger] elems@[e2]).covered_by(
                    *pattern,
                ) by {
                    assert(element_pairs_in_pattern(
                        *pattern,
                        spec_element_dofs(space.element_nodes@[e2]@, s as nat),
                    ));
                }
                assert(false);
            }
        }
    }
    res
}

/// Everything the whole space sends to global degree of freedom `d` from the
/// source values: the sum over elements of the scatter of that element's
/// local load vector through its local-to-global map.
pub open spec fn source_slot_sum(
    d: int,
    space: Space,
    qtable: QuadratureTable,
    src: Seq<Vec<Vec<i128>>>,
    s: nat,
) -> int {
    sum(
        space.spec_num_elements(),
        |e: int|
            vector_slot_sum(
                d,
                spec_element_dofs(space.element_nodes@[e]@, s),
                spec_local_vector(
                    qtable.element_rules@[e]@,
                    src[e]@,
                    s,
                    (space.element_nodes@[e]@.len() * s) as int,
                ),
            ),
    )
}

/// Assemble the global load vector of a source function: drive the local
/// vector kernel once per element of the space and scatter each local load
/// vector additively into the dense global vector, in increasing element
/// order. `source_values` holds the source function's value at every
/// quadrature point of every element.
pub fn assemble_source_vector(
    space: &Space,
    qtable: &QuadratureTable,
    source_values: &Vec<Vec<Vec<i128>>>,
    solution_dim: usize,
    global: &mut Vec<i128>,
) -> (res: Result<(), AssemblyError>)
    requires
        space.wf(),
        qtable.wf(*space),
        solution_dim_ok(solution_dim as int),
        source_values@.len() == space.spec_num_elements(),
        forall|e: int|
            0 <= e < source_values@.len() ==> (#[trigger] source_values@[e])@.len()
                == qtable.element_rules@[e]@.len(),
        forall|e: int, q: int|
            0 <= e < source_values@.len() && 0 <= q < source_values@[e]@.len() ==> (
            #[trigger] source_values@[e]@[q])@.len() == solution_dim,
        forall|e: int, q: int, c: int|
            0 <= e < source_values@.len() && 0 <= q < source_values@[e]@.len() && 0 <= c
                < solution_dim ==> crate::scalar_ok(#[trigger] source_values@[e]@[q]@[c] as int),
        forall|d: int|
            0 <= d < old(global)@.len() ==> iabs(#[trigger] old(global)@[d] as int)
                <= 0x1000000000000000000000000000,
    ensures
        final(global)@.len() == old(global)@.len(),
        res is Ok <==> forall|e: int|
            0 <= e < space.spec_num_elements() ==> (forall|a: int|
                0 <= a < spec_element_dofs(
                    #[trigger] space.element_nodes@[e]@,
                    solution_dim as nat,
                ).len() ==> (#[trigger] spec_element_dofs(
                    space.element_nodes@[e]@,
                    solution_dim as nat,
                )[a]) < old(global)@.len()),
        res is Ok ==> forall|d: int|
            0 <= d < final(global)@.len() ==> #[trigger] final(global)@[d] == old(global)@[d]
                + source_slot_sum(
                d,
                *space,
                *qtable,
                source_values@,
                solution_dim as nat,
            ),
        res is Err ==> final(global)@ == old(global)@,
{
    let s = solution_dim;
    let ne = space.num_elements();
    let mut elems: Vec<LocalVectorContribution> = Vec::new();
    let mut e: usize = 0;
    while e < ne
        invariant
            e <= ne,
            ne == space.spec_num_elements(),
            space.wf(),
            qtable.wf(*space),
            s == solution_dim,
            solution_dim_ok(s as int),
            source_values@.len() == ne,
            forall|e2: int|
                0 <= e2 < ne ==> (#[trigger] source_values@[e2])@.len()
                    == qtable.element_rules@[e2]@.len(),
            forall|e2: int, q: int|
                0 <= e2 < ne && 0 <= q < source_values@[e2]@.len() ==> (
                #[trigger] source_values@[e2]@[q])@.len() == s,
            forall|e2: int, q: int, c: int|
                0 <= e2 < ne && 0 <= q < source_values@[e2]@.len() && 0 <= c < s
                    ==> crate::scalar_ok(#[trigger] source_values@[e2]@[q]@[c] as int),
            elems@.len() == e,
            forall|e2: int|
                0 <= e2 < e ==> (#[trigger] elems@[e2]).dofs@ == spec_element_dofs(
                    space.element_nodes@[e2]@,
                    s as nat,
                ),
            forall|e2: int|
                0 <= e2 < e ==> (#[trigger] elems@[e2]).values@ == spec_local_vector(
                    qtable.element_rules@[e2]@,
                    source_values@[e2]@,
                    s as nat,
                    (space.element_nodes@[e2]@.len() * s) as int,
                ),
            forall|e2: int| 0 <= e2 < e ==> (#[trigger] elems@[e2]).wf(),
        decreases ne - e,
    {
        let nodes = &space.element_nodes[e];
        let n = nodes.len();
        let dofs = element_dofs(nodes, s);
        let local = assemble_local_vector(&qtable.element_rules[e], &source_values[e], n, s);
        proof {
            assert(n * s <= 16384) by (nonlinear_arith)
                requires
                    n <= 1024,
                    1 <= s <= 16,
            ;
            assert(local@ =~= spec_local_vector(
                qtable.element_rules@[e as int]@,
                source_values@[e as int]@,
                s as nat,
                (n * s) as int,
            ));
        }
        let contribution = LocalVectorContribution { dofs, values: local };
        elems.push(contribution);
        e = e + 1;
    }
    let res = assemble_vector(&elems, global);
    proof {
        assert forall|e2: int| 0 <= e2 < ne implies ((#[trigger] elems@[e2]).in_bounds(
            old(global)@.len() as int,
        ) <==> (forall|a: int|
            0 <= a < spec_element_dofs(space.element_nodes@[e2]@, s as nat).len() ==> (
            #[trigger] spec_element_dofs(space.element_nodes@[e2]@, s as nat)[a]) < old(
                global,
            )@.len())) by {
            let ds = spec_element_dofs(space.element_nodes@[e2]@, s as nat);
            assert(elems@[e2].dofs@ == ds);
            if elems@[e2].in_bounds(old(global)@.len() as int) {
                assert forall|a: int| 0 <= a < ds.len() implies (#[trigger] ds[a]) < old(
                    global,
                )@.len() by {
                    assert(elems@[e2].dofs@[a] == ds[a]);
                }
            }
            if forall|a: int|
                0 <= a < ds.len() ==> (#[trigger] ds[a]) < old(global)@.len() {
                assert forall|a: int| 0 <= a < elems@[e2].dofs@.len() implies (
                #[trigger] elems@[e2].dofs@[a]) < old(global)@.len() by {
                    assert(ds[a] == elems@[e2].dofs@[a]);
                }
            }
        }
        if res is Ok {
            assert forall|e2: int| 0 <= e2 < ne implies (forall|a: int|
                0 <= a < spec_element_dofs(
                    #[trigger] space.element_nodes@[e2]@,
                    s as nat,
                ).len() ==> (#[trigger] spec_element_dofs(space.element_nodes@[e2]@, s as nat)[a])
                < old(global)@.len()) by {
                assert(elems@[e2].in_bounds(old(global)@.len() as int));
            }
            assert forall|d: int| 0 <= d < global@.len() implies #[trigger] global@[d] == old(
                global,
            )@[d] + source_slot_sum(d, *space, *qtable, source_values@, s as nat) by {
                let sn: nat = s as nat;
                let f = |e2: int|
                    vector_slot_sum(d, elems@[0 + e2].dofs@, elems@[0 + e2].values@);
                let g = |e2: int|
                    vector_slot_sum(
                        d,
                        spec_element_dofs(space.element_nodes@[e2]@, sn),
                        spec_local_vector(
                            qtable.element_rules@[e2]@,
                            source_values@[e2]@,
                            sn,
                            (space.element_nodes@[e2]@.len() * sn) as int,
                        ),
                    );
                assert(global@[d] == old(global)@[d] + vector_range_sum(d, elems@, 0, ne as int));
                assert(vector_range_sum(d, elems@, 0, ne as int) == sum(ne as nat, f));
                assert forall|e2: int| 0 <= e2 < ne implies #[trigger] f(e2) == g(e2) by {
                    assert(elems@[0 + e2].dofs@ == spec_element_dofs(
                        space.element_nodes@[e2]@,
                        sn,
                    ));
                    assert(elems@[0 + e2].values@ == spec_local_vector(
                        qtable.element_rules@[e2]@,
                        source_values@[e2]@,
                        sn,
                        (space.element_nodes@[e2]@.len() * sn) as int,
                    ));
                }
                lemma_sum_eq(ne as nat, f, g);
                assert(sum(ne as nat, g) == source_slot_sum(d, *space, *qtable, source_values@, sn));
            }
        } else {
            if forall|e2: int|
                0 <= e2 < ne ==> (forall|a: int|
                    0 <= a < spec_element_dofs(
                        #[trigger] space.element_nodes@[e2]@,
                        s as nat,
                    ).len() ==> (#[trigger] spec_element_dofs(
                        space.element_nodes@[e2]@,
                        s as nat,
                    )[a]) < old(global)@.len()) {
                assert forall|e2: int| 0 <= e2 < ne implies (#[trigger] elems@[e2]).in_bounds(
                    old(global)@.len() as int,
                ) by {
                    assert(forall|a: int|
                        0 <= a < spec_element_dofs(
                            space.element_nodes@[e2]@,
                            s as nat,
                        ).len() ==> (#[trigger] spec_element_dofs(
                            space.element_nodes@[e2]@,
                            s as nat,
                        )[a]) < old(global)@.len());
                }
                assert(false);
            }
        }
    }
    res
}

/// Every boundary of a partition lies within the element range.
proof fn lemma_partition_prefix(boundaries: Seq<usize>, num_elements: int, w: int)
    requires
        partition_ok(boundaries, num_elements),
        0 <= w < boundaries.len() - 1,
    ensures
        0 <= boundaries[w] <= boundaries[w + 1] <= num_elements,
    decreases boundaries.len() - w,
{
    if w + 1 < boundaries.len() - 1 {
        lemma_partition_prefix(boundaries, num_elements, w + 1);
    }
}

} // verus!
