use vstd::prelude::*;
use vstd::arithmetic::div_mod::lemma_fundamental_div_mod;

verus! {

/// A half-open range `[row_start, row_end)` of raster rows, computed by one worker.
#[derive(Clone, Copy, Debug, PartialEq, Eq, Structural)]
pub struct WorkUnit {
    pub row_start: u32,
    pub row_end: u32,
}

/// Number of units that `height` rows are split into for a requested `job_count`:
/// the request, at least one and at most one unit per row.
pub open spec fn unit_count_spec(height: nat, job_count: nat) -> nat {
    if job_count == 0 {
        1
    } else if job_count > height {
        height
    } else {
        job_count
    }
}

/// Rows per unit; the last unit also takes the remainder.
pub open spec fn chunk_spec(height: nat, job_count: nat) -> nat {
    height / unit_count_spec(height, job_count)
}

pub open spec fn unit_start_spec(height: nat, job_count: nat, i: nat) -> nat {
    i * chunk_spec(height, job_count)
}

pub open spec fn unit_end_spec(height: nat, job_count: nat, i: nat) -> nat {
    if i + 1 == unit_count_spec(height, job_count) {
        height
    } else {
        (i + 1) * chunk_spec(height, job_count)
    }
}

/// The unit that holds `row`.
pub open spec fn unit_of_row_spec(height: nat, job_count: nat, row: nat) -> nat {
    let q = row / chunk_spec(height, job_count);
    if q + 1 < unit_count_spec(height, job_count) {
        q
    } else {
        (unit_count_spec(height, job_count) - 1) as nat
    }
}

/// Whether `row` lies in unit `i` of the partition.
pub open spec fn in_unit(height: nat, job_count: nat, i: nat, row: nat) -> bool {
    unit_start_spec(height, job_count, i) <= row < unit_end_spec(height, job_count, i)
}

proof fn lemma_chunk_facts(height: nat, job_count: nat)
    requires
        height >= 1,
    ensures
        unit_count_spec(height, job_count) >= 1,
        unit_count_spec(height, job_count) <= height,
        chunk_spec(height, job_count) >= 1,
        unit_count_spec(height, job_count) * chunk_spec(height, job_count) <= height,
{
    let n = unit_count_spec(height, job_count) as int;
    let c = chunk_spec(height, job_count) as int;
    lemma_fundamental_div_mod(height as int, n);
    assert(0 <= (height as int) % n < n);
    assert(n * c <= height) by (nonlinear_arith)
        requires
            height == n * c + (height as int) % n,
            0 <= (height as int) % n,
    ;
    assert(c >= 1) by (nonlinear_arith)
        requires
            height == n * c + (height as int) % n,
            (height as int) % n < n,
            n <= height,
            c >= 0,
    ;
}

proof fn lemma_start_bounded(height: nat, job_count: nat, i: nat)
    requires
        height >= 1,
        i <= unit_count_spec(height, job_count),
    ensures
        unit_start_spec(height, job_count, i) <= height,
{
    lemma_chunk_facts(height, job_count);
    let n = unit_count_spec(height, job_count);
    let c = chunk_spec(height, job_count);
    assert(i * c <= n * c) by (nonlinear_arith)
        requires
            i <= n,
    ;
}

/// Splits the rows `[0, height)` into contiguous units of `height / n` rows, where `n`
/// is `job_count` limited to `[1, height]`; the last unit runs to `height`, so no row is
/// dropped when the division leaves a remainder.
pub fn partition(height: u32, job_count: u32) -> (units: Vec<WorkUnit>)
    requires
        height >= 1,
    ensures
        units@.len() == unit_count_spec(height as nat, job_count as nat),
        forall|i: int|
            0 <= i < units@.len() ==> {
                &&& units@[i].row_start == unit_start_spec(height as nat, job_count as nat, i as nat)
                &&& units@[i].row_end == unit_end_spec(height as nat, job_count as nat, i as nat)
            },
{
    let n: u32 = if job_count == 0 {
        1
    } else if job_count > height {
        height
    } else {
        job_count
    };
    let chunk: u32 = height / n;
    proof {
        lemma_chunk_facts(height as nat, job_count as nat);
    }
    let mut units: Vec<WorkUnit> = Vec::new();
    let mut i: u32 = 0;
    let mut start: u32 = 0;
    while i < n
        invariant
            n == unit_count_spec(height as nat, job_count as nat),
            chunk == chunk_spec(height as nat, job_count as nat),
            height >= 1,
            i <= n,
            start == unit_start_spec(height as nat, job_count as nat, i as nat),
            units@.len() == i,
            forall|k: int|
                0 <= k < units@.len() ==> {
                    &&& units@[k].row_start == unit_start_spec(
                        height as nat,
                        job_count as nat,
                        k as nat,
                    )
                    &&& units@[k].row_end == unit_end_spec(height as nat, job_count as nat, k as nat)
                },
        decreases n - i,
    {
        proof {
            lemma_start_bounded(height as nat, job_count as nat, (i + 1) as nat);
            assert((i + 1) as nat * chunk == i as nat * chunk + chunk) by (nonlinear_arith);
        }
        let end: u32 = if i + 1 == n {
            height
        } else {
            start + chunk
        };
        units.push(WorkUnit { row_start: start, row_end: end });
        start = start + chunk;
        i = i + 1;
    }
    units
}

/// The units tile `[0, height)`: each is non-empty and inside the rows, every row lies
/// in the unit that `unit_of_row_spec` names, and no row lies in two.
pub proof fn lemma_partition_exact(height: nat, job_count: nat)
    requires
        height >= 1,
    ensures
        forall|i: nat|
            i < unit_count_spec(height, job_count) ==> #[trigger] unit_start_spec(
                height,
                job_count,
                i,
            ) < unit_end_spec(height, job_count, i) <= height,
        forall|row: nat|
            row < height ==> #[trigger] unit_of_row_spec(height, job_count, row)
                < unit_count_spec(height, job_count) && in_unit(
                height,
                job_count,
                unit_of_row_spec(height, job_count, row),
                row,
            ),
        forall|i: nat, j: nat, row: nat|
            i < unit_count_spec(height, job_count) && j < unit_count_spec(height, job_count)
                && #[trigger] in_unit(height, job_count, i, row) && #[trigger] in_unit(
                height,
                job_count,
                j,
                row,
            ) ==> i == j,
{
    lemma_chunk_facts(height, job_count);
    let n = unit_count_spec(height, job_count);
    let c = chunk_spec(height, job_count);
    assert forall|i: nat| i < n implies #[trigger] unit_start_spec(height, job_count, i) < unit_end_spec(
        height,
        job_count,
        i,
    ) <= height by {
        assert((i + 1) * c <= n * c) by (nonlinear_arith)
            requires
                i + 1 <= n,
        ;
        assert(i * c < (i + 1) * c) by (nonlinear_arith)
            requires
                c >= 1,
        ;
    }
    assert forall|row: nat| row < height implies #[trigger] unit_of_row_spec(
        height,
        job_count,
        row,
    ) < n && in_unit(height, job_count, unit_of_row_spec(height, job_count, row), row) by {
        lemma_fundamental_div_mod(row as int, c as int);
        let q = row / c;
        assert(q * c <= row < (q + 1) * c) by (nonlinear_arith)
            requires
                row == c * q + (row as int) % (c as int),
                0 <= (row as int) % (c as int) < c,
        ;
        if q + 1 < n {
            assert(in_unit(height, job_count, q, row));
        } else {
            let k = (n - 1) as nat;
            assert(k * c <= q * c) by (nonlinear_arith)
                requires
                    k <= q,
            ;
            assert(in_unit(height, job_count, k, row));
        }
    }
    assert forall|i: nat, j: nat, row: nat|
        i < n && j < n && #[trigger] in_unit(height, job_count, i, row) && #[trigger] in_unit(
            height,
            job_count,
            j,
            row,
        ) implies i == j by {
        if i < j {
            assert((i + 1) * c <= j * c) by (nonlinear_arith)
                requires
                    i + 1 <= j,
            ;
        } else if j < i {
            assert((j + 1) * c <= i * c) by (nonlinear_arith)
                requires
                    j + 1 <= i,
            ;
        }
    }
}

} // verus!
