//! The shard planner: splits `total` units of work (files, or bytes) into
//! contiguous ranges, one per worker.
use vstd::prelude::*;
use crate::text::{parse_u64, u64_of_text};

verus! {

/// How many shards a plan has: the worker count, but never more shards than
/// units.
pub open spec fn shard_count(total: nat, workers: nat) -> nat {
    if workers < total {
        workers
    } else {
        total
    }
}

/// The half-open range of shard `i` out of `count`: `[i*S, (i+1)*S)` with
/// `S = total / count`, except that the last shard runs to `total`.
pub open spec fn shard_range(total: nat, count: nat, i: nat) -> (nat, nat) {
    let s = total / count;
    if i + 1 == count {
        (i * s, total)
    } else {
        (i * s, (i + 1) * s)
    }
}

/// Unit `x` lies in shard `i` of `count`.
pub open spec fn in_shard(total: nat, count: nat, i: nat, x: nat) -> bool {
    i < count && shard_range(total, count, i).0 <= x < shard_range(total, count, i).1
}

/// Some shard of `count` holds unit `x`.
pub open spec fn covered(total: nat, count: nat, x: nat) -> bool {
    exists|i: nat| #[trigger] in_shard(total, count, i, x)
}

proof fn lemma_step_bounds(total: nat, count: nat, i: nat)
    requires
        1 <= count <= total,
        i < count,
    ensures
        total / count >= 1,
        i * (total / count) + total / count == (i + 1) * (total / count),
        (i + 1) * (total / count) <= total,
        i * (total / count) <= total,
{
    let s = total / count;
    assert(s >= 1) by (nonlinear_arith)
        requires
            1 <= count <= total,
            s == total / count,
    ;
    assert(count * s <= total) by (nonlinear_arith)
        requires
            1 <= count,
            s == total / count,
    ;
    assert((i + 1) * s <= count * s) by (nonlinear_arith)
        requires
            i + 1 <= count,
    ;
    assert(i * s + s == (i + 1) * s) by (nonlinear_arith);
    assert(i * s <= (i + 1) * s) by (nonlinear_arith);
}

/// Splits `total` units among at most `workers` workers. Shard `i` is the
/// `i`-th range of the result.
pub fn plan_shards(total: u64, workers: u64) -> (r: Vec<(u64, u64)>)
    requires
        workers >= 1,
    ensures
        r@.len() == shard_count(total as nat, workers as nat),
        forall|i: int|
            0 <= i < r@.len() ==> (#[trigger] r@[i].0 as nat, r@[i].1 as nat) == shard_range(
                total as nat,
                r@.len() as nat,
                i as nat,
            ),
{
    let count: u64 = if workers < total {
        workers
    } else {
        total
    };
    let mut r: Vec<(u64, u64)> = Vec::new();
    if count == 0 {
        return r;
    }
    let s: u64 = total / count;
    let mut i: u64 = 0;
    while i < count
        invariant
            1 <= count <= total,
            count as nat == shard_count(total as nat, workers as nat),
            s == total / count,
            i <= count,
            r@.len() == i,
            forall|j: int|
                0 <= j < i ==> (#[trigger] r@[j].0 as nat, r@[j].1 as nat) == shard_range(
                    total as nat,
                    count as nat,
                    j as nat,
                ),
        decreases count - i,
    {
        proof {
            lemma_step_bounds(total as nat, count as nat, i as nat);
        }
        let lo: u64 = i * s;
        let hi: u64 = if i + 1 == count {
            total
        } else {
            lo + s
        };
        r.push((lo, hi));
        i = i + 1;
    }
    r
}

/// For `1 <= workers <= total`, the shards cover `[0, total)` exactly: the
/// first starts at 0, each ends where the next starts, none is empty, the
/// last ends at `total`, and every unit lies in exactly one shard.
pub proof fn lemma_shards_partition(total: nat, workers: nat)
    requires
        1 <= workers <= total,
    ensures
        shard_count(total, workers) == workers,
        shard_range(total, workers, 0).0 == 0,
        shard_range(total, workers, (workers - 1) as nat).1 == total,
        forall|i: nat|
            i < workers ==> #[trigger] shard_range(total, workers, i).0 < shard_range(
                total,
                workers,
                i,
            ).1,
        forall|i: nat|
            i + 1 < workers ==> #[trigger] shard_range(total, workers, i).1 == shard_range(
                total,
                workers,
                i + 1,
            ).0,
        forall|i: nat| i < workers ==> #[trigger] shard_range(total, workers, i).1 <= total,
        forall|x: nat| x < total ==> #[trigger] covered(total, workers, x),
        forall|x: nat, i: nat, j: nat|
            #[trigger] in_shard(total, workers, i, x) && #[trigger] in_shard(total, workers, j, x)
                ==> i == j,
{
    let s = total / workers;
    lemma_step_bounds(total, workers, 0);
    assert(0 * s == 0) by (nonlinear_arith);
    assert forall|i: nat| i < workers implies #[trigger] shard_range(total, workers, i).0
        < shard_range(total, workers, i).1 by {
        lemma_step_bounds(total, workers, i);
    }
    assert forall|i: nat| i < workers implies #[trigger] shard_range(total, workers, i).1 <= total by {
        lemma_step_bounds(total, workers, i);
    }
    assert forall|x: nat| x < total implies #[trigger] covered(total, workers, x) by {
        let q = x / s;
        let i: nat = if q < workers {
            q
        } else {
            (workers - 1) as nat
        };
        lemma_step_bounds(total, workers, i);
        assert(q * s <= x) by (nonlinear_arith)
            requires
                s >= 1,
                q == x / s,
        ;
        assert(x < (q + 1) * s) by (nonlinear_arith)
            requires
                s >= 1,
                q == x / s,
        ;
        if q < workers {
            assert(in_shard(total, workers, i, x));
        } else {
            assert(i * s <= q * s) by (nonlinear_arith)
                requires
                    i <= q,
            ;
            assert(in_shard(total, workers, i, x));
        }
    }
    assert forall|x: nat, i: nat, j: nat|
        #[trigger] in_shard(total, workers, i, x) && #[trigger] in_shard(
            total,
            workers,
            j,
            x,
        ) implies i == j by {
        lemma_step_bounds(total, workers, i);
        lemma_step_bounds(total, workers, j);
        if i < j {
            assert((i + 1) * s <= j * s) by (nonlinear_arith)
                requires
                    i + 1 <= j,
            ;
        } else if j < i {
            assert((j + 1) * s <= i * s) by (nonlinear_arith)
                requires
                    j + 1 <= i,
            ;
        }
    }
}

/// The number of workers for a run: the number given by the configuration
/// setting where it is a positive number, else the available parallelism.
pub fn get_num_threads(available: u64, setting: Option<&str>) -> (r: u64)
    requires
        available >= 1,
    ensures
        r >= 1,
        r == match setting {
            Some(t) => match u64_of_text(t@) {
                Some(v) => if v >= 1 {
                    v
                } else {
                    available
                },
                None => available,
            },
            None => available,
        },
{
    match setting {
        Some(t) => match parse_u64(t) {
            Some(v) => if v >= 1 {
                v
            } else {
                available
            },
            None => available,
        },
        None => available,
    }
}

} // verus!
