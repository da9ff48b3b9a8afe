use vstd::prelude::*;

use vstd::arithmetic::div_mod::lemma_fundamental_div_mod;
use vstd::arithmetic::div_mod::lemma_mod_division_less_than_divisor;

use crate::row::row_cells_bounded;
use crate::shard::Shard;
use crate::shard::chain_end;
use crate::shard::chain_from;
use crate::shard::interior_concat;
use crate::shard::reassemble;
use crate::shard::shard_interior;
use crate::shard::shard_wf;

verus! {

/// The fatal conditions of a run: a shard count outside `1..=n`, or a
/// neighbour that vanished mid-run so an exchange cannot complete.
#[derive(Debug, Clone, Copy, PartialEq, Eq, Structural)]
pub enum SimError {
    ConfigError,
    PeerLost,
}

/// First owned index of shard `j` when the `n` interior cells are divided
/// as evenly as possible over `k` shards: every shard takes `n / k` cells
/// and the first `n % k` shards take one more.
pub open spec fn range_lo(n: int, k: int, j: int) -> int {
    1 + j * (n / k) + (if j <= n % k {
        j
    } else {
        n % k
    })
}

/// The number of cells shard `j` owns.
pub open spec fn range_size(n: int, k: int, j: int) -> int {
    range_lo(n, k, j + 1) - range_lo(n, k, j)
}

/// One step of the partition layout: each range begins where the previous
/// one ends, its size is `n / k` cells plus one for the first `n % k`
/// shards, and no range reaches past `n + 1`.
pub proof fn lemma_range_step(n: int, k: int, j: int)
    requires
        1 <= k <= n,
        0 <= j < k,
    ensures
        range_size(n, k, j) == n / k + if j < n % k {
            1int
        } else {
            0int
        },
        range_lo(n, k, j + 1) == range_lo(n, k, j) + range_size(n, k, j),
        1 <= range_lo(n, k, j),
        range_lo(n, k, j) < range_lo(n, k, j + 1) <= n + 1,
{
    let d = n / k;
    let r = n % k;
    lemma_fundamental_div_mod(n, k);
    lemma_mod_division_less_than_divisor(n, k);
    assert((j + 1) * d == j * d + d) by (nonlinear_arith);
    assert(d >= 1) by (nonlinear_arith)
        requires
            n == d * k + r,
            0 <= r < k,
            1 <= k <= n,
    ;
    assert(j * d >= 0) by (nonlinear_arith)
        requires
            j >= 0,
            d >= 0,
    ;
    assert((j + 1) * d <= k * d) by (nonlinear_arith)
        requires
            j + 1 <= k,
            d >= 0,
    ;
    assert(k * d == d * k) by (nonlinear_arith);
}

/// Partition coverage: for any `n` and `k` with `1 <= k <= n`, the `k`
/// ranges tile the interior `1..=n` exactly — they begin at 1, end at
/// `n + 1`, abut with no gap or overlap — and any two sizes differ by at
/// most one.
pub proof fn lemma_partition_coverage(n: int, k: int)
    requires
        1 <= k <= n,
    ensures
        range_lo(n, k, 0) == 1,
        range_lo(n, k, k) == n + 1,
        forall|j: int| 0 <= j < k ==> range_lo(n, k, j) < #[trigger] range_lo(n, k, j + 1),
        forall|j: int|
            0 <= j < k ==> #[trigger] range_size(n, k, j) == n / k + if j < n % k {
                1int
            } else {
                0int
            },
        forall|j1: int, j2: int|
            0 <= j1 < k && 0 <= j2 < k ==> #[trigger] range_size(n, k, j1) - #[trigger] range_size(
                n,
                k,
                j2,
            ) <= 1,
{
    lemma_fundamental_div_mod(n, k);
    lemma_mod_division_less_than_divisor(n, k);
    assert(k * (n / k) == (n / k) * k) by (nonlinear_arith);
    assert forall|j: int| 0 <= j < k implies range_lo(n, k, j) < #[trigger] range_lo(
        n,
        k,
        j + 1,
    ) by {
        lemma_range_step(n, k, j);
    }
    assert forall|j: int| 0 <= j < k implies #[trigger] range_size(n, k, j) == n / k + (if j < n
        % k {
        1int
    } else {
        0int
    }) by {
        lemma_range_step(n, k, j);
    }
}

/// Copy the cells of `row` with indices `from .. to` into a fresh buffer.
fn copy_range(row: &Vec<usize>, from: usize, to: usize) -> (out: Vec<usize>)
    requires
        from <= to <= row.len(),
    ensures
        out@ =~= row@.subrange(from as int, to as int),
{
    let mut out: Vec<usize> = Vec::new();
    let mut g: usize = from;
    while g < to
        invariant
            from <= g <= to <= row.len(),
            out@ =~= row@.subrange(from as int, g as int),
        decreases to - g,
    {
        out.push(row[g]);
        g += 1;
    }
    out
}

/// Appending a shard that starts exactly where a chain ends extends the
/// chain.
pub proof fn lemma_chain_push(shards: Seq<Shard>, start: int, s: Shard)
    requires
        chain_from(shards, start),
        shard_wf(s),
        s.lo == chain_end(shards, start),
    ensures
        chain_from(shards.push(s), start),
        chain_end(shards.push(s), start) == s.hi,
    decreases shards.len(),
{
    if shards.len() == 0 {
        assert(chain_end(shards, start) == start);
        assert(shards.push(s)[0] == s);
        assert(shards.push(s).drop_first() =~= Seq::<Shard>::empty());
        assert(chain_from(Seq::<Shard>::empty(), s.hi as int));
        assert(chain_end(Seq::<Shard>::empty(), s.hi as int) == s.hi);
        assert(chain_from(shards.push(s), start));
        assert(chain_end(shards.push(s), start) == chain_end(
            shards.push(s).drop_first(),
            s.hi as int,
        ));
    } else {
        assert(chain_from(shards.drop_first(), shards[0].hi as int));
        assert(chain_end(shards, start) == chain_end(shards.drop_first(), shards[0].hi as int));
        lemma_chain_push(shards.drop_first(), shards[0].hi as int, s);
        assert(shards.push(s)[0] == shards[0]);
        assert(shards.push(s).drop_first() =~= shards.drop_first().push(s));
        assert(chain_from(shards.push(s).drop_first(), shards[0].hi as int));
        assert(chain_from(shards.push(s), start));
        assert(chain_end(shards.push(s), start) == chain_end(
            shards.push(s).drop_first(),
            shards[0].hi as int,
        ));
    }
}

/// Appending a shard appends its owned cells to the chain's concatenation.
pub proof fn lemma_interior_concat_push(shards: Seq<Shard>, s: Shard)
    ensures
        interior_concat(shards.push(s)) =~= interior_concat(shards) + shard_interior(s),
    decreases shards.len(),
{
    if shards.len() == 0 {
        assert(shards.push(s)[0] == s);
        assert(shards.push(s).drop_first() =~= Seq::<Shard>::empty());
        assert(interior_concat(Seq::<Shard>::empty()) == Seq::<usize>::empty());
        assert(interior_concat(shards.push(s)) == shard_interior(shards.push(s)[0])
            + interior_concat(shards.push(s).drop_first()));
    } else {
        lemma_interior_concat_push(shards.drop_first(), s);
        assert(shards.push(s)[0] == shards[0]);
        assert(shards.push(s).drop_first() =~= shards.drop_first().push(s));
        assert(interior_concat(shards.push(s)) == shard_interior(shards[0]) + interior_concat(
            shards.drop_first().push(s),
        ));
        assert(interior_concat(shards) == shard_interior(shards[0]) + interior_concat(
            shards.drop_first(),
        ));
    }
}

/// The Partitioner: cut the interior of `row` into `k` contiguous shards
/// of near-equal size, each owning a copy of its slice of the row plus one
/// halo cell per side. Fails with `ConfigError` exactly when the shard
/// count is outside `1..=n`. On success the shards form a chain whose
/// ranges follow the even layout and whose reassembly is the row itself.
pub fn split(row: &Vec<usize>, k: usize) -> (res: Result<Vec<Shard>, SimError>)
    requires
        row.len() >= 3,
        row_cells_bounded(row@),
    ensures
        match res {
            Ok(shards) => {
                &&& 1 <= k <= row.len() - 2
                &&& shards.len() == k
                &&& chain_from(shards@, 1)
                &&& chain_end(shards@, 1) == row.len() - 1
                &&& (forall|j: int|
                    0 <= j < k ==> (#[trigger] shards@[j].lo == range_lo(
                        row.len() - 2,
                        k as int,
                        j,
                    ) && shards@[j].hi == range_lo(row.len() - 2, k as int, j + 1)))
                &&& reassemble(shards@, row@[0], row@[row.len() - 1]) =~= row@
                &&& (forall|j: int| 0 <= j < k ==> (#[trigger] shards@[j].nex@) =~= shards@[j].cur@)
            },
            Err(e) => e == SimError::ConfigError && !(1 <= k <= row.len() - 2),
        },
{
    let n: usize = row.len() - 2;
    if k == 0 || k > n {
        return Err(SimError::ConfigError);
    }
    let d: usize = n / k;
    let r: usize = n % k;
    let mut shards: Vec<Shard> = Vec::new();
    let mut lo: usize = 1;
    let mut j: usize = 0;
    while j < k
        invariant
            1 <= k <= n,
            n == row.len() - 2,
            row.len() >= 3,
            row_cells_bounded(row@),
            d == n as int / k as int,
            r == n as int % k as int,
            j <= k,
            shards.len() == j,
            lo == range_lo(n as int, k as int, j as int),
            1 <= lo <= n + 1,
            chain_from(shards@, 1),
            chain_end(shards@, 1) == lo,
            forall|jj: int|
                0 <= jj < j ==> (#[trigger] shards@[jj].lo == range_lo(n as int, k as int, jj)
                    && shards@[jj].hi == range_lo(n as int, k as int, jj + 1)),
            interior_concat(shards@) =~= row@.subrange(1, lo as int),
            forall|jj: int| 0 <= jj < j ==> (#[trigger] shards@[jj].nex@) =~= shards@[jj].cur@,
        decreases k - j,
    {
        proof {
            lemma_range_step(n as int, k as int, j as int);
        }
        let size: usize = if j < r {
            d + 1
        } else {
            d
        };
        let hi: usize = lo + size;
        let cur = copy_range(row, lo - 1, hi + 1);
        let nex = copy_range(row, lo - 1, hi + 1);
        let s = Shard { lo, hi, cur, nex };
        proof {
            assert forall|i: int| 0 <= i < s.cur.len() implies #[trigger] s.cur@[i] < 16 by {
                assert(s.cur@[i] == row@[lo - 1 + i]);
            }
            assert(shard_wf(s));
            lemma_chain_push(shards@, 1, s);
            lemma_interior_concat_push(shards@, s);
            assert(shard_interior(s) =~= row@.subrange(lo as int, hi as int));
            assert(interior_concat(shards@.push(s)) =~= row@.subrange(1, hi as int));
        }
        let ghost old_shards = shards@;
        shards.push(s);
        proof {
            assert(shards@ == old_shards.push(s));
            assert(shards@[j as int] == s);
            assert(shards@[j as int].lo == range_lo(n as int, k as int, j as int));
            assert(shards@[j as int].hi == range_lo(n as int, k as int, j as int + 1));
            assert forall|jj: int| 0 <= jj < j + 1 implies (#[trigger] shards@[jj].lo == range_lo(
                n as int,
                k as int,
                jj,
            ) && shards@[jj].hi == range_lo(n as int, k as int, jj + 1)) by {
                if jj < j {
                    assert(shards@[jj] == old_shards[jj]);
                }
            }
            assert forall|jj: int| 0 <= jj < j + 1 implies (#[trigger] shards@[jj].nex@)
                =~= shards@[jj].cur@ by {
                if jj < j {
                    assert(shards@[jj] == old_shards[jj]);
                }
            }
        }
        lo = hi;
        j += 1;
    }
    proof {
        lemma_partition_coverage(n as int, k as int);
        assert(interior_concat(shards@) =~= row@.subrange(1, row.len() - 1));
        assert(reassemble(shards@, row@[0], row@[row.len() - 1]) =~= row@);
    }
    Ok(shards)
}

} // verus!
