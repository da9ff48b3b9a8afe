use vstd::prelude::*;

use crate::rule::Config;
use crate::rule::config_wf;
use crate::rule::next_cell_spec;
use crate::rule::nextcell;
use crate::row::fired;
use crate::row::fired_spec;
use crate::row::row_cells_bounded;
use crate::row::row_wf;

verus! {

/// One synchronous step of a whole row: every interior cell is replaced by
/// the rule applied to its window, the two end cells are left unchanged.
pub open spec fn next_row_spec(config: &Config, row: Seq<usize>) -> Seq<usize> {
    Seq::new(
        row.len(),
        |i: int|
            if 1 <= i < row.len() - 1 {
                next_cell_spec(config, row[i - 1], row[i], row[i + 1])
            } else {
                row[i]
            },
    )
}

/// The row after `t` synchronous steps from `row`.
pub open spec fn sim_spec(config: &Config, row: Seq<usize>, t: nat) -> Seq<usize>
    decreases t,
{
    if t == 0 {
        row
    } else {
        next_row_spec(config, sim_spec(config, row, (t - 1) as nat))
    }
}

/// Sentinel invariance: stepping never writes index 0 or the last index,
/// for any rule table and any number of steps.
pub proof fn lemma_sentinel_invariance(config: &Config, row: Seq<usize>, t: nat)
    requires
        row.len() >= 1,
    ensures
        sim_spec(config, row, t).len() == row.len(),
        sim_spec(config, row, t)[0] == row[0],
        sim_spec(config, row, t)[row.len() - 1] == row[row.len() - 1],
    decreases t,
{
    if t > 0 {
        lemma_sentinel_invariance(config, row, (t - 1) as nat);
    }
}

/// Stepping a row of valid state indices yields valid state indices.
pub proof fn lemma_sim_bounded(config: &Config, row: Seq<usize>, t: nat)
    requires
        config_wf(config),
        row_cells_bounded(row),
    ensures
        row_cells_bounded(sim_spec(config, row, t)),
    decreases t,
{
    if t > 0 {
        lemma_sim_bounded(config, row, (t - 1) as nat);
    }
}

/// Firing absorption, one step: under a rule table that maps every window
/// with a firing center back to firing, a fully fired row stays fired.
pub proof fn lemma_firing_absorption(config: &Config, row: Seq<usize>, firing: usize)
    requires
        config_wf(config),
        row_cells_bounded(row),
        row.len() >= 2,
        forall|l: usize, r: usize|
            l < 16 && r < 16 ==> #[trigger] next_cell_spec(config, l, firing, r) == firing,
        fired_spec(row, firing),
    ensures
        fired_spec(next_row_spec(config, row), firing),
{
    assert forall|i: int| 1 <= i < row.len() - 1 implies #[trigger] next_row_spec(config, row)[i]
        == firing by {
        assert(row[i] == firing);
        let l = row[i - 1];
        let r = row[i + 1];
        assert(next_cell_spec(config, l, firing, r) == firing);
    }
}

/// Firing absorption: once every non-sentinel cell is firing, it remains so
/// at every later step, under the same condition on the rule table.
pub proof fn lemma_firing_absorption_forever(
    config: &Config,
    row: Seq<usize>,
    firing: usize,
    t: nat,
)
    requires
        config_wf(config),
        row_cells_bounded(row),
        row.len() >= 2,
        forall|l: usize, r: usize|
            l < 16 && r < 16 ==> #[trigger] next_cell_spec(config, l, firing, r) == firing,
        fired_spec(row, firing),
    ensures
        fired_spec(sim_spec(config, row, t), firing),
    decreases t,
{
    if t > 0 {
        lemma_firing_absorption_forever(config, row, firing, (t - 1) as nat);
        lemma_sim_bounded(config, row, (t - 1) as nat);
        lemma_sentinel_invariance(config, row, (t - 1) as nat);
        lemma_firing_absorption(config, sim_spec(config, row, (t - 1) as nat), firing);
    }
}

/// Interior pass: write the successor of every full 3-cell window of
/// `current` into `next_cells`, the window centred at local index `w + 1`
/// going to position `idx + w`. Cells outside the written span keep their
/// old values.
pub fn calc_next(next_cells: &mut Vec<usize>, idx: usize, current: &Vec<usize>, config: &Config)
    requires
        config_wf(config),
        row_cells_bounded(current@),
        current.len() >= 2,
        idx + current.len() - 2 <= old(next_cells).len(),
    ensures
        final(next_cells).len() == old(next_cells).len(),
        forall|j: int|
            0 <= j < current.len() - 2 ==> #[trigger] final(next_cells)@[idx + j] == next_cell_spec(
                config,
                current@[j],
                current@[j + 1],
                current@[j + 2],
            ),
        forall|j: int|
            0 <= j < final(next_cells).len() && !(idx <= j < idx + current.len() - 2)
                ==> #[trigger] final(next_cells)@[j] == old(next_cells)@[j],
        row_cells_bounded(old(next_cells)@) ==> row_cells_bounded(final(next_cells)@),
{
    let mut w: usize = 0;
    while w < current.len() - 2
        invariant
            config_wf(config),
            row_cells_bounded(current@),
            current.len() >= 2,
            idx + current.len() - 2 <= next_cells.len(),
            next_cells.len() == old(next_cells).len(),
            0 <= w <= current.len() - 2,
            forall|j: int|
                0 <= j < w ==> #[trigger] next_cells@[idx + j] == next_cell_spec(
                    config,
                    current@[j],
                    current@[j + 1],
                    current@[j + 2],
                ),
            forall|j: int|
                0 <= j < next_cells.len() && !(idx <= j < idx + w) ==> #[trigger] next_cells@[j]
                    == old(next_cells)@[j],
        decreases current.len() - 2 - w,
    {
        let v = nextcell(current[w], current[w + 1], current[w + 2], config);
        next_cells.set(idx + w, v);
        w += 1;
    }
    assert forall|j: int|
        row_cells_bounded(old(next_cells)@) && 0 <= j < next_cells.len()
        implies #[trigger] next_cells@[j] < 16 by {
        if idx <= j < idx + current.len() - 2 {
            assert(next_cells@[idx + (j - idx)] == next_cell_spec(
                config,
                current@[j - idx],
                current@[j - idx + 1],
                current@[j - idx + 2],
            ));
        }
    }
}

/// One reference step of the full row: recompute every interior cell of
/// `cur` into `nex`, leaving the two end cells of `nex` untouched. When the
/// end cells of `nex` already match those of `cur`, `nex` comes out exactly
/// as the specification step of `cur`.
pub fn nextline(cur: &Vec<usize>, nex: &mut Vec<usize>, config: &Config)
    requires
        config_wf(config),
        row_wf(cur@),
        old(nex).len() == cur.len(),
    ensures
        final(nex).len() == cur.len(),
        forall|i: int|
            1 <= i < cur.len() - 1 ==> #[trigger] final(nex)@[i] == next_row_spec(config, cur@)[i],
        final(nex)@[0] == old(nex)@[0],
        final(nex)@[cur.len() - 1] == old(nex)@[cur.len() - 1],
        row_cells_bounded(old(nex)@) ==> row_cells_bounded(final(nex)@),
        (old(nex)@[0] == cur@[0] && old(nex)@[cur.len() - 1] == cur@[cur.len() - 1]) ==> final(nex)@
            =~= next_row_spec(config, cur@),
{
    calc_next(nex, 1, cur, config);
    assert forall|i: int| 1 <= i < cur.len() - 1 implies #[trigger] nex@[i] == next_row_spec(
        config,
        cur@,
    )[i] by {
        assert(nex@[1 + (i - 1)] == next_cell_spec(config, cur@[i - 1], cur@[i], cur@[i + 1]));
    }
}

/// The single-shard reference driver: step the row until every non-sentinel
/// cell fires or the safety bound `2n - 2` is passed, and return the number
/// of steps taken. The step count never exceeds `2n - 1`, the final row is
/// exactly the specification run after that many steps, and no earlier step
/// had already fired.
pub fn simulate(current: &mut Vec<usize>, next_cells: &mut Vec<usize>, config: &Config, n: usize) -> (t: usize)
    requires
        config_wf(config),
        1 <= n <= usize::MAX / 2 - 2,
        old(current).len() == n + 2,
        old(next_cells).len() == n + 2,
        row_cells_bounded(old(current)@),
        row_cells_bounded(old(next_cells)@),
        old(next_cells)@[0] == old(current)@[0],
        old(next_cells)@[n + 1] == old(current)@[n + 1],
    ensures
        final(current)@ == sim_spec(config, old(current)@, t as nat),
        t <= 2 * n - 1,
        fired_spec(final(current)@, config.firing) || t == 2 * n - 1,
        forall|k: nat| k < t ==> !fired_spec(sim_spec(config, old(current)@, k), config.firing),
        final(next_cells).len() == n + 2,
        row_cells_bounded(final(next_cells)@),
{
    let ghost row0 = old(current)@;
    let mut t: usize = 0;
    let mut done: bool = fired(current, config.firing) || t > 2 * n - 2;
    while !done
        invariant
            config_wf(config),
            1 <= n <= usize::MAX / 2 - 2,
            current.len() == n + 2,
            next_cells.len() == n + 2,
            row_cells_bounded(current@),
            row_cells_bounded(next_cells@),
            next_cells@[0] == row0[0],
            next_cells@[n + 1] == row0[n + 1],
            row0.len() == n + 2,
            row_cells_bounded(row0),
            t <= 2 * n - 1,
            current@ == sim_spec(config, row0, t as nat),
            done == (fired_spec(current@, config.firing) || t > 2 * n - 2),
            forall|k: nat| k < t ==> !fired_spec(sim_spec(config, row0, k), config.firing),
        decreases 2 * n - 1 - t,
    {
        proof {
            lemma_sentinel_invariance(config, row0, t as nat);
        }
        nextline(current, next_cells, config);
        core::mem::swap(current, next_cells);
        t += 1;
        proof {
            assert(current@ =~= next_row_spec(config, sim_spec(config, row0, (t - 1) as nat)));
            lemma_sentinel_invariance(config, row0, t as nat);
        }
        done = fired(current, config.firing) || t > 2 * n - 2;
    }
    t
}

} // verus!
