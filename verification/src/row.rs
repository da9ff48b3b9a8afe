use vstd::prelude::*;

use crate::rule::Config;
use crate::rule::STATE_LIMIT;
use crate::rule::config_wf;

verus! {

/// Every cell of the sequence is a valid (4-bit) state index.
pub open spec fn row_cells_bounded(row: Seq<usize>) -> bool {
    forall|i: int| 0 <= i < row.len() ==> #[trigger] row[i] < STATE_LIMIT
}

/// A well-formed full row: at least one interior cell between the two
/// sentinels, and every cell a valid state index.
pub open spec fn row_wf(row: Seq<usize>) -> bool {
    &&& row.len() >= 3
    &&& row_cells_bounded(row)
}

/// Every non-sentinel cell of the row holds the firing state.
pub open spec fn fired_spec(row: Seq<usize>, firing: usize) -> bool {
    forall|i: int| 1 <= i < row.len() - 1 ==> #[trigger] row[i] == firing
}

/// True exactly when every non-sentinel cell has reached the firing state.
pub fn fired(cells: &Vec<usize>, firing: usize) -> (r: bool)
    requires
        cells.len() >= 2,
    ensures
        r == fired_spec(cells@, firing),
{
    let mut i: usize = 1;
    while i < cells.len() - 1
        invariant
            1 <= i <= cells.len() - 1,
            cells.len() >= 2,
            forall|j: int| 1 <= j < i ==> #[trigger] cells@[j] == firing,
        decreases cells.len() - 1 - i,
    {
        if cells[i] != firing {
            assert(cells@[i as int] != firing);
            return false;
        }
        i += 1;
    }
    true
}

/// A fresh row of `n` soldier cells between two fixed external sentinels.
pub fn new_line(n: usize, config: &Config) -> (cells: Vec<usize>)
    requires
        config_wf(config),
        n <= usize::MAX - 2,
    ensures
        cells.len() == n + 2,
        cells@[0] == config.external,
        cells@[n + 1] == config.external,
        forall|i: int| 1 <= i <= n ==> #[trigger] cells@[i] == config.soldier,
        row_cells_bounded(cells@),
{
    let mut cells: Vec<usize> = vec![config.soldier; n + 2];
    cells.set(0, config.external);
    let i: usize = cells.len() - 1;
    cells.set(i, config.external);
    cells
}

/// The initial row: the general at index 1, soldiers at 2..=n, external
/// sentinels at both ends.
pub fn first_line(n: usize, config: &Config) -> (cells: Vec<usize>)
    requires
        config_wf(config),
        1 <= n <= usize::MAX - 2,
    ensures
        cells.len() == n + 2,
        cells@[0] == config.external,
        cells@[n + 1] == config.external,
        cells@[1] == config.general,
        forall|i: int| 2 <= i <= n ==> #[trigger] cells@[i] == config.soldier,
        row_wf(cells@),
{
    let mut cells = new_line(n, config);
    cells.set(1, config.general);
    cells
}

} // verus!
