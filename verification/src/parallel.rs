use vstd::prelude::*;

use crate::rule::Config;
use crate::rule::config_wf;
use crate::rule::next_cell_spec;
use crate::rule::nextcell;
use crate::row::row_cells_bounded;
use crate::row::row_wf;
use crate::step::next_row_spec;

verus! {

/// Successor values of the windows of `current` centred at `from .. to`:
/// the slice of the next row those centres produce.
pub fn calc_range(current: &Vec<usize>, from: usize, to: usize, config: &Config) -> (out: Vec<
    usize,
>)
    requires
        config_wf(config),
        row_cells_bounded(current@),
        1 <= from,
        from <= to,
        to <= current.len() - 1,
        current.len() >= 2,
    ensures
        out.len() == to - from,
        forall|i: int|
            0 <= i < to - from ==> #[trigger] out@[i] == next_cell_spec(
                config,
                current@[from + i - 1],
                current@[from + i],
                current@[from + i + 1],
            ),
        row_cells_bounded(out@),
{
    let mut out: Vec<usize> = Vec::new();
    let mut c: usize = from;
    while c < to
        invariant
            config_wf(config),
            row_cells_bounded(current@),
            1 <= from <= c <= to <= current.len() - 1,
            current.len() >= 2,
            out.len() == c - from,
            forall|i: int|
                0 <= i < c - from ==> #[trigger] out@[i] == next_cell_spec(
                    config,
                    current@[from + i - 1],
                    current@[from + i],
                    current@[from + i + 1],
                ),
            row_cells_bounded(out@),
        decreases to - c,
    {
        let v = nextcell(current[c - 1], current[c], current[c + 1], config);
        out.push(v);
        c += 1;
    }
    out
}

/// Relies on rayon::join: it runs both closures to completion and returns
/// the pair of their results. Each closure is a single call of the
/// verified `calc_range`, so the pair holds the two halves of the next
/// row's interior, split at `mid`.
#[verifier::external_body]
fn join_halves(current: &Vec<usize>, mid: usize, config: &Config) -> (r: (Vec<usize>, Vec<
    usize,
>))
    requires
        config_wf(config),
        row_cells_bounded(current@),
        1 <= mid <= current.len() - 1,
        current.len() >= 2,
    ensures
        r.0.len() == mid - 1,
        r.1.len() == current.len() - 1 - mid,
        forall|i: int|
            0 <= i < mid - 1 ==> #[trigger] r.0@[i] == next_cell_spec(
                config,
                current@[i],
                current@[1 + i],
                current@[2 + i],
            ),
        forall|i: int|
            0 <= i < current.len() - 1 - mid ==> #[trigger] r.1@[i] == next_cell_spec(
                config,
                current@[mid + i - 1],
                current@[mid + i],
                current@[mid + i + 1],
            ),
        row_cells_bounded(r.0@),
        row_cells_bounded(r.1@),
{
    rayon::join(
        || calc_range(current, 1, mid, config),
        || calc_range(current, mid, current.len() - 1, config),
    )
}

/// One step of the whole row with the interior pass split at the midpoint
/// and the two halves computed through the parallel runtime. The contract
/// is the same as the sequential `nextline`: every interior cell of `nex`
/// becomes the reference step of `cur`, the two end cells stay untouched.
pub fn per_nextline(current: &Vec<usize>, next_cells: &mut Vec<usize>, config: &Config)
    requires
        config_wf(config),
        row_wf(current@),
        old(next_cells).len() == current.len(),
    ensures
        final(next_cells).len() == current.len(),
        forall|i: int|
            1 <= i < current.len() - 1 ==> #[trigger] final(next_cells)@[i] == next_row_spec(
                config,
                current@,
            )[i],
        final(next_cells)@[0] == old(next_cells)@[0],
        final(next_cells)@[current.len() - 1] == old(next_cells)@[current.len() - 1],
        row_cells_bounded(old(next_cells)@) ==> row_cells_bounded(final(next_cells)@),
        (old(next_cells)@[0] == current@[0] && old(next_cells)@[current.len() - 1]
            == current@[current.len() - 1]) ==> final(next_cells)@ =~= next_row_spec(
            config,
            current@,
        ),
{
    let mid: usize = current.len() / 2;
    let halves = join_halves(current, mid, config);
    let first = halves.0;
    let second = halves.1;
    let mut i: usize = 0;
    while i < first.len()
        invariant
            current.len() >= 3,
            mid == current.len() / 2,
            1 <= mid <= current.len() - 1,
            first.len() == mid - 1,
            next_cells.len() == current.len(),
            i <= first.len(),
            forall|p: int| 0 <= p < i ==> #[trigger] next_cells@[1 + p] == first@[p],
            forall|p: int|
                0 <= p < next_cells.len() && !(1 <= p < 1 + i) ==> #[trigger] next_cells@[p] == old(
                    next_cells,
                )@[p],
        decreases first.len() - i,
    {
        next_cells.set(1 + i, first[i]);
        i += 1;
    }
    let mut i: usize = 0;
    while i < second.len()
        invariant
            current.len() >= 3,
            mid == current.len() / 2,
            1 <= mid <= current.len() - 1,
            first.len() == mid - 1,
            second.len() == current.len() - 1 - mid,
            next_cells.len() == current.len(),
            i <= second.len(),
            forall|p: int| 0 <= p < mid - 1 ==> #[trigger] next_cells@[1 + p] == first@[p],
            forall|p: int| 0 <= p < i ==> #[trigger] next_cells@[mid + p] == second@[p],
            forall|p: int|
                0 <= p < next_cells.len() && !(1 <= p < mid + i) ==> #[trigger] next_cells@[p]
                    == old(next_cells)@[p],
        decreases second.len() - i,
    {
        next_cells.set(mid + i, second[i]);
        i += 1;
    }
    assert forall|i: int|
        1 <= i < current.len() - 1 implies #[trigger] next_cells@[i] == next_row_spec(
        config,
        current@,
    )[i] by {
        if i < mid {
            assert(next_cells@[1 + (i - 1)] == first@[i - 1]);
            assert(first@[i - 1] == next_cell_spec(
                config,
                current@[i - 1],
                current@[1 + (i - 1)],
                current@[2 + (i - 1)],
            ));
        } else {
            assert(next_cells@[mid + (i - mid)] == second@[i - mid]);
            assert(second@[i - mid] == next_cell_spec(
                config,
                current@[mid + (i - mid) - 1],
                current@[mid + (i - mid)],
                current@[mid + (i - mid) + 1],
            ));
        }
    }
    assert forall|p: int|
        row_cells_bounded(old(next_cells)@) && 0 <= p < next_cells.len()
        implies #[trigger] next_cells@[p] < 16 by {
        if 1 <= p < mid {
            assert(next_cells@[1 + (p - 1)] == first@[p - 1]);
            assert(first@[p - 1] < 16);
        } else if mid <= p < current.len() - 1 {
            assert(next_cells@[mid + (p - mid)] == second@[p - mid]);
            assert(second@[p - mid] < 16);
        }
    }
}

} // verus!
