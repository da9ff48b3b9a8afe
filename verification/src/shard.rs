use vstd::prelude::*;

use crate::rule::Config;
use crate::rule::STATE_LIMIT;
use crate::rule::config_wf;
use crate::rule::next_cell_spec;
use crate::row::row_cells_bounded;
use crate::step::calc_next;
use crate::step::next_row_spec;

verus! {

/// A contiguous sub-range of the row owned by one worker. The shard owns
/// the global indices `lo .. hi`; its two buffers additionally hold one
/// halo cell per side, so local index `i` corresponds to global index
/// `lo - 1 + i`. `cur` and `nex` alternate roles every step.
#[derive(Debug)]
pub struct Shard {
    pub lo: usize,
    pub hi: usize,
    pub cur: Vec<usize>,
    pub nex: Vec<usize>,
}

/// A well-formed shard: at least one owned cell, buffers sized to the owned
/// range plus the two halo cells, and valid state indices throughout.
pub open spec fn shard_wf(s: Shard) -> bool {
    &&& 1 <= s.lo < s.hi
    &&& s.cur.len() == s.hi - s.lo + 2
    &&& s.nex.len() == s.cur.len()
    &&& row_cells_bounded(s.cur@)
    &&& row_cells_bounded(s.nex@)
}

/// The cells a shard owns: its current buffer without the halo cells.
pub open spec fn shard_interior(s: Shard) -> Seq<usize> {
    s.cur@.subrange(1, s.cur.len() - 1)
}

/// A contiguous chain of well-formed shards whose first owned index is
/// `start`: each shard's range begins exactly where its left neighbour's
/// range ends.
pub open spec fn chain_from(shards: Seq<Shard>, start: int) -> bool
    decreases shards.len(),
{
    if shards.len() == 0 {
        true
    } else {
        &&& shard_wf(shards[0])
        &&& shards[0].lo == start
        &&& chain_from(shards.drop_first(), shards[0].hi as int)
    }
}

/// One past the last owned index of a chain starting at `start`.
pub open spec fn chain_end(shards: Seq<Shard>, start: int) -> int
    decreases shards.len(),
{
    if shards.len() == 0 {
        start
    } else {
        chain_end(shards.drop_first(), shards[0].hi as int)
    }
}

/// All owned cells of a chain, in row order.
pub open spec fn interior_concat(shards: Seq<Shard>) -> Seq<usize>
    decreases shards.len(),
{
    if shards.len() == 0 {
        Seq::<usize>::empty()
    } else {
        shard_interior(shards[0]) + interior_concat(shards.drop_first())
    }
}

/// The full row a chain of shards represents, between the two fixed
/// sentinel values.
pub open spec fn reassemble(shards: Seq<Shard>, left_sent: usize, right_sent: usize) -> Seq<
    usize,
> {
    seq![left_sent] + interior_concat(shards) + seq![right_sent]
}

/// A chain's owned cells lie exactly between `start` and its end.
pub proof fn lemma_chain_len(shards: Seq<Shard>, start: int)
    requires
        chain_from(shards, start),
    ensures
        interior_concat(shards).len() == chain_end(shards, start) - start,
        chain_end(shards, start) >= start,
        shards.len() > 0 ==> chain_end(shards, start) > start,
    decreases shards.len(),
{
    if shards.len() > 0 {
        lemma_chain_len(shards.drop_first(), shards[0].hi as int);
    }
}

/// Structural facts about one link of a chain: each shard is well formed
/// and sits inside the chain's range, the last one closing it exactly.
pub proof fn lemma_chain_facts(shards: Seq<Shard>, start: int, j: int)
    requires
        chain_from(shards, start),
        0 <= j < shards.len(),
    ensures
        shard_wf(shards[j]),
        start <= shards[j].lo < shards[j].hi <= chain_end(shards, start),
        j == shards.len() - 1 ==> shards[j].hi == chain_end(shards, start),
    decreases j,
{
    if j == 0 {
        lemma_chain_len(shards.drop_first(), shards[0].hi as int);
        if shards.len() == 1 {
            assert(chain_end(shards.drop_first(), shards[0].hi as int) == shards[0].hi);
        }
    } else {
        lemma_chain_facts(shards.drop_first(), shards[0].hi as int, j - 1);
        assert(shards.drop_first()[j - 1] == shards[j]);
    }
}

/// Adjacent shards of a chain abut exactly: each range begins where the
/// previous one ends.
pub proof fn lemma_chain_adjacent(shards: Seq<Shard>, start: int, j: int)
    requires
        chain_from(shards, start),
        0 <= j < shards.len() - 1,
    ensures
        shards[j + 1].lo == shards[j].hi,
    decreases j,
{
    if j == 0 {
        assert(chain_from(shards.drop_first(), shards[0].hi as int));
        assert(shards.drop_first()[0] == shards[1]);
        assert(shards.drop_first()[0].lo == shards[0].hi);
    } else {
        lemma_chain_adjacent(shards.drop_first(), shards[0].hi as int, j - 1);
        assert(shards.drop_first()[j - 1] == shards[j]);
        assert(shards.drop_first()[j] == shards[j + 1]);
    }
}

/// Where each owned cell of shard `j` sits inside the concatenation of the
/// chain's owned cells.
pub proof fn lemma_chain_index(shards: Seq<Shard>, start: int, j: int, i: int)
    requires
        chain_from(shards, start),
        0 <= j < shards.len(),
        1 <= i < shards[j].cur.len() - 1,
    ensures
        0 <= shards[j].lo - 1 + i - start < interior_concat(shards).len(),
        interior_concat(shards)[shards[j].lo - 1 + i - start] == shards[j].cur@[i],
    decreases j,
{
    lemma_chain_len(shards, start);
    lemma_chain_facts(shards, start, j);
    if j == 0 {
        lemma_chain_len(shards.drop_first(), shards[0].hi as int);
        assert(shard_interior(shards[0])[i - 1] == shards[0].cur@[i]);
    } else {
        assert(shards.drop_first()[j - 1] == shards[j]);
        lemma_chain_index(shards.drop_first(), shards[0].hi as int, j - 1, i);
        lemma_chain_len(shards.drop_first(), shards[0].hi as int);
    }
}

/// The shard owning global index `g` in a chain starting at `start`.
pub open spec fn owner_of(shards: Seq<Shard>, start: int, g: int) -> int
    decreases shards.len(),
{
    if shards.len() == 0 {
        0
    } else if g < shards[0].hi {
        0
    } else {
        1 + owner_of(shards.drop_first(), shards[0].hi as int, g)
    }
}

/// Every owned index of a chain has exactly one owning shard, and that
/// shard's range contains it.
pub proof fn lemma_owner_of(shards: Seq<Shard>, start: int, g: int)
    requires
        chain_from(shards, start),
        start <= g < chain_end(shards, start),
    ensures
        0 <= owner_of(shards, start, g) < shards.len(),
        shards[owner_of(shards, start, g)].lo <= g < shards[owner_of(shards, start, g)].hi,
    decreases shards.len(),
{
    lemma_chain_len(shards, start);
    if shards.len() > 0 && g >= shards[0].hi {
        lemma_owner_of(shards.drop_first(), shards[0].hi as int, g);
        let j = owner_of(shards.drop_first(), shards[0].hi as int, g);
        assert(shards.drop_first()[j] == shards[j + 1]);
    }
}

/// A shard's current window with the two received halo values installed.
pub open spec fn patched(s: Shard, left_in: usize, right_in: usize) -> Seq<usize> {
    s.cur@.update(0, left_in).update(s.cur.len() - 1, right_in)
}

/// The value shard `j` receives from its left: the fixed left sentinel for
/// the first shard, otherwise the left neighbour's last owned current cell.
pub open spec fn left_input(shards: Seq<Shard>, j: int, left_sent: usize) -> usize {
    if j == 0 {
        left_sent
    } else {
        shards[j - 1].cur@[shards[j - 1].cur.len() - 2]
    }
}

/// The value shard `j` receives from its right: the fixed right sentinel
/// for the last shard, otherwise the right neighbour's first owned cell.
pub open spec fn right_input(shards: Seq<Shard>, j: int, right_sent: usize) -> usize {
    if j == shards.len() - 1 {
        right_sent
    } else {
        shards[j + 1].cur@[1]
    }
}

/// How one shard advances in one lockstep round, given the two halo values
/// it received: every owned cell becomes the rule applied to its window in
/// the patched current buffer; the range does not move.
pub open spec fn shard_stepped(
    config: &Config,
    pre: Shard,
    post: Shard,
    left_in: usize,
    right_in: usize,
) -> bool {
    &&& post.lo == pre.lo
    &&& post.hi == pre.hi
    &&& post.cur.len() == pre.cur.len()
    &&& forall|i: int|
        1 <= i < post.cur.len() - 1 ==> #[trigger] post.cur@[i] == next_cell_spec(
            config,
            patched(pre, left_in, right_in)[i - 1],
            patched(pre, left_in, right_in)[i],
            patched(pre, left_in, right_in)[i + 1],
        )
}

/// Two shard sequences with elementwise equal ranges are chains together.
pub proof fn lemma_chain_same_ranges(pre: Seq<Shard>, post: Seq<Shard>, start: int)
    requires
        chain_from(pre, start),
        post.len() == pre.len(),
        forall|j: int|
            0 <= j < post.len() ==> #[trigger] post[j].lo == pre[j].lo && post[j].hi == pre[j].hi
                && shard_wf(post[j]),
    ensures
        chain_from(post, start),
        chain_end(post, start) == chain_end(pre, start),
    decreases pre.len(),
{
    if pre.len() > 0 {
        assert(post[0].lo == pre[0].lo && post[0].hi == pre[0].hi && shard_wf(post[0]));
        assert forall|j: int| 0 <= j < post.len() - 1 implies #[trigger] post.drop_first()[j].lo
            == pre.drop_first()[j].lo && post.drop_first()[j].hi == pre.drop_first()[j].hi
            && shard_wf(post.drop_first()[j]) by {
            assert(post.drop_first()[j] == post[j + 1]);
            assert(pre.drop_first()[j] == pre[j + 1]);
            assert(post[j + 1].lo == pre[j + 1].lo && post[j + 1].hi == pre[j + 1].hi
                && shard_wf(post[j + 1]));
        }
        lemma_chain_same_ranges(pre.drop_first(), post.drop_first(), pre[0].hi as int);
        assert(chain_from(post.drop_first(), post[0].hi as int));
        assert(chain_from(post, start));
        assert(chain_end(post, start) == chain_end(post.drop_first(), post[0].hi as int));
    }
}

/// The reassembled row reads each shard's owned cells in place: global
/// index `g` of the row is local index `g - lo + 1` of the owning shard.
pub proof fn lemma_reassemble_index(
    shards: Seq<Shard>,
    left_sent: usize,
    right_sent: usize,
    j: int,
    i: int,
)
    requires
        chain_from(shards, 1),
        0 <= j < shards.len(),
        1 <= i < shards[j].cur.len() - 1,
    ensures
        1 <= shards[j].lo - 1 + i < reassemble(shards, left_sent, right_sent).len() - 1,
        reassemble(shards, left_sent, right_sent)[shards[j].lo - 1 + i] == shards[j].cur@[i],
{
    lemma_chain_len(shards, 1);
    lemma_chain_index(shards, 1, j, i);
    lemma_chain_facts(shards, 1, j);
    let row = reassemble(shards, left_sent, right_sent);
    let g = shards[j].lo - 1 + i;
    assert(row[g] == interior_concat(shards)[g - 1]);
}

/// The halo-patched window of shard `j` is exactly the corresponding
/// segment of the reassembled row: the received boundary values stand in
/// for the neighbours' current boundary cells, or for the fixed sentinels
/// at the two ends of the chain.
pub proof fn lemma_patched_window(
    shards: Seq<Shard>,
    left_sent: usize,
    right_sent: usize,
    j: int,
)
    requires
        chain_from(shards, 1),
        0 <= j < shards.len(),
    ensures
        shards[j].lo - 1 + shards[j].cur.len() <= reassemble(
            shards,
            left_sent,
            right_sent,
        ).len(),
        forall|p: int|
            0 <= p < shards[j].cur.len() ==> #[trigger] patched(
                shards[j],
                left_input(shards, j, left_sent),
                right_input(shards, j, right_sent),
            )[p] == reassemble(shards, left_sent, right_sent)[shards[j].lo - 1 + p],
{
    lemma_chain_len(shards, 1);
    lemma_chain_facts(shards, 1, j);
    let row = reassemble(shards, left_sent, right_sent);
    let n = chain_end(shards, 1) - 1;
    let lo = shards[j].lo as int;
    let hi = shards[j].hi as int;
    let last = shards[j].cur.len() - 1;
    let w = patched(
        shards[j],
        left_input(shards, j, left_sent),
        right_input(shards, j, right_sent),
    );
    assert(row.len() == n + 2);
    assert(row[0] == left_sent);
    assert(row[n + 1] == right_sent);
    assert forall|p: int| 0 <= p < shards[j].cur.len() implies #[trigger] w[p] == row[lo - 1
        + p] by {
        if p == 0 {
            if j == 0 {
                assert(w[0] == left_sent);
            } else {
                lemma_chain_facts(shards, 1, j - 1);
                lemma_chain_adjacent(shards, 1, j - 1);
                lemma_reassemble_index(
                    shards,
                    left_sent,
                    right_sent,
                    j - 1,
                    shards[j - 1].cur.len() - 2,
                );
            }
        } else if p == last {
            if j == shards.len() - 1 {
                assert(hi == n + 1);
                assert(w[last] == right_sent);
            } else {
                lemma_chain_facts(shards, 1, j + 1);
                lemma_chain_adjacent(shards, 1, j);
                lemma_reassemble_index(shards, left_sent, right_sent, j + 1, 1);
            }
        } else {
            lemma_reassemble_index(shards, left_sent, right_sent, j, p);
        }
    }
}

/// Equivalence of one lockstep round: when every shard of a chain advances
/// by `shard_stepped` on the boundary values its neighbours held before the
/// round, the chain afterwards represents exactly the reference step of the
/// row it represented before. This is the heart of the claim that the
/// partitioned simulation matches the single-shard one.
pub proof fn lemma_sharded_step_equivalence(
    config: &Config,
    pre: Seq<Shard>,
    post: Seq<Shard>,
    left_sent: usize,
    right_sent: usize,
)
    requires
        chain_from(pre, 1),
        post.len() == pre.len(),
        forall|j: int| 0 <= j < post.len() ==> shard_wf(#[trigger] post[j]),
        forall|j: int|
            0 <= j < post.len() ==> shard_stepped(
                config,
                pre[j],
                #[trigger] post[j],
                left_input(pre, j, left_sent),
                right_input(pre, j, right_sent),
            ),
    ensures
        chain_from(post, 1),
        chain_end(post, 1) == chain_end(pre, 1),
        reassemble(post, left_sent, right_sent) =~= next_row_spec(
            config,
            reassemble(pre, left_sent, right_sent),
        ),
{
    lemma_chain_len(pre, 1);
    assert forall|j: int|
        0 <= j < post.len() implies #[trigger] post[j].lo == pre[j].lo && post[j].hi == pre[j].hi
        && shard_wf(post[j]) by {}
    lemma_chain_same_ranges(pre, post, 1);
    lemma_chain_len(post, 1);
    let row = reassemble(pre, left_sent, right_sent);
    let row2 = reassemble(post, left_sent, right_sent);
    let n = chain_end(pre, 1) - 1;
    assert(row.len() == n + 2);
    assert(row2.len() == n + 2);
    assert(row[0] == left_sent && row2[0] == left_sent);
    assert(row[n + 1] == right_sent && row2[n + 1] == right_sent);
    assert forall|g: int| 0 <= g < row2.len() implies #[trigger] row2[g] == next_row_spec(
        config,
        row,
    )[g] by {
        if 1 <= g <= n {
            lemma_owner_of(post, 1, g);
            let j = owner_of(post, 1, g);
            lemma_chain_facts(post, 1, j);
            lemma_chain_facts(pre, 1, j);
            let lo = post[j].lo as int;
            let i = g - lo + 1;
            lemma_reassemble_index(post, left_sent, right_sent, j, i);
            lemma_patched_window(pre, left_sent, right_sent, j);
            let w = patched(
                pre[j],
                left_input(pre, j, left_sent),
                right_input(pre, j, right_sent),
            );
            assert(post[j].cur@[i] == next_cell_spec(config, w[i - 1], w[i], w[i + 1]));
            assert(w[i - 1] == row[g - 1]);
            assert(w[i] == row[g]);
            assert(w[i + 1] == row[g + 1]);
        }
    }
}

/// The two boundary values a shard sends its neighbours every step: its
/// first and its last owned current cell.
pub fn boundary_values(s: &Shard) -> (r: (usize, usize))
    requires
        shard_wf(*s),
    ensures
        r.0 == s.cur@[1],
        r.1 == s.cur@[s.cur.len() - 2],
        r.0 < STATE_LIMIT,
        r.1 < STATE_LIMIT,
{
    (s.cur[1], s.cur[s.cur.len() - 2])
}

/// The compute part of a shard's step, once the halo cells hold the
/// received values: write the successor of every owned cell into the
/// shard's next buffer. The next buffer's own halo cells are not touched.
pub fn nextline_par(shard: &mut Shard, config: &Config)
    requires
        config_wf(config),
        shard_wf(*old(shard)),
    ensures
        final(shard).lo == old(shard).lo,
        final(shard).hi == old(shard).hi,
        final(shard).cur == old(shard).cur,
        final(shard).nex.len() == old(shard).nex.len(),
        shard_wf(*final(shard)),
        final(shard).nex@[0] == old(shard).nex@[0],
        final(shard).nex@[final(shard).nex.len() - 1] == old(shard).nex@[old(
            shard,
        ).nex.len() - 1],
        forall|i: int|
            1 <= i < final(shard).nex.len() - 1 ==> #[trigger] final(shard).nex@[i]
                == next_cell_spec(
                config,
                old(shard).cur@[i - 1],
                old(shard).cur@[i],
                old(shard).cur@[i + 1],
            ),
{
    calc_next(&mut shard.nex, 1, &shard.cur, config);
    assert forall|i: int| 1 <= i < shard.nex.len() - 1 implies #[trigger] shard.nex@[i]
        == next_cell_spec(
        config,
        shard.cur@[i - 1],
        shard.cur@[i],
        shard.cur@[i + 1],
    ) by {
        assert(shard.nex@[1 + (i - 1)] == next_cell_spec(
            config,
            shard.cur@[i - 1],
            shard.cur@[i - 1 + 1],
            shard.cur@[i - 1 + 2],
        ));
    }
}

/// One full shard step: install the two received halo values, advance
/// every owned cell by the rule, and swap the buffer roles. The new next
/// buffer keeps the patched window, so the shard's outgoing boundary
/// values for this round stay readable until the swap of the next round.
pub fn shard_step(shard: &mut Shard, left_in: usize, right_in: usize, config: &Config)
    requires
        config_wf(config),
        shard_wf(*old(shard)),
        left_in < STATE_LIMIT,
        right_in < STATE_LIMIT,
    ensures
        shard_wf(*final(shard)),
        shard_stepped(config, *old(shard), *final(shard), left_in, right_in),
        final(shard).nex@ =~= patched(*old(shard), left_in, right_in),
{
    let last: usize = shard.cur.len() - 1;
    shard.cur.set(0, left_in);
    shard.cur.set(last, right_in);
    nextline_par(shard, config);
    core::mem::swap(&mut shard.cur, &mut shard.nex);
}

} // verus!
