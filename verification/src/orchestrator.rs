use vstd::prelude::*;

use crate::partition::SimError;
use crate::partition::split;
use crate::row::fired_spec;
use crate::row::row_cells_bounded;
use crate::row::row_wf;
use crate::rule::Config;
use crate::rule::config_wf;
use crate::shard::Shard;
use crate::shard::chain_end;
use crate::shard::chain_from;
use crate::shard::interior_concat;
use crate::shard::left_input;
use crate::shard::lemma_chain_facts;
use crate::shard::lemma_chain_len;
use crate::shard::lemma_owner_of;
use crate::shard::lemma_reassemble_index;
use crate::shard::lemma_sharded_step_equivalence;
use crate::shard::owner_of;
use crate::shard::reassemble;
use crate::shard::right_input;
use crate::shard::shard_step;
use crate::shard::shard_stepped;
use crate::shard::shard_wf;
use crate::step::next_row_spec;
use crate::step::sim_spec;

verus! {

/// Every cell a shard owns holds the firing state: the shard's local
/// termination view.
pub open spec fn shard_fired_spec(s: Shard, firing: usize) -> bool {
    forall|i: int| 1 <= i < s.cur.len() - 1 ==> #[trigger] s.cur@[i] == firing
}

/// Every shard of the chain is locally done.
pub open spec fn all_shards_fired(shards: Seq<Shard>, firing: usize) -> bool {
    forall|j: int| 0 <= j < shards.len() ==> shard_fired_spec(#[trigger] shards[j], firing)
}

/// A shard's local termination check: true when every owned cell fires.
pub fn shard_fired(s: &Shard, firing: usize) -> (r: bool)
    requires
        shard_wf(*s),
    ensures
        r == shard_fired_spec(*s, firing),
{
    let mut i: usize = 1;
    while i < s.cur.len() - 1
        invariant
            shard_wf(*s),
            1 <= i <= s.cur.len() - 1,
            forall|ii: int| 1 <= ii < i ==> #[trigger] s.cur@[ii] == firing,
        decreases s.cur.len() - 1 - i,
    {
        if s.cur[i] != firing {
            assert(s.cur@[i as int] != firing);
            return false;
        }
        i += 1;
    }
    true
}

/// The orchestrator's global termination decision for one round: the
/// logical AND of every shard's local "am I done" answer.
pub fn all_fired(shards: &Vec<Shard>, firing: usize) -> (r: bool)
    requires
        forall|j: int| 0 <= j < shards.len() ==> shard_wf(#[trigger] shards@[j]),
    ensures
        r == all_shards_fired(shards@, firing),
{
    let mut j: usize = 0;
    while j < shards.len()
        invariant
            forall|jj: int| 0 <= jj < shards.len() ==> shard_wf(#[trigger] shards@[jj]),
            j <= shards.len(),
            forall|jj: int|
                0 <= jj < j ==> shard_fired_spec(#[trigger] shards@[jj], firing),
        decreases shards.len() - j,
    {
        if !shard_fired(&shards[j], firing) {
            assert(!shard_fired_spec(shards@[j as int], firing));
            return false;
        }
        j += 1;
    }
    true
}

/// The shards' combined local answers equal the global check on the
/// reassembled row: the AND over local "done" flags is exactly "every
/// non-sentinel cell fires".
pub proof fn lemma_all_fired_iff(
    shards: Seq<Shard>,
    left_sent: usize,
    right_sent: usize,
    firing: usize,
)
    requires
        chain_from(shards, 1),
    ensures
        all_shards_fired(shards, firing) == fired_spec(
            reassemble(shards, left_sent, right_sent),
            firing,
        ),
{
    lemma_chain_len(shards, 1);
    let row = reassemble(shards, left_sent, right_sent);
    let n = chain_end(shards, 1) - 1;
    assert(row.len() == n + 2);
    if all_shards_fired(shards, firing) {
        assert forall|g: int| 1 <= g < row.len() - 1 implies #[trigger] row[g] == firing by {
            lemma_owner_of(shards, 1, g);
            let j = owner_of(shards, 1, g);
            lemma_chain_facts(shards, 1, j);
            lemma_reassemble_index(shards, left_sent, right_sent, j, g - shards[j].lo + 1);
        }
    }
    if fired_spec(row, firing) {
        assert forall|j: int|
            0 <= j < shards.len() implies shard_fired_spec(#[trigger] shards[j], firing) by {
            lemma_chain_facts(shards, 1, j);
            assert forall|i: int|
                1 <= i < shards[j].cur.len() - 1 implies #[trigger] shards[j].cur@[i]
                == firing by {
                lemma_reassemble_index(shards, left_sent, right_sent, j, i);
                assert(row[shards[j].lo - 1 + i] == firing);
            }
        }
    }
}

/// One lockstep round over the whole chain. All boundary values are
/// gathered first — the model of the rendezvous exchange, in which every
/// send of a current boundary value happens before any neighbour uses it —
/// and only then does every shard advance. The chain afterwards represents
/// exactly the reference step of the row it represented before.
pub fn sharded_step(
    shards: Vec<Shard>,
    left_sent: usize,
    right_sent: usize,
    config: &Config,
) -> (out: Vec<Shard>)
    requires
        config_wf(config),
        chain_from(shards@, 1),
        left_sent < 16,
        right_sent < 16,
    ensures
        out.len() == shards.len(),
        chain_from(out@, 1),
        chain_end(out@, 1) == chain_end(shards@, 1),
        reassemble(out@, left_sent, right_sent) =~= next_row_spec(
            config,
            reassemble(shards@, left_sent, right_sent),
        ),
{
    let ghost pre = shards@;
    let k = shards.len();
    let mut lefts: Vec<usize> = Vec::new();
    let mut rights: Vec<usize> = Vec::new();
    let mut j: usize = 0;
    while j < k
        invariant
            chain_from(pre, 1),
            shards@ == pre,
            k == pre.len(),
            j <= k,
            lefts.len() == j,
            rights.len() == j,
            forall|jj: int| 0 <= jj < j ==> #[trigger] lefts@[jj] == left_input(pre, jj, left_sent),
            forall|jj: int|
                0 <= jj < j ==> #[trigger] rights@[jj] == right_input(pre, jj, right_sent),
        decreases k - j,
    {
        proof {
            lemma_chain_facts(pre, 1, j as int);
            if j > 0 {
                lemma_chain_facts(pre, 1, j as int - 1);
            }
            if j + 1 < k {
                lemma_chain_facts(pre, 1, j as int + 1);
            }
        }
        let lv: usize = if j == 0 {
            left_sent
        } else {
            let s: &Shard = &shards[j - 1];
            s.cur[s.cur.len() - 2]
        };
        let rv: usize = if j == k - 1 {
            right_sent
        } else {
            let s: &Shard = &shards[j + 1];
            s.cur[1]
        };
        lefts.push(lv);
        rights.push(rv);
        j += 1;
    }
    let mut rest = shards;
    let mut out: Vec<Shard> = Vec::new();
    let mut j: usize = 0;
    while j < k
        invariant
            config_wf(config),
            chain_from(pre, 1),
            left_sent < 16,
            right_sent < 16,
            k == pre.len(),
            j <= k,
            out.len() == j,
            rest@ =~= pre.subrange(j as int, k as int),
            lefts.len() == k,
            rights.len() == k,
            forall|jj: int| 0 <= jj < k ==> #[trigger] lefts@[jj] == left_input(pre, jj, left_sent),
            forall|jj: int|
                0 <= jj < k ==> #[trigger] rights@[jj] == right_input(pre, jj, right_sent),
            forall|jj: int| 0 <= jj < j ==> shard_wf(#[trigger] out@[jj]),
            forall|jj: int|
                0 <= jj < j ==> shard_stepped(
                    config,
                    pre[jj],
                    #[trigger] out@[jj],
                    left_input(pre, jj, left_sent),
                    right_input(pre, jj, right_sent),
                ),
        decreases k - j,
    {
        let mut s = rest.remove(0);
        assert(s == pre[j as int]);
        proof {
            lemma_chain_facts(pre, 1, j as int);
            if j > 0 {
                lemma_chain_facts(pre, 1, j as int - 1);
                assert(pre[j as int - 1].cur@[pre[j as int - 1].cur.len() - 2] < 16);
            }
            if j + 1 < k {
                lemma_chain_facts(pre, 1, j as int + 1);
                assert(pre[j as int + 1].cur@[1] < 16);
            }
            assert(lefts@[j as int] < 16);
            assert(rights@[j as int] < 16);
        }
        shard_step(&mut s, lefts[j], rights[j], config);
        out.push(s);
        j += 1;
    }
    proof {
        lemma_sharded_step_equivalence(config, pre, out@, left_sent, right_sent);
    }
    out
}

/// Rebuild the full row a chain of shards represents, between the two
/// fixed sentinel values.
pub fn reassemble_line(shards: &Vec<Shard>, left_sent: usize, right_sent: usize) -> (out: Vec<
    usize,
>)
    requires
        chain_from(shards@, 1),
    ensures
        out@ =~= reassemble(shards@, left_sent, right_sent),
{
    let mut out: Vec<usize> = Vec::new();
    out.push(left_sent);
    let mut j: usize = 0;
    while j < shards.len()
        invariant
            chain_from(shards@, 1),
            j <= shards.len(),
            out@ =~= seq![left_sent] + interior_concat(shards@.subrange(0, j as int)),
        decreases shards.len() - j,
    {
        proof {
            lemma_chain_facts(shards@, 1, j as int);
        }
        let s: &Shard = &shards[j];
        let mut i: usize = 1;
        while i < s.cur.len() - 1
            invariant
                chain_from(shards@, 1),
                j < shards.len(),
                s == shards@[j as int],
                shard_wf(*s),
                1 <= i <= s.cur.len() - 1,
                out@ =~= seq![left_sent] + interior_concat(shards@.subrange(0, j as int))
                    + s.cur@.subrange(1, i as int),
            decreases s.cur.len() - 1 - i,
        {
            out.push(s.cur[i]);
            i += 1;
        }
        proof {
            crate::partition::lemma_interior_concat_push(
                shards@.subrange(0, j as int),
                shards@[j as int],
            );
            assert(shards@.subrange(0, j as int).push(shards@[j as int]) =~= shards@.subrange(
                0,
                j as int + 1,
            ));
            assert(crate::shard::shard_interior(shards@[j as int]) =~= s.cur@.subrange(
                1,
                s.cur.len() - 1,
            ));
        }
        j += 1;
    }
    out.push(right_sent);
    proof {
        assert(shards@.subrange(0, shards.len() as int) =~= shards@);
    }
    out
}

/// The orchestrator: partition the row, run lockstep rounds with a single
/// global termination decision per round, and return the reassembled final
/// row, the step count, and whether the run ended by firing (`true`) or by
/// exhausting the safety bound `2n - 2` (`false`). The result row is
/// exactly the reference simulation of the input row after the same number
/// of steps — the partitioned run is equivalent to the single-shard one.
pub fn sharded_simulate(row: &Vec<usize>, k: usize, config: &Config) -> (res: Result<
    (Vec<usize>, usize, bool),
    SimError,
>)
    requires
        config_wf(config),
        row_wf(row@),
        row.len() <= usize::MAX / 2 - 2,
    ensures
        match res {
            Ok(r) => {
                &&& 1 <= k <= row.len() - 2
                &&& r.0@ == sim_spec(config, row@, r.1 as nat)
                &&& r.1 <= 2 * (row.len() - 2) - 1
                &&& r.2 == fired_spec(r.0@, config.firing)
                &&& (r.2 || r.1 == 2 * (row.len() - 2) - 1)
                &&& (forall|tt: nat|
                    tt < r.1 ==> !fired_spec(sim_spec(config, row@, tt), config.firing))
            },
            Err(e) => e == SimError::ConfigError && !(1 <= k <= row.len() - 2),
        },
{
    let n: usize = row.len() - 2;
    let mut shards = match split(row, k) {
        Ok(s) => s,
        Err(e) => {
            return Err(e);
        },
    };
    let ls: usize = row[0];
    let rs: usize = row[n + 1];
    let ghost row0 = row@;
    proof {
        assert(reassemble(shards@, ls, rs) == row0);
        lemma_all_fired_iff(shards@, ls, rs, config.firing);
        assert forall|j: int| 0 <= j < shards@.len() implies shard_wf(#[trigger] shards@[j]) by {
            lemma_chain_facts(shards@, 1, j);
        }
    }
    let mut t: usize = 0;
    let mut fired_now: bool = all_fired(&shards, config.firing);
    let mut done: bool = fired_now || t > 2 * n - 2;
    while !done
        invariant
            config_wf(config),
            1 <= n <= usize::MAX / 2 - 4,
            row0.len() == n + 2,
            row_cells_bounded(row0),
            ls == row0[0],
            rs == row0[n + 1],
            ls < 16,
            rs < 16,
            chain_from(shards@, 1),
            chain_end(shards@, 1) == n + 1,
            t <= 2 * n - 1,
            reassemble(shards@, ls, rs) == sim_spec(config, row0, t as nat),
            fired_now == all_shards_fired(shards@, config.firing),
            fired_now == fired_spec(sim_spec(config, row0, t as nat), config.firing),
            done == (fired_now || t > 2 * n - 2),
            forall|tt: nat| tt < t ==> !fired_spec(sim_spec(config, row0, tt), config.firing),
        decreases 2 * n - 1 - t,
    {
        shards = sharded_step(shards, ls, rs, config);
        t += 1;
        proof {
            assert(reassemble(shards@, ls, rs) =~= sim_spec(config, row0, t as nat));
            lemma_all_fired_iff(shards@, ls, rs, config.firing);
            assert forall|j: int|
                0 <= j < shards@.len() implies shard_wf(#[trigger] shards@[j]) by {
                lemma_chain_facts(shards@, 1, j);
            }
        }
        fired_now = all_fired(&shards, config.firing);
        done = fired_now || t > 2 * n - 2;
    }
    let out = reassemble_line(&shards, ls, rs);
    Ok((out, t, fired_now))
}

} // verus!
