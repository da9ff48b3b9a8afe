use vstd::prelude::*;

verus! {

/// Number of entries of the dense rule table: one per packed
/// (left, center, right) triple of 4-bit state indices.
pub const RULES_LEN: usize = 4096;

/// Upper bound on the number of states: indices must fit in 4 bits so that
/// a triple packs into one table index.
pub const STATE_LIMIT: usize = 16;

/// One automaton state as loaded from the rule file: a display name, two
/// colour strings for the presentation layer, and the class tag that the
/// simulation reads ("general", "soldier", "firing", "external", ...).
#[derive(Debug, Clone)]
pub struct State {
    pub name: String,
    pub foreground: String,
    pub background: String,
    pub class: String,
}

/// The immutable per-run configuration: the state set, the index of the
/// single state of each load-bearing class, and the dense transition table.
/// The table is total: every packed triple resolves to some state index.
#[derive(Debug)]
pub struct Config {
    pub states: Vec<State>,
    pub general: usize,
    pub soldier: usize,
    pub firing: usize,
    pub external: usize,
    pub rules: Vec<usize>,
}

/// Pack a state triple into its rule-table index.
pub open spec fn pack_spec(left: int, center: int, right: int) -> int {
    left * 256 + center * 16 + right
}

/// A well-formed configuration: a full table whose entries are themselves
/// valid state indices, and valid indices for the four special classes.
pub open spec fn config_wf(config: &Config) -> bool {
    &&& config.rules.len() == RULES_LEN
    &&& (forall|i: int| 0 <= i < RULES_LEN ==> #[trigger] config.rules@[i] < STATE_LIMIT)
    &&& config.general < STATE_LIMIT
    &&& config.soldier < STATE_LIMIT
    &&& config.firing < STATE_LIMIT
    &&& config.external < STATE_LIMIT
}

/// What the rule table answers for one window: the successor of `center`
/// given its two neighbours.
pub open spec fn next_cell_spec(config: &Config, left: usize, center: usize, right: usize) -> usize {
    config.rules@[pack_spec(left as int, center as int, right as int)]
}

/// Rule lookup: pure, total, O(1) through the dense table.
pub fn nextcell(left: usize, center: usize, right: usize, config: &Config) -> (next: usize)
    requires
        config_wf(config),
        left < STATE_LIMIT,
        center < STATE_LIMIT,
        right < STATE_LIMIT,
    ensures
        next == next_cell_spec(config, left, center, right),
        next < STATE_LIMIT,
{
    config.rules[left * 256 + center * 16 + right]
}

} // verus!
