use firing_squad::orchestrator::reassemble_line;
use firing_squad::orchestrator::sharded_simulate;
use firing_squad::orchestrator::sharded_step;
use firing_squad::parallel::per_nextline;
use firing_squad::partition::SimError;
use firing_squad::partition::split;
use firing_squad::row::fired;
use firing_squad::row::first_line;
use firing_squad::row::new_line;
use firing_squad::rule::Config;
use firing_squad::rule::State;
use firing_squad::shard::boundary_values;
use firing_squad::shard::nextline_par;
use firing_squad::shard::shard_step;
use firing_squad::step::nextline;
use firing_squad::step::simulate;

fn state(name: &str, class: &str) -> State {
    State {
        name: name.to_string(),
        foreground: "ff0000".to_string(),
        background: "000000".to_string(),
        class: class.to_string(),
    }
}

fn base_states() -> Vec<State> {
    vec![
        state("S", "soldier"),
        state("G", "general"),
        state("F", "firing"),
        state("X", "external"),
    ]
}

/// A mixing table over the four used states: enough structure that every
/// cell depends on its whole window, and nothing ever fires.
fn mixing_config() -> Config {
    let mut rules = vec![0usize; 4096];
    for l in 0..16 {
        for c in 0..16 {
            for r in 0..16 {
                rules[(l << 8) + (c << 4) + r] = (l + 3 * c + 2 * r + 1) % 4;
            }
        }
    }
    Config {
        states: base_states(),
        general: 1,
        soldier: 0,
        firing: 15,
        external: 3,
        rules,
    }
}

/// States: 0 = S, 1 = G, 2 = F, 3 = X; every window becomes F except
/// (S,S,S) -> S, so a row fires quickly.
fn firing_config() -> Config {
    let mut rules = vec![2usize; 4096];
    rules[0] = 0;
    Config {
        states: base_states(),
        general: 1,
        soldier: 0,
        firing: 2,
        external: 3,
        rules,
    }
}

#[test]
fn split_rejects_bad_shard_counts() {
    let row = vec![3, 1, 0, 0, 3];
    assert_eq!(split(&row, 0).unwrap_err(), SimError::ConfigError);
    assert_eq!(split(&row, 4).unwrap_err(), SimError::ConfigError);
    assert!(split(&row, 3).is_ok());
}

#[test]
fn split_covers_the_interior_evenly() {
    let config = mixing_config();
    let row = first_line(10, &config);
    let shards = split(&row, 4).unwrap();
    let ranges: Vec<(usize, usize)> = shards.iter().map(|s| (s.lo, s.hi)).collect();
    assert_eq!(ranges, vec![(1, 4), (4, 7), (7, 9), (9, 11)]);
    for s in &shards {
        // each shard holds its slice of the row plus one halo cell per side
        assert_eq!(s.cur.len(), s.hi - s.lo + 2);
        assert_eq!(s.cur[..], row[s.lo - 1..s.hi + 1]);
    }
}

#[test]
fn split_one_cell_per_shard() {
    let config = mixing_config();
    let row = first_line(5, &config);
    let shards = split(&row, 5).unwrap();
    assert_eq!(shards.len(), 5);
    for (j, s) in shards.iter().enumerate() {
        assert_eq!((s.lo, s.hi), (j + 1, j + 2));
    }
}

#[test]
fn reassembly_restores_the_row() {
    let config = mixing_config();
    let row = first_line(9, &config);
    let shards = split(&row, 3).unwrap();
    assert_eq!(reassemble_line(&shards, row[0], row[10]), row);
}

#[test]
fn boundary_values_are_the_outer_owned_cells() {
    let config = mixing_config();
    let row = first_line(6, &config);
    let shards = split(&row, 2).unwrap();
    let (first_own, last_own) = boundary_values(&shards[0]);
    assert_eq!(first_own, row[1]);
    assert_eq!(last_own, row[3]);
}

#[test]
fn one_shard_step_matches_the_reference_step() {
    let config = mixing_config();
    let row = first_line(8, &config);
    let mut reference = new_line(8, &config);
    nextline(&row, &mut reference, &config);
    let shards = split(&row, 3).unwrap();
    let stepped = sharded_step(shards, row[0], row[9], &config);
    assert_eq!(reassemble_line(&stepped, row[0], row[9]), reference);
}

#[test]
fn shard_step_uses_the_received_halo_values() {
    let config = mixing_config();
    let row = first_line(6, &config);
    let mut shards = split(&row, 2).unwrap();
    // the right shard receives the left shard's last owned cell
    let left_in = shards[0].cur[shards[0].cur.len() - 2];
    let mut s = shards.remove(1);
    shard_step(&mut s, left_in, row[7], &config);
    let mut reference = new_line(6, &config);
    nextline(&row, &mut reference, &config);
    // its owned cells are the reference step of global indices 4..=6
    assert_eq!(s.cur[1..s.cur.len() - 1], reference[4..7]);
}

#[test]
fn nextline_par_fills_the_next_buffer() {
    let config = mixing_config();
    let row = first_line(6, &config);
    let mut shards = split(&row, 1).unwrap();
    let mut s = shards.remove(0);
    nextline_par(&mut s, &config);
    let mut reference = new_line(6, &config);
    nextline(&row, &mut reference, &config);
    assert_eq!(s.nex[1..7], reference[1..7]);
}

#[test]
fn per_nextline_matches_nextline() {
    let config = mixing_config();
    let row = first_line(11, &config);
    let mut seq_next = new_line(11, &config);
    nextline(&row, &mut seq_next, &config);
    let mut par_next = new_line(11, &config);
    per_nextline(&row, &mut par_next, &config);
    assert_eq!(par_next, seq_next);
}

#[test]
fn partitioned_run_equals_reference_run() {
    for &n in &[1usize, 2, 5, 10, 37] {
        for &k in &[1usize, 2, 3, n] {
            if k < 1 || k > n {
                continue;
            }
            for config in [mixing_config(), firing_config()] {
                let row = first_line(n, &config);
                let mut reference = first_line(n, &config);
                let mut scratch = new_line(n, &config);
                let t_ref = simulate(&mut reference, &mut scratch, &config, n);
                let (out, t, fired_flag) = sharded_simulate(&row, k, &config).unwrap();
                assert_eq!(t, t_ref, "step counts differ for n={}, k={}", n, k);
                assert_eq!(out, reference, "rows differ for n={}, k={}", n, k);
                assert_eq!(fired_flag, fired(&out, config.firing));
            }
        }
    }
}

#[test]
fn lockstep_rounds_match_the_reference_at_every_step() {
    let config = mixing_config();
    let n = 10;
    let mut reference = first_line(n, &config);
    let row = first_line(n, &config);
    let ls = row[0];
    let rs = row[n + 1];
    let mut shards = split(&row, 3).unwrap();
    for _ in 0..2 * n {
        shards = sharded_step(shards, ls, rs, &config);
        let mut stepped = new_line(n, &config);
        nextline(&reference, &mut stepped, &config);
        reference = stepped;
        assert_eq!(reassemble_line(&shards, ls, rs), reference);
    }
}

#[test]
fn orchestrator_reports_bound_exhaustion() {
    let config = mixing_config();
    let row = first_line(6, &config);
    let (out, t, fired_flag) = sharded_simulate(&row, 3, &config).unwrap();
    assert_eq!(t, 2 * 6 - 1, "never more than 2n-2+1 steps");
    assert!(!fired_flag);
    assert!(!fired(&out, config.firing));
}

#[test]
fn orchestrator_reports_firing() {
    let config = firing_config();
    let row = first_line(5, &config);
    let (out, t, fired_flag) = sharded_simulate(&row, 2, &config).unwrap();
    assert!(fired_flag);
    assert!(fired(&out, config.firing));
    assert!(t <= 2 * 5 - 1);
}

#[test]
fn orchestrator_rejects_bad_shard_counts() {
    let config = mixing_config();
    let row = first_line(4, &config);
    assert_eq!(sharded_simulate(&row, 0, &config).unwrap_err(), SimError::ConfigError);
    assert_eq!(sharded_simulate(&row, 5, &config).unwrap_err(), SimError::ConfigError);
}
