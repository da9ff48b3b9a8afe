use firing_squad::parse::ParseState;
use firing_squad::parse::classify;
use firing_squad::parse::parse_begin;
use firing_squad::parse::parse_rule_file;
use firing_squad::parse::parse_rules;
use firing_squad::parse::parse_states;
use firing_squad::color::color_code;
use firing_squad::row::fired;
use firing_squad::row::first_line;
use firing_squad::row::new_line;
use firing_squad::rule::Config;
use firing_squad::rule::State;
use firing_squad::rule::nextcell;
use firing_squad::step::calc_next;
use firing_squad::step::nextline;
use firing_squad::step::simulate;

fn state(name: &str, class: &str) -> State {
    State {
        name: name.to_string(),
        foreground: "ff0000".to_string(),
        background: "000000".to_string(),
        class: class.to_string(),
    }
}

/// States: 0 = soldier (S), 1 = general (G), 2 = firing (F), 3 = external (X).
/// Every window becomes F except (S,S,S) -> S.
fn three_state_config() -> Config {
    let mut rules = vec![2usize; 4096];
    rules[0] = 0;
    Config {
        states: vec![
            state("S", "soldier"),
            state("G", "general"),
            state("F", "firing"),
            state("X", "external"),
        ],
        general: 1,
        soldier: 0,
        firing: 2,
        external: 3,
        rules,
    }
}

/// A table under which nothing ever fires: every cell keeps its center value.
fn inert_config() -> Config {
    let mut rules = vec![0usize; 4096];
    for i in 0..4096 {
        rules[i] = (i / 16) % 16;
    }
    Config {
        states: vec![
            state("S", "soldier"),
            state("G", "general"),
            state("F", "firing"),
            state("X", "external"),
        ],
        general: 1,
        soldier: 0,
        firing: 2,
        external: 3,
        rules,
    }
}

#[test]
fn nextcell_reads_the_packed_table() {
    let config = three_state_config();
    assert_eq!(nextcell(0, 0, 0, &config), 0);
    assert_eq!(nextcell(3, 1, 3, &config), 2);
    assert_eq!(nextcell(1, 0, 3, &config), 2);
}

#[test]
fn new_line_seeds_soldiers_between_sentinels() {
    let config = three_state_config();
    let cells = new_line(4, &config);
    assert_eq!(cells, vec![3, 0, 0, 0, 0, 3]);
}

#[test]
fn first_line_puts_the_general_at_one() {
    let config = three_state_config();
    let cells = first_line(4, &config);
    assert_eq!(cells, vec![3, 1, 0, 0, 0, 3]);
}

#[test]
fn fired_checks_every_interior_cell() {
    assert!(fired(&vec![3, 2, 2, 3], 2));
    assert!(!fired(&vec![3, 2, 0, 3], 2));
    assert!(fired(&vec![3, 3], 2));
}

#[test]
fn nextline_applies_the_rule_to_the_interior() {
    let config = three_state_config();
    let cur = vec![3, 1, 0, 0, 3];
    let mut nex = vec![3, 0, 0, 0, 3];
    nextline(&cur, &mut nex, &config);
    // (X,G,S) -> F, (G,S,S) -> F, (S,S,X) -> F
    assert_eq!(nex, vec![3, 2, 2, 2, 3]);
}

#[test]
fn calc_next_writes_only_the_window_span() {
    let config = inert_config();
    let cur = vec![3, 1, 0, 3];
    let mut nex = vec![9, 9, 9, 9];
    calc_next(&mut nex, 1, &cur, &config);
    // inert table keeps centers: 1 and 0
    assert_eq!(nex, vec![9, 1, 0, 9]);
}

#[test]
fn single_soldier_resolves_in_the_first_step() {
    let config = three_state_config();
    let mut current = first_line(1, &config);
    let mut next_cells = new_line(1, &config);
    let t = simulate(&mut current, &mut next_cells, &config, 1);
    assert_eq!(t, 1);
    assert_eq!(current, vec![3, 2, 3]);
    assert!(fired(&current, config.firing));
}

#[test]
fn two_soldiers_fire_after_one_step() {
    let config = three_state_config();
    let mut current = first_line(2, &config);
    let mut next_cells = new_line(2, &config);
    let t = simulate(&mut current, &mut next_cells, &config, 2);
    assert_eq!(t, 1);
    assert_eq!(current, vec![3, 2, 2, 3]);
    assert!(fired(&current, config.firing));
}

#[test]
fn firing_rows_stay_fired() {
    // every window with a firing center keeps firing
    let mut rules = vec![0usize; 4096];
    for l in 0..16 {
        for c in 0..16 {
            for r in 0..16 {
                rules[(l << 8) + (c << 4) + r] = if c == 2 { 2 } else { 0 };
            }
        }
    }
    let mut config = three_state_config();
    config.rules = rules;
    let cur = vec![3, 2, 2, 2, 3];
    let mut nex = vec![3, 0, 0, 0, 3];
    nextline(&cur, &mut nex, &config);
    assert!(fired(&nex, 2));
    let mut nex2 = vec![3, 0, 0, 0, 3];
    nextline(&nex, &mut nex2, &config);
    assert!(fired(&nex2, 2));
}

#[test]
fn bound_exhaustion_stops_an_inert_run() {
    let config = inert_config();
    let n = 5;
    let mut current = first_line(n, &config);
    let mut next_cells = new_line(n, &config);
    let t = simulate(&mut current, &mut next_cells, &config, n);
    assert_eq!(t, 2 * n - 1);
    assert!(!fired(&current, config.firing));
    // the row never changed under the inert table
    assert_eq!(current, first_line(n, &config));
}

#[test]
fn sentinels_never_change() {
    let config = three_state_config();
    let n = 7;
    let mut current = first_line(n, &config);
    let mut next_cells = new_line(n, &config);
    simulate(&mut current, &mut next_cells, &config, n);
    assert_eq!(current[0], config.external);
    assert_eq!(current[n + 1], config.external);
}

#[test]
fn color_code_renders_decimal_triples() {
    // the rule file stores colours in blue, green, red order
    assert_eq!(color_code(&"ff8000".to_string()), "0;128;255");
    assert_eq!(color_code(&"000000".to_string()), "0;0;0");
    assert_eq!(color_code(&"0a0b0c".to_string()), "12;11;10");
}

#[test]
fn parse_begin_recognises_section_headers() {
    assert_eq!(parse_begin("state_number 4"), ParseState::FoundState(4));
    assert_eq!(parse_begin("rule_number 12"), ParseState::FoundRule(12));
    assert_eq!(parse_begin("anything else"), ParseState::Begin);
    assert_eq!(parse_begin(""), ParseState::Begin);
}

#[test]
fn parse_states_reads_the_four_fields() {
    let (next, state) = parse_states("GEN@ff0000,00ff00,general", 2);
    assert_eq!(next, ParseState::FoundState(1));
    assert_eq!(state.name, "GEN");
    assert_eq!(state.foreground, "ff0000");
    assert_eq!(state.background, "00ff00");
    assert_eq!(state.class, "general");
    let (done, state2) = parse_states("F@00ff00,ff0000,firing", 1);
    assert_eq!(done, ParseState::Begin);
    assert_eq!(state2.name, "F");
}

#[test]
fn parse_rules_packs_the_window_index() {
    let states = vec![
        state("S", "soldier"),
        state("G", "general"),
        state("F", "firing"),
        state("X", "external"),
    ];
    let (next, idx, n_idx) = parse_rules("X##G##S->F", 3, &states);
    assert_eq!(next, ParseState::FoundRule(2));
    assert_eq!(idx, (3 << 8) + (1 << 4), "packed (X, G, S)");
    assert_eq!(n_idx, 2);
    let (done, idx2, n_idx2) = parse_rules("S##S##S->S", 1, &states);
    assert_eq!(done, ParseState::Begin);
    assert_eq!(idx2, 0);
    assert_eq!(n_idx2, 0);
}

#[test]
fn parse_rule_file_builds_a_total_table() {
    let text = "state_number 4\n\
                S@101010,202020,soldier\n\
                G@303030,404040,general\n\
                F@505050,606060,firing\n\
                X@707070,808080,external\n\
                rule_number 2\n\
                X##G##S->F\n\
                G##S##X->F\n"
        .to_string();
    let mut config = parse_rule_file(&text);
    assert_eq!(config.states.len(), 4);
    assert_eq!(config.states[1].name, "G");
    assert_eq!(config.states[2].class, "firing");
    // the two loaded rules
    assert_eq!(config.rules[(3 << 8) + (1 << 4)], 2);
    assert_eq!(config.rules[(1 << 8) + (3 << 0)], 2);
    // an unloaded triple keeps its center value
    assert_eq!(config.rules[(0 << 8) + (1 << 4) + 0], 1);
    assert_eq!(config.rules[(5 << 8) + (7 << 4) + 9], 7);
    // classification fills the four indices
    classify(&mut config);
    assert_eq!(config.soldier, 0);
    assert_eq!(config.general, 1);
    assert_eq!(config.firing, 2);
    assert_eq!(config.external, 3);
}

#[test]
fn parsed_file_drives_a_run() {
    let text = "state_number 4\n\
                S@101010,202020,soldier\n\
                G@303030,404040,general\n\
                F@505050,606060,firing\n\
                X@707070,808080,external\n\
                rule_number 2\n\
                X##G##X->F\n\
                F##F##F->F\n"
        .to_string();
    let mut config = parse_rule_file(&text);
    classify(&mut config);
    let mut current = first_line(1, &config);
    let mut next_cells = new_line(1, &config);
    let t = simulate(&mut current, &mut next_cells, &config, 1);
    assert_eq!(t, 1);
    assert!(fired(&current, config.firing));
}

#[test]
fn classify_keeps_missing_classes_and_takes_the_last_match() {
    let mut config = parse_rule_file(
        &"state_number 3\n\
           A@101010,202020,general\n\
           B@303030,404040,general\n\
           C@505050,606060,decoration\n"
            .to_string(),
    );
    config.soldier = 9;
    classify(&mut config);
    // two states claim "general": the later one wins, as the original scan did
    assert_eq!(config.general, 1);
    // no state carries "soldier": the previous index stays
    assert_eq!(config.soldier, 9);
}
