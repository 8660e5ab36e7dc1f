use buster_optimizer::buster::{BusterLayout, BusterPart};
use buster_optimizer::config::Config;
use buster_optimizer::optimizer::{simulate, simulate_new};

fn part(name: &str, attack: u8, energy: u8, range: u8, rapid: u8) -> BusterPart {
    BusterPart { name: name.to_string(), attack, energy, range, rapid }
}

fn config(weights: (i32, i32, i32, i32), adapter_plug: bool, sequel: bool, parts: Vec<BusterPart>) -> Config {
    Config {
        adapter_plug,
        attack_weight: weights.0,
        energy_weight: weights.1,
        range_weight: weights.2,
        rapid_weight: weights.3,
        sequel,
        buster_parts: parts,
    }
}

fn names(layout: &BusterLayout) -> Vec<String> {
    layout.buster_parts.iter().map(|p| p.name.clone()).collect()
}

/// Best score over every selection of one to `max` distinct entries, found by
/// trying every subset.
fn brute_force_best(cfg: &Config, max: usize) -> i32 {
    let n = cfg.buster_parts.len();
    let mut best: Option<i32> = None;
    for mask in 1u32..(1u32 << n) {
        if (mask.count_ones() as usize) > max {
            continue;
        }
        let mut layout = BusterLayout::empty();
        for i in 0..n {
            if mask & (1 << i) != 0 {
                layout.buster_parts.push(cfg.buster_parts[i].clone());
            }
        }
        let s = layout.score(cfg);
        if best.map_or(true, |b| s > b) {
            best = Some(s);
        }
    }
    best.unwrap()
}

#[test]
fn three_part_catalog_picks_attack_and_all_round() {
    let cfg = config(
        (1, 1, 1, 1),
        false,
        false,
        vec![part("A", 3, 0, 0, 0), part("B", 0, 3, 0, 0), part("C", 1, 1, 1, 1)],
    );
    let best = simulate(&cfg);
    assert_eq!(names(&best), vec!["A".to_string(), "C".to_string()]);
    assert_eq!(best.stats(&cfg), (5, 2, 2, 2));
    assert_eq!(best.score(&cfg), 11);
}

#[test]
fn zero_weights_keep_first_enumerated() {
    let cfg = config(
        (0, 0, 0, 0),
        true,
        false,
        vec![part("A", 3, 0, 0, 0), part("B", 0, 3, 0, 0), part("C", 1, 1, 1, 1)],
    );
    let best = simulate_new(&cfg);
    assert_eq!(names(&best), vec!["A".to_string()]);
    assert_eq!(best.score(&cfg), 0);
}

#[test]
fn empty_catalog_gives_base_stats() {
    let cfg = config((2, -3, 5, 7), true, true, Vec::new());
    let best = simulate(&cfg);
    assert!(best.buster_parts.is_empty());
    assert_eq!(best.stats(&cfg), (1, 1, 1, 1));
    assert_eq!(best.score(&cfg), 2 - 3 + 5 + 7);
}

#[test]
fn adapter_plug_allows_three_parts() {
    let parts = vec![part("A", 2, 0, 0, 0), part("B", 0, 2, 0, 0), part("C", 0, 0, 2, 0)];
    let two = simulate(&config((1, 1, 1, 1), false, false, parts.clone()));
    assert_eq!(two.buster_parts.len(), 2);
    let cfg = config((1, 1, 1, 1), true, false, parts);
    let three = simulate(&cfg);
    assert_eq!(names(&three), vec!["A".to_string(), "B".to_string(), "C".to_string()]);
    assert_eq!(three.score(&cfg), 10);
}

#[test]
fn negative_scores_still_pick_a_part() {
    // Every selection scores below zero; the best of them is still returned.
    let cfg = config(
        (1, -100, 0, 0),
        false,
        false,
        vec![part("A", 3, 0, 0, 0), part("B", 0, 1, 0, 0)],
    );
    let best = simulate(&cfg);
    assert_eq!(names(&best), vec!["A".to_string()]);
    assert_eq!(best.score(&cfg), 4 - 100);
}

#[test]
fn negative_weight_avoids_part() {
    let cfg = config(
        (1, -1, 0, 0),
        false,
        false,
        vec![part("Heavy", 1, 5, 0, 0), part("Light", 2, 0, 0, 0), part("Scope", 0, 0, 4, 0)],
    );
    let best = simulate(&cfg);
    assert_eq!(names(&best), vec!["Light".to_string()]);
    assert_eq!(best.score(&cfg), 3 - 1);
}

#[test]
fn caps_limit_stacking() {
    // Two attack parts overflow the cap; attack plus rapid is better.
    let cfg = config(
        (1, 0, 0, 1),
        false,
        false,
        vec![part("A1", 6, 0, 0, 0), part("A2", 6, 0, 0, 0), part("R", 0, 0, 0, 3)],
    );
    let best = simulate(&cfg);
    assert_eq!(names(&best), vec!["A1".to_string(), "R".to_string()]);
    assert_eq!(best.stats(&cfg), (7, 1, 1, 4));
    assert_eq!(best.score(&cfg), 11);
}

#[test]
fn no_entry_used_twice() {
    let cfg = config(
        (1, 1, 1, 1),
        true,
        true,
        vec![part("Only", 2, 2, 2, 2), part("Weak", 0, 0, 0, 0)],
    );
    // Three slots, but the one useful part is taken once.
    let best = simulate(&cfg);
    assert_eq!(names(&best), vec!["Only".to_string()]);
    assert_eq!(best.stats(&cfg), (3, 3, 3, 3));
}

#[test]
fn matches_exhaustive_search() {
    let catalog = vec![
        part("Item0", 6, 0, 0, 0),
        part("Item1", 0, 5, 0, 0),
        part("Item2", 6, 1, 0, 0),
        part("Item3", 1, 1, 3, 0),
        part("Item4", 0, 0, 0, 6),
        part("Item5", 2, 2, 2, 2),
        part("Item6", 0, 3, 1, 1),
    ];
    let weight_sets = [(1, 1, 0, 0), (3, -1, 2, 1), (-2, 1, 1, 4), (1, 1, 1, 1), (0, 0, -1, 5)];
    for &w in weight_sets.iter() {
        for &adapter in [false, true].iter() {
            for &sequel in [false, true].iter() {
                let cfg = config(w, adapter, sequel, catalog.clone());
                let best = simulate(&cfg);
                let max = if adapter { 3 } else { 2 };
                assert!(!best.buster_parts.is_empty() && best.buster_parts.len() <= max);
                assert_eq!(best.score(&cfg), brute_force_best(&cfg, max));
            }
        }
    }
}
