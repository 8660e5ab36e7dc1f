use buster_optimizer::buster::BusterPart;
use buster_optimizer::config::Config;
use buster_optimizer::optimizer::simulate;
use buster_optimizer::table::{build_table, simulate_table};

fn part(name: &str, attack: u8, energy: u8, range: u8, rapid: u8) -> BusterPart {
    BusterPart { name: name.to_string(), attack, energy, range, rapid }
}

fn config(weights: (i32, i32, i32, i32), adapter_plug: bool, parts: Vec<BusterPart>) -> Config {
    Config {
        adapter_plug,
        attack_weight: weights.0,
        energy_weight: weights.1,
        range_weight: weights.2,
        rapid_weight: weights.3,
        sequel: false,
        buster_parts: parts,
    }
}

fn names(parts: &[BusterPart]) -> Vec<&str> {
    parts.iter().map(|p| p.name.as_str()).collect()
}

fn three_parts() -> Vec<BusterPart> {
    vec![part("A", 3, 0, 0, 0), part("B", 0, 3, 0, 0), part("C", 1, 1, 1, 1)]
}

#[test]
fn table_cells_follow_recurrence() {
    let cfg = config((1, 1, 1, 1), false, three_parts());
    let table = build_table(&cfg, 2);
    assert_eq!(table.len(), 4);
    assert_eq!(table[0], vec![(1, 1, 1, 1); 3]);
    assert_eq!(table[1], vec![(1, 1, 1, 1), (4, 1, 1, 1), (4, 1, 1, 1)]);
    // Taking B alone ties with A alone, so A is kept.
    assert_eq!(table[2], vec![(1, 1, 1, 1), (4, 1, 1, 1), (4, 4, 1, 1)]);
    assert_eq!(table[3], vec![(1, 1, 1, 1), (2, 2, 2, 2), (5, 2, 2, 2)]);
}

#[test]
fn table_matches_exhaustive_on_three_parts() {
    let cfg = config((1, 1, 1, 1), false, three_parts());
    let by_table = simulate_table(&cfg);
    assert_eq!(names(&by_table.buster_parts), vec!["A", "C"]);
    assert_eq!(by_table.score(&cfg), 11);
    assert_eq!(by_table.score(&cfg), simulate(&cfg).score(&cfg));
}

#[test]
fn table_sums_saturate() {
    let cfg = config((1, 1, 1, 1), true, vec![part("X", 200, 0, 0, 0), part("Y", 100, 1, 0, 0)]);
    let table = build_table(&cfg, 3);
    assert_eq!(table[2][2], (255, 2, 1, 1));
}

#[test]
fn table_can_miss_optimum_under_caps() {
    // The one-slot cell keeps Item1, whose attack is then wasted under the cap;
    // Item2 with Item3 is the true optimum.
    let parts = vec![part("Item1", 6, 0, 0, 0), part("Item2", 0, 5, 0, 0), part("Item3", 6, 1, 0, 0)];
    let cfg = config((1, 1, 0, 0), false, parts);
    let by_table = simulate_table(&cfg);
    assert_eq!(names(&by_table.buster_parts), vec!["Item1", "Item2"]);
    assert_eq!(by_table.score(&cfg), 13);
    let exhaustive = simulate(&cfg);
    assert_eq!(names(&exhaustive.buster_parts), vec!["Item2", "Item3"]);
    assert_eq!(exhaustive.score(&cfg), 14);
}

#[test]
fn table_with_zero_weights_reads_back_nothing() {
    let cfg = config((0, 0, 0, 0), true, three_parts());
    assert!(simulate_table(&cfg).buster_parts.is_empty());
}

#[test]
fn table_on_empty_catalog() {
    let cfg = config((1, 2, 3, 4), false, Vec::new());
    let table = build_table(&cfg, 2);
    assert_eq!(table, vec![vec![(1, 1, 1, 1); 3]]);
    assert!(simulate_table(&cfg).buster_parts.is_empty());
}

#[test]
fn table_never_outscores_exhaustive_search() {
    let catalog = vec![
        part("Item0", 6, 0, 0, 0),
        part("Item1", 0, 5, 0, 0),
        part("Item2", 6, 1, 0, 0),
        part("Item3", 1, 1, 3, 0),
        part("Item4", 0, 0, 0, 6),
        part("Item5", 2, 2, 2, 2),
    ];
    for &w in [(1, 1, 0, 0), (3, -1, 2, 1), (-2, 1, 1, 4), (1, 1, 1, 1)].iter() {
        for &adapter in [false, true].iter() {
            let cfg = config(w, adapter, catalog.clone());
            let by_table = simulate_table(&cfg);
            let max = if adapter { 3 } else { 2 };
            assert!(by_table.buster_parts.len() <= max);
            if !by_table.buster_parts.is_empty() {
                assert!(by_table.score(&cfg) <= simulate(&cfg).score(&cfg));
            }
        }
    }
}
