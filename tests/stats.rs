use buster_optimizer::buster::{BusterLayout, BusterPart};
use buster_optimizer::config::Config;

fn part(name: &str, attack: u8, energy: u8, range: u8, rapid: u8) -> BusterPart {
    BusterPart { name: name.to_string(), attack, energy, range, rapid }
}

fn config(weights: (i32, i32, i32, i32), sequel: bool) -> Config {
    Config {
        adapter_plug: false,
        attack_weight: weights.0,
        energy_weight: weights.1,
        range_weight: weights.2,
        rapid_weight: weights.3,
        sequel,
        buster_parts: Vec::new(),
    }
}

#[test]
fn clamp_caps_each_stat() {
    let cfg = config((1, 1, 1, 1), false);
    assert_eq!(BusterLayout::clamp_stats(&cfg, 9, 7, 3, 5), (7, 7, 3, 4));
    assert_eq!(BusterLayout::clamp_stats(&cfg, 0, 255, 8, 4), (0, 7, 7, 4));
    let sequel = config((1, 1, 1, 1), true);
    assert_eq!(BusterLayout::clamp_stats(&sequel, 9, 7, 3, 5), (7, 7, 3, 5));
    assert_eq!(BusterLayout::clamp_stats(&sequel, 1, 1, 1, 200), (1, 1, 1, 7));
}

#[test]
fn clamp_is_monotone() {
    let cfg = config((1, 1, 1, 1), false);
    let mut prev = BusterLayout::clamp_stats(&cfg, 0, 0, 0, 0);
    for v in 1..=255u8 {
        let cur = BusterLayout::clamp_stats(&cfg, v, v, v, v);
        assert!(prev.0 <= cur.0 && prev.1 <= cur.1 && prev.2 <= cur.2 && prev.3 <= cur.3);
        assert!(cur.0 <= 7 && cur.1 <= 7 && cur.2 <= 7 && cur.3 <= 4);
        prev = cur;
    }
}

#[test]
fn score_weights_capped_stats() {
    let cfg = config((2, 3, -1, 10), false);
    assert_eq!(BusterLayout::score_stats(&cfg, 9, 2, 4, 6), 2 * 7 + 3 * 2 - 4 + 10 * 4);
    let sequel = config((2, 3, -1, 10), true);
    assert_eq!(BusterLayout::score_stats(&sequel, 9, 2, 4, 6), 2 * 7 + 3 * 2 - 4 + 10 * 6);
}

#[test]
fn score_is_linear_in_weights() {
    let a = config((2, -1, 3, 4), false);
    let b = config((-5, 2, 1, 0), false);
    let sum = config((2 * 2 - 5 * 3, -2 + 2 * 3, 2 * 3 + 3, 2 * 4), false);
    let sa = BusterLayout::score_stats(&a, 3, 8, 2, 9);
    let sb = BusterLayout::score_stats(&b, 3, 8, 2, 9);
    assert_eq!(BusterLayout::score_stats(&sum, 3, 8, 2, 9), 2 * sa + 3 * sb);
    // Negating the energy weight negates its term of 7.
    let neg = config((2, 1, 3, 4), false);
    assert_eq!(BusterLayout::score_stats(&neg, 3, 8, 2, 9), sa + 2 * 7);
}

#[test]
fn score_of_capped_stats_equals_score_of_raw() {
    let cfg = config((3, 1, 4, 1), false);
    let (a, e, r, p) = BusterLayout::clamp_stats(&cfg, 20, 3, 9, 6);
    assert_eq!(BusterLayout::score_stats(&cfg, a, e, r, p), BusterLayout::score_stats(&cfg, 20, 3, 9, 6));
}

#[test]
fn layout_stats_add_base_and_parts() {
    let cfg = config((1, 1, 1, 1), false);
    let mut layout = BusterLayout::empty();
    assert_eq!(layout.stats(&cfg), (1, 1, 1, 1));
    assert_eq!(layout.score(&cfg), 4);
    layout.buster_parts.push(part("X", 2, 0, 1, 1));
    layout.buster_parts.push(part("Y", 1, 3, 0, 1));
    assert_eq!(layout.stats(&cfg), (4, 4, 2, 3));
    assert_eq!(layout.score(&cfg), 13);
}

#[test]
fn layout_stats_saturate_on_large_parts() {
    let cfg = config((1, 2, 3, 4), true);
    let mut layout = BusterLayout::empty();
    layout.buster_parts.push(part("Big", 255, 200, 0, 255));
    layout.buster_parts.push(part("Big2", 255, 100, 0, 255));
    assert_eq!(layout.stats(&cfg), (7, 7, 1, 7));
    assert_eq!(layout.score(&cfg), 7 + 14 + 3 + 28);
}

#[test]
fn scoring_twice_gives_same_value() {
    let cfg = config((5, -2, 1, 3), false);
    let mut layout = BusterLayout::empty();
    layout.buster_parts.push(part("X", 2, 4, 1, 6));
    let first = layout.score(&cfg);
    let second = layout.score(&cfg);
    assert_eq!(first, second);
    assert_eq!(first, 5 * 3 - 2 * 5 + 2 + 3 * 4);
}

#[test]
fn weight_bound_check() {
    assert!(config((1, -1, 1, 1), false).has_bounded_weights());
    assert!(config((i32::MAX / 7, 0, 0, 0), false).has_bounded_weights());
    assert!(!config((i32::MAX / 7 + 1, 0, 0, 0), false).has_bounded_weights());
    assert!(!config((i32::MIN, 0, 0, 0), false).has_bounded_weights());
}

#[test]
fn part_clone_keeps_fields() {
    let p = part("Blaster", 1, 2, 3, 4);
    let q = p.clone();
    assert_eq!((q.name.as_str(), q.attack, q.energy, q.range, q.rapid), ("Blaster", 1, 2, 3, 4));
}
