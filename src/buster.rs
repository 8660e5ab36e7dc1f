use crate::config::{abs, Config, STAT_CAP};
use vstd::prelude::*;

verus! {

/// One buster part and what it adds to each of the four stats.
pub struct BusterPart {
    pub name: String,
    pub attack: u8,
    pub energy: u8,
    pub range: u8,
    pub rapid: u8,
}

impl Clone for BusterPart {
    fn clone(&self) -> (r: Self)
        ensures
            r == *self,
    {
        BusterPart {
            name: self.name.clone(),
            attack: self.attack,
            energy: self.energy,
            range: self.range,
            rapid: self.rapid,
        }
    }
}

/// The four stats in the order attack, energy, range, rapid.
pub type Stats = (int, int, int, int);

/// `v` capped at `cap`.
pub open spec fn cap_at(v: int, cap: int) -> int {
    if v <= cap {
        v
    } else {
        cap
    }
}

/// Each stat capped at its maximum under `c`.
pub open spec fn clamped(c: Config, s: Stats) -> Stats {
    (
        cap_at(s.0, STAT_CAP as int),
        cap_at(s.1, STAT_CAP as int),
        cap_at(s.2, STAT_CAP as int),
        cap_at(s.3, c.rapid_cap()),
    )
}

/// Weighted sum of stats, taken as they are.
pub open spec fn weighted(c: Config, s: Stats) -> int {
    c.attack_weight * s.0 + c.energy_weight * s.1 + c.range_weight * s.2 + c.rapid_weight * s.3
}

/// Score of stats: the weighted sum of the capped stats.
pub open spec fn stat_score(c: Config, s: Stats) -> int {
    weighted(c, clamped(c, s))
}

/// Stats of a set of parts before capping: one for each stat, plus what each
/// part adds.
pub open spec fn raw_stats(parts: Seq<BusterPart>) -> Stats
    decreases parts.len(),
{
    if parts.len() == 0 {
        (1, 1, 1, 1)
    } else {
        let r = raw_stats(parts.drop_last());
        let p = parts.last();
        (r.0 + p.attack, r.1 + p.energy, r.2 + p.range, r.3 + p.rapid)
    }
}

/// Score of a set of parts under `c`.
pub open spec fn parts_score(c: Config, parts: Seq<BusterPart>) -> int {
    stat_score(c, raw_stats(parts))
}

pub open spec fn stats_of(t: (u8, u8, u8, u8)) -> Stats {
    (t.0 as int, t.1 as int, t.2 as int, t.3 as int)
}

proof fn lemma_term_bound(w: int, v: int)
    requires
        0 <= v <= STAT_CAP,
    ensures
        -(STAT_CAP as int) * abs(w) <= w * v <= STAT_CAP as int * abs(w),
{
    assert(-7 * abs(w) <= w * v <= 7 * abs(w)) by (nonlinear_arith)
        requires
            0 <= v <= 7,
            abs(w) == if w < 0 {
                -w
            } else {
                w
            },
    ;
}

/// A set of equipped parts, in the order they were chosen.
pub struct BusterLayout {
    pub buster_parts: Vec<BusterPart>,
}

impl BusterLayout {
    pub open spec fn spec_stats(&self, c: Config) -> Stats {
        clamped(c, raw_stats(self.buster_parts@))
    }

    pub open spec fn spec_score(&self, c: Config) -> int {
        parts_score(c, self.buster_parts@)
    }

    /// A layout with no parts.
    pub fn empty() -> (r: BusterLayout)
        ensures
            r.buster_parts@.len() == 0,
    {
        BusterLayout { buster_parts: Vec::new() }
    }

    /// Each stat capped at its maximum: 7, or 4 for rapid outside the sequel.
    pub fn clamp_stats(config: &Config, attack: u8, energy: u8, range: u8, rapid: u8) -> (r: (
        u8,
        u8,
        u8,
        u8,
    ))
        ensures
            stats_of(r) == clamped(*config, stats_of((attack, energy, range, rapid))),
    {
        let rapid_max: u8 = if config.sequel {
            crate::config::RAPID_CAP_SEQUEL
        } else {
            crate::config::RAPID_CAP
        };
        (
            if attack <= STAT_CAP { attack } else { STAT_CAP },
            if energy <= STAT_CAP { energy } else { STAT_CAP },
            if range <= STAT_CAP { range } else { STAT_CAP },
            if rapid <= rapid_max { rapid } else { rapid_max },
        )
    }

    /// Score of the given stats: capped first, then weighted.
    pub fn score_stats(config: &Config, attack: u8, energy: u8, range: u8, rapid: u8) -> (r: i32)
        requires
            config.weights_bounded(),
        ensures
            r as int == stat_score(*config, stats_of((attack, energy, range, rapid))),
    {
        let (a, e, g, p) = BusterLayout::clamp_stats(config, attack, energy, range, rapid);
        proof {
            lemma_term_bound(config.attack_weight as int, a as int);
            lemma_term_bound(config.energy_weight as int, e as int);
            lemma_term_bound(config.range_weight as int, g as int);
            lemma_term_bound(config.rapid_weight as int, p as int);
        }
        let ta = config.attack_weight as i64 * a as i64;
        let te = config.energy_weight as i64 * e as i64;
        let tg = config.range_weight as i64 * g as i64;
        let tp = config.rapid_weight as i64 * p as i64;
        (ta + te + tg + tp) as i32
    }
    /// The layout's stats: one for each stat plus what each part adds, capped.
    pub fn stats(&self, config: &Config) -> (r: (u8, u8, u8, u8))
        ensures
            stats_of(r) == self.spec_stats(*config),
    {
        let mut attack: u8 = 1;
        let mut energy: u8 = 1;
        let mut range: u8 = 1;
        let mut rapid: u8 = 1;
        let mut i: usize = 0;
        // Sums saturate at 255, which lies above every cap, so the capped
        // result is that of the exact sum.
        while i < self.buster_parts.len()
            invariant
                i <= self.buster_parts@.len(),
                attack as int == cap_at(raw_stats(self.buster_parts@.take(i as int)).0, 255),
                energy as int == cap_at(raw_stats(self.buster_parts@.take(i as int)).1, 255),
                range as int == cap_at(raw_stats(self.buster_parts@.take(i as int)).2, 255),
                rapid as int == cap_at(raw_stats(self.buster_parts@.take(i as int)).3, 255),
            decreases self.buster_parts@.len() - i,
        {
            let part = &self.buster_parts[i];
            assert(self.buster_parts@.take(i + 1).drop_last() == self.buster_parts@.take(i as int));
            attack = attack.saturating_add(part.attack);
            energy = energy.saturating_add(part.energy);
            range = range.saturating_add(part.range);
            rapid = rapid.saturating_add(part.rapid);
            i += 1;
        }
        assert(self.buster_parts@.take(i as int) == self.buster_parts@);
        BusterLayout::clamp_stats(config, attack, energy, range, rapid)
    }

    /// The layout's score: the weighted sum of its capped stats.
    pub fn score(&self, config: &Config) -> (r: i32)
        requires
            config.weights_bounded(),
        ensures
            r as int == self.spec_score(*config),
    {
        let (a, e, g, p) = self.stats(config);
        BusterLayout::score_stats(config, a, e, g, p)
    }
}

/// Weight of stat `i` (attack, energy, range, rapid) under `c`.
pub open spec fn weight(c: Config, i: int) -> int {
    if i == 0 {
        c.attack_weight as int
    } else if i == 1 {
        c.energy_weight as int
    } else if i == 2 {
        c.range_weight as int
    } else {
        c.rapid_weight as int
    }
}

/// Stat `i` of `s`.
pub open spec fn stat_at(s: Stats, i: int) -> int {
    if i == 0 {
        s.0
    } else if i == 1 {
        s.1
    } else if i == 2 {
        s.2
    } else {
        s.3
    }
}

/// What stat `i` contributes to the score of `s` under `c`.
pub open spec fn term(c: Config, s: Stats, i: int) -> int {
    weight(c, i) * stat_at(clamped(c, s), i)
}

/// Capping keeps the order of raw stats, stat by stat, and no capped stat
/// exceeds its cap.
pub proof fn lemma_clamp_monotone(c: Config, s1: Stats, s2: Stats)
    requires
        s1.0 <= s2.0,
        s1.1 <= s2.1,
        s1.2 <= s2.2,
        s1.3 <= s2.3,
    ensures
        clamped(c, s1).0 <= clamped(c, s2).0,
        clamped(c, s1).1 <= clamped(c, s2).1,
        clamped(c, s1).2 <= clamped(c, s2).2,
        clamped(c, s1).3 <= clamped(c, s2).3,
        clamped(c, s1).0 <= STAT_CAP,
        clamped(c, s1).1 <= STAT_CAP,
        clamped(c, s1).2 <= STAT_CAP,
        clamped(c, s1).3 <= c.rapid_cap(),
{
}

/// The score is linear in the weights: with the same caps, weights that are
/// `ka` times those of `a` plus `kb` times those of `b` score `ka` times the
/// score under `a` plus `kb` times that under `b`.
pub proof fn lemma_score_linear(a: Config, b: Config, r: Config, ka: int, kb: int, s: Stats)
    requires
        a.sequel == r.sequel,
        b.sequel == r.sequel,
        r.attack_weight == ka * a.attack_weight + kb * b.attack_weight,
        r.energy_weight == ka * a.energy_weight + kb * b.energy_weight,
        r.range_weight == ka * a.range_weight + kb * b.range_weight,
        r.rapid_weight == ka * a.rapid_weight + kb * b.rapid_weight,
    ensures
        stat_score(r, s) == ka * stat_score(a, s) + kb * stat_score(b, s),
{
    let v = clamped(r, s);
    assert(clamped(a, s) == v && clamped(b, s) == v);
    let (x0, x1, x2, x3) = (v.0, v.1, v.2, v.3);
    let (a0, a1, a2, a3) = (
        a.attack_weight as int,
        a.energy_weight as int,
        a.range_weight as int,
        a.rapid_weight as int,
    );
    let (b0, b1, b2, b3) = (
        b.attack_weight as int,
        b.energy_weight as int,
        b.range_weight as int,
        b.rapid_weight as int,
    );
    lemma_mix_term(ka, kb, a0, b0, x0);
    lemma_mix_term(ka, kb, a1, b1, x1);
    lemma_mix_term(ka, kb, a2, b2, x2);
    lemma_mix_term(ka, kb, a3, b3, x3);
    lemma_scale_sum(ka, a0 * x0, a1 * x1, a2 * x2, a3 * x3);
    lemma_scale_sum(kb, b0 * x0, b1 * x1, b2 * x2, b3 * x3);
}

proof fn lemma_mix_term(ka: int, kb: int, a: int, b: int, x: int)
    ensures
        (ka * a + kb * b) * x == ka * (a * x) + kb * (b * x),
{
    assert((ka * a + kb * b) * x == ka * (a * x) + kb * (b * x)) by (nonlinear_arith);
}

proof fn lemma_scale_sum(k: int, p0: int, p1: int, p2: int, p3: int)
    ensures
        k * (p0 + p1 + p2 + p3) == k * p0 + k * p1 + k * p2 + k * p3,
{
    assert(k * (p0 + p1 + p2 + p3) == k * p0 + k * p1 + k * p2 + k * p3) by (nonlinear_arith);
}

/// The score is the sum of the four stats' contributions, and negating the
/// weight of one stat negates that stat's contribution and leaves the others.
pub proof fn lemma_negated_weight(c: Config, d: Config, i: int, s: Stats)
    requires
        0 <= i < 4,
        c.sequel == d.sequel,
        weight(d, i) == -weight(c, i),
        forall|j: int| 0 <= j < 4 && j != i ==> weight(d, j) == weight(c, j),
    ensures
        stat_score(c, s) == term(c, s, 0) + term(c, s, 1) + term(c, s, 2) + term(c, s, 3),
        term(d, s, i) == -term(c, s, i),
        forall|j: int| 0 <= j < 4 && j != i ==> term(d, s, j) == term(c, s, j),
        stat_score(d, s) == stat_score(c, s) - 2 * term(c, s, i),
{
    assert(clamped(c, s) == clamped(d, s));
    let v = stat_at(clamped(c, s), i);
    assert((-weight(c, i)) * v == -(weight(c, i) * v)) by (nonlinear_arith);
    assert forall|j: int| 0 <= j < 4 && j != i implies term(d, s, j) == term(c, s, j) by {
        assert(weight(d, j) == weight(c, j));
    }
    if i == 0 {
        assert(term(d, s, 1) == term(c, s, 1) && term(d, s, 2) == term(c, s, 2) && term(d, s, 3) == term(c, s, 3));
    } else if i == 1 {
        assert(term(d, s, 0) == term(c, s, 0) && term(d, s, 2) == term(c, s, 2) && term(d, s, 3) == term(c, s, 3));
    } else if i == 2 {
        assert(term(d, s, 0) == term(c, s, 0) && term(d, s, 1) == term(c, s, 1) && term(d, s, 3) == term(c, s, 3));
    } else {
        assert(term(d, s, 0) == term(c, s, 0) && term(d, s, 1) == term(c, s, 1) && term(d, s, 2) == term(c, s, 2));
    }
}

/// Capping twice is capping once, so stats that are already capped score as
/// the raw stats do.
pub proof fn lemma_clamp_idempotent(c: Config, s: Stats)
    ensures
        clamped(c, clamped(c, s)) == clamped(c, s),
        stat_score(c, clamped(c, s)) == stat_score(c, s),
{
}

/// A layout with no parts has the base stats, one each, and scores the sum
/// of the weights.
pub proof fn lemma_empty_layout_base(c: Config, l: BusterLayout)
    requires
        l.buster_parts@.len() == 0,
    ensures
        l.spec_stats(c) == (1int, 1int, 1int, 1int),
        l.spec_score(c) == c.attack_weight + c.energy_weight + c.range_weight + c.rapid_weight,
{
    assert(raw_stats(l.buster_parts@) == (1int, 1int, 1int, 1int));
    assert(clamped(c, (1int, 1int, 1int, 1int)) == (1int, 1int, 1int, 1int));
}

} // verus!
