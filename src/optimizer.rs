use crate::buster::{lemma_empty_layout_base, parts_score, BusterLayout, BusterPart};
use crate::config::Config;
use vstd::prelude::*;

verus! {

/// `idx` lists positions in `lo..hi` in strictly increasing order, so no
/// position appears twice.
pub open spec fn is_combination(idx: Seq<int>, lo: int, hi: int) -> bool {
    &&& forall|j: int| 0 <= j < idx.len() ==> lo <= #[trigger] idx[j] < hi
    &&& forall|j: int, k: int| 0 <= j < k < idx.len() ==> #[trigger] idx[j] < #[trigger] idx[k]
}

/// The catalog entries at the positions `idx`, in that order.
pub open spec fn pick(catalog: Seq<BusterPart>, idx: Seq<int>) -> Seq<BusterPart> {
    idx.map_values(|i: int| catalog[i])
}

/// `idx` chooses between one and `c.max_parts()` distinct entries of the
/// catalog of `c`.
pub open spec fn is_selection(c: Config, idx: Seq<int>) -> bool {
    &&& 1 <= idx.len() <= c.max_parts()
    &&& is_combination(idx, 0, c.buster_parts@.len() as int)
}

/// `l` is an optimal layout for `c`: an empty layout when the catalog is
/// empty, else a selection that no other selection outscores.
pub open spec fn is_optimal(c: Config, l: BusterLayout) -> bool {
    &&& c.buster_parts@.len() == 0 ==> l.buster_parts@.len() == 0
    &&& c.buster_parts@.len() > 0 ==> exists|idx: Seq<int>|
        is_selection(c, idx) && l.buster_parts@ == pick(c.buster_parts@, idx)
    &&& forall|idx: Seq<int>|
        is_selection(c, idx) ==> parts_score(c, #[trigger] pick(c.buster_parts@, idx))
            <= l.spec_score(c)
}

/// `a` comes before `b` in lexicographic order.
pub open spec fn lex_before(a: Seq<int>, b: Seq<int>) -> bool {
    exists|j: int|
        0 <= j < a.len() && j < b.len() && a.take(j) == b.take(j) && #[trigger] a[j] < #[trigger] b[j]
}

/// The search meets selection `a` before selection `b`: `a` is smaller, or
/// as large and lexicographically first.
pub open spec fn enumerated_before(a: Seq<int>, b: Seq<int>) -> bool {
    a.len() < b.len() || (a.len() == b.len() && lex_before(a, b))
}

/// `l` is the layout that the search keeps: a selection of the catalog of `c`
/// that every selection met before it scores strictly less than.
pub open spec fn is_first_best(c: Config, l: BusterLayout) -> bool {
    exists|idx: Seq<int>|
        {
            &&& is_selection(c, idx)
            &&& l.buster_parts@ == pick(c.buster_parts@, idx)
            &&& forall|x: Seq<int>|
                is_selection(c, x) && enumerated_before(x, idx) ==> parts_score(
                    c,
                    #[trigger] pick(c.buster_parts@, x),
                ) < l.spec_score(c)
        }
}

/// Two sequences that agree on their first `m` items, and differ at item `m`
/// with `x` the larger there, are not ordered with `x` first.
proof fn lemma_not_lex_before(x: Seq<int>, y: Seq<int>, m: int)
    requires
        0 <= m < x.len(),
        m < y.len(),
        x.take(m) == y.take(m),
        x[m] > y[m],
    ensures
        !lex_before(x, y),
{
    if lex_before(x, y) {
        let j = choose|j: int|
            0 <= j < x.len() && j < y.len() && x.take(j) == y.take(j) && #[trigger] x[j] < #[trigger] y[j];
        if j < m {
            assert(x.take(m)[j] == x[j] && y.take(m)[j] == y[j]);
        } else if j > m {
            assert(x.take(j)[m] == x[m] && y.take(j)[m] == y[m]);
        }
        assert(false);
    }
}

/// The best layout found so far, with the catalog positions it was built from.
struct Best {
    score: i32,
    layout: BusterLayout,
    picked: Ghost<Seq<int>>,
}

impl Best {
    /// `score` is the layout's score and the layout holds the `size` distinct
    /// catalog entries at `picked`.
    spec fn wf(&self, c: Config, size: int) -> bool {
        &&& self.picked@.len() == size
        &&& is_combination(self.picked@, 0, c.buster_parts@.len() as int)
        &&& self.layout.buster_parts@ == pick(c.buster_parts@, self.picked@)
        &&& self.score as int == self.layout.spec_score(c)
    }
}

spec fn best_wf(best: Option<Best>, c: Config, size: int) -> bool {
    match best {
        Some(b) => b.wf(c, size),
        None => true,
    }
}

/// `s` does not beat the best so far.
spec fn beaten_by(s: int, best: Option<Best>) -> bool {
    match best {
        Some(b) => s <= b.score,
        None => false,
    }
}

/// `best` is at least as good as `before`.
spec fn no_worse(best: Option<Best>, before: Option<Best>) -> bool {
    match before {
        Some(b) => beaten_by(b.score as int, best),
        None => true,
    }
}

/// `after` is `before`, or a strict improvement on it whose positions are
/// `prefix` followed by positions from `start` on (so it is one of the
/// completions tried), and that every completion of `prefix` met before it
/// scores strictly less than.
spec fn kept_first(
    c: Config,
    prefix: Seq<int>,
    start: int,
    part_count: int,
    before: Option<Best>,
    after: Option<Best>,
) -> bool {
    after == before || match after {
        Some(b) => {
            &&& match before {
                Some(o) => o.score < b.score,
                None => true,
            }
            &&& b.picked@.take(prefix.len() as int) == prefix
            &&& forall|j: int| prefix.len() <= j < b.picked@.len() ==> start <= #[trigger] b.picked@[j]
            &&& forall|x: Seq<int>|
                #![trigger is_combination(x, start, c.buster_parts@.len() as int)]
                x.len() == part_count && is_combination(x, start, c.buster_parts@.len() as int)
                    && lex_before(prefix + x, b.picked@) ==> parts_score(
                    c,
                    pick(c.buster_parts@, prefix + x),
                ) < b.score
        },
        None => false,
    }
}

proof fn lemma_pick_append(catalog: Seq<BusterPart>, a: Seq<int>, b: Seq<int>)
    ensures
        pick(catalog, a + b) == pick(catalog, a) + pick(catalog, b),
{
    assert(pick(catalog, a + b) =~= pick(catalog, a) + pick(catalog, b));
}

/// Tries every way to extend `current` (the entries at `prefix`) with
/// `part_count` more entries taken from positions `start..`, in increasing
/// order of position, and keeps in `best` the first layout whose score is
/// strictly greater than every one before it.
fn generate_layouts(
    config: &Config,
    current: BusterLayout,
    start: usize,
    part_count: usize,
    best: &mut Option<Best>,
    Ghost(prefix): Ghost<Seq<int>>,
)
    requires
        config.weights_bounded(),
        start <= config.buster_parts@.len(),
        is_combination(prefix, 0, start as int),
        current.buster_parts@ == pick(config.buster_parts@, prefix),
        best_wf(*old(best), *config, prefix.len() + part_count),
    ensures
        best_wf(*final(best), *config, prefix.len() + part_count),
        no_worse(*final(best), *old(best)),
        forall|c: Seq<int>|
            #![trigger is_combination(c, start as int, config.buster_parts@.len() as int)]
            c.len() == part_count && is_combination(c, start as int, config.buster_parts@.len() as int)
                ==> beaten_by(parts_score(*config, pick(config.buster_parts@, prefix + c)), *final(best)),
        config.buster_parts@.len() < start + part_count ==> *final(best) == *old(best),
        kept_first(*config, prefix, start as int, part_count as int, *old(best), *final(best)),
    decreases part_count,
{
    let ghost catalog = config.buster_parts@;
    let ghost n = catalog.len() as int;
    if part_count == 0 {
        let score = current.score(config);
        let better = match best {
            Some(b) => score > b.score,
            None => true,
        };
        if better {
            *best = Some(Best { score, layout: current, picked: Ghost(prefix) });
        }
        assert forall|c: Seq<int>|
            c.len() == part_count && is_combination(c, start as int, n) implies beaten_by(
                parts_score(*config, pick(catalog, prefix + c)),
                *best,
            ) by {
            assert(prefix + c =~= prefix);
        }
        assert(prefix.take(prefix.len() as int) =~= prefix);
        assert forall|x: Seq<int>|
            x.len() == part_count && is_combination(x, start as int, n) && lex_before(prefix + x, prefix)
                implies false by {
            assert(prefix + x =~= prefix);
        }
    } else {
        let mut i: usize = start;
        while i < config.buster_parts.len()
            invariant
                config.weights_bounded(),
                catalog == config.buster_parts@,
                n == catalog.len(),
                0 < part_count,
                start <= i <= n,
                is_combination(prefix, 0, start as int),
                current.buster_parts@ == pick(catalog, prefix),
                best_wf(*best, *config, prefix.len() + part_count),
                no_worse(*best, *old(best)),
                forall|c: Seq<int>|
                    #![trigger is_combination(c, start as int, n)]
                    c.len() == part_count && is_combination(c, start as int, n) && c[0] < i
                        ==> beaten_by(parts_score(*config, pick(catalog, prefix + c)), *best),
                n < start + part_count ==> *best == *old(best),
                *best == *old(best) || match *best {
                    Some(b) => {
                        &&& match *old(best) {
                            Some(o) => o.score < b.score,
                            None => true,
                        }
                        &&& b.picked@.take(prefix.len() as int) == prefix
                        &&& b.picked@[prefix.len() as int] < i
                        &&& forall|j: int|
                            prefix.len() <= j < b.picked@.len() ==> start <= #[trigger] b.picked@[j]
                        &&& forall|x: Seq<int>|
                            #![trigger is_combination(x, start as int, n)]
                            x.len() == part_count && is_combination(x, start as int, n) && x[0] < i
                                && lex_before(prefix + x, b.picked@) ==> parts_score(
                                *config,
                                pick(catalog, prefix + x),
                            ) < b.score
                    },
                    None => false,
                },
            decreases n - i,
        {
            let mut included = BusterLayout { buster_parts: current.buster_parts.clone() };
            assert(included.buster_parts@ =~= current.buster_parts@);
            included.buster_parts.push(config.buster_parts[i].clone());
            let ghost next = prefix.push(i as int);
            proof {
                lemma_pick_append(catalog, prefix, seq![i as int]);
                assert(prefix + seq![i as int] == next);
                assert(pick(catalog, seq![i as int]) =~= seq![catalog[i as int]]);
                assert(included.buster_parts@ =~= pick(catalog, next));
            }
            let ghost before = *best;
            generate_layouts(config, included, i + 1, part_count - 1, best, Ghost(next));
            proof {
                assert forall|c: Seq<int>|
                    c.len() == part_count && is_combination(c, start as int, n) && c[0] < i + 1
                        implies beaten_by(parts_score(*config, pick(catalog, prefix + c)), *best) by {
                    if c[0] < i {
                        assert(beaten_by(parts_score(*config, pick(catalog, prefix + c)), before));
                    } else {
                        let rest = c.drop_first();
                        assert(is_combination(rest, i + 1, n));
                        assert(next + rest =~= prefix + c);
                    }
                }
                let m = prefix.len() as int;
                if *best == before {
                    if *best != *old(best) {
                        let b = best->0;
                        assert forall|x: Seq<int>|
                            x.len() == part_count && is_combination(x, start as int, n) && x[0] < i + 1
                                && lex_before(prefix + x, b.picked@) implies parts_score(
                                *config,
                                pick(catalog, prefix + x),
                            ) < b.score by {
                            if x[0] == i {
                                assert((prefix + x).take(m) =~= prefix);
                                lemma_not_lex_before(prefix + x, b.picked@, m);
                            }
                        }
                    }
                } else {
                    let b = best->0;
                    assert(b.picked@.take(next.len() as int) == next);
                    assert(b.picked@.take(m) =~= b.picked@.take(next.len() as int).take(m));
                    assert(prefix =~= next.take(m));
                    assert(b.picked@[m] == b.picked@.take(next.len() as int)[m]);
                    assert forall|j: int| m <= j < b.picked@.len() implies start <= #[trigger] b.picked@[j] by {
                        if j > m {
                            assert(i + 1 <= b.picked@[j]);
                        }
                    }
                    assert forall|x: Seq<int>|
                        x.len() == part_count && is_combination(x, start as int, n) && x[0] < i + 1
                            && lex_before(prefix + x, b.picked@) implies parts_score(
                            *config,
                            pick(catalog, prefix + x),
                        ) < b.score by {
                        if x[0] < i {
                            assert(beaten_by(parts_score(*config, pick(catalog, prefix + x)), before));
                        } else {
                            let rest = x.drop_first();
                            assert(is_combination(rest, i + 1, n));
                            assert(next + rest =~= prefix + x);
                        }
                    }
                }
            }
            i += 1;
        }
    }
}

/// The first layout of exactly `part_count` distinct catalog entries, in
/// the order of enumeration, that no other such layout outscores; none when
/// the catalog is shorter than `part_count`.
fn find_best_layout(config: &Config, part_count: usize) -> (r: Option<Best>)
    requires
        config.weights_bounded(),
    ensures
        best_wf(r, *config, part_count as int),
        r is Some <==> part_count <= config.buster_parts@.len(),
        forall|c: Seq<int>|
            #![trigger is_combination(c, 0, config.buster_parts@.len() as int)]
            c.len() == part_count && is_combination(c, 0, config.buster_parts@.len() as int)
                ==> beaten_by(parts_score(*config, pick(config.buster_parts@, c)), r),
        match r {
            Some(b) => forall|x: Seq<int>|
                #![trigger is_combination(x, 0, config.buster_parts@.len() as int)]
                x.len() == part_count && is_combination(x, 0, config.buster_parts@.len() as int)
                    && lex_before(x, b.picked@) ==> parts_score(*config, pick(config.buster_parts@, x))
                    < b.score,
            None => true,
        },
{
    let mut best: Option<Best> = None;
    let base_layout = BusterLayout::empty();
    proof {
        assert(base_layout.buster_parts@ =~= pick(config.buster_parts@, Seq::empty()));
    }
    generate_layouts(config, base_layout, 0, part_count, &mut best, Ghost(Seq::empty()));
    proof {
        let n = config.buster_parts@.len() as int;
        assert forall|c: Seq<int>|
            #![trigger is_combination(c, 0, n)]
            c.len() == part_count && is_combination(c, 0, n)
                implies beaten_by(parts_score(*config, pick(config.buster_parts@, c)), best) by {
            assert(Seq::<int>::empty() + c =~= c);
        }
        if best is Some {
            let b = best->0;
            assert forall|x: Seq<int>|
                #![trigger is_combination(x, 0, n)]
                x.len() == part_count && is_combination(x, 0, n) && lex_before(x, b.picked@)
                    implies parts_score(*config, pick(config.buster_parts@, x)) < b.score by {
                assert(Seq::<int>::empty() + x =~= x);
            }
        }
        if part_count <= n {
            let c = Seq::new(part_count as nat, |j: int| j);
            assert(is_combination(c, 0, n));
            assert(Seq::<int>::empty() + c =~= c);
        }
    }
    best
}

/// Same as `simulate_new`.
pub fn simulate(config: &Config) -> (r: BusterLayout)
    requires
        config.weights_bounded(),
    ensures
        is_optimal(*config, r),
        config.buster_parts@.len() > 0 ==> is_first_best(*config, r),
{
    simulate_new(config)
}

/// The best layout for `config`: over every size from one to the largest
/// allowed, and every combination of that many distinct catalog entries, the
/// first one met whose score is strictly greater than all before it. Sizes
/// are tried from small to large, and within a size combinations come in
/// increasing order of their positions. An empty catalog gives the empty
/// layout.
pub fn simulate_new(config: &Config) -> (r: BusterLayout)
    requires
        config.weights_bounded(),
    ensures
        is_optimal(*config, r),
        config.buster_parts@.len() > 0 ==> is_first_best(*config, r),
{
    let part_count: usize = if config.adapter_plug {
        3
    } else {
        2
    };
    let ghost n = config.buster_parts@.len() as int;
    let mut best: Option<Best> = None;
    let mut size: usize = 1;
    while size <= part_count
        invariant
            config.weights_bounded(),
            n == config.buster_parts@.len(),
            part_count == config.max_parts(),
            1 <= size <= part_count + 1,
            match best {
                Some(b) => 1 <= b.picked@.len() < size && b.wf(*config, b.picked@.len() as int),
                None => true,
            },
            best is Some <==> (size > 1 && n > 0),
            forall|c: Seq<int>|
                #![trigger is_combination(c, 0, n)]
                1 <= c.len() < size && is_combination(c, 0, n)
                    ==> beaten_by(parts_score(*config, pick(config.buster_parts@, c)), best),
            match best {
                Some(b) => forall|x: Seq<int>|
                    #![trigger is_combination(x, 0, n)]
                    1 <= x.len() < size && is_combination(x, 0, n) && enumerated_before(x, b.picked@)
                        ==> parts_score(*config, pick(config.buster_parts@, x)) < b.score,
                None => true,
            },
        decreases part_count + 1 - size,
    {
        let found = find_best_layout(config, size);
        let ghost before = best;
        match found {
            Some(b) => {
                let better = match &best {
                    Some(cur) => b.score > cur.score,
                    None => true,
                };
                if better {
                    proof {
                        assert forall|x: Seq<int>|
                            #![trigger is_combination(x, 0, n)]
                            1 <= x.len() < size + 1 && is_combination(x, 0, n) && enumerated_before(
                                x,
                                b.picked@,
                            ) implies parts_score(*config, pick(config.buster_parts@, x)) < b.score by {
                            if x.len() < size {
                                assert(beaten_by(parts_score(*config, pick(config.buster_parts@, x)), before));
                            }
                        }
                    }
                    best = Some(b);
                }
            },
            None => {},
        }
        size += 1;
    }
    match best {
        Some(b) => {
            assert(is_selection(*config, b.picked@));
            assert forall|x: Seq<int>|
                is_selection(*config, x) && enumerated_before(x, b.picked@) implies parts_score(
                *config,
                #[trigger] pick(config.buster_parts@, x),
            ) < b.layout.spec_score(*config) by {
                assert(is_combination(x, 0, n));
            }
            b.layout
        },
        None => BusterLayout::empty(),
    }
}

/// An optimal layout over an empty catalog is the empty layout, with the base
/// stats and the sum of the weights as its score.
pub proof fn lemma_empty_catalog(c: Config, l: BusterLayout)
    requires
        c.buster_parts@.len() == 0,
        is_optimal(c, l),
    ensures
        l.buster_parts@.len() == 0,
        l.spec_stats(c) == (1int, 1int, 1int, 1int),
        l.spec_score(c) == c.attack_weight + c.energy_weight + c.range_weight + c.rapid_weight,
{
    lemma_empty_layout_base(c, l);
}

/// No catalog entry appears twice in an optimal layout: any two of its parts
/// come from different catalog positions.
pub proof fn lemma_optimal_no_duplicates(c: Config, l: BusterLayout) -> (idx: Seq<int>)
    requires
        c.buster_parts@.len() > 0,
        is_optimal(c, l),
    ensures
        idx.len() == l.buster_parts@.len(),
        forall|j: int| 0 <= j < idx.len() ==> l.buster_parts@[j] == c.buster_parts@[#[trigger] idx[j]],
        forall|j: int, k: int| 0 <= j < idx.len() && 0 <= k < idx.len() && j != k ==> #[trigger] idx[j] != #[trigger] idx[k],
{
    let idx = choose|idx: Seq<int>| is_selection(c, idx) && l.buster_parts@ == pick(c.buster_parts@, idx);
    assert forall|j: int, k: int| 0 <= j < idx.len() && 0 <= k < idx.len() && j != k implies #[trigger] idx[j] != #[trigger] idx[k] by {
        if j < k {
            assert(idx[j] < idx[k]);
        } else {
            assert(idx[k] < idx[j]);
        }
    }
    idx
}

/// With every weight zero all layouts score zero, so the layout the search
/// keeps is the first one it meets: the first catalog entry alone.
pub proof fn lemma_zero_weights_first_entry(c: Config, l: BusterLayout)
    requires
        c.attack_weight == 0,
        c.energy_weight == 0,
        c.range_weight == 0,
        c.rapid_weight == 0,
        c.buster_parts@.len() > 0,
        is_first_best(c, l),
    ensures
        l.buster_parts@ == seq![c.buster_parts@[0]],
        l.spec_score(c) == 0,
{
    let idx = choose|idx: Seq<int>|
        {
            &&& is_selection(c, idx)
            &&& l.buster_parts@ == pick(c.buster_parts@, idx)
            &&& forall|x: Seq<int>|
                is_selection(c, x) && enumerated_before(x, idx) ==> parts_score(
                    c,
                    #[trigger] pick(c.buster_parts@, x),
                ) < l.spec_score(c)
        };
    let first = seq![0int];
    assert(is_selection(c, first));
    if idx != first {
        if idx.len() == 1 {
            if idx[0] == 0 {
                assert(idx =~= first);
            }
            assert(first.take(0) =~= idx.take(0));
            assert(first[0] < idx[0]);
            assert(lex_before(first, idx));
        }
        assert(enumerated_before(first, idx));
        assert(parts_score(c, pick(c.buster_parts@, first)) < l.spec_score(c));
        assert(false);
    }
    assert(pick(c.buster_parts@, idx) =~= seq![c.buster_parts@[0]]);
}

} // verus!
