use crate::buster::{parts_score, stat_score, stats_of, BusterLayout, BusterPart, Stats};
use crate::config::Config;
use crate::optimizer::{is_combination, is_optimal, is_selection, pick};
use vstd::prelude::*;

verus! {

/// `v` held in a `u8`, stopping at 255.
pub open spec fn saturate(v: int) -> int {
    if v <= 255 {
        v
    } else {
        255
    }
}

/// Stats `s` with the contributions of `p` added, each stopping at 255.
pub open spec fn add_part(s: Stats, p: BusterPart) -> Stats {
    (
        saturate(s.0 + p.attack),
        saturate(s.1 + p.energy),
        saturate(s.2 + p.range),
        saturate(s.3 + p.rapid),
    )
}

/// Cell `(col, row)` of the selection table: the stats chosen for `row`
/// slots among the first `col` catalog entries. Without slots or entries a
/// cell holds the base stats; otherwise it takes entry `col - 1` on top of
/// cell `(col - 1, row - 1)` when that scores strictly more than cell
/// `(col - 1, row)`, and keeps the latter when not.
pub open spec fn cell(c: Config, col: int, row: int) -> Stats
    decreases col,
{
    if col <= 0 || row <= 0 {
        (1, 1, 1, 1)
    } else {
        let skip = cell(c, col - 1, row);
        let take = add_part(cell(c, col - 1, row - 1), c.buster_parts@[col - 1]);
        if stat_score(c, take) > stat_score(c, skip) {
            take
        } else {
            skip
        }
    }
}

/// The table's column `col` holds cells `(col, 0)` to `(col, rows)`.
pub open spec fn column_ok(c: Config, column: Seq<(u8, u8, u8, u8)>, col: int, rows: int) -> bool {
    &&& column.len() == rows + 1
    &&& forall|row: int| 0 <= row <= rows ==> stats_of(#[trigger] column[row]) == cell(c, col, row)
}

fn add_stats(s: (u8, u8, u8, u8), p: &BusterPart) -> (r: (u8, u8, u8, u8))
    ensures
        stats_of(r) == add_part(stats_of(s), *p),
{
    (
        s.0.saturating_add(p.attack),
        s.1.saturating_add(p.energy),
        s.2.saturating_add(p.range),
        s.3.saturating_add(p.rapid),
    )
}

fn score_of(config: &Config, s: (u8, u8, u8, u8)) -> (r: i32)
    requires
        config.weights_bounded(),
    ensures
        r as int == stat_score(*config, stats_of(s)),
{
    BusterLayout::score_stats(config, s.0, s.1, s.2, s.3)
}

/// The selection table for `rows` slots: one column for each prefix of the
/// catalog, from the empty one to the whole, each holding the cells for zero
/// to `rows` slots.
pub fn build_table(config: &Config, rows: usize) -> (r: Vec<Vec<(u8, u8, u8, u8)>>)
    requires
        config.weights_bounded(),
        rows < usize::MAX,
    ensures
        r@.len() == config.buster_parts@.len() + 1,
        forall|col: int|
            0 <= col < r@.len() ==> column_ok(*config, #[trigger] r@[col]@, col, rows as int),
{
    let n = config.buster_parts.len();
    let mut table: Vec<Vec<(u8, u8, u8, u8)>> = Vec::new();
    let mut first: Vec<(u8, u8, u8, u8)> = Vec::new();
    let mut row: usize = 0;
    while row <= rows
        invariant
            row <= rows + 1,
            rows < usize::MAX,
            first@.len() == row,
            forall|j: int| 0 <= j < row ==> stats_of(#[trigger] first@[j]) == cell(*config, 0, j),
        decreases rows + 1 - row,
    {
        first.push((1, 1, 1, 1));
        row += 1;
    }
    table.push(first);
    let mut i: usize = 0;
    while i < n
        invariant
            config.weights_bounded(),
            n == config.buster_parts@.len(),
            rows < usize::MAX,
            i <= n,
            table@.len() == i + 1,
            forall|k: int| 0 <= k <= i ==> column_ok(*config, #[trigger] table@[k]@, k, rows as int),
        decreases n - i,
    {
        // Column `i + 1` adds catalog entry `i` to the choices of column `i`.
        let prev = &table[i];
        assert(column_ok(*config, table@[i as int]@, i as int, rows as int));
        let part = &config.buster_parts[i];
        let mut column: Vec<(u8, u8, u8, u8)> = Vec::new();
        column.push((1, 1, 1, 1));
        let mut row: usize = 1;
        while row <= rows
            invariant
                config.weights_bounded(),
                n == config.buster_parts@.len(),
                rows < usize::MAX,
                i < n,
                1 <= row <= rows + 1,
                *part == config.buster_parts@[i as int],
                column_ok(*config, prev@, i as int, rows as int),
                column@.len() == row,
                forall|j: int| 0 <= j < row ==> stats_of(#[trigger] column@[j]) == cell(*config, i + 1, j),
            decreases rows + 1 - row,
        {
            let skip = prev[row];
            let take = add_stats(prev[row - 1], part);
            if score_of(config, take) > score_of(config, skip) {
                column.push(take);
            } else {
                column.push(skip);
            }
            row += 1;
        }
        table.push(column);
        i += 1;
    }
    table
}

/// From cell `(col, row)`, the row reached by moving up while a cell scores
/// as the one above it.
pub open spec fn walk_up(c: Config, col: int, row: int) -> int
    decreases row,
{
    if row > 0 && stat_score(c, cell(c, col, row)) == stat_score(c, cell(c, col, row - 1)) {
        walk_up(c, col, row - 1)
    } else {
        row
    }
}

/// From cell `(col, row)`, the column reached by moving left while a cell
/// scores as the one to its left.
pub open spec fn walk_left(c: Config, col: int, row: int) -> int
    decreases col,
{
    if col > 0 && stat_score(c, cell(c, col, row)) == stat_score(c, cell(c, col - 1, row)) {
        walk_left(c, col - 1, row)
    } else {
        col
    }
}

/// Catalog positions read back from the table, starting at cell
/// `(col, row)`, in increasing order.
pub open spec fn read_back(c: Config, col: int, row: int) -> Seq<int>
    decreases col,
{
    if col <= 0 || row <= 0 {
        Seq::empty()
    } else {
        let r = walk_up(c, col, row);
        let k = walk_left(c, col, r);
        if r <= 0 || k <= 0 || k > col {
            Seq::empty()
        } else {
            read_back(c, k - 1, r - 1).push(k - 1)
        }
    }
}

/// `s` in reverse order.
pub open spec fn reversed(s: Seq<usize>) -> Seq<int> {
    Seq::new(s.len(), |i: int| s[s.len() - 1 - i] as int)
}

/// The layout read back from the selection table for `config.max_parts()`
/// slots. From the last cell, walk up while a cell scores as the one with a
/// slot less, then left while it scores as the one with an entry less; where
/// neither holds, the entry of that column was taken. Stops on the first row
/// or column. The result holds distinct catalog entries, in catalog order,
/// and no more than the allowed number.
pub fn simulate_table(config: &Config) -> (r: BusterLayout)
    requires
        config.weights_bounded(),
    ensures
        config.buster_parts@.len() == 0 ==> r.buster_parts@.len() == 0,
        r.buster_parts@ == pick(
            config.buster_parts@,
            read_back(*config, config.buster_parts@.len() as int, config.max_parts()),
        ),
        read_back(*config, config.buster_parts@.len() as int, config.max_parts()).len()
            <= config.max_parts(),
        is_combination(
            read_back(*config, config.buster_parts@.len() as int, config.max_parts()),
            0,
            config.buster_parts@.len() as int,
        ),
{
    let rows: usize = if config.adapter_plug {
        3
    } else {
        2
    };
    let table = build_table(config, rows);
    let n = config.buster_parts.len();
    let mut col: usize = n;
    let mut row: usize = rows;
    // Catalog positions taken, from the last to the first.
    let mut taken: Vec<usize> = Vec::new();
    while col > 0 && row > 0
        invariant
            config.weights_bounded(),
            n == config.buster_parts@.len(),
            table@.len() == n + 1,
            forall|k: int| 0 <= k < table@.len() ==> column_ok(*config, #[trigger] table@[k]@, k, rows as int),
            col <= n,
            row <= rows,
            taken@.len() + row <= rows,
            forall|j: int| 0 <= j < taken@.len() ==> col <= #[trigger] taken@[j] < n,
            forall|j: int, k: int| 0 <= j < k < taken@.len() ==> #[trigger] taken@[j] > #[trigger] taken@[k],
            read_back(*config, n as int, rows as int) == read_back(*config, col as int, row as int)
                + reversed(taken@),
        ensures
            col == 0 || row == 0,
            read_back(*config, n as int, rows as int) == read_back(*config, col as int, row as int)
                + reversed(taken@),
        decreases col,
    {
        let ghost row0 = row;
        assert(column_ok(*config, table@[col as int]@, col as int, rows as int));
        while row > 0 && score_of(config, table[col][row]) == score_of(config, table[col][row - 1])
            invariant
                config.weights_bounded(),
                table@.len() == n + 1,
                0 < col <= n,
                row <= rows,
                column_ok(*config, table@[col as int]@, col as int, rows as int),
                walk_up(*config, col as int, row as int) == walk_up(*config, col as int, row0 as int),
                n == config.buster_parts@.len(),
                forall|k: int| 0 <= k < table@.len() ==> column_ok(*config, #[trigger] table@[k]@, k, rows as int),
                taken@.len() + row <= rows,
                forall|j: int| 0 <= j < taken@.len() ==> col <= #[trigger] taken@[j] < n,
                forall|j: int, k: int| 0 <= j < k < taken@.len() ==> #[trigger] taken@[j] > #[trigger] taken@[k],
            decreases row,
        {
            row -= 1;
        }
        if row == 0 {
            assert(read_back(*config, n as int, rows as int) =~= read_back(*config, col as int, row as int)
                + reversed(taken@));
            break;
        }
        let ghost col0 = col;
        while col > 0 && score_of(config, table[col][row]) == score_of(config, table[col - 1][row])
            invariant
                config.weights_bounded(),
                table@.len() == n + 1,
                forall|k: int| 0 <= k < table@.len() ==> column_ok(*config, #[trigger] table@[k]@, k, rows as int),
                col <= col0 <= n,
                0 < row <= rows,
                walk_left(*config, col as int, row as int) == walk_left(*config, col0 as int, row as int),
                n == config.buster_parts@.len(),
                taken@.len() + row <= rows,
                forall|j: int| 0 <= j < taken@.len() ==> col <= #[trigger] taken@[j] < n,
                forall|j: int, k: int| 0 <= j < k < taken@.len() ==> #[trigger] taken@[j] > #[trigger] taken@[k],
            decreases col,
        {
            assert(column_ok(*config, table@[col as int]@, col as int, rows as int));
            assert(column_ok(*config, table@[col - 1]@, col - 1, rows as int));
            col -= 1;
        }
        if col == 0 {
            assert(read_back(*config, n as int, rows as int) =~= read_back(*config, col as int, row as int)
                + reversed(taken@));
            break;
        }
        let ghost before = taken@;
        taken.push(col - 1);
        col -= 1;
        row -= 1;
        assert(reversed(taken@) =~= seq![col as int] + reversed(before));
    }
    assert(read_back(*config, col as int, row as int) =~= Seq::<int>::empty());
    assert(read_back(*config, n as int, rows as int) =~= reversed(taken@));
    if n == 0 && taken.len() > 0 {
        assert(taken@[0] < n);
    }
    let mut layout = BusterLayout::empty();
    let mut j: usize = taken.len();
    let ghost total = taken@.len() as int;
    while j > 0
        invariant
            j <= total,
            total == taken@.len(),
            total <= rows,
            n == config.buster_parts@.len(),
            read_back(*config, n as int, rows as int) == reversed(taken@),
            forall|i: int| 0 <= i < total ==> #[trigger] taken@[i] < n,
            forall|a: int, b: int| 0 <= a < b < total ==> #[trigger] taken@[a] > #[trigger] taken@[b],
            layout.buster_parts@ == pick(
                config.buster_parts@,
                Seq::new((total - j) as nat, |i: int| taken@[total - 1 - i] as int),
            ),
        decreases j,
    {
        j -= 1;
        let ghost before = Seq::new((total - j - 1) as nat, |i: int| taken@[total - 1 - i] as int);
        let ghost after = Seq::new((total - j) as nat, |i: int| taken@[total - 1 - i] as int);
        layout.buster_parts.push(config.buster_parts[taken[j]].clone());
        proof {
            assert(after =~= before.push(taken@[j as int] as int));
            assert(pick(config.buster_parts@, after) =~= pick(config.buster_parts@, before).push(
                config.buster_parts@[taken@[j as int] as int],
            ));
        }
    }
    let ghost idx = reversed(taken@);
    assert(is_combination(idx, 0, n as int)) by {
        assert forall|a: int, b: int| 0 <= a < b < idx.len() implies #[trigger] idx[a] < #[trigger] idx[b] by {
            assert(taken@[total - 1 - a] < taken@[total - 1 - b]);
        }
    }
    assert(idx =~= Seq::new((total - j) as nat, |i: int| taken@[total - 1 - i] as int));
    layout
}

/// The layout read back from the table, when it holds at least one part,
/// never scores more than an optimal layout of the exhaustive search.
pub proof fn lemma_table_never_beats_search(c: Config, l: BusterLayout)
    requires
        is_optimal(c, l),
        read_back(c, c.buster_parts@.len() as int, c.max_parts()).len() > 0,
    ensures
        parts_score(c, pick(c.buster_parts@, read_back(c, c.buster_parts@.len() as int, c.max_parts())))
            <= l.spec_score(c),
{
    lemma_read_back_shape(c, c.buster_parts@.len() as int, c.max_parts());
    assert(is_selection(c, read_back(c, c.buster_parts@.len() as int, c.max_parts())));
}

proof fn lemma_walk_up_bounds(c: Config, col: int, row: int)
    requires
        row >= 0,
    ensures
        0 <= walk_up(c, col, row) <= row,
    decreases row,
{
    if row > 0 {
        lemma_walk_up_bounds(c, col, row - 1);
    }
}

proof fn lemma_walk_left_bounds(c: Config, col: int, row: int)
    requires
        col >= 0,
    ensures
        0 <= walk_left(c, col, row) <= col,
    decreases col,
{
    if col > 0 {
        lemma_walk_left_bounds(c, col - 1, row);
    }
}

/// What is read back from cell `(col, row)` lists at most `row` distinct
/// positions below `col`, in increasing order.
proof fn lemma_read_back_shape(c: Config, col: int, row: int)
    requires
        col >= 0,
        row >= 0,
    ensures
        read_back(c, col, row).len() <= row,
        is_combination(read_back(c, col, row), 0, col),
    decreases col,
{
    if col > 0 && row > 0 {
        let r = walk_up(c, col, row);
        lemma_walk_up_bounds(c, col, row);
        lemma_walk_left_bounds(c, col, r);
        let k = walk_left(c, col, r);
        if r > 0 && k > 0 {
            lemma_read_back_shape(c, k - 1, r - 1);
            let rest = read_back(c, k - 1, r - 1);
            assert(read_back(c, col, row) == rest.push(k - 1));
        }
    }
}

} // verus!
