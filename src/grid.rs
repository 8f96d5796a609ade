//! The month grid: day cells distributed round-robin over weekday rows.
use vstd::arithmetic::div_mod::{lemma_fundamental_div_mod, lemma_fundamental_div_mod_converse};
use vstd::prelude::*;

verus! {

/// Cell `i` of the virtual sequence: empty before the first day, else its day number.
pub open spec fn cell_at(offset: int, i: int) -> Option<usize> {
    if i < offset {
        None
    } else {
        Some((i - offset + 1) as usize)
    }
}

/// Number of cells that row `r` receives when `n` cells are dealt over `c` rows.
pub open spec fn row_len(n: int, c: int, r: int) -> int {
    n / c + if r < n % c {
        1int
    } else {
        0int
    }
}

/// The grid for a month of `length` days whose first day stands after `offset` empty cells,
/// dealt over `colon` rows: row `r` holds cells `r`, `r + colon`, `r + 2 * colon`, ...
pub open spec fn layout(length: int, offset: int, colon: int) -> Seq<Seq<Option<usize>>> {
    Seq::new(
        colon as nat,
        |r: int|
            Seq::new(
                row_len(length + offset, colon, r) as nat,
                |j: int| cell_at(offset, j * colon + r),
            ),
    )
}

/// The rows of a grid, each seen as a sequence of cells.
pub open spec fn grid_view(g: Vec<Vec<Option<usize>>>) -> Seq<Seq<Option<usize>>> {
    g@.map_values(|row: Vec<Option<usize>>| row@)
}

/// Column `j` of row `r` exists exactly when its cell index `j * c + r` is below `n`.
pub proof fn lemma_index_in_row(n: int, c: int, r: int, j: int)
    requires
        c > 0,
        0 <= r < c,
        0 <= j,
        0 <= n,
    ensures
        (j < row_len(n, c, r)) <==> (j * c + r < n),
        row_len(n, c, r) >= 0,
{
    lemma_fundamental_div_mod(n, c);
    let q = n / c;
    let m = n % c;
    assert(0 <= m < c);
    assert(q >= 0) by (nonlinear_arith)
        requires
            n == c * q + m,
            0 <= m < c,
            n >= 0,
            c > 0,
    ;
    assert((j < row_len(n, c, r)) <==> (j * c + r < n)) by (nonlinear_arith)
        requires
            n == c * q + m,
            0 <= m < c,
            0 <= r < c,
            j >= 0,
            q >= 0,
            row_len(n, c, r) == q + if r < m {
                1int
            } else {
                0int
            },
    ;
}

/// Cell `i` of the virtual sequence lies in row `i % c`, column `i / c`.
pub proof fn lemma_cell_position(n: int, c: int, i: int)
    requires
        c > 0,
        0 <= i < n,
    ensures
        0 <= i % c < c,
        0 <= i / c < row_len(n, c, i % c),
        (i / c) * c + i % c == i,
{
    lemma_fundamental_div_mod(i, c);
    assert(i / c >= 0) by (nonlinear_arith)
        requires
            i == c * (i / c) + i % c,
            0 <= i % c < c,
            i >= 0,
    ;
    assert((i / c) * c == c * (i / c)) by (nonlinear_arith);
    lemma_index_in_row(n, c, i % c, i / c);
}

/// Every cell of the grid is empty or holds a day in `1..=length`: cell `(r, j)` is
/// virtual cell `j * colon + r`, below `length + offset`.
pub proof fn lemma_cell_bounds(length: int, offset: int, colon: int, r: int, j: int)
    requires
        colon > 0,
        length >= 0,
        offset >= 0,
        length + offset <= usize::MAX,
        0 <= r < colon,
        0 <= j < layout(length, offset, colon)[r].len(),
    ensures
        j * colon + r < length + offset,
        layout(length, offset, colon)[r][j] == cell_at(offset, j * colon + r),
        match layout(length, offset, colon)[r][j] {
            Some(d) => 1 <= d <= length && d == j * colon + r - offset + 1,
            None => j * colon + r < offset,
        },
{
    lemma_index_in_row(length + offset, colon, r, j);
    assert(j * colon >= 0) by (nonlinear_arith)
        requires
            j >= 0,
            colon > 0,
    ;
}

/// Whether day `d` stands in row `r`, column `j` of grid `g`.
pub open spec fn occurs_at(g: Seq<Seq<Option<usize>>>, d: usize, r: int, j: int) -> bool {
    0 <= r < g.len() && 0 <= j < g[r].len() && g[r][j] == Some(d)
}

/// Number of cells over all rows of `g`.
pub open spec fn total_cells(g: Seq<Seq<Option<usize>>>) -> int
    decreases g.len(),
{
    if g.len() == 0 {
        0
    } else {
        total_cells(g.drop_last()) + g.last().len()
    }
}

/// The cells of `g` read round-robin: row 0 column 0, row 1 column 0, ..., then column 1.
pub open spec fn round_robin(g: Seq<Seq<Option<usize>>>, n: int) -> Seq<Option<usize>> {
    Seq::new(n as nat, |i: int| g[i % g.len() as int][i / g.len() as int])
}

/// Row `r` has `ceil((n - r) / c)` cells.
pub proof fn lemma_row_len_ceil(n: int, c: int, r: int)
    requires
        c > 0,
        0 <= r < c,
        n >= 0,
    ensures
        row_len(n, c, r) == (n - r + c - 1) / c,
{
    lemma_fundamental_div_mod(n, c);
    let q = n / c;
    let m = n % c;
    if r < m {
        assert(n - r + c - 1 == (q + 1) * c + (m - r - 1)) by (nonlinear_arith)
            requires
                n == c * q + m,
        ;
        lemma_fundamental_div_mod_converse(n - r + c - 1, c, q + 1, m - r - 1);
    } else {
        assert(n - r + c - 1 == q * c + (m - r + c - 1)) by (nonlinear_arith)
            requires
                n == c * q + m,
        ;
        lemma_fundamental_div_mod_converse(n - r + c - 1, c, q, m - r + c - 1);
    }
}

/// Each day `d` of the month stands exactly once in the grid: in row
/// `(offset + d - 1) % colon`, column `(offset + d - 1) / colon`.
pub proof fn lemma_day_position(length: int, offset: int, colon: int, d: usize)
    requires
        colon > 0,
        length >= 0,
        offset >= 0,
        length + offset <= usize::MAX,
        1 <= d <= length,
    ensures
        occurs_at(layout(length, offset, colon), d, (offset + d - 1) % colon, (offset + d - 1) / colon),
        forall|r: int, j: int|
            occurs_at(layout(length, offset, colon), d, r, j) ==> r == (offset + d - 1) % colon && j
                == (offset + d - 1) / colon,
{
    let g = layout(length, offset, colon);
    let i = offset + d - 1;
    lemma_cell_position(length + offset, colon, i);
    lemma_cell_bounds(length, offset, colon, i % colon, i / colon);
    assert forall|r: int, j: int| occurs_at(g, d, r, j) implies r == i % colon && j == i / colon by {
        lemma_cell_bounds(length, offset, colon, r, j);
        lemma_fundamental_div_mod_converse(i, colon, j, r);
    }
}

/// The first `k` rows hold `k * (n / colon) + min(k, n % colon)` cells, `n = length + offset`.
proof fn lemma_partial_total(length: int, offset: int, colon: int, k: int)
    requires
        colon > 0,
        length >= 0,
        offset >= 0,
        0 <= k <= colon,
    ensures
        total_cells(layout(length, offset, colon).take(k)) == k * ((length + offset) / colon)
            + if k < (length + offset) % colon {
            k
        } else {
            (length + offset) % colon
        },
    decreases k,
{
    let g = layout(length, offset, colon);
    let n = length + offset;
    if k == 0 {
        assert(g.take(0) =~= Seq::<Seq<Option<usize>>>::empty());
    } else {
        lemma_partial_total(length, offset, colon, k - 1);
        assert(g.take(k).drop_last() =~= g.take(k - 1));
        assert(k * (n / colon) == (k - 1) * (n / colon) + n / colon) by (nonlinear_arith);
    }
}

/// Row `r` has `ceil((offset + length - r) / colon)` cells, row lengths differ by at most
/// one, and the rows hold `offset + length` cells in all.
pub proof fn lemma_row_lengths(length: int, offset: int, colon: int)
    requires
        colon > 0,
        length >= 0,
        offset >= 0,
    ensures
        forall|r1: int, r2: int|
            0 <= r1 < colon && 0 <= r2 < colon ==> layout(length, offset, colon)[r1].len()
                <= layout(length, offset, colon)[r2].len() + 1,
        total_cells(layout(length, offset, colon)) == length + offset,
        forall|r: int|
            0 <= r < colon ==> #[trigger] layout(length, offset, colon)[r].len() == (length + offset
                - r + colon - 1) / colon,
{
    let g = layout(length, offset, colon);
    let n = length + offset;
    assert forall|r: int| 0 <= r < colon implies #[trigger] g[r].len() == (n - r + colon - 1)
        / colon by {
        lemma_row_len_ceil(n, colon, r);
        lemma_index_in_row(n, colon, r, 0);
    }
    lemma_fundamental_div_mod(n, colon);
    assert(n / colon >= 0) by (nonlinear_arith)
        requires
            n == colon * (n / colon) + n % colon,
            0 <= n % colon < colon,
            n >= 0,
    ;
    lemma_partial_total(length, offset, colon, colon);
    assert(g.take(colon) =~= g);
}

/// Empty cells are exactly the first cells of rows `0 .. offset`.
pub proof fn lemma_empty_cells(length: int, offset: int, colon: int)
    requires
        colon > 0,
        length >= 0,
        0 <= offset < colon,
        length + offset <= usize::MAX,
    ensures
        forall|r: int, j: int|
            0 <= r < colon && 0 <= j < layout(length, offset, colon)[r].len() ==> (layout(
                length,
                offset,
                colon,
            )[r][j] is None <==> (j == 0 && r < offset)),
        forall|r: int| 0 <= r < offset ==> layout(length, offset, colon)[r].len() > 0,
{
    let g = layout(length, offset, colon);
    assert forall|r: int, j: int| 0 <= r < colon && 0 <= j < g[r].len() implies (g[r][j] is None
        <==> (j == 0 && r < offset)) by {
        lemma_cell_bounds(length, offset, colon, r, j);
        if j >= 1 {
            assert(j * colon >= colon) by (nonlinear_arith)
                requires
                    j >= 1,
                    colon > 0,
            ;
        }
    }
    assert forall|r: int| 0 <= r < offset implies g[r].len() > 0 by {
        lemma_index_in_row(length + offset, colon, r, 0);
    }
}

/// Reading the grid round-robin gives back the virtual sequence: `offset` empty cells,
/// then the days `1, 2, ..., length` in order.
pub proof fn lemma_round_robin(length: int, offset: int, colon: int)
    requires
        colon > 0,
        length >= 0,
        offset >= 0,
        length + offset <= usize::MAX,
    ensures
        round_robin(layout(length, offset, colon), length + offset) == Seq::new(
            offset as nat,
            |i: int| None::<usize>,
        ) + Seq::new(length as nat, |k: int| Some((k + 1) as usize)),
{
    let g = layout(length, offset, colon);
    let n = length + offset;
    assert forall|i: int| 0 <= i < n implies #[trigger] round_robin(g, n)[i] == cell_at(
        offset,
        i,
    ) by {
        lemma_cell_position(n, colon, i);
        lemma_cell_bounds(length, offset, colon, i % colon, i / colon);
    }
    assert(round_robin(g, n) =~= Seq::new(offset as nat, |i: int| None::<usize>) + Seq::new(
        length as nat,
        |k: int| Some((k + 1) as usize),
    ));
}

/// A month that starts on the last row (a Sunday) opens with six empty cells; its first
/// row has `ceil((6 + length) / 7)` cells and day 1 opens the last row.
pub proof fn lemma_sunday_start(length: int)
    requires
        1 <= length,
        length + 6 <= usize::MAX,
    ensures
        layout(length, 6, 7)[0].len() == (6 + length + 6) / 7,
        forall|r: int| 0 <= r < 6 ==> layout(length, 6, 7)[r].len() > 0 && layout(length, 6, 7)[r][0] is None,
        layout(length, 6, 7)[6].len() > 0 && layout(length, 6, 7)[6][0] == Some(1usize),
{
    lemma_row_len_ceil(length + 6, 7, 0);
    lemma_empty_cells(length, 6, 7);
    lemma_day_position(length, 6, 7, 1);
}

/// A month that starts on the first row (a Monday) has no empty cell; day 1 opens row 0.
pub proof fn lemma_monday_start(length: int)
    requires
        1 <= length <= usize::MAX,
    ensures
        forall|r: int, j: int|
            0 <= r < 7 && 0 <= j < layout(length, 0, 7)[r].len() ==> layout(length, 0, 7)[r][j] is Some,
        layout(length, 0, 7)[0].len() > 0 && layout(length, 0, 7)[0][0] == Some(1usize),
{
    lemma_empty_cells(length, 0, 7);
    lemma_day_position(length, 0, 7, 1);
}

/// Builds row `r` of the grid over `total` cells.
fn build_row(total: usize, offset: usize, colon: usize, r: usize) -> (row: Vec<Option<usize>>)
    requires
        colon > 0,
        r < colon,
        offset <= total,
    ensures
        row@ == Seq::new(
            row_len(total as int, colon as int, r as int) as nat,
            |j: int| cell_at(offset as int, j * colon + r),
        ),
{
    proof {
        lemma_fundamental_div_mod(total as int, colon as int);
        if r < total % colon {
            assert(total / colon < usize::MAX) by (nonlinear_arith)
                requires
                    total == colon * (total / colon) + total % colon,
                    total % colon >= 1,
                    colon >= 2,
                    total <= usize::MAX,
            ;
        }
    }
    let count: usize = total / colon + if r < total % colon {
        1usize
    } else {
        0usize
    };
    let mut row: Vec<Option<usize>> = Vec::new();
    let mut j: usize = 0;
    while j < count
        invariant
            colon > 0,
            r < colon,
            offset <= total,
            count as int == row_len(total as int, colon as int, r as int),
            j <= count,
            row@.len() == j,
            forall|k: int| 0 <= k < j ==> row@[k] == cell_at(offset as int, k * colon + r),
        decreases count - j,
    {
        proof {
            lemma_index_in_row(total as int, colon as int, r as int, j as int);
        }
        let idx: usize = j * colon + r;
        let cell = if idx < offset {
            None
        } else {
            Some(idx - offset + 1)
        };
        row.push(cell);
        j = j + 1;
    }
    assert(row@ =~= Seq::new(
        row_len(total as int, colon as int, r as int) as nat,
        |j: int| cell_at(offset as int, j * colon + r),
    ));
    row
}

/// Lays out a month of `length` days, the first of which follows `offset` empty cells,
/// over `colon` rows: virtual cell `i` goes to row `i % colon`.
pub fn generate_matrix(length: usize, offset: usize, colon: usize) -> (g: Vec<Vec<Option<usize>>>)
    requires
        colon > 0,
        length + offset <= usize::MAX,
    ensures
        grid_view(g) == layout(length as int, offset as int, colon as int),
{
    let total: usize = length + offset;
    let mut rows: Vec<Vec<Option<usize>>> = Vec::new();
    let mut r: usize = 0;
    while r < colon
        invariant
            colon > 0,
            total == length + offset,
            r <= colon,
            rows@.len() == r,
            forall|k: int|
                0 <= k < r ==> #[trigger] rows@[k]@ == layout(
                    length as int,
                    offset as int,
                    colon as int,
                )[k],
        decreases colon - r,
    {
        let row = build_row(total, offset, colon, r);
        rows.push(row);
        r = r + 1;
    }
    assert(grid_view(rows) =~= layout(length as int, offset as int, colon as int));
    rows
}

} // verus!
