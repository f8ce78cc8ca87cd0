//! The minefield as contracts speak of it: a grid of tile views, and what is
//! counted on it.

use vstd::prelude::*;
use crate::tile::{Tile, TileState, TileValue, TileView};

verus! {

/// Rows of tile views, top row first.
pub type Grid = Seq<Seq<TileView>>;

/// The views of one row of tiles.
pub open spec fn row_of(row: &Vec<Tile>) -> Seq<TileView> {
    Seq::new(row@.len(), |j: int| row@[j]@)
}

/// The grid that rows of tiles stand for.
pub open spec fn grid_of_rows(rows: Seq<Vec<Tile>>) -> Grid {
    Seq::new(rows.len(), |i: int| row_of(&rows[i]))
}

/// The grid that a minefield stands for.
pub open spec fn grid_of(field: &Vec<Vec<Tile>>) -> Grid {
    grid_of_rows(field@)
}

/// `g` has `rows` rows of `cols` tiles each.
pub open spec fn rectangular(g: Grid, rows: int, cols: int) -> bool {
    &&& g.len() == rows
    &&& 0 <= cols
    &&& forall|i: int| 0 <= i < rows ==> (#[trigger] g[i]).len() == cols
}

/// `(i, j)` names a tile of `g`.
pub open spec fn in_grid(g: Grid, i: int, j: int) -> bool {
    0 <= i < g.len() && 0 <= j < g[i].len()
}

/// `(k, l)` is one of the up to eight neighbours of `(i, j)`.
pub open spec fn adjacent(i: int, j: int, k: int, l: int) -> bool {
    &&& i - 1 <= k <= i + 1
    &&& j - 1 <= l <= j + 1
    &&& !(i == k && j == l)
}

/// `(i, j)` is a tile of `g` with a bomb under it.
pub open spec fn bomb_at(g: Grid, i: int, j: int) -> bool {
    in_grid(g, i, j) && g[i][j].value is Bomb
}

/// `(i, j)` is a tile of `g` that carries a flag.
pub open spec fn flag_at(g: Grid, i: int, j: int) -> bool {
    in_grid(g, i, j) && g[i][j].state is Flagged
}

/// One if `b` holds, else zero.
pub open spec fn one_if(b: bool) -> nat {
    if b {
        1
    } else {
        0
    }
}

/// Bombs among the neighbours of `(i, j)`; beyond the edge there is none.
pub open spec fn bombs_around(g: Grid, i: int, j: int) -> nat {
    one_if(bomb_at(g, i - 1, j - 1)) + one_if(bomb_at(g, i - 1, j)) + one_if(
        bomb_at(g, i - 1, j + 1),
    ) + one_if(bomb_at(g, i, j - 1)) + one_if(bomb_at(g, i, j + 1)) + one_if(
        bomb_at(g, i + 1, j - 1),
    ) + one_if(bomb_at(g, i + 1, j)) + one_if(bomb_at(g, i + 1, j + 1))
}

/// Flags among the neighbours of `(i, j)`; beyond the edge there is none.
pub open spec fn flags_around(g: Grid, i: int, j: int) -> nat {
    one_if(flag_at(g, i - 1, j - 1)) + one_if(flag_at(g, i - 1, j)) + one_if(
        flag_at(g, i - 1, j + 1),
    ) + one_if(flag_at(g, i, j - 1)) + one_if(flag_at(g, i, j + 1)) + one_if(
        flag_at(g, i + 1, j - 1),
    ) + one_if(flag_at(g, i + 1, j)) + one_if(flag_at(g, i + 1, j + 1))
}

/// Every tile without a bomb holds the number of bombs around it.
pub open spec fn correctly_numbered(g: Grid) -> bool {
    forall|i: int, j: int|
        in_grid(g, i, j) && !(#[trigger] g[i][j].value is Bomb) ==> g[i][j].value
            == TileValue::Adjacent(bombs_around(g, i, j) as u32)
}

/// Every tile is hidden.
pub open spec fn all_hidden(g: Grid) -> bool {
    forall|i: int, j: int| in_grid(g, i, j) ==> #[trigger] g[i][j].state is Hidden
}

/// Every tile without a bomb is revealed.
pub open spec fn cleared(g: Grid) -> bool {
    forall|i: int, j: int|
        in_grid(g, i, j) && !(#[trigger] g[i][j].value is Bomb) ==> g[i][j].state is Revealed
}

/// How many of the first `n` entries of `row` are set.
pub open spec fn count_row(row: Seq<bool>, n: int) -> nat
    decreases n,
{
    if n <= 0 {
        0
    } else {
        count_row(row, n - 1) + one_if(row[n - 1])
    }
}

/// How many entries of the first `k` rows of `mask` are set.
pub open spec fn count_rows(mask: Seq<Seq<bool>>, k: int) -> nat
    decreases k,
{
    if k <= 0 {
        0
    } else {
        count_rows(mask, k - 1) + count_row(mask[k - 1], mask[k - 1].len() as int)
    }
}

/// Where the bombs of `g` lie.
pub open spec fn bomb_mask(g: Grid) -> Seq<Seq<bool>> {
    Seq::new(g.len(), |i: int| Seq::new(g[i].len(), |j: int| g[i][j].value is Bomb))
}

/// Bombs before `(i, j)`, going through the grid row by row.
pub open spec fn bombs_before(g: Grid, i: int, j: int) -> nat {
    count_rows(bomb_mask(g), i) + count_row(bomb_mask(g)[i], j)
}

/// Number of bombs in `g`.
pub open spec fn bomb_total(g: Grid) -> nat {
    count_rows(bomb_mask(g), g.len() as int)
}

/// Length of the rows of a rectangular grid.
pub open spec fn width(g: Grid) -> int {
    if g.len() == 0 {
        0
    } else {
        g[0].len() as int
    }
}

/// All rows of `g` are equally long.
pub open spec fn uniform(g: Grid) -> bool {
    rectangular(g, g.len() as int, width(g))
}

/// Tiles without a bomb before `(i, j)`, going through a rectangular grid row by row.
pub open spec fn free_before(g: Grid, i: int, j: int) -> int {
    i * width(g) + j - bombs_before(g, i, j)
}

/// Number of tiles of a rectangular grid without a bomb.
pub open spec fn free_total(g: Grid) -> int {
    g.len() * width(g) - bomb_total(g)
}

/// `g` with a bomb under `(i, j)`.
pub open spec fn with_bomb(g: Grid, i: int, j: int) -> Grid {
    g.update(i, g[i].update(j, TileView { value: TileValue::Bomb, ..g[i][j] }))
}

/// `g` with `value` under the tile at `(i, j)`.
pub open spec fn with_value(g: Grid, i: int, j: int, value: TileValue) -> Grid {
    g.update(i, g[i].update(j, TileView { value: value, ..g[i][j] }))
}

/// `g` with the tile at `(i, j)` in state `state`.
pub open spec fn with_state(g: Grid, i: int, j: int, state: TileState) -> Grid {
    g.update(i, g[i].update(j, TileView { state: state, ..g[i][j] }))
}

/// No more entries are set than are counted over.
pub proof fn lemma_count_row_bound(row: Seq<bool>, n: int)
    requires
        0 <= n,
    ensures
        count_row(row, n) <= n,
    decreases n,
{
    if n > 0 {
        lemma_count_row_bound(row, n - 1);
    }
}

/// Where no entry is set, the count is zero.
pub proof fn lemma_count_row_clear(row: Seq<bool>, n: int)
    requires
        n <= row.len(),
        forall|j: int| 0 <= j < n ==> !row[j],
    ensures
        count_row(row, n) == 0,
    decreases n,
{
    if n > 0 {
        lemma_count_row_clear(row, n - 1);
    }
}

/// Where no entry of any row is set, the count is zero.
pub proof fn lemma_count_rows_clear(mask: Seq<Seq<bool>>, k: int)
    requires
        k <= mask.len(),
        forall|i: int, j: int| 0 <= i < k && 0 <= j < mask[i].len() ==> !#[trigger] mask[i][j],
    ensures
        count_rows(mask, k) == 0,
    decreases k,
{
    if k > 0 {
        lemma_count_rows_clear(mask, k - 1);
        lemma_count_row_clear(mask[k - 1], mask[k - 1].len() as int);
    }
}

/// Setting one entry that was clear adds one to the count, if the count reaches it.
pub proof fn lemma_count_row_set(row: Seq<bool>, j: int, n: int)
    requires
        0 <= j < row.len(),
        !row[j],
        0 <= n <= row.len(),
    ensures
        count_row(row.update(j, true), n) == count_row(row, n) + one_if(j < n),
    decreases n,
{
    if n > 0 {
        lemma_count_row_set(row, j, n - 1);
    }
}

/// Rows of `cols` entries each hold no more set entries than entries.
pub proof fn lemma_count_rows_bound(mask: Seq<Seq<bool>>, k: int, cols: int)
    requires
        0 <= k <= mask.len(),
        0 <= cols,
        forall|i: int| 0 <= i < k ==> (#[trigger] mask[i]).len() == cols,
    ensures
        count_rows(mask, k) <= k * cols,
    decreases k,
{
    if k > 0 {
        lemma_count_rows_bound(mask, k - 1, cols);
        lemma_count_row_bound(mask[k - 1], cols);
        assert(k * cols == (k - 1) * cols + cols) by (nonlinear_arith);
    } else {
        assert(k * cols == 0) by (nonlinear_arith)
            requires
                k == 0,
        ;
    }
}

/// Setting one entry that was clear adds one to the count, if the count reaches its row.
pub proof fn lemma_count_rows_set(mask: Seq<Seq<bool>>, i: int, j: int, k: int)
    requires
        0 <= i < mask.len(),
        0 <= j < mask[i].len(),
        !mask[i][j],
        0 <= k <= mask.len(),
    ensures
        count_rows(mask.update(i, mask[i].update(j, true)), k) == count_rows(mask, k) + one_if(
            i < k,
        ),
    decreases k,
{
    if k > 0 {
        lemma_count_rows_set(mask, i, j, k - 1);
        if i == k - 1 {
            lemma_count_row_set(mask[i], j, mask[i].len() as int);
        }
    }
}

/// `a` and `b` have one shape, and each tile has the same state and position in both.
pub open spec fn same_layout(a: Grid, b: Grid) -> bool {
    &&& a.len() == b.len()
    &&& forall|i: int| 0 <= i < a.len() ==> (#[trigger] a[i]).len() == b[i].len()
    &&& forall|i: int, j: int|
        in_grid(a, i, j) ==> {
            &&& (#[trigger] a[i][j]).state == b[i][j].state
            &&& a[i][j].x == b[i][j].x
            &&& a[i][j].y == b[i][j].y
        }
}

/// A bomb under a tile leaves shape, states and positions as they were.
pub proof fn lemma_with_bomb_layout(g: Grid, base: Grid, i: int, j: int)
    requires
        in_grid(g, i, j),
        same_layout(g, base),
    ensures
        same_layout(with_bomb(g, i, j), base),
{
    let w = with_bomb(g, i, j);
    assert forall|a: int| 0 <= a < w.len() implies (#[trigger] w[a]).len() == base[a].len() by {
        assert(g[a].len() == base[a].len());
    }
    assert forall|a: int, b: int| in_grid(w, a, b) implies {
        &&& (#[trigger] w[a][b]).state == base[a][b].state
        &&& w[a][b].x == base[a][b].x
        &&& w[a][b].y == base[a][b].y
    } by {
        assert(in_grid(g, a, b));
        assert(g[a][b].state == base[a][b].state);
    }
}

/// `a` and `b` have one shape, and each tile has the same value and position
/// in both: they differ in the states of their tiles at most.
pub open spec fn same_ground(a: Grid, b: Grid) -> bool {
    &&& a.len() == b.len()
    &&& forall|i: int| 0 <= i < a.len() ==> (#[trigger] a[i]).len() == b[i].len()
    &&& forall|i: int, j: int|
        in_grid(a, i, j) ==> {
            &&& (#[trigger] a[i][j]).value == b[i][j].value
            &&& a[i][j].x == b[i][j].x
            &&& a[i][j].y == b[i][j].y
        }
}

/// `g` with the flag on `(i, j)` toggled.
pub open spec fn flag_toggled(g: Grid, i: int, j: int) -> Grid {
    with_state(g, i, j, g[i][j].state.toggled())
}

/// A bomb under a tile that had none makes one bomb more.
pub proof fn lemma_with_bomb_total(g: Grid, i: int, j: int)
    requires
        in_grid(g, i, j),
        !(g[i][j].value is Bomb),
    ensures
        bomb_total(with_bomb(g, i, j)) == bomb_total(g) + 1,
{
    let mask = bomb_mask(g);
    let after = bomb_mask(with_bomb(g, i, j));
    assert forall|k: int| 0 <= k < g.len() implies #[trigger] after[k] =~= mask.update(
        i,
        mask[i].update(j, true),
    )[k] by {}
    assert(after =~= mask.update(i, mask[i].update(j, true)));
    lemma_count_rows_set(mask, i, j, g.len() as int);
}

/// Two grids with their bombs under the same tiles hold equally many.
pub proof fn lemma_same_bombs_same_total(a: Grid, b: Grid)
    requires
        a.len() == b.len(),
        forall|i: int| 0 <= i < a.len() ==> (#[trigger] a[i]).len() == b[i].len(),
        forall|i: int, j: int|
            in_grid(a, i, j) ==> ((#[trigger] a[i][j]).value is Bomb) == (b[i][j].value is Bomb),
    ensures
        bomb_mask(a) == bomb_mask(b),
        bomb_total(a) == bomb_total(b),
{
    assert forall|i: int| 0 <= i < a.len() implies #[trigger] bomb_mask(a)[i] =~= bomb_mask(b)[i] by {
        assert(a[i].len() == b[i].len());
        assert forall|j: int| 0 <= j < a[i].len() implies bomb_mask(a)[i][j] == bomb_mask(b)[i][j] by {
            assert(in_grid(a, i, j));
            assert((a[i][j].value is Bomb) == (b[i][j].value is Bomb));
        }
    }
    assert(bomb_mask(a) =~= bomb_mask(b));
}

/// Grids that differ in the states of their tiles at most hold equally many
/// bombs, count the same around every tile, and are numbered correctly
/// together.
pub proof fn lemma_same_ground(a: Grid, b: Grid)
    requires
        same_ground(a, b),
    ensures
        bomb_total(a) == bomb_total(b),
        forall|i: int, j: int| bombs_around(a, i, j) == bombs_around(b, i, j),
        correctly_numbered(a) == correctly_numbered(b),
        forall|rows: int, cols: int| rectangular(a, rows, cols) == rectangular(b, rows, cols),
{
    assert forall|i: int, j: int| bomb_at(a, i, j) == bomb_at(b, i, j) by {
        if 0 <= i < a.len() {
            assert(a[i].len() == b[i].len());
            if 0 <= j < a[i].len() {
                assert(in_grid(a, i, j));
                assert(a[i][j].value == b[i][j].value);
            }
        }
    }
    assert forall|i: int, j: int|
        in_grid(a, i, j) implies ((#[trigger] a[i][j]).value is Bomb) == (b[i][j].value is Bomb) by {
        assert(bomb_at(a, i, j) == bomb_at(b, i, j));
    }
    lemma_same_bombs_same_total(a, b);
    if correctly_numbered(a) {
        assert forall|i: int, j: int|
            in_grid(b, i, j) && !(#[trigger] b[i][j].value is Bomb) implies b[i][j].value
            == TileValue::Adjacent(bombs_around(b, i, j) as u32) by {
            assert(a[i].len() == b[i].len());
            assert(in_grid(a, i, j));
            assert(a[i][j].value == b[i][j].value);
        }
    }
    if correctly_numbered(b) {
        assert forall|i: int, j: int|
            in_grid(a, i, j) && !(#[trigger] a[i][j].value is Bomb) implies a[i][j].value
            == TileValue::Adjacent(bombs_around(a, i, j) as u32) by {
            assert(a[i][j].value == b[i][j].value);
        }
    }
    assert forall|rows: int, cols: int| rectangular(a, rows, cols) == rectangular(b, rows, cols) by {
        if rectangular(a, rows, cols) {
            assert forall|i: int| 0 <= i < rows implies (#[trigger] b[i]).len() == cols by {
                assert(a[i].len() == b[i].len());
            }
        }
        if rectangular(b, rows, cols) {
            assert forall|i: int| 0 <= i < rows implies (#[trigger] a[i]).len() == cols by {
                assert(a[i].len() == b[i].len());
            }
        }
    }
}

/// A tile in another state leaves values and positions as they were.
pub proof fn lemma_with_state_ground(g: Grid, i: int, j: int, state: TileState)
    requires
        in_grid(g, i, j),
    ensures
        same_ground(g, with_state(g, i, j, state)),
{
}

} // verus!
