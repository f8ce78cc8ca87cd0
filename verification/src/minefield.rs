//! Building a minefield: blank tiles, bombs under some of them, and on every
//! other tile the number of bombs around it.

use vstd::prelude::*;
use crate::grid::{
    all_hidden, bomb_at, bomb_mask, bomb_total, bombs_around, correctly_numbered, count_row,
    count_rows, free_before, free_total, grid_of, in_grid, lemma_count_rows_clear,
    lemma_same_bombs_same_total, lemma_with_bomb_layout, lemma_with_bomb_total, one_if,
    rectangular, row_of, same_layout, uniform, width, with_bomb, with_value, Grid,
};
use crate::random::draw_below;
use crate::tile::{Tile, TileState, TileValue, TileView};
use crate::TILE_SIZE;

verus! {

/// A grid of `rows` by `cols` hidden tiles without bombs, each at its place on
/// the pixel lattice.
pub open spec fn blank_grid(rows: int, cols: int) -> Grid {
    Seq::new(
        rows as nat,
        |i: int|
            Seq::new(
                cols as nat,
                |j: int|
                    TileView {
                        state: TileState::Hidden,
                        x: (j * TILE_SIZE) as i32,
                        y: (i * TILE_SIZE) as i32,
                        value: TileValue::Adjacent(0),
                    },
            ),
    )
}

/// Every tile lies at its column and row times the tile size.
pub open spec fn on_lattice(g: Grid) -> bool {
    forall|i: int, j: int|
        in_grid(g, i, j) ==> (#[trigger] g[i][j]).x == j * TILE_SIZE && g[i][j].y == i * TILE_SIZE
}

/// A minefield of blank tiles.
pub fn blank_minefield(row_count: u32, col_count: u32) -> (field: Vec<Vec<Tile>>)
    requires
        row_count * TILE_SIZE <= i32::MAX,
        col_count * TILE_SIZE <= i32::MAX,
    ensures
        grid_of(&field) == blank_grid(row_count as int, col_count as int),
{
    let mut minefield: Vec<Vec<Tile>> = Vec::new();
    for i in 0..row_count
        invariant
            row_count * TILE_SIZE <= i32::MAX,
            col_count * TILE_SIZE <= i32::MAX,
            minefield@.len() == i,
            forall|k: int|
                0 <= k < i ==> row_of(&#[trigger] minefield@[k]) == blank_grid(
                    row_count as int,
                    col_count as int,
                )[k],
    {
        let mut new_row: Vec<Tile> = Vec::new();
        for j in 0..col_count
            invariant
                i < row_count,
                row_count * TILE_SIZE <= i32::MAX,
                col_count * TILE_SIZE <= i32::MAX,
                new_row@.len() == j,
                forall|l: int|
                    0 <= l < j ==> (#[trigger] new_row@[l])@ == blank_grid(
                        row_count as int,
                        col_count as int,
                    )[i as int][l],
        {
            new_row.push(Tile::new_blank((j * TILE_SIZE) as i32, (i * TILE_SIZE) as i32));
        }
        assert(row_of(&new_row) =~= blank_grid(row_count as int, col_count as int)[i as int]);
        minefield.push(new_row);
    }
    assert(grid_of(&minefield) =~= blank_grid(row_count as int, col_count as int));
    minefield
}

/// One draw of bomb placement: puts a bomb under `(i, j)` unless one lies
/// there already, and tells whether it did.
pub fn place_bomb(field: &mut Vec<Vec<Tile>>, i: usize, j: usize) -> (placed: bool)
    requires
        in_grid(grid_of(old(field)), i as int, j as int),
    ensures
        placed == !bomb_at(grid_of(old(field)), i as int, j as int),
        placed ==> grid_of(final(field)) == with_bomb(grid_of(old(field)), i as int, j as int),
        !placed ==> grid_of(final(field)) == grid_of(old(field)),
{
    if field[i][j].is_bomb() {
        return false;
    }
    field[i][j].set_bomb();
    assert(grid_of(field) =~~= with_bomb(grid_of(old(field)), i as int, j as int));
    true
}

/// `(i, j)` is the tile of `g` without a bomb that has `k` such tiles before it,
/// going through the grid row by row.
pub open spec fn is_free_tile(g: Grid, k: int, i: int, j: int) -> bool {
    &&& in_grid(g, i, j)
    &&& !bomb_at(g, i, j)
    &&& free_before(g, i, j) == k
}

/// Puts a bomb under the tile that has `k` tiles without a bomb before it, going
/// through the field row by row.
pub fn place_bomb_at_free(field: &mut Vec<Vec<Tile>>, k: u64)
    requires
        uniform(grid_of(old(field))),
        k < free_total(grid_of(old(field))),
    ensures
        exists|i: int, j: int|
            #[trigger] is_free_tile(grid_of(old(field)), k as int, i, j) && grid_of(final(field))
                == with_bomb(grid_of(old(field)), i, j),
{
    let ghost g0 = grid_of(field);
    let ghost mask = bomb_mask(g0);
    let rows = field.len();
    let mut skipped: u64 = 0;
    let mut i: usize = 0;
    while i < rows
        invariant
            grid_of(field) == g0,
            g0 == grid_of(old(field)),
            mask == bomb_mask(g0),
            uniform(g0),
            rows == g0.len(),
            i <= rows,
            skipped == free_before(g0, i as int, 0),
            skipped <= k,
            k < free_total(g0),
        decreases rows - i,
    {
        assert(g0[i as int].len() == width(g0));
        assert(row_of(&field@[i as int]) == g0[i as int]);
        let cols = field[i].len();
        let mut j: usize = 0;
        while j < cols
            invariant
                grid_of(field) == g0,
                g0 == grid_of(old(field)),
                mask == bomb_mask(g0),
                uniform(g0),
                rows == g0.len(),
                i < rows,
                cols == width(g0),
                cols == field@[i as int]@.len(),
                j <= cols,
                skipped == free_before(g0, i as int, j as int),
                skipped <= k,
                k < free_total(g0),
            decreases cols - j,
        {
            assert(row_of(&field@[i as int]) == g0[i as int]);
            assert(g0[i as int][j as int] == field@[i as int]@[j as int]@);
            assert(mask[i as int][j as int] == (g0[i as int][j as int].value is Bomb));
            assert(count_row(mask[i as int], j + 1) == count_row(mask[i as int], j as int) + one_if(
                mask[i as int][j as int],
            ));
            if !field[i][j].is_bomb() {
                if skipped == k {
                    field[i][j].set_bomb();
                    assert(grid_of(field) =~~= with_bomb(g0, i as int, j as int));
                    assert(is_free_tile(g0, k as int, i as int, j as int));
                    return ;
                }
                skipped += 1;
            }
            j += 1;
        }
        proof {
            assert(mask[i as int].len() == cols);
            assert(count_rows(mask, i + 1) == count_rows(mask, i as int) + count_row(
                mask[i as int],
                cols as int,
            ));
            assert((i + 1) * width(g0) == i * width(g0) + width(g0)) by (nonlinear_arith);
        }
        i += 1;
    }
    // All tiles are passed and fewer than `k` of them were free: but more than
    // `k` are, so the search cannot come here.
    assert(count_row(mask[rows as int], 0) == 0);
    assert(skipped == free_total(g0));
    assert(false);
}

/// `g` with the number of bombs around it written on every tile without a bomb.
pub open spec fn numbered(g: Grid) -> Grid {
    Seq::new(
        g.len(),
        |i: int|
            Seq::new(
                g[i].len(),
                |j: int|
                    if g[i][j].value is Bomb {
                        g[i][j]
                    } else {
                        TileView {
                            value: TileValue::Adjacent(bombs_around(g, i, j) as u32),
                            ..g[i][j]
                        }
                    },
            ),
    )
}

/// `(a, b)` comes before `(i, j)`, going through a grid row by row.
pub open spec fn comes_before(a: int, b: int, i: int, j: int) -> bool {
    a < i || (a == i && b < j)
}

/// Numbering keeps the shape, the bombs, the states and the positions, and
/// leaves every tile without a bomb with the right number.
pub proof fn lemma_numbered(g: Grid)
    ensures
        numbered(g).len() == g.len(),
        forall|i: int| 0 <= i < g.len() ==> (#[trigger] numbered(g)[i]).len() == g[i].len(),
        forall|i: int, j: int|
            in_grid(g, i, j) ==> {
                &&& (#[trigger] numbered(g)[i][j]).state == g[i][j].state
                &&& numbered(g)[i][j].x == g[i][j].x
                &&& numbered(g)[i][j].y == g[i][j].y
                &&& (numbered(g)[i][j].value is Bomb) == (g[i][j].value is Bomb)
            },
        bomb_total(numbered(g)) == bomb_total(g),
        correctly_numbered(numbered(g)),
{
    let n = numbered(g);
    lemma_same_bombs_same_total(n, g);
    assert forall|i: int, j: int| in_grid(n, i, j) && !(#[trigger] n[i][j].value is Bomb) implies n[i][j].value
        == TileValue::Adjacent(bombs_around(n, i, j) as u32) by {
        lemma_same_bombs_around(n, g, i, j);
    }
}

/// Two grids of one shape with their bombs under the same tiles count the same
/// around every tile.
pub proof fn lemma_same_bombs_around(a: Grid, b: Grid, i: int, j: int)
    requires
        a.len() == b.len(),
        forall|k: int| 0 <= k < a.len() ==> (#[trigger] a[k]).len() == b[k].len(),
        forall|k: int, l: int|
            in_grid(a, k, l) ==> ((#[trigger] a[k][l]).value is Bomb) == (b[k][l].value is Bomb),
    ensures
        bombs_around(a, i, j) == bombs_around(b, i, j),
{
    assert forall|k: int, l: int| bomb_at(a, k, l) == bomb_at(b, k, l) by {
        if 0 <= k < a.len() {
            assert(a[k].len() == b[k].len());
            if 0 <= l < a[k].len() {
                assert(in_grid(a, k, l));
                assert((a[k][l].value is Bomb) == (b[k][l].value is Bomb));
            }
        }
    }
}

/// `g` numbered on the tiles that come before `(i, j)`, untouched from there on.
pub open spec fn numbered_up_to(g: Grid, i: int, j: int) -> Grid {
    Seq::new(
        g.len(),
        |a: int|
            Seq::new(
                g[a].len(),
                |b: int|
                    if comes_before(a, b, i, j) {
                        numbered(g)[a][b]
                    } else {
                        g[a][b]
                    },
            ),
    )
}

/// What one step of numbering needs: the bombs lie where they lay, and writing
/// the number on `(i, j)` moves the numbered part one tile on.
proof fn lemma_number_step(g: Grid, i: int, j: int)
    requires
        uniform(g),
        in_grid(g, i, j),
    ensures
        uniform(numbered_up_to(g, i, j)),
        in_grid(numbered_up_to(g, i, j), i, j),
        numbered_up_to(g, i, j)[i][j] == g[i][j],
        bombs_around(numbered_up_to(g, i, j), i, j) == bombs_around(g, i, j),
        g[i][j].value is Bomb ==> numbered_up_to(g, i, j + 1) == numbered_up_to(g, i, j),
        !(g[i][j].value is Bomb) ==> numbered_up_to(g, i, j + 1) == with_value(
            numbered_up_to(g, i, j),
            i,
            j,
            TileValue::Adjacent(bombs_around(g, i, j) as u32),
        ),
{
    let cur = numbered_up_to(g, i, j);
    let next = numbered_up_to(g, i, j + 1);
    assert(g[0].len() == width(g));
    assert forall|a: int| 0 <= a < cur.len() implies (#[trigger] cur[a]).len() == width(cur) by {
        assert(g[a].len() == width(g));
    }
    lemma_same_bombs_around(cur, g, i, j);
    if g[i][j].value is Bomb {
        assert(next =~~= cur);
    } else {
        assert(next =~~= with_value(
            cur,
            i,
            j,
            TileValue::Adjacent(bombs_around(g, i, j) as u32),
        ));
    }
}

/// The numbered part has the same extent at the end of one row and at the
/// start of the next, and covers the grid once all rows are done.
proof fn lemma_number_rows(g: Grid, i: int)
    requires
        uniform(g),
        0 <= i < g.len(),
    ensures
        numbered_up_to(g, i, width(g)) == numbered_up_to(g, i + 1, 0),
        numbered_up_to(g, 0, 0) == g,
        numbered_up_to(g, g.len() as int, 0) == numbered(g),
{
    assert forall|a: int| 0 <= a < g.len() implies (#[trigger] g[a]).len() == width(g) by {}
    assert(numbered_up_to(g, i, width(g)) =~~= numbered_up_to(g, i + 1, 0));
    assert(numbered_up_to(g, 0, 0) =~~= g);
    assert(numbered_up_to(g, g.len() as int, 0) =~~= numbered(g));
}

/// Writes on every tile without a bomb the number of bombs among its
/// neighbours; neighbours beyond the edge count as none.
pub fn number_minefield(field: &mut Vec<Vec<Tile>>)
    requires
        uniform(grid_of(old(field))),
    ensures
        grid_of(final(field)) == numbered(grid_of(old(field))),
{
    let ghost g0 = grid_of(field);
    let rows = field.len();
    if rows == 0 {
        assert(grid_of(field) =~~= numbered(g0));
        return ;
    }
    proof {
        lemma_number_rows(g0, 0);
    }
    let mut i: usize = 0;
    while i < rows
        invariant
            g0 == grid_of(old(field)),
            uniform(g0),
            rows == g0.len(),
            i <= rows,
            grid_of(field) == numbered_up_to(g0, i as int, 0),
        decreases rows - i,
    {
        assert(g0[i as int].len() == width(g0));
        assert(grid_of(field).len() == rows);
        assert(grid_of(field)[i as int].len() == g0[i as int].len());
        let cols = field[i].len();
        let mut j: usize = 0;
        while j < cols
            invariant
                g0 == grid_of(old(field)),
                uniform(g0),
                rows == g0.len(),
                i < rows,
                cols == width(g0),
                j <= cols,
                grid_of(field) == numbered_up_to(g0, i as int, j as int),
            decreases cols - j,
        {
            proof {
                lemma_number_step(g0, i as int, j as int);
            }
            number_tile(field, i, j);
            j += 1;
        }
        proof {
            lemma_number_rows(g0, i as int);
        }
        i += 1;
    }
    proof {
        lemma_number_rows(g0, 0);
    }
}

/// Writes on `(i, j)` the number of bombs among its neighbours, unless a bomb
/// lies under it.
fn number_tile(field: &mut Vec<Vec<Tile>>, i: usize, j: usize)
    requires
        uniform(grid_of(old(field))),
        in_grid(grid_of(old(field)), i as int, j as int),
    ensures
        bomb_at(grid_of(old(field)), i as int, j as int) ==> grid_of(final(field)) == grid_of(
            old(field),
        ),
        !bomb_at(grid_of(old(field)), i as int, j as int) ==> grid_of(final(field)) == with_value(
            grid_of(old(field)),
            i as int,
            j as int,
            TileValue::Adjacent(bombs_around(grid_of(old(field)), i as int, j as int) as u32),
        ),
{
    assert(grid_of(field)[i as int][j as int] == field@[i as int]@[j as int]@);
    if !field[i][j].is_bomb() {
        let count = bombs_near(field, i, j);
        field[i][j].set_value(TileValue::Adjacent(count));
        assert(grid_of(field) =~~= with_value(
            grid_of(old(field)),
            i as int,
            j as int,
            TileValue::Adjacent(count),
        ));
    }
}

/// Whether a bomb lies under the tile at `(i, j)`.
fn bomb_under(field: &Vec<Vec<Tile>>, i: usize, j: usize) -> (bomb: bool)
    requires
        in_grid(grid_of(field), i as int, j as int),
    ensures
        bomb == bomb_at(grid_of(field), i as int, j as int),
{
    assert(grid_of(field)[i as int][j as int] == field@[i as int]@[j as int]@);
    field[i][j].is_bomb()
}

/// Counts the bombs among the neighbours of `(i, j)`.
#[verifier::rlimit(30)]
fn bombs_near(field: &Vec<Vec<Tile>>, i: usize, j: usize) -> (count: u32)
    requires
        uniform(grid_of(field)),
        in_grid(grid_of(field), i as int, j as int),
    ensures
        count == bombs_around(grid_of(field), i as int, j as int),
{
    let ghost g = grid_of(field);
    let rows = field.len();
    assert(g[i as int].len() == width(g));
    let cols = field[i].len();
    proof {
        if i > 0 {
            assert(g[i - 1].len() == width(g));
        }
        if i + 1 < rows {
            assert(g[i + 1].len() == width(g));
        }
    }
    let ghost a = i as int;
    let ghost b = j as int;
    let mut count: u32 = 0;
    if i > 0 && bomb_under(field, i - 1, j) {
        count += 1;
    }
    if i + 1 < rows && bomb_under(field, i + 1, j) {
        count += 1;
    }
    assert(count == one_if(bomb_at(g, a - 1, b)) + one_if(bomb_at(g, a + 1, b)));
    let ghost upright = count;
    if j > 0 && bomb_under(field, i, j - 1) {
        count += 1;
    }
    if j + 1 < cols && bomb_under(field, i, j + 1) {
        count += 1;
    }
    assert(count == upright + one_if(bomb_at(g, a, b - 1)) + one_if(bomb_at(g, a, b + 1)));
    let ghost straight = count;
    if i > 0 && j > 0 && bomb_under(field, i - 1, j - 1) {
        count += 1;
    }
    if i > 0 && j + 1 < cols && bomb_under(field, i - 1, j + 1) {
        count += 1;
    }
    assert(count == straight + one_if(bomb_at(g, a - 1, b - 1)) + one_if(
        bomb_at(g, a - 1, b + 1),
    ));
    let ghost above = count;
    if i + 1 < rows && j > 0 && bomb_under(field, i + 1, j - 1) {
        count += 1;
    }
    if i + 1 < rows && j + 1 < cols && bomb_under(field, i + 1, j + 1) {
        count += 1;
    }
    assert(count == above + one_if(bomb_at(g, a + 1, b - 1)) + one_if(bomb_at(g, a + 1, b + 1)));
    count
}

/// A blank grid has the shape asked for and no bombs; its tiles are hidden and
/// lie on the pixel lattice.
pub proof fn lemma_blank_grid(rows: int, cols: int)
    requires
        0 <= rows,
        0 <= cols,
        rows * TILE_SIZE <= i32::MAX,
        cols * TILE_SIZE <= i32::MAX,
    ensures
        rectangular(blank_grid(rows, cols), rows, cols),
        bomb_total(blank_grid(rows, cols)) == 0,
        all_hidden(blank_grid(rows, cols)),
        on_lattice(blank_grid(rows, cols)),
{
    let g = blank_grid(rows, cols);
    lemma_count_rows_clear(bomb_mask(g), rows);
    assert forall|i: int, j: int| in_grid(g, i, j) implies (#[trigger] g[i][j]).x == j * TILE_SIZE
        && g[i][j].y == i * TILE_SIZE by {
        assert(0 <= j * TILE_SIZE <= cols * TILE_SIZE) by (nonlinear_arith)
            requires
                0 <= j < cols,
        ;
        assert(0 <= i * TILE_SIZE <= rows * TILE_SIZE) by (nonlinear_arith)
            requires
                0 <= i < rows,
        ;
    }
}

/// A grid laid out as the blank grid is rectangular, hidden and on the lattice.
proof fn lemma_laid_out(g: Grid, rows: int, cols: int)
    requires
        0 <= rows,
        0 <= cols,
        rows * TILE_SIZE <= i32::MAX,
        cols * TILE_SIZE <= i32::MAX,
        same_layout(g, blank_grid(rows, cols)),
    ensures
        rectangular(g, rows, cols),
        rows > 0 ==> width(g) == cols,
        all_hidden(g),
        on_lattice(g),
{
    let blank = blank_grid(rows, cols);
    lemma_blank_grid(rows, cols);
    assert forall|i: int| 0 <= i < rows implies (#[trigger] g[i]).len() == cols by {
        assert(g[i].len() == blank[i].len());
    }
    assert forall|i: int, j: int| in_grid(g, i, j) implies #[trigger] g[i][j].state is Hidden by {
        assert(g[i][j].state == blank[i][j].state);
    }
    assert forall|i: int, j: int| in_grid(g, i, j) implies (#[trigger] g[i][j]).x == j * TILE_SIZE
        && g[i][j].y == i * TILE_SIZE by {
        assert(g[i][j].x == blank[i][j].x);
        assert(in_grid(blank, i, j));
    }
}

/// Builds a minefield of `row_count` by `col_count` hidden tiles with
/// `bomb_count` bombs under distinct tiles, chosen at random, and on every other
/// tile the number of bombs around it.
///
/// Each bomb goes to a tile drawn by row and column; where that tile holds a
/// bomb already, the draw is repeated among the tiles that hold none, so that
/// every bomb is placed after at most two draws.
pub fn build_minefield(row_count: u32, col_count: u32, bomb_count: u32) -> (field: Vec<Vec<Tile>>)
    requires
        bomb_count <= row_count * col_count,
        row_count * TILE_SIZE <= i32::MAX,
        col_count * TILE_SIZE <= i32::MAX,
    ensures
        rectangular(grid_of(&field), row_count as int, col_count as int),
        bomb_total(grid_of(&field)) == bomb_count,
        correctly_numbered(grid_of(&field)),
        all_hidden(grid_of(&field)),
        on_lattice(grid_of(&field)),
{
    let ghost blank = blank_grid(row_count as int, col_count as int);
    let mut minefield = blank_minefield(row_count, col_count);
    proof {
        lemma_blank_grid(row_count as int, col_count as int);
        assert(row_count * col_count <= 0xffff_ffff * 0xffff_ffff) by (nonlinear_arith)
            requires
                0 <= row_count <= 0xffff_ffff,
                0 <= col_count <= 0xffff_ffff,
        ;
    }
    let cells: u64 = row_count as u64 * col_count as u64;
    let mut rng = rand::thread_rng();
    let mut placed: u32 = 0;
    while placed < bomb_count
        invariant
            row_count * TILE_SIZE <= i32::MAX,
            col_count * TILE_SIZE <= i32::MAX,
            blank == blank_grid(row_count as int, col_count as int),
            same_layout(grid_of(&minefield), blank),
            bomb_total(grid_of(&minefield)) == placed,
            placed <= bomb_count <= row_count * col_count,
            cells == row_count * col_count,
        decreases bomb_count - placed,
    {
        let ghost before = grid_of(&minefield);
        proof {
            lemma_laid_out(before, row_count as int, col_count as int);
            assert(row_count > 0 && col_count > 0) by (nonlinear_arith)
                requires
                    0 < row_count * col_count,
                    0 <= row_count,
                    0 <= col_count,
            ;
            assert(before[0].len() == col_count);
        }
        let i = draw_below(&mut rng, row_count as u64) as usize;
        let j = draw_below(&mut rng, col_count as u64) as usize;
        assert(before[i as int].len() == col_count);
        if place_bomb(&mut minefield, i, j) {
            proof {
                lemma_with_bomb_total(before, i as int, j as int);
                lemma_with_bomb_layout(before, blank, i as int, j as int);
            }
        } else {
            let k = draw_below(&mut rng, cells - placed as u64);
            place_bomb_at_free(&mut minefield, k);
            proof {
                let (a, b) = choose|a: int, b: int|
                    #[trigger] is_free_tile(before, k as int, a, b) && grid_of(&minefield)
                        == with_bomb(before, a, b);
                lemma_with_bomb_total(before, a, b);
                lemma_with_bomb_layout(before, blank, a, b);
            }
        }
        placed += 1;
    }
    let ghost bombed = grid_of(&minefield);
    proof {
        lemma_laid_out(bombed, row_count as int, col_count as int);
        if row_count == 0 {
            assert(width(bombed) == 0);
        }
    }
    number_minefield(&mut minefield);
    proof {
        lemma_numbered(bombed);
        let done = grid_of(&minefield);
        assert(same_layout(done, blank)) by {
            assert forall|a: int| 0 <= a < done.len() implies (#[trigger] done[a]).len()
                == blank[a].len() by {
                assert(bombed[a].len() == blank[a].len());
            }
            assert forall|a: int, b: int| in_grid(done, a, b) implies {
                &&& (#[trigger] done[a][b]).state == blank[a][b].state
                &&& done[a][b].x == blank[a][b].x
                &&& done[a][b].y == blank[a][b].y
            } by {
                assert(in_grid(bombed, a, b));
                assert(bombed[a][b].state == blank[a][b].state);
            }
        }
        lemma_laid_out(done, row_count as int, col_count as int);
    }
    minefield
}

} // verus!
