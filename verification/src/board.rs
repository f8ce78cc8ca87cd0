//! The board: a minefield with its dimensions, and what a click, a flag and a
//! look at the whole field do.

use vstd::prelude::*;
use crate::grid::{
    all_hidden, bomb_total, cleared, correctly_numbered, count_rows, flag_at, flag_toggled,
    flags_around, grid_of, grid_of_rows, in_grid, lemma_count_rows_bound, lemma_same_ground,
    one_if,
    lemma_with_state_ground, rectangular, row_of, same_ground, with_state, Grid,
};
use crate::minefield::{build_minefield, on_lattice};
use crate::region::{
    click_detonates, clicked, detonates, lemma_reveal_ground, partly_revealed, revealed_from,
};
use crate::sweep::{
    click_result, entry_if, lemma_entry_added, lemma_mark_counts, lemma_opened_keeps,
    lemma_opened_mark, lemma_sweep_blown, lemma_sweep_done, lemma_sweep_entry,
    lemma_sweep_first, lemma_sweep_mark, lemma_sweep_next, lemma_sweep_skip, marks_of,
    neighbours, no_marks, opened, reveal_result, reveal_run, sweep_inv, swept, with_mark,
};
use crate::tile::{Tile, TileState, TileValue};
use crate::{GameError, GameState, TILE_SIZE};

verus! {

/// A reveal arrived at a bomb that carried no flag.
#[derive(Clone, Copy, Debug, PartialEq, Eq)]
pub struct BombTriggered;

impl BombTriggered {
    /// What happened, in words.
    pub fn message(&self) -> (text: String)
        ensures
            text@ == "Bomb was triggered while revealing"@,
    {
        "Bomb was triggered while revealing".to_string()
    }
}

/// A minefield of fixed dimensions. `bomb_count` records how many bombs were
/// asked for when the board was made.
#[derive(Debug)]
pub struct Board {
    minefield: Vec<Vec<Tile>>,
    pub tile_rows: u32,
    pub tile_columns: u32,
    bomb_count: u32,
}

impl View for Board {
    type V = Grid;

    closed spec fn view(&self) -> Grid {
        grid_of(&self.minefield)
    }
}

/// Tiles and dimensions that came apart go together: the tiles come in
/// `tile_rows` rows of `tile_columns` each.
pub open spec fn parts_fit(g: Grid, tile_rows: u32, tile_columns: u32) -> bool {
    rectangular(g, tile_rows as int, tile_columns as int)
}

/// Whether the tiles come in `tile_rows` rows of `tile_columns` each.
fn fits(minefield: &Vec<Vec<Tile>>, tile_rows: u32, tile_columns: u32) -> (fit: bool)
    ensures
        fit == parts_fit(grid_of(minefield), tile_rows, tile_columns),
{
    let ghost g = grid_of(minefield);
    if minefield.len() != tile_rows as usize {
        return false;
    }
    let mut i: usize = 0;
    while i < minefield.len()
        invariant
            g == grid_of(minefield),
            i <= g.len(),
            g.len() == tile_rows,
            forall|a: int| 0 <= a < i ==> (#[trigger] g[a]).len() == tile_columns,
        decreases g.len() - i,
    {
        assert(g[i as int] == row_of(&minefield@[i as int]));
        if minefield[i].len() != tile_columns as usize {
            return false;
        }
        i += 1;
    }
    true
}

/// Marks for `rows` by `cols` tiles, none set.
fn unmarked(rows: usize, cols: usize) -> (checked: Vec<Vec<bool>>)
    ensures
        marks_of(&checked) == Seq::new(rows as nat, |i: int| Seq::new(cols as nat, |j: int| false)),
{
    let mut checked: Vec<Vec<bool>> = Vec::new();
    let mut i: usize = 0;
    while i < rows
        invariant
            i <= rows,
            checked@.len() == i,
            forall|a: int|
                0 <= a < i ==> (#[trigger] checked@[a])@ == Seq::new(cols as nat, |j: int| false),
        decreases rows - i,
    {
        let mut row: Vec<bool> = Vec::new();
        let mut j: usize = 0;
        while j < cols
            invariant
                j <= cols,
                row@.len() == j,
                forall|b: int| 0 <= b < j ==> !#[trigger] row@[b],
            decreases cols - j,
        {
            row.push(false);
            j += 1;
        }
        assert(row@ =~= Seq::new(cols as nat, |j: int| false));
        checked.push(row);
        i += 1;
    }
    assert(marks_of(&checked) =~= Seq::new(
        rows as nat,
        |i: int| Seq::new(cols as nat, |j: int| false),
    ));
    checked
}

/// Puts the neighbours of `(i, j)` on the list, none of them as a chain.
fn push_neighbours(
    to_reveal: &mut Vec<(usize, usize, bool)>,
    i: usize,
    j: usize,
    rows: usize,
    cols: usize,
)
    requires
        i < rows,
        j < cols,
    ensures
        final(to_reveal)@ == old(to_reveal)@ + neighbours(
            i as int,
            j as int,
            rows as int,
            cols as int,
        ),
{
    let ghost before = to_reveal@;
    let ghost a = i as int;
    let ghost b = j as int;
    let ghost e0: Seq<(usize, usize, bool)> = Seq::empty();
    let ghost e1 = e0 + entry_if(j > 0, a, b - 1);
    let ghost e2 = e1 + entry_if(j + 1 < cols, a, b + 1);
    let ghost e3 = e2 + entry_if(i > 0, a - 1, b);
    let ghost e4 = e3 + entry_if(i > 0 && j > 0, a - 1, b - 1);
    let ghost e5 = e4 + entry_if(i > 0 && j + 1 < cols, a - 1, b + 1);
    let ghost e6 = e5 + entry_if(i + 1 < rows, a + 1, b);
    let ghost e7 = e6 + entry_if(i + 1 < rows && j > 0, a + 1, b - 1);
    let ghost e8 = e7 + entry_if(i + 1 < rows && j + 1 < cols, a + 1, b + 1);
    proof {
        assert(to_reveal@ =~= before + e0);
        lemma_entry_added(before, e0, j > 0, a, b - 1);
        lemma_entry_added(before, e1, j + 1 < cols, a, b + 1);
        lemma_entry_added(before, e2, i > 0, a - 1, b);
        lemma_entry_added(before, e3, i > 0 && j > 0, a - 1, b - 1);
        lemma_entry_added(before, e4, i > 0 && j + 1 < cols, a - 1, b + 1);
        lemma_entry_added(before, e5, i + 1 < rows, a + 1, b);
        lemma_entry_added(before, e6, i + 1 < rows && j > 0, a + 1, b - 1);
        lemma_entry_added(before, e7, i + 1 < rows && j + 1 < cols, a + 1, b + 1);
        assert(e1 =~= entry_if(j > 0, a, b - 1));
    }
    if j > 0 {
        to_reveal.push((i, j - 1, false));
    }
    assert(to_reveal@ == before + e1);
    if j + 1 < cols {
        to_reveal.push((i, j + 1, false));
    }
    assert(to_reveal@ == before + e2);
    if i > 0 {
        to_reveal.push((i - 1, j, false));
        assert(to_reveal@ == before + e3);
        if j > 0 {
            to_reveal.push((i - 1, j - 1, false));
        }
        assert(to_reveal@ == before + e4);
        if j + 1 < cols {
            to_reveal.push((i - 1, j + 1, false));
        }
    }
    assert(to_reveal@ == before + e5);
    if i + 1 < rows {
        to_reveal.push((i + 1, j, false));
        assert(to_reveal@ == before + e6);
        if j > 0 {
            to_reveal.push((i + 1, j - 1, false));
        }
        assert(to_reveal@ == before + e7);
        if j + 1 < cols {
            to_reveal.push((i + 1, j + 1, false));
        }
    }
    assert(to_reveal@ == before + e8);
}

impl Board {
    /// The number of rows that the board says it has.
    pub closed spec fn rows(&self) -> u32 {
        self.tile_rows
    }

    /// The number of columns that the board says it has.
    pub closed spec fn columns(&self) -> u32 {
        self.tile_columns
    }

    /// The board has as many rows and columns of tiles as it says.
    pub open spec fn wf(&self) -> bool {
        rectangular(self@, self.rows() as int, self.columns() as int)
    }

    /// The board is well formed, holds as many bombs as it was made with, and
    /// every tile without a bomb holds the number of bombs around it.
    pub open spec fn consistent(&self) -> bool {
        &&& self.wf()
        &&& bomb_total(self@) == self.bombs()
        &&& correctly_numbered(self@)
    }

    /// The number of bombs that the board was made with.
    pub closed spec fn bombs(&self) -> u32 {
        self.bomb_count
    }

    /// A board of `rows` by `columns` hidden tiles with `bombs` bombs under
    /// tiles chosen at random.
    pub fn new(rows: u32, columns: u32, bombs: u32) -> (board: Self)
        requires
            bombs <= rows * columns,
            rows * TILE_SIZE <= i32::MAX,
            columns * TILE_SIZE <= i32::MAX,
        ensures
            board.consistent(),
            board.rows() == rows,
            board.columns() == columns,
            board.bombs() == bombs,
            all_hidden(board@),
            on_lattice(board@),
    {
        Self {
            minefield: build_minefield(rows, columns, bombs),
            tile_rows: rows,
            tile_columns: columns,
            bomb_count: bombs,
        }
    }

    /// Reveals `(first_i, first_j)` and whatever the reveal spreads to, working
    /// through a list of tiles and marking each tile it has dealt with.
    ///
    /// A tile with a flag is left alone. A tile with a bomb ends the reveal with
    /// an error; what was shown before stays shown. Any other tile is shown, and
    /// the reveal goes on into its neighbours if as many flags stand around it
    /// as its number says and either the number is zero or the tile is the
    /// start of a reveal that came as a chain.
    pub fn reveal_at(&mut self, first_i: usize, first_j: usize, first_chain_reveal: bool) -> (result:
        Result<(), BombTriggered>)
        requires
            old(self).wf(),
            in_grid(old(self)@, first_i as int, first_j as int),
        ensures
            final(self).wf(),
            final(self).rows() == old(self).rows(),
            final(self).columns() == old(self).columns(),
            final(self).bombs() == old(self).bombs(),
            final(self)@ == reveal_result(
                old(self)@,
                first_i as int,
                first_j as int,
                first_chain_reveal,
            ),
            result is Err <==> reveal_run(
                old(self)@,
                first_i as int,
                first_j as int,
                first_chain_reveal,
            ).1,
            result is Err <==> detonates(
                old(self)@,
                first_i as int,
                first_j as int,
                first_chain_reveal,
            ),
            result is Ok ==> final(self)@ == revealed_from(
                old(self)@,
                first_i as int,
                first_j as int,
                first_chain_reveal,
            ),
            result is Err ==> partly_revealed(
                old(self)@,
                final(self)@,
                first_i as int,
                first_j as int,
                first_chain_reveal,
            ),
            same_ground(old(self)@, final(self)@),
            old(self).consistent() ==> final(self).consistent(),
    {
        let ghost g0 = self@;
        let ghost si = first_i as int;
        let ghost sj = first_j as int;
        let rows = self.tile_rows as usize;
        let cols = self.tile_columns as usize;
        let mut to_reveal: Vec<(usize, usize, bool)> = Vec::new();
        to_reveal.push((first_i, first_j, first_chain_reveal));
        let mut checked = unmarked(rows, cols);
        let ghost goal = reveal_run(g0, si, sj, first_chain_reveal);
        proof {
            assert forall|i: int| 0 <= i < g0.len() implies (#[trigger] marks_of(&checked)[i]).len()
                == g0[i].len() by {}
            assert(marks_of(&checked) =~~= no_marks(g0));
            assert(to_reveal@ =~= seq![(first_i, first_j, first_chain_reveal)]);
            lemma_sweep_first(g0, si, sj, first_chain_reveal, marks_of(&checked), to_reveal@);
            lemma_count_rows_bound(marks_of(&checked), rows as int, cols as int);
        }
        while to_reveal.len() > 0
            invariant
                self.wf(),
                self.rows() == old(self).rows(),
                self.columns() == old(self).columns(),
                self.bombs() == old(self).bombs(),
                g0 == old(self)@,
                si == first_i,
                sj == first_j,
                rows == self.tile_rows,
                cols == self.tile_columns,
                rectangular(g0, rows as int, cols as int),
                self@ == opened(g0, marks_of(&checked)),
                sweep_inv(g0, si, sj, first_chain_reveal, marks_of(&checked), to_reveal@),
                goal == reveal_run(g0, si, sj, first_chain_reveal),
                swept(g0, marks_of(&checked), to_reveal@) == goal,
                count_rows(marks_of(&checked), rows as int) <= rows * cols,
            decreases rows * cols - count_rows(marks_of(&checked), rows as int), to_reveal@.len(),
        {
            let ghost list = to_reveal@;
            let ghost m = marks_of(&checked);
            proof {
                lemma_sweep_entry(g0, si, sj, first_chain_reveal, m, list);
            }
            let (i, j, mut chain_reveal) = to_reveal.pop().unwrap();
            assert(to_reveal@ == list.drop_last());
            assert(m[i as int].len() == g0[i as int].len());
            assert(g0[i as int].len() == cols);
            assert(m[i as int] == checked@[i as int]@);
            if checked[i][j] {
                proof {
                    lemma_sweep_skip(g0, si, sj, first_chain_reveal, m, list);
                }
            } else {
                checked[i][j] = true;
                proof {
                    assert(marks_of(&checked) =~~= with_mark(m, i as int, j as int));
                    assert forall|a: int| 0 <= a < rows implies (#[trigger] m[a]).len() == cols by {
                        assert(g0[a].len() == cols);
                    }
                    lemma_mark_counts(m, i as int, j as int, rows as int, cols as int);
                    lemma_opened_keeps(g0, m, i as int, j as int);
                    lemma_opened_mark(g0, m, i as int, j as int);
                    assert(self@[i as int][j as int] == self.minefield@[i as int]@[j as int]@);
                }
                let flagged = match self.minefield[i][j].state() {
                    TileState::Flagged => true,
                    TileState::Revealed | TileState::Hidden => false,
                };
                if flagged {
                    proof {
                        lemma_sweep_next(
                            g0,
                            si,
                            sj,
                            first_chain_reveal,
                            list,
                            to_reveal@,
                            rows as int,
                            cols as int,
                        );
                        lemma_sweep_mark(g0, si, sj, first_chain_reveal, m, list, to_reveal@);
                    }
                } else {
                    let flag_count = self.surrounding_flags(i, j);
                    match self.minefield[i][j].value() {
                        TileValue::Adjacent(x) => {
                            self.minefield[i][j].set_state(TileState::Revealed);
                            assert(self@ =~~= with_state(
                                opened(g0, m),
                                i as int,
                                j as int,
                                TileState::Revealed,
                            ));
                            if x == 0 {
                                chain_reveal = true;
                            }
                            if flag_count == x && chain_reveal {
                                push_neighbours(&mut to_reveal, i, j, rows, cols);
                            }
                            proof {
                                lemma_sweep_next(
                                    g0,
                                    si,
                                    sj,
                                    first_chain_reveal,
                                    list,
                                    to_reveal@,
                                    rows as int,
                                    cols as int,
                                );
                                lemma_sweep_mark(
                                    g0,
                                    si,
                                    sj,
                                    first_chain_reveal,
                                    m,
                                    list,
                                    to_reveal@,
                                );
                            }
                        },
                        TileValue::Bomb => {
                            proof {
                                lemma_sweep_blown(g0, si, sj, first_chain_reveal, m, list);
                                lemma_reveal_ground(g0, self@, si, sj, first_chain_reveal);
                                lemma_same_ground(g0, self@);
                            }
                            return Err(BombTriggered);
                        },
                    }
                }
            }
        }
        proof {
            lemma_sweep_done(g0, si, sj, first_chain_reveal, marks_of(&checked), to_reveal@);
            lemma_reveal_ground(g0, self@, si, sj, first_chain_reveal);
            lemma_same_ground(g0, self@);
        }
        Ok(())
    }

    /// A click on `(i, j)`. A hidden tile is revealed; a revealed tile is
    /// revealed again as a chain, which opens its neighbours if the flags around
    /// it match its number; a flagged tile is left alone. Where the reveal meets
    /// a bomb, the game is over.
    pub fn resolve_click(&mut self, game_state: &mut GameState, i: usize, j: usize)
        requires
            old(self).wf(),
            in_grid(old(self)@, i as int, j as int),
        ensures
            final(self).wf(),
            final(self).rows() == old(self).rows(),
            final(self).columns() == old(self).columns(),
            final(self).bombs() == old(self).bombs(),
            final(self)@ == click_result(old(self)@, i as int, j as int),
            clicked(old(self)@, final(self)@, i as int, j as int),
            *final(game_state) == (if click_detonates(old(self)@, i as int, j as int) {
                GameState::GameOver
            } else {
                *old(game_state)
            }),
            same_ground(old(self)@, final(self)@),
            old(self).consistent() ==> final(self).consistent(),
    {
        assert(self@[i as int][j as int] == self.minefield@[i as int]@[j as int]@);
        match self.minefield[i][j].state() {
            TileState::Hidden => {
                match self.reveal_at(i, j, false) {
                    Err(_) => {
                        *game_state = GameState::GameOver;
                    },
                    Ok(_) => {},
                };
            },
            TileState::Revealed => {
                match self.reveal_at(i, j, true) {
                    Err(_) => {
                        *game_state = GameState::GameOver;
                    },
                    Ok(_) => {},
                };
            },
            TileState::Flagged => {},
        };
    }

    /// Toggles the flag on `(i, j)`: a hidden tile gets one, a flagged tile
    /// loses it, a revealed tile stays as it is.
    pub fn resolve_flag(&mut self, i: usize, j: usize)
        requires
            old(self).wf(),
            in_grid(old(self)@, i as int, j as int),
        ensures
            final(self).wf(),
            final(self).rows() == old(self).rows(),
            final(self).columns() == old(self).columns(),
            final(self).bombs() == old(self).bombs(),
            final(self)@ == flag_toggled(old(self)@, i as int, j as int),
            same_ground(old(self)@, final(self)@),
            old(self).consistent() ==> final(self).consistent(),
    {
        assert(self@[i as int][j as int] == self.minefield@[i as int]@[j as int]@);
        let state = match self.minefield[i][j].state() {
            TileState::Hidden => TileState::Flagged,
            TileState::Revealed => TileState::Revealed,
            TileState::Flagged => TileState::Hidden,
        };
        self.minefield[i][j].set_state(state);
        proof {
            assert(self@ =~~= with_state(old(self)@, i as int, j as int, state));
            lemma_with_state_ground(old(self)@, i as int, j as int, state);
            lemma_same_ground(old(self)@, self@);
        }
    }

    /// The rows of the field, top row first.
    pub fn iter_field(&self) -> (rows: std::slice::Iter<'_, Vec<Tile>>)
        ensures
            grid_of_rows(vstd::std_specs::slice::into_iter_elts(rows)) == self@,
    {
        broadcast use vstd::std_specs::slice::group_slice_axioms;
        let rows = self.minefield.iter();
        assert(vstd::std_specs::slice::into_iter_elts(rows) =~= self.minefield@);
        return rows
    }

    /// Whether the game is won: `Won` once every tile without a bomb is
    /// revealed, `InGame` as long as one of them is hidden or flagged. Flags on
    /// bombs do not matter.
    pub fn check_game_state(&self) -> (state: GameState)
        ensures
            state == (if cleared(self@) {
                GameState::Won
            } else {
                GameState::InGame
            }),
    {
        let ghost g = self@;
        let mut i: usize = 0;
        while i < self.minefield.len()
            invariant
                g == self@,
                i <= g.len(),
                forall|a: int, b: int|
                    0 <= a < i && 0 <= b < g[a].len() && !(#[trigger] g[a][b].value is Bomb)
                        ==> g[a][b].state is Revealed,
            decreases g.len() - i,
        {
            let row = &self.minefield[i];
            assert(g[i as int] == row_of(row));
            let mut j: usize = 0;
            while j < row.len()
                invariant
                    g == self@,
                    i < g.len(),
                    g[i as int] == row_of(row),
                    j <= row@.len(),
                    forall|b: int|
                        0 <= b < j && !(#[trigger] g[i as int][b].value is Bomb) ==> g[i as int][b].state is Revealed,
                decreases row@.len() - j,
            {
                let tile = &row[j];
                assert(g[i as int][j as int] == tile@);
                match (tile.value(), tile.state()) {
                    (TileValue::Adjacent(_), TileState::Hidden)
                    | (TileValue::Adjacent(_), TileState::Flagged) => {
                        assert(in_grid(g, i as int, j as int));
                        return GameState::InGame
                    },
                    _ => {},
                };
                j += 1;
            }
            i += 1;
        }
        GameState::Won
    }

    /// The number of bombs that the board was made with.
    pub fn bomb_count(&self) -> (bombs: u32)
        ensures
            bombs == self.bombs(),
    {
        self.bomb_count
    }

    /// Whether `(row, col)` names a tile of the board.
    pub fn holds(&self, row: u32, col: u32) -> (inside: bool)
        ensures
            inside == in_grid(self@, row as int, col as int),
    {
        let i = row as usize;
        if i >= self.minefield.len() {
            return false;
        }
        assert(self@[i as int] == row_of(&self.minefield@[i as int]));
        (col as usize) < self.minefield[i].len()
    }

    /// Whether the board has as many rows and columns of tiles as it says.
    pub fn well_formed(&self) -> (wf: bool)
        ensures
            wf == self.wf(),
    {
        fits(&self.minefield, self.tile_rows, self.tile_columns)
    }

    /// Puts a board together from what a peer sent: the tiles row by row, the
    /// dimensions and the number of bombs. The tiles must come in `tile_rows`
    /// rows of `tile_columns` each; anything else is refused. The number of
    /// bombs is a record only and is not held against the tiles.
    pub fn from_parts(
        minefield: Vec<Vec<Tile>>,
        tile_rows: u32,
        tile_columns: u32,
        bomb_count: u32,
    ) -> (board: Result<Self, GameError>)
        ensures
            board is Ok <==> parts_fit(grid_of(&minefield), tile_rows, tile_columns),
            board matches Ok(b) ==> {
                &&& b@ == grid_of(&minefield)
                &&& b.rows() == tile_rows
                &&& b.columns() == tile_columns
                &&& b.bombs() == bomb_count
                &&& b.wf()
            },
            board matches Err(e) ==> e == GameError::ProtocolDecode,
    {
        if fits(&minefield, tile_rows, tile_columns) {
            Ok(Self { minefield, tile_rows, tile_columns, bomb_count })
        } else {
            Err(GameError::ProtocolDecode)
        }
    }

    /// Takes a board apart into what goes to a peer: the tiles row by row, the
    /// dimensions and the number of bombs.
    pub fn into_parts(self) -> (parts: (Vec<Vec<Tile>>, u32, u32, u32))
        ensures
            grid_of(&parts.0) == self@,
            parts.1 == self.rows(),
            parts.2 == self.columns(),
            parts.3 == self.bombs(),
    {
        (self.minefield, self.tile_rows, self.tile_columns, self.bomb_count)
    }

    /// Whether the tile at `(i, j)` carries a flag.
    fn flagged(&self, i: usize, j: usize) -> (flag: bool)
        requires
            in_grid(self@, i as int, j as int),
        ensures
            flag == flag_at(self@, i as int, j as int),
    {
        assert(self@[i as int][j as int] == self.minefield@[i as int]@[j as int]@);
        match self.minefield[i][j].state() {
            TileState::Flagged => true,
            TileState::Revealed | TileState::Hidden => false,
        }
    }

    /// Counts the flags among the neighbours of `(i, j)`.
    #[verifier::rlimit(30)]
    fn surrounding_flags(&self, i: usize, j: usize) -> (count: u32)
        requires
            self.wf(),
            in_grid(self@, i as int, j as int),
        ensures
            count == flags_around(self@, i as int, j as int),
    {
        let ghost g = self@;
        let rows = self.tile_rows as usize;
        let cols = self.tile_columns as usize;
        proof {
            assert(g[i as int].len() == cols);
            if i > 0 {
                assert(g[i - 1].len() == cols);
            }
            if i + 1 < rows {
                assert(g[i + 1].len() == cols);
            }
        }
        let ghost a = i as int;
        let ghost b = j as int;
        let mut count: u32 = 0;
        if j > 0 {
            if self.flagged(i, j - 1) {
                count += 1;
            }
        }
        if j + 1 < cols {
            if self.flagged(i, j + 1) {
                count += 1;
            }
        }
        assert(count == one_if(flag_at(g, a, b - 1)) + one_if(flag_at(g, a, b + 1)));
        let ghost beside = count;
        if i > 0 {
            if self.flagged(i - 1, j) {
                count += 1;
            }
            if j > 0 {
                if self.flagged(i - 1, j - 1) {
                    count += 1;
                }
            }
            assert(count == beside + one_if(flag_at(g, a - 1, b)) + one_if(
                flag_at(g, a - 1, b - 1),
            ));
            if j + 1 < cols {
                if self.flagged(i - 1, j + 1) {
                    count += 1;
                }
            }
        }
        assert(count == beside + one_if(flag_at(g, a - 1, b)) + one_if(flag_at(g, a - 1, b - 1))
            + one_if(flag_at(g, a - 1, b + 1)));
        let ghost above = count;
        if i + 1 < rows {
            if self.flagged(i + 1, j) {
                count += 1;
            }
            if j > 0 {
                if self.flagged(i + 1, j - 1) {
                    count += 1;
                }
            }
            assert(count == above + one_if(flag_at(g, a + 1, b)) + one_if(
                flag_at(g, a + 1, b - 1),
            ));
            if j + 1 < cols {
                if self.flagged(i + 1, j + 1) {
                    count += 1;
                }
            }
        }
        assert(count == above + one_if(flag_at(g, a + 1, b)) + one_if(flag_at(g, a + 1, b - 1))
            + one_if(flag_at(g, a + 1, b + 1)));
        count
    }
}

} // verus!
