//! What holds of the rules whatever the board: the laws of flags, of the
//! cascade from an empty tile, of chords, of bombs and of winning.

use vstd::prelude::*;
use crate::board::{parts_fit, Board};
use crate::grid::{
    adjacent, bomb_at, bombs_around, cleared, correctly_numbered, flag_toggled, flags_around,
    in_grid, rectangular, same_ground, Grid,
};
use crate::protocol::{accepts, Action};
use crate::region::{
    blows_at, click_detonates, detonates, lemma_reach_on, lemma_reach_stays,
    lemma_reached_from, lemma_reached_in_grid, lemma_reveal_ground, lemma_start_reached,
    passes, reached, revealed_from, shown, spreads,
};
use crate::sweep::{click_result, lemma_reveal_run, reveal_result, reveal_run};
use crate::tile::TileValue;
use crate::GameState;

verus! {

/// Flag cycle: toggling the flag on a hidden tile flags it, toggling again
/// hides it again, and toggling on a revealed tile changes nothing; so two
/// toggles on any tile give the grid back. Values and positions stay.
pub proof fn lemma_flag_cycle(g: Grid, i: int, j: int)
    requires
        in_grid(g, i, j),
    ensures
        g[i][j].state is Hidden ==> flag_toggled(g, i, j)[i][j].state is Flagged,
        g[i][j].state is Flagged ==> flag_toggled(g, i, j)[i][j].state is Hidden,
        g[i][j].state is Revealed ==> flag_toggled(g, i, j) == g,
        flag_toggled(flag_toggled(g, i, j), i, j) == g,
        same_ground(g, flag_toggled(g, i, j)),
{
    assert(flag_toggled(flag_toggled(g, i, j), i, j) =~~= g);
    if g[i][j].state is Revealed {
        assert(flag_toggled(g, i, j) =~~= g);
    }
}

/// No tile has more than eight bombs around it.
pub proof fn lemma_at_most_eight(g: Grid, i: int, j: int)
    ensures
        bombs_around(g, i, j) <= 8,
        flags_around(g, i, j) <= 8,
{
}

/// Around a tile whose neighbours hold no bomb, no neighbour holds one.
proof fn lemma_no_bomb_near(g: Grid, i: int, j: int, k: int, l: int)
    requires
        bombs_around(g, i, j) == 0,
        adjacent(i, j, k, l),
    ensures
        !bomb_at(g, k, l),
{
}

/// Cascade on zero: on a correctly numbered board, a reveal started on a tile
/// with number zero meets no bomb, arrives at no tile that holds one, and
/// leaves every bomb as it was. It passes on from every reached zero tile that
/// carries no flag and has none around it, so it arrives at the whole region
/// of such tiles that hangs together with the start, and at the tiles that
/// border it; each of these is revealed unless it carries a flag. A flagged
/// tile stays as it is and passes nothing on.
pub proof fn lemma_cascade_on_zero(g: Grid, si: int, sj: int, chain: bool, rows: int, cols: int)
    requires
        rectangular(g, rows, cols),
        rows <= u32::MAX,
        cols <= u32::MAX,
        in_grid(g, si, sj),
        correctly_numbered(g),
        g[si][sj].value == TileValue::Adjacent(0),
    ensures
        !reveal_run(g, si, sj, chain).1,
        !detonates(g, si, sj, chain),
        reveal_result(g, si, sj, chain) == revealed_from(g, si, sj, chain),
        forall|i: int, j: int| #[trigger]
            reached(g, si, sj, chain, i, j) ==> in_grid(g, i, j) && !(g[i][j].value is Bomb),
        forall|i: int, j: int|
            in_grid(g, i, j) && g[i][j].value is Bomb ==> #[trigger] reveal_result(
                g,
                si,
                sj,
                chain,
            )[i][j] == g[i][j],
        forall|i: int, j: int, k: int, l: int|
            {
                &&& reached(g, si, sj, chain, i, j)
                &&& g[i][j].value == TileValue::Adjacent(0)
                &&& !(g[i][j].state is Flagged)
                &&& flags_around(g, i, j) == 0
                &&& #[trigger] adjacent(i, j, k, l)
                &&& in_grid(g, k, l)
            } ==> #[trigger] reached(g, si, sj, chain, k, l) && (g[k][l].state is Flagged
                || reveal_result(g, si, sj, chain)[k][l].state is Revealed),
        forall|i: int, j: int|
            in_grid(g, i, j) && g[i][j].state is Flagged ==> {
                &&& #[trigger] reveal_result(g, si, sj, chain)[i][j] == g[i][j]
                &&& forall|k: int, l: int| !passes(g, si, sj, chain, i, j, k, l)
            },
{
    assert forall|i: int, j: int| #[trigger]
        reached(g, si, sj, chain, i, j) implies in_grid(g, i, j) && !(g[i][j].value is Bomb) by {
        lemma_reached_in_grid(g, si, sj, chain, i, j);
        lemma_reached_from(g, si, sj, chain, i, j);
        if !(i == si && j == sj) {
            let (a, b) = choose|a: int, b: int|
                reached(g, si, sj, chain, a, b) && #[trigger] passes(g, si, sj, chain, a, b, i, j);
            assert(g[a][b].value == TileValue::Adjacent(0));
            lemma_at_most_eight(g, a, b);
            assert(g[a][b].value == TileValue::Adjacent(bombs_around(g, a, b) as u32));
            lemma_no_bomb_near(g, a, b, i, j);
        }
    }
    assert forall|i: int, j: int| !#[trigger] blows_at(g, si, sj, chain, i, j) by {}
    lemma_reveal_run(g, si, sj, chain, rows, cols);
    assert forall|i: int, j: int, k: int, l: int|
        {
            &&& reached(g, si, sj, chain, i, j)
            &&& g[i][j].value == TileValue::Adjacent(0)
            &&& !(g[i][j].state is Flagged)
            &&& flags_around(g, i, j) == 0
            &&& #[trigger] adjacent(i, j, k, l)
            &&& in_grid(g, k, l)
        } implies #[trigger] reached(g, si, sj, chain, k, l) && (g[k][l].state is Flagged
        || reveal_result(g, si, sj, chain)[k][l].state is Revealed) by {
        lemma_reached_in_grid(g, si, sj, chain, i, j);
        assert(passes(g, si, sj, chain, i, j, k, l));
        lemma_reach_on(g, si, sj, chain, i, j, k, l);
    }
}

/// Chord gating: a click on a revealed tile with a number does nothing unless
/// exactly that many flags stand around the tile. With exactly that many the
/// reveal arrives at every neighbour; each neighbour without a flag is then
/// revealed, unless one of them hides a bomb, which ends the game.
pub proof fn lemma_chord_gating(g: Grid, si: int, sj: int, rows: int, cols: int)
    requires
        rectangular(g, rows, cols),
        rows <= u32::MAX,
        cols <= u32::MAX,
        in_grid(g, si, sj),
        g[si][sj].state is Revealed,
        g[si][sj].value is Adjacent,
    ensures
        flags_around(g, si, sj) != g[si][sj].value->Adjacent_0 ==> {
            &&& !click_detonates(g, si, sj)
            &&& click_result(g, si, sj) == g
        },
        flags_around(g, si, sj) == g[si][sj].value->Adjacent_0 ==> forall|k: int, l: int|
            adjacent(si, sj, k, l) && in_grid(g, k, l) ==> {
                &&& #[trigger] reached(g, si, sj, true, k, l)
                &&& !(g[k][l].state is Flagged) && g[k][l].value is Bomb ==> click_detonates(
                    g,
                    si,
                    sj,
                )
                &&& !(g[k][l].state is Flagged) && !click_detonates(g, si, sj) ==> click_result(
                    g,
                    si,
                    sj,
                )[k][l].state is Revealed
            },
{
    lemma_start_reached(g, si, sj, true);
    lemma_reveal_run(g, si, sj, true, rows, cols);
    if flags_around(g, si, sj) != g[si][sj].value->Adjacent_0 {
        assert(!spreads(g, si, sj, true));
        assert forall|i: int, j: int| reached(g, si, sj, true, i, j) implies i == si && j
            == sj by {
            lemma_reach_stays(g, si, sj, true, i, j);
        }
        assert forall|i: int, j: int| !#[trigger] blows_at(g, si, sj, true, i, j) by {}
        assert(revealed_from(g, si, sj, true) =~~= g);
    } else {
        assert forall|k: int, l: int| adjacent(si, sj, k, l) && in_grid(g, k, l) implies {
            &&& #[trigger] reached(g, si, sj, true, k, l)
            &&& !(g[k][l].state is Flagged) && g[k][l].value is Bomb ==> click_detonates(
                g,
                si,
                sj,
            )
            &&& !(g[k][l].state is Flagged) && !click_detonates(g, si, sj) ==> click_result(
                g,
                si,
                sj,
            )[k][l].state is Revealed
        } by {
            assert(passes(g, si, sj, true, si, sj, k, l));
            lemma_reach_on(g, si, sj, true, si, sj, k, l);
            if !(g[k][l].state is Flagged) && g[k][l].value is Bomb {
                assert(blows_at(g, si, sj, true, k, l));
            }
        }
    }
}

/// Bomb hit: a reveal started on a bomb that carries no flag meets that bomb,
/// and leaves the grid as it found it: the bomb stays unrevealed. A click on
/// such a tile therefore ends the game and changes no tile.
pub proof fn lemma_bomb_hit(g: Grid, si: int, sj: int, chain: bool, rows: int, cols: int)
    requires
        rectangular(g, rows, cols),
        rows <= u32::MAX,
        cols <= u32::MAX,
        in_grid(g, si, sj),
        g[si][sj].value is Bomb,
        !(g[si][sj].state is Flagged),
    ensures
        reveal_run(g, si, sj, chain).1,
        detonates(g, si, sj, chain),
        reveal_result(g, si, sj, chain) == g,
        click_detonates(g, si, sj),
        click_result(g, si, sj) == g,
{
    lemma_start_reached(g, si, sj, chain);
    assert(blows_at(g, si, sj, chain, si, sj));
    lemma_reveal_run(g, si, sj, chain, rows, cols);
    let clicked_chain = g[si][sj].state is Revealed;
    lemma_start_reached(g, si, sj, clicked_chain);
    assert(blows_at(g, si, sj, clicked_chain, si, sj));
    lemma_reveal_run(g, si, sj, clicked_chain, rows, cols);
}

/// A reveal shows no bomb and moves no flag: a tile with a bomb or a flag is
/// after the reveal as it was before, and values and positions stay
/// everywhere.
pub proof fn lemma_reveal_spares(g: Grid, si: int, sj: int, chain: bool, rows: int, cols: int)
    requires
        rectangular(g, rows, cols),
        rows <= u32::MAX,
        cols <= u32::MAX,
        in_grid(g, si, sj),
    ensures
        same_ground(g, reveal_result(g, si, sj, chain)),
        forall|i: int, j: int|
            in_grid(g, i, j) && (g[i][j].value is Bomb || g[i][j].state is Flagged)
                ==> #[trigger] reveal_result(g, si, sj, chain)[i][j] == g[i][j],
        forall|i: int, j: int|
            in_grid(g, i, j) && g[i][j].state is Revealed ==> (#[trigger] reveal_result(
                g,
                si,
                sj,
                chain,
            )[i][j]).state is Revealed,
{
    lemma_reveal_run(g, si, sj, chain, rows, cols);
    let now = reveal_result(g, si, sj, chain);
    lemma_reveal_ground(g, now, si, sj, chain);
    assert forall|i: int, j: int|
        in_grid(g, i, j) && (g[i][j].value is Bomb || g[i][j].state is Flagged)
        implies #[trigger] now[i][j] == g[i][j] by {
        if !detonates(g, si, sj, chain) {
            assert(!blows_at(g, si, sj, chain, i, j));
        }
    }
    assert forall|i: int, j: int| in_grid(g, i, j) && g[i][j].state is Revealed implies (
    #[trigger] now[i][j]).state is Revealed by {
        if detonates(g, si, sj, chain) {
            assert(now[i][j] == g[i][j] || now[i][j] == shown(g[i][j]));
        }
    }
}

/// Win detection does not look at bombs: whatever state the tiles with bombs
/// are in, the game is won exactly if every other tile is revealed. So a flag
/// toggled on a bomb changes nothing about winning.
pub proof fn lemma_win_ignores_bombs(g: Grid, i: int, j: int)
    requires
        in_grid(g, i, j),
        g[i][j].value is Bomb,
    ensures
        cleared(flag_toggled(g, i, j)) == cleared(g),
{
    let t = flag_toggled(g, i, j);
    if cleared(g) {
        assert forall|a: int, b: int|
            in_grid(t, a, b) && !(#[trigger] t[a][b].value is Bomb) implies t[a][b].state is Revealed by {
            assert(in_grid(g, a, b));
            assert(t[a][b] == g[a][b]);
        }
    }
    if cleared(t) {
        assert forall|a: int, b: int|
            in_grid(g, a, b) && !(#[trigger] g[a][b].value is Bomb) implies g[a][b].state is Revealed by {
            assert(in_grid(t, a, b));
            assert(t[a][b] == g[a][b]);
        }
    }
}

/// Round trip: the parts that a board is taken apart into are parts that a
/// board is put together from, so that the board sent and the board received
/// show the same tiles, dimensions and number of bombs.
pub proof fn lemma_parts_round_trip(board: Board)
    requires
        board.wf(),
    ensures
        parts_fit(board@, board.rows(), board.columns()),
{
}

/// A game that is won or lost takes no more clicks and flags, and a session
/// can be ended in any state.
pub proof fn lemma_terminal_states(g: Grid, state: GameState, action: Action)
    ensures
        (state is Won || state is GameOver || state is Menu) && (action is Reveal
            || action is ToggleFlag) ==> !accepts(g, state, action),
        action is Quit ==> accepts(g, state, action),
{
}

} // verus!
