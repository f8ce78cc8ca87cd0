//! The work list of a reveal, the marks on the tiles it has dealt with, and what
//! holds of both between two steps.

use vstd::prelude::*;
use crate::grid::{
    adjacent, count_rows, flag_at, flags_around, in_grid, lemma_count_rows_bound,
    lemma_count_rows_set, rectangular, with_state, Grid,
};
use crate::region::{
    blows_at, closed_under_passes, detonates, lemma_closed_covers, lemma_reach_on,
    lemma_reach_stays, lemma_reached_in_grid, lemma_start_reached, partly_revealed, passes, reached, revealed_from,
    shown, spreads,
};
use crate::tile::TileState;

verus! {

/// Tiles waiting to be dealt with, each with the word whether the reveal comes
/// to it as a chain. The last entry is dealt with first.
pub type WorkList = Seq<(usize, usize, bool)>;

/// The marks as rows of booleans.
pub open spec fn marks_of(checked: &Vec<Vec<bool>>) -> Seq<Seq<bool>> {
    Seq::new(checked@.len(), |i: int| checked@[i]@)
}

/// `(i, j)` carries a mark.
pub open spec fn marked(m: Seq<Seq<bool>>, i: int, j: int) -> bool {
    0 <= i < m.len() && 0 <= j < m[i].len() && m[i][j]
}

/// `m` with a mark on `(i, j)`.
pub open spec fn with_mark(m: Seq<Seq<bool>>, i: int, j: int) -> Seq<Seq<bool>> {
    m.update(i, m[i].update(j, true))
}

/// `(k, l)` waits on the list.
pub open spec fn on_list(list: WorkList, k: int, l: int) -> bool {
    exists|n: int| 0 <= n < list.len() && (#[trigger] list[n]).0 == k && list[n].1 == l
}

/// `g` with every marked tile shown that carries neither flag nor bomb.
pub open spec fn opened(g: Grid, m: Seq<Seq<bool>>) -> Grid {
    Seq::new(
        g.len(),
        |i: int|
            Seq::new(
                g[i].len(),
                |j: int|
                    if marked(m, i, j) && !(g[i][j].state is Flagged) && !(g[i][j].value is Bomb) {
                        shown(g[i][j])
                    } else {
                        g[i][j]
                    },
            ),
    )
}

/// No tile carries a mark, and the start alone waits.
pub open spec fn at_start(si: int, sj: int, chain: bool, m: Seq<Seq<bool>>, list: WorkList) -> bool {
    &&& list.len() == 1
    &&& list[0].0 == si
    &&& list[0].1 == sj
    &&& list[0].2 == chain
    &&& forall|i: int, j: int| !#[trigger] marked(m, i, j)
}

/// The start carries a mark, and nothing waits as a chain.
pub open spec fn under_way(si: int, sj: int, m: Seq<Seq<bool>>, list: WorkList) -> bool {
    &&& marked(m, si, sj)
    &&& forall|n: int| 0 <= n < list.len() ==> !(#[trigger] list[n]).2
}

/// What holds between two steps of a reveal of `g` started at `(si, sj)`:
/// marks and grid have one shape; whatever waits or carries a mark was reached;
/// no marked tile without a flag hides a bomb; and wherever the reveal passes
/// from a marked tile, the tile it passes into is marked or waits.
pub open spec fn sweep_inv(
    g: Grid,
    si: int,
    sj: int,
    chain: bool,
    m: Seq<Seq<bool>>,
    list: WorkList,
) -> bool {
    &&& in_grid(g, si, sj)
    &&& m.len() == g.len()
    &&& forall|i: int| 0 <= i < g.len() ==> (#[trigger] m[i]).len() == g[i].len()
    &&& forall|n: int|
        0 <= n < list.len() ==> reached(
            g,
            si,
            sj,
            chain,
            (#[trigger] list[n]).0 as int,
            list[n].1 as int,
        )
    &&& forall|i: int, j: int| #[trigger]
        marked(m, i, j) ==> reached(g, si, sj, chain, i, j) && (g[i][j].state is Flagged
            || !(g[i][j].value is Bomb))
    &&& forall|i: int, j: int, k: int, l: int|
        marked(m, i, j) && #[trigger] passes(g, si, sj, chain, i, j, k, l) ==> marked(m, k, l)
            || on_list(list, k, l)
    &&& (at_start(si, sj, chain, m, list) || under_way(si, sj, m, list))
}

/// The reveal starts with no marks and the start on the list.
pub proof fn lemma_sweep_first(g: Grid, si: int, sj: int, chain: bool, m: Seq<Seq<bool>>, list: WorkList)
    requires
        in_grid(g, si, sj),
        m.len() == g.len(),
        forall|i: int| 0 <= i < g.len() ==> (#[trigger] m[i]).len() == g[i].len(),
        forall|i: int, j: int| 0 <= i < m.len() && 0 <= j < m[i].len() ==> !#[trigger] m[i][j],
        list.len() == 1,
        list[0] == (si as usize, sj as usize, chain),
        si as usize == si,
        sj as usize == sj,
    ensures
        sweep_inv(g, si, sj, chain, m, list),
        opened(g, m) == g,
{
    lemma_start_reached(g, si, sj, chain);
    assert(at_start(si, sj, chain, m, list));
    assert(opened(g, m) =~~= g);
}

/// The entry dealt with lies in the grid and comes as a chain only if it is the
/// start of a chained reveal.
pub proof fn lemma_sweep_entry(g: Grid, si: int, sj: int, chain: bool, m: Seq<Seq<bool>>, list: WorkList)
    requires
        sweep_inv(g, si, sj, chain, m, list),
        list.len() > 0,
    ensures
        in_grid(g, list.last().0 as int, list.last().1 as int),
        reached(g, si, sj, chain, list.last().0 as int, list.last().1 as int),
        !marked(m, list.last().0 as int, list.last().1 as int) ==> list.last().2 == (chain
            && list.last().0 == si && list.last().1 == sj),
{
    let n = list.len() - 1;
    let e = list[n];
    assert(reached(g, si, sj, chain, e.0 as int, e.1 as int));
    lemma_reached_in_grid(g, si, sj, chain, e.0 as int, e.1 as int);
}

/// Dropping an entry whose tile carries a mark already keeps what holds.
pub proof fn lemma_sweep_skip(g: Grid, si: int, sj: int, chain: bool, m: Seq<Seq<bool>>, list: WorkList)
    requires
        sweep_inv(g, si, sj, chain, m, list),
        list.len() > 0,
        marked(m, list.last().0 as int, list.last().1 as int),
    ensures
        sweep_inv(g, si, sj, chain, m, list.drop_last()),
{
    let rest = list.drop_last();
    let e = list.last();
    assert forall|n: int| 0 <= n < rest.len() implies reached(
        g,
        si,
        sj,
        chain,
        (#[trigger] rest[n]).0 as int,
        rest[n].1 as int,
    ) by {
        assert(rest[n] == list[n]);
    }
    assert forall|i: int, j: int, k: int, l: int|
        marked(m, i, j) && #[trigger] passes(g, si, sj, chain, i, j, k, l) implies marked(m, k, l)
        || on_list(rest, k, l) by {
        if !marked(m, k, l) {
            assert(on_list(list, k, l));
            let n = choose|n: int| 0 <= n < list.len() && (#[trigger] list[n]).0 == k && list[n].1 == l;
            assert(n < list.len() - 1);
            assert(rest[n] == list[n]);
        }
    }
    assert(under_way(si, sj, m, rest)) by {
        assert forall|n: int| 0 <= n < rest.len() implies !(#[trigger] rest[n]).2 by {
            assert(rest[n] == list[n]);
        }
    }
}

/// Marking the tile of the entry dealt with, and putting on the list the tiles
/// that the reveal passes into from it, keeps what holds.
pub proof fn lemma_sweep_mark(
    g: Grid,
    si: int,
    sj: int,
    chain: bool,
    m: Seq<Seq<bool>>,
    list: WorkList,
    next: WorkList,
)
    requires
        sweep_inv(g, si, sj, chain, m, list),
        list.len() > 0,
        !marked(m, list.last().0 as int, list.last().1 as int),
        g[list.last().0 as int][list.last().1 as int].state is Flagged || !(g[list.last().0 as int][list.last().1 as int].value is Bomb),
        next.len() >= list.len() - 1,
        forall|n: int| 0 <= n < list.len() - 1 ==> #[trigger] next[n] == list[n],
        forall|n: int|
            list.len() - 1 <= n < next.len() ==> !(#[trigger] next[n]).2 && passes(
                g,
                si,
                sj,
                chain,
                list.last().0 as int,
                list.last().1 as int,
                next[n].0 as int,
                next[n].1 as int,
            ),
        forall|k: int, l: int| #[trigger]
            passes(g, si, sj, chain, list.last().0 as int, list.last().1 as int, k, l) ==> on_list(
                next,
                k,
                l,
            ),
    ensures
        sweep_inv(
            g,
            si,
            sj,
            chain,
            with_mark(m, list.last().0 as int, list.last().1 as int),
            next,
        ),
{
    let a = list.last().0 as int;
    let b = list.last().1 as int;
    let m2 = with_mark(m, a, b);
    lemma_sweep_entry(g, si, sj, chain, m, list);
    assert(m[a].len() == g[a].len());
    assert forall|i: int| 0 <= i < g.len() implies (#[trigger] m2[i]).len() == g[i].len() by {
        assert(m[i].len() == g[i].len());
    }
    assert forall|i: int, j: int| #[trigger] marked(m2, i, j) implies marked(m, i, j) || (i == a && j
        == b) by {}
    assert forall|i: int, j: int| marked(m, i, j) implies #[trigger] marked(m2, i, j) by {}
    assert(marked(m2, a, b));
    assert forall|n: int| 0 <= n < next.len() implies reached(
        g,
        si,
        sj,
        chain,
        (#[trigger] next[n]).0 as int,
        next[n].1 as int,
    ) by {
        if n < list.len() - 1 {
            assert(next[n] == list[n]);
        } else {
            lemma_reach_on(g, si, sj, chain, a, b, next[n].0 as int, next[n].1 as int);
        }
    }
    assert forall|i: int, j: int| #[trigger] marked(m2, i, j) implies reached(g, si, sj, chain, i, j)
        && (g[i][j].state is Flagged || !(g[i][j].value is Bomb)) by {
        if !(i == a && j == b) {
            assert(marked(m, i, j));
        }
    }
    assert forall|i: int, j: int, k: int, l: int|
        marked(m2, i, j) && #[trigger] passes(g, si, sj, chain, i, j, k, l) implies marked(m2, k, l)
        || on_list(next, k, l) by {
        if i == a && j == b {
        } else {
            assert(marked(m, i, j));
            if marked(m, k, l) {
                assert(marked(m2, k, l));
            } else {
                assert(on_list(list, k, l));
                let n = choose|n: int|
                    0 <= n < list.len() && (#[trigger] list[n]).0 == k && list[n].1 == l;
                if n < list.len() - 1 {
                    assert(next[n] == list[n]);
                } else {
                    assert(k == a && l == b);
                }
            }
        }
    }
    assert(under_way(si, sj, m2, next)) by {
        if at_start(si, sj, chain, m, list) {
            assert(a == si && b == sj);
        } else {
            assert(marked(m, si, sj));
        }
        assert forall|n: int| 0 <= n < next.len() implies !(#[trigger] next[n]).2 by {
            if n < list.len() - 1 {
                assert(next[n] == list[n]);
                assert(!at_start(si, sj, chain, m, list));
            }
        }
    }
}

/// Marking a tile that carried none leaves one unmarked tile fewer.
pub proof fn lemma_mark_counts(m: Seq<Seq<bool>>, i: int, j: int, rows: int, cols: int)
    requires
        m.len() == rows,
        0 <= cols,
        forall|a: int| 0 <= a < rows ==> (#[trigger] m[a]).len() == cols,
        0 <= i < rows,
        0 <= j < cols,
        !m[i][j],
    ensures
        count_rows(with_mark(m, i, j), rows) == count_rows(m, rows) + 1,
        count_rows(with_mark(m, i, j), rows) <= rows * cols,
{
    assert(m[i].len() == cols);
    lemma_count_rows_set(m, i, j, rows);
    let m2 = with_mark(m, i, j);
    assert forall|a: int| 0 <= a < rows implies (#[trigger] m2[a]).len() == cols by {
        assert(m[a].len() == cols);
    }
    lemma_count_rows_bound(m2, rows, cols);
}

/// Showing tiles changes no flag, no value and no position.
pub proof fn lemma_opened_keeps(g: Grid, m: Seq<Seq<bool>>, i: int, j: int)
    ensures
        opened(g, m).len() == g.len(),
        forall|a: int| 0 <= a < g.len() ==> (#[trigger] opened(g, m)[a]).len() == g[a].len(),
        flags_around(opened(g, m), i, j) == flags_around(g, i, j),
        in_grid(g, i, j) ==> {
            &&& opened(g, m)[i][j].value == g[i][j].value
            &&& opened(g, m)[i][j].x == g[i][j].x
            &&& opened(g, m)[i][j].y == g[i][j].y
            &&& (opened(g, m)[i][j].state is Flagged) == (g[i][j].state is Flagged)
            &&& !marked(m, i, j) ==> opened(g, m)[i][j] == g[i][j]
        },
{
    let o = opened(g, m);
    assert forall|k: int, l: int| flag_at(o, k, l) == flag_at(g, k, l) by {
        if 0 <= k < g.len() {
            assert(o[k].len() == g[k].len());
        }
    }
}

/// One more mark shows one more tile, unless that tile carries a flag or a bomb.
pub proof fn lemma_opened_mark(g: Grid, m: Seq<Seq<bool>>, i: int, j: int)
    requires
        in_grid(g, i, j),
        m.len() == g.len(),
        forall|a: int| 0 <= a < g.len() ==> (#[trigger] m[a]).len() == g[a].len(),
        !marked(m, i, j),
    ensures
        g[i][j].state is Flagged || g[i][j].value is Bomb ==> opened(g, with_mark(m, i, j))
            == opened(g, m),
        !(g[i][j].state is Flagged) && !(g[i][j].value is Bomb) ==> opened(g, with_mark(m, i, j))
            == with_state(opened(g, m), i, j, TileState::Revealed),
{
    let m2 = with_mark(m, i, j);
    assert(m[i].len() == g[i].len());
    assert forall|a: int, b: int| in_grid(g, a, b) implies marked(m2, a, b) == (marked(m, a, b) || (a
        == i && b == j)) by {
        assert(m[a].len() == g[a].len());
    }
    if g[i][j].state is Flagged || g[i][j].value is Bomb {
        assert(opened(g, m2) =~~= opened(g, m));
    } else {
        assert(opened(g, m2) =~~= with_state(opened(g, m), i, j, TileState::Revealed));
    }
}

/// The marks as a set of places.
pub open spec fn mark_set(m: Seq<Seq<bool>>) -> Set<(int, int)> {
    Set::new(|c: (int, int)| marked(m, c.0, c.1))
}

/// Once the list is empty, the marks lie on exactly what the reveal reaches, no
/// bomb was met, and the grid is the revealed one.
pub proof fn lemma_sweep_done(g: Grid, si: int, sj: int, chain: bool, m: Seq<Seq<bool>>, list: WorkList)
    requires
        sweep_inv(g, si, sj, chain, m, list),
        list.len() == 0,
    ensures
        !detonates(g, si, sj, chain),
        opened(g, m) == revealed_from(g, si, sj, chain),
{
    let seen = mark_set(m);
    assert(closed_under_passes(g, si, sj, chain, seen)) by {
        assert forall|i: int, j: int, k: int, l: int|
            seen.contains((i, j)) && #[trigger] passes(g, si, sj, chain, i, j, k, l) implies seen.contains(
            (k, l),
        ) by {
            assert(marked(m, i, j));
            assert(!on_list(list, k, l));
        }
    }
    assert forall|i: int, j: int| reached(g, si, sj, chain, i, j) implies #[trigger] marked(m, i, j) by {
        lemma_closed_covers(g, si, sj, chain, seen, i, j);
    }
    assert forall|i: int, j: int| !#[trigger] blows_at(g, si, sj, chain, i, j) by {
        if reached(g, si, sj, chain, i, j) {
            assert(marked(m, i, j));
        }
    }
    assert forall|i: int, j: int| in_grid(g, i, j) implies #[trigger] opened(g, m)[i][j]
        == revealed_from(g, si, sj, chain)[i][j] by {
        if reached(g, si, sj, chain, i, j) {
            assert(marked(m, i, j));
        }
        if marked(m, i, j) {
        }
    }
    assert(opened(g, m) =~~= revealed_from(g, si, sj, chain));
}

/// Where the entry dealt with hides a bomb and carries neither mark nor flag,
/// the reveal detonates and leaves the grid partly revealed.
pub proof fn lemma_sweep_blown(g: Grid, si: int, sj: int, chain: bool, m: Seq<Seq<bool>>, list: WorkList)
    requires
        sweep_inv(g, si, sj, chain, m, list),
        list.len() > 0,
        !marked(m, list.last().0 as int, list.last().1 as int),
        !(g[list.last().0 as int][list.last().1 as int].state is Flagged),
        g[list.last().0 as int][list.last().1 as int].value is Bomb,
    ensures
        detonates(g, si, sj, chain),
        partly_revealed(g, opened(g, m), si, sj, chain),
{
    let a = list.last().0 as int;
    let b = list.last().1 as int;
    let o = opened(g, m);
    lemma_sweep_entry(g, si, sj, chain, m, list);
    assert(blows_at(g, si, sj, chain, a, b));
    assert forall|i: int, j: int| in_grid(g, i, j) implies #[trigger] o[i][j] == g[i][j] || {
        &&& o[i][j] == shown(g[i][j])
        &&& reached(g, si, sj, chain, i, j)
        &&& !(g[i][j].state is Flagged)
        &&& !(g[i][j].value is Bomb)
    } by {
        if marked(m, i, j) {
        }
    }
    if at_start(si, sj, chain, m, list) {
        assert(a == si && b == sj);
        assert forall|i: int, j: int| in_grid(g, i, j) implies #[trigger] o[i][j] == g[i][j] by {
            assert(!marked(m, i, j));
        }
        assert(o =~~= g);
    } else {
        assert(marked(m, si, sj));
        if g[si][sj].state is Flagged {
            lemma_reach_stays(g, si, sj, chain, a, b);
        }
        assert(!(g[si][sj].value is Bomb));
        assert(m[si].len() == g[si].len());
        assert(o[si][sj] == shown(g[si][sj]));
    }
}

/// The entry for `(i, j)`, not as a chain, if `b` holds; else nothing.
pub open spec fn entry_if(b: bool, i: int, j: int) -> WorkList {
    if b {
        seq![(i as usize, j as usize, false)]
    } else {
        Seq::empty()
    }
}

/// The neighbours of `(i, j)` within `rows` by `cols`, in the order in which a
/// reveal puts them on its list: left, right, the row above, the row below, in
/// each row the middle first.
pub open spec fn neighbours(i: int, j: int, rows: int, cols: int) -> WorkList {
    entry_if(j > 0, i, j - 1) + entry_if(j + 1 < cols, i, j + 1) + entry_if(i > 0, i - 1, j)
        + entry_if(i > 0 && j > 0, i - 1, j - 1) + entry_if(i > 0 && j + 1 < cols, i - 1, j + 1)
        + entry_if(i + 1 < rows, i + 1, j) + entry_if(i + 1 < rows && j > 0, i + 1, j - 1)
        + entry_if(i + 1 < rows && j + 1 < cols, i + 1, j + 1)
}

/// Putting a tile on a list that ends in `added` lengthens `added`.
pub proof fn lemma_entry_added(before: WorkList, added: WorkList, b: bool, k: int, l: int)
    ensures
        b ==> (before + added).push((k as usize, l as usize, false)) == before + (added
            + entry_if(b, k, l)),
        !b ==> before + added == before + (added + entry_if(b, k, l)),
{
    if b {
        assert((before + added).push((k as usize, l as usize, false)) =~= before + (added
            + entry_if(b, k, l)));
    } else {
        assert(before + added =~= before + (added + entry_if(b, k, l)));
    }
}

/// Every entry of `list` names a neighbour of `(i, j)` within `rows` by `cols`,
/// not as a chain.
pub open spec fn all_near(list: WorkList, i: int, j: int, rows: int, cols: int) -> bool {
    forall|n: int|
        0 <= n < list.len() ==> {
            &&& !(#[trigger] list[n]).2
            &&& adjacent(i, j, list[n].0 as int, list[n].1 as int)
            &&& list[n].0 < rows
            &&& list[n].1 < cols
        }
}

/// One neighbour more on a list of neighbours: the list still holds neighbours
/// only, holds what it held, and holds the new one.
proof fn lemma_append_entry(list: WorkList, b: bool, k: int, l: int, i: int, j: int, rows: int, cols: int)
    requires
        all_near(list, i, j, rows, cols),
        b ==> adjacent(i, j, k, l) && 0 <= k < rows <= usize::MAX && 0 <= l < cols <= usize::MAX,
    ensures
        all_near(list + entry_if(b, k, l), i, j, rows, cols),
        b ==> on_list(list + entry_if(b, k, l), k, l),
        forall|a: int, c: int| on_list(list, a, c) ==> on_list(list + entry_if(b, k, l), a, c),
{
    let longer = list + entry_if(b, k, l);
    assert forall|a: int, c: int| on_list(list, a, c) implies on_list(longer, a, c) by {
        let n = choose|n: int| 0 <= n < list.len() && (#[trigger] list[n]).0 == a && list[n].1 == c;
        assert(longer[n] == list[n]);
    }
    if b {
        let n = list.len() as int;
        assert(longer[n] == (k as usize, l as usize, false));
    }
    assert forall|n: int| 0 <= n < longer.len() implies {
        &&& !(#[trigger] longer[n]).2
        &&& adjacent(i, j, longer[n].0 as int, longer[n].1 as int)
        &&& longer[n].0 < rows
        &&& longer[n].1 < cols
    } by {
        if n < list.len() {
            assert(longer[n] == list[n]);
        }
    }
}

/// Where `m` carries no mark.
pub open spec fn unmarks(m: Seq<Seq<bool>>) -> Seq<Seq<bool>> {
    Seq::new(m.len(), |i: int| Seq::new(m[i].len(), |j: int| !m[i][j]))
}

/// How many places of `m` carry no mark.
pub open spec fn unmarked_count(m: Seq<Seq<bool>>) -> nat {
    count_rows(unmarks(m), m.len() as int)
}

/// A mark on a place that carried none leaves one unmarked place fewer.
pub proof fn lemma_mark_uses_up(m: Seq<Seq<bool>>, i: int, j: int)
    requires
        0 <= i < m.len(),
        0 <= j < m[i].len(),
        !m[i][j],
    ensures
        unmarked_count(with_mark(m, i, j)) + 1 == unmarked_count(m),
{
    let left = unmarks(with_mark(m, i, j));
    assert(unmarks(m) =~~= with_mark(left, i, j));
    lemma_count_rows_set(left, i, j, m.len() as int);
}

/// Marks for the tiles of `g`, none set.
pub open spec fn no_marks(g: Grid) -> Seq<Seq<bool>> {
    Seq::new(g.len(), |i: int| Seq::new(g[i].len(), |j: int| false))
}

/// The marks that a reveal ends with, and whether it met a bomb, when it goes
/// on from the marks `m` and the list `list`.
///
/// The last entry of the list is dealt with first. A tile that carries a mark
/// already is passed over. Any other tile gets a mark; a flag on it ends the
/// matter, a bomb under it ends the reveal, and where the reveal spreads from
/// it, its neighbours go on the list.
pub open spec fn swept(g: Grid, m: Seq<Seq<bool>>, list: WorkList) -> (Seq<Seq<bool>>, bool)
    decreases unmarked_count(m), list.len(),
{
    if list.len() == 0 {
        (m, false)
    } else {
        let i = list.last().0 as int;
        let j = list.last().1 as int;
        let rest = list.drop_last();
        if !(in_grid(g, i, j) && i < m.len() && j < m[i].len()) {
            (m, false)
        } else if m[i][j] {
            swept(g, m, rest)
        } else {
            proof {
                lemma_mark_uses_up(m, i, j);
            }
            if g[i][j].state is Flagged {
                swept(g, with_mark(m, i, j), rest)
            } else if g[i][j].value is Bomb {
                (with_mark(m, i, j), true)
            } else if spreads(g, i, j, list.last().2) {
                swept(
                    g,
                    with_mark(m, i, j),
                    rest + neighbours(i, j, g.len() as int, g[i].len() as int),
                )
            } else {
                swept(g, with_mark(m, i, j), rest)
            }
        }
    }
}

/// The marks that a reveal of `g` started at `(si, sj)` ends with, and whether
/// it met a bomb.
pub open spec fn reveal_run(g: Grid, si: int, sj: int, chain: bool) -> (Seq<Seq<bool>>, bool) {
    swept(g, no_marks(g), seq![(si as usize, sj as usize, chain)])
}

/// The grid that a reveal of `g` started at `(si, sj)` leaves: every tile that
/// got a mark is shown unless it carries a flag or a bomb.
pub open spec fn reveal_result(g: Grid, si: int, sj: int, chain: bool) -> Grid {
    opened(g, reveal_run(g, si, sj, chain).0)
}

/// The grid that a click on `(i, j)` leaves: a tile with a flag is left alone;
/// a hidden tile is revealed; a revealed tile is revealed again as a chain.
pub open spec fn click_result(g: Grid, i: int, j: int) -> Grid {
    if g[i][j].state is Flagged {
        g
    } else {
        reveal_result(g, i, j, g[i][j].state is Revealed)
    }
}

/// The list of neighbours holds neighbours only, and each of them.
#[verifier::rlimit(30)]
pub proof fn lemma_neighbours(i: int, j: int, rows: int, cols: int)
    requires
        0 <= i < rows <= usize::MAX,
        0 <= j < cols <= usize::MAX,
    ensures
        all_near(neighbours(i, j, rows, cols), i, j, rows, cols),
        forall|k: int, l: int|
            adjacent(i, j, k, l) && 0 <= k < rows && 0 <= l < cols ==> #[trigger] on_list(
                neighbours(i, j, rows, cols),
                k,
                l,
            ),
{
    let part0: WorkList = Seq::empty();
    let part1 = part0 + entry_if(j > 0, i, j - 1);
    let part2 = part1 + entry_if(j + 1 < cols, i, j + 1);
    let part3 = part2 + entry_if(i > 0, i - 1, j);
    let part4 = part3 + entry_if(i > 0 && j > 0, i - 1, j - 1);
    let part5 = part4 + entry_if(i > 0 && j + 1 < cols, i - 1, j + 1);
    let part6 = part5 + entry_if(i + 1 < rows, i + 1, j);
    let part7 = part6 + entry_if(i + 1 < rows && j > 0, i + 1, j - 1);
    let part8 = part7 + entry_if(i + 1 < rows && j + 1 < cols, i + 1, j + 1);
    lemma_append_entry(part0, j > 0, i, j - 1, i, j, rows, cols);
    lemma_append_entry(part1, j + 1 < cols, i, j + 1, i, j, rows, cols);
    lemma_append_entry(part2, i > 0, i - 1, j, i, j, rows, cols);
    lemma_append_entry(part3, i > 0 && j > 0, i - 1, j - 1, i, j, rows, cols);
    lemma_append_entry(part4, i > 0 && j + 1 < cols, i - 1, j + 1, i, j, rows, cols);
    lemma_append_entry(part5, i + 1 < rows, i + 1, j, i, j, rows, cols);
    lemma_append_entry(part6, i + 1 < rows && j > 0, i + 1, j - 1, i, j, rows, cols);
    lemma_append_entry(part7, i + 1 < rows && j + 1 < cols, i + 1, j + 1, i, j, rows, cols);
    assert(part1 =~= entry_if(j > 0, i, j - 1));
    assert(part8 == neighbours(i, j, rows, cols));
}

/// Putting the neighbours of the tile dealt with on the list in place of its
/// entry is a step as `lemma_sweep_mark` asks for, if the reveal spreads from
/// that tile; so is dropping the entry, if it does not.
pub proof fn lemma_sweep_next(
    g: Grid,
    si: int,
    sj: int,
    chain: bool,
    list: WorkList,
    next: WorkList,
    rows: int,
    cols: int,
)
    requires
        in_grid(g, si, sj),
        rectangular(g, rows, cols),
        rows <= usize::MAX,
        cols <= usize::MAX,
        list.len() > 0,
        in_grid(g, list.last().0 as int, list.last().1 as int),
        spreads(
            g,
            list.last().0 as int,
            list.last().1 as int,
            chain && list.last().0 == si && list.last().1 == sj,
        ) ==> next == list.drop_last() + neighbours(
            list.last().0 as int,
            list.last().1 as int,
            rows,
            cols,
        ),
        !spreads(
            g,
            list.last().0 as int,
            list.last().1 as int,
            chain && list.last().0 == si && list.last().1 == sj,
        ) ==> next == list.drop_last(),
    ensures
        next.len() >= list.len() - 1,
        forall|n: int| 0 <= n < list.len() - 1 ==> #[trigger] next[n] == list[n],
        forall|n: int|
            list.len() - 1 <= n < next.len() ==> !(#[trigger] next[n]).2 && passes(
                g,
                si,
                sj,
                chain,
                list.last().0 as int,
                list.last().1 as int,
                next[n].0 as int,
                next[n].1 as int,
            ),
        forall|k: int, l: int| #[trigger]
            passes(g, si, sj, chain, list.last().0 as int, list.last().1 as int, k, l) ==> on_list(
                next,
                k,
                l,
            ),
{
    let a = list.last().0 as int;
    let b = list.last().1 as int;
    let rest = list.drop_last();
    if spreads(g, a, b, chain && a == si && b == sj) {
        let nb = neighbours(a, b, rows, cols);
        assert(g[a].len() == cols);
        lemma_neighbours(a, b, rows, cols);
        assert forall|n: int| list.len() - 1 <= n < next.len() implies !(#[trigger] next[n]).2
            && passes(g, si, sj, chain, a, b, next[n].0 as int, next[n].1 as int) by {
            let e = nb[n - rest.len()];
            assert(next[n] == e);
            assert(g[e.0 as int].len() == cols);
        }
        assert forall|k: int, l: int| #[trigger] passes(g, si, sj, chain, a, b, k, l) implies on_list(
            next,
            k,
            l,
        ) by {
            assert(g[k].len() == cols);
            assert(on_list(nb, k, l));
            let n = choose|n: int| 0 <= n < nb.len() && (#[trigger] nb[n]).0 == k && nb[n].1 == l;
            assert(next[rest.len() + n] == nb[n]);
        }
    }
}

/// Wherever a reveal stands, what it ends with is what the tiles it reaches
/// call for: it meets a bomb exactly if it reaches one that carries no flag;
/// without a bomb it shows all that it reaches; with one it leaves the grid
/// partly revealed.
proof fn lemma_swept(
    g: Grid,
    si: int,
    sj: int,
    chain: bool,
    m: Seq<Seq<bool>>,
    list: WorkList,
    rows: int,
    cols: int,
)
    requires
        rectangular(g, rows, cols),
        rows <= usize::MAX,
        cols <= usize::MAX,
        sweep_inv(g, si, sj, chain, m, list),
    ensures
        swept(g, m, list).1 <==> detonates(g, si, sj, chain),
        !swept(g, m, list).1 ==> opened(g, swept(g, m, list).0) == revealed_from(g, si, sj, chain),
        swept(g, m, list).1 ==> partly_revealed(g, opened(g, swept(g, m, list).0), si, sj, chain),
    decreases unmarked_count(m), list.len(),
{
    if list.len() == 0 {
        lemma_sweep_done(g, si, sj, chain, m, list);
    } else {
        let i = list.last().0 as int;
        let j = list.last().1 as int;
        let rest = list.drop_last();
        lemma_sweep_entry(g, si, sj, chain, m, list);
        assert(m[i].len() == g[i].len());
        if m[i][j] {
            lemma_sweep_skip(g, si, sj, chain, m, list);
            lemma_swept(g, si, sj, chain, m, rest, rows, cols);
        } else {
            lemma_mark_uses_up(m, i, j);
            lemma_opened_mark(g, m, i, j);
            if !(g[i][j].state is Flagged) && g[i][j].value is Bomb {
                lemma_sweep_blown(g, si, sj, chain, m, list);
            } else {
                let next = if spreads(g, i, j, list.last().2) {
                    rest + neighbours(i, j, rows, cols)
                } else {
                    rest
                };
                assert(g[i].len() == cols);
                lemma_sweep_next(g, si, sj, chain, list, next, rows, cols);
                lemma_sweep_mark(g, si, sj, chain, m, list, next);
                lemma_swept(g, si, sj, chain, with_mark(m, i, j), next, rows, cols);
            }
        }
    }
}

/// What a reveal leaves is what the tiles it reaches call for: it meets a bomb
/// exactly if it reaches one that carries no flag; without a bomb it shows all
/// that it reaches and nothing else; with one it leaves the grid partly
/// revealed.
pub proof fn lemma_reveal_run(g: Grid, si: int, sj: int, chain: bool, rows: int, cols: int)
    requires
        rectangular(g, rows, cols),
        rows <= u32::MAX,
        cols <= u32::MAX,
        in_grid(g, si, sj),
    ensures
        reveal_run(g, si, sj, chain).1 <==> detonates(g, si, sj, chain),
        !detonates(g, si, sj, chain) ==> reveal_result(g, si, sj, chain) == revealed_from(
            g,
            si,
            sj,
            chain,
        ),
        detonates(g, si, sj, chain) ==> partly_revealed(
            g,
            reveal_result(g, si, sj, chain),
            si,
            sj,
            chain,
        ),
{
    let m = no_marks(g);
    let list = seq![(si as usize, sj as usize, chain)];
    assert(g[si].len() == cols);
    lemma_sweep_first(g, si, sj, chain, m, list);
    lemma_swept(g, si, sj, chain, m, list, rows, cols);
}

} // verus!
