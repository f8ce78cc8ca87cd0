//! Which tiles a reveal reaches: the start, and from every reached tile that
//! spreads, its neighbours.

use vstd::prelude::*;
use crate::grid::{adjacent, flags_around, in_grid, same_ground, Grid};
use crate::tile::{TileState, TileValue, TileView};

verus! {

/// A reveal that arrives at `(i, j)` goes on into its neighbours: the tile
/// carries no flag and no bomb, as many flags stand around it as its number
/// says, and either that number is zero or the reveal came as a chain.
pub open spec fn spreads(g: Grid, i: int, j: int, chain: bool) -> bool {
    &&& in_grid(g, i, j)
    &&& !(g[i][j].state is Flagged)
    &&& g[i][j].value matches TileValue::Adjacent(n)
    &&& flags_around(g, i, j) == n
    &&& (chain || n == 0)
}

/// A reveal started at `(si, sj)` goes from `(i, j)` into `(k, l)`. Only the
/// start itself can spread as a chain.
pub open spec fn passes(
    g: Grid,
    si: int,
    sj: int,
    chain: bool,
    i: int,
    j: int,
    k: int,
    l: int,
) -> bool {
    &&& spreads(g, i, j, chain && i == si && j == sj)
    &&& adjacent(i, j, k, l)
    &&& in_grid(g, k, l)
}

/// `trail` leads from the start of a reveal along tiles that pass it on.
pub open spec fn is_trail(g: Grid, si: int, sj: int, chain: bool, trail: Seq<(int, int)>) -> bool {
    &&& trail.len() > 0
    &&& trail[0] == (si, sj)
    &&& in_grid(g, si, sj)
    &&& forall|n: int|
        0 <= n < trail.len() - 1 ==> passes(
            g,
            si,
            sj,
            chain,
            (#[trigger] trail[n]).0,
            trail[n].1,
            trail[n + 1].0,
            trail[n + 1].1,
        )
}

/// A reveal started at `(si, sj)` arrives at `(i, j)`.
pub open spec fn reached(g: Grid, si: int, sj: int, chain: bool, i: int, j: int) -> bool {
    exists|trail: Seq<(int, int)>|
        #[trigger] is_trail(g, si, sj, chain, trail) && trail.last() == (i, j)
}

/// `(i, j)` is a tile that a reveal started at `(si, sj)` arrives at and finds
/// with a bomb and without a flag.
pub open spec fn blows_at(g: Grid, si: int, sj: int, chain: bool, i: int, j: int) -> bool {
    &&& reached(g, si, sj, chain, i, j)
    &&& !(g[i][j].state is Flagged)
    &&& g[i][j].value is Bomb
}

/// A reveal started at `(si, sj)` arrives at a bomb that carries no flag.
pub open spec fn detonates(g: Grid, si: int, sj: int, chain: bool) -> bool {
    exists|i: int, j: int| #[trigger] blows_at(g, si, sj, chain, i, j)
}

/// The tile `t`, revealed.
pub open spec fn shown(t: TileView) -> TileView {
    TileView { state: TileState::Revealed, ..t }
}

/// `g` after a reveal started at `(si, sj)` that met no bomb: every tile that it
/// arrived at is revealed unless it carries a flag; all else is as it was.
pub open spec fn revealed_from(g: Grid, si: int, sj: int, chain: bool) -> Grid {
    Seq::new(
        g.len(),
        |i: int|
            Seq::new(
                g[i].len(),
                |j: int|
                    if reached(g, si, sj, chain, i, j) && !(g[i][j].state is Flagged) {
                        shown(g[i][j])
                    } else {
                        g[i][j]
                    },
            ),
    )
}

/// `now` is `g` after a reveal started at `(si, sj)` that met a bomb: the shape
/// is kept, every tile is as it was or is a tile without bomb and flag that the
/// reveal arrived at and showed, and the start is shown unless the bomb lay
/// under the start itself, in which case nothing has changed.
pub open spec fn partly_revealed(g: Grid, now: Grid, si: int, sj: int, chain: bool) -> bool {
    &&& now.len() == g.len()
    &&& forall|i: int| 0 <= i < g.len() ==> (#[trigger] now[i]).len() == g[i].len()
    &&& forall|i: int, j: int|
        in_grid(g, i, j) ==> #[trigger] now[i][j] == g[i][j] || {
            &&& now[i][j] == shown(g[i][j])
            &&& reached(g, si, sj, chain, i, j)
            &&& !(g[i][j].state is Flagged)
            &&& !(g[i][j].value is Bomb)
        }
    &&& g[si][sj].value is Bomb ==> now == g
    &&& !(g[si][sj].value is Bomb) ==> now[si][sj] == shown(g[si][sj])
}

/// A click on `(i, j)` meets a bomb: the tile carries no flag, and the reveal
/// that the click starts, a chain if the tile is revealed already, detonates.
pub open spec fn click_detonates(g: Grid, i: int, j: int) -> bool {
    !(g[i][j].state is Flagged) && detonates(g, i, j, g[i][j].state is Revealed)
}

/// `now` is `g` after a click on `(i, j)`: as it was if the tile carries a
/// flag, else as the reveal from there leaves it.
pub open spec fn clicked(g: Grid, now: Grid, i: int, j: int) -> bool {
    if g[i][j].state is Flagged {
        now == g
    } else if detonates(g, i, j, g[i][j].state is Revealed) {
        partly_revealed(g, now, i, j, g[i][j].state is Revealed)
    } else {
        now == revealed_from(g, i, j, g[i][j].state is Revealed)
    }
}

/// The start of a reveal is reached.
pub proof fn lemma_start_reached(g: Grid, si: int, sj: int, chain: bool)
    requires
        in_grid(g, si, sj),
    ensures
        reached(g, si, sj, chain, si, sj),
{
    let trail = seq![(si, sj)];
    assert(is_trail(g, si, sj, chain, trail));
    assert(trail.last() == (si, sj));
}

/// What is reached lies in the grid.
pub proof fn lemma_reached_in_grid(g: Grid, si: int, sj: int, chain: bool, i: int, j: int)
    requires
        reached(g, si, sj, chain, i, j),
    ensures
        in_grid(g, i, j),
{
    let trail = choose|trail: Seq<(int, int)>|
        #[trigger] is_trail(g, si, sj, chain, trail) && trail.last() == (i, j);
    if trail.len() > 1 {
        let n = trail.len() - 2;
        assert(passes(
            g,
            si,
            sj,
            chain,
            trail[n].0,
            trail[n].1,
            trail[n + 1].0,
            trail[n + 1].1,
        ));
    }
}

/// From a reached tile that passes the reveal on, the next tile is reached.
pub proof fn lemma_reach_on(
    g: Grid,
    si: int,
    sj: int,
    chain: bool,
    i: int,
    j: int,
    k: int,
    l: int,
)
    requires
        reached(g, si, sj, chain, i, j),
        passes(g, si, sj, chain, i, j, k, l),
    ensures
        reached(g, si, sj, chain, k, l),
{
    let trail = choose|trail: Seq<(int, int)>|
        #[trigger] is_trail(g, si, sj, chain, trail) && trail.last() == (i, j);
    let longer = trail.push((k, l));
    assert forall|n: int| 0 <= n < longer.len() - 1 implies passes(
        g,
        si,
        sj,
        chain,
        (#[trigger] longer[n]).0,
        longer[n].1,
        longer[n + 1].0,
        longer[n + 1].1,
    ) by {
        if n < trail.len() - 1 {
            assert(longer[n] == trail[n]);
            assert(longer[n + 1] == trail[n + 1]);
        }
    }
    assert(is_trail(g, si, sj, chain, longer));
    assert(longer.last() == (k, l));
}

/// `seen` holds the start and, with every tile, the tiles that the reveal
/// passes into from it.
pub open spec fn closed_under_passes(
    g: Grid,
    si: int,
    sj: int,
    chain: bool,
    seen: Set<(int, int)>,
) -> bool {
    &&& seen.contains((si, sj))
    &&& forall|i: int, j: int, k: int, l: int|
        seen.contains((i, j)) && #[trigger] passes(g, si, sj, chain, i, j, k, l) ==> seen.contains(
            (k, l),
        )
}

/// A set that is closed under the passes of a reveal holds every tile of a trail.
proof fn lemma_trail_inside(
    g: Grid,
    si: int,
    sj: int,
    chain: bool,
    seen: Set<(int, int)>,
    trail: Seq<(int, int)>,
    n: int,
)
    requires
        closed_under_passes(g, si, sj, chain, seen),
        is_trail(g, si, sj, chain, trail),
        0 <= n < trail.len(),
    ensures
        seen.contains(trail[n]),
    decreases n,
{
    if n > 0 {
        lemma_trail_inside(g, si, sj, chain, seen, trail, n - 1);
        let m = n - 1;
        assert(passes(
            g,
            si,
            sj,
            chain,
            trail[m].0,
            trail[m].1,
            trail[m + 1].0,
            trail[m + 1].1,
        ));
        assert(trail[m] == (trail[m].0, trail[m].1));
        assert(trail[n] == (trail[n].0, trail[n].1));
    }
}

/// A set that is closed under the passes of a reveal holds all that it reaches.
pub proof fn lemma_closed_covers(
    g: Grid,
    si: int,
    sj: int,
    chain: bool,
    seen: Set<(int, int)>,
    i: int,
    j: int,
)
    requires
        closed_under_passes(g, si, sj, chain, seen),
        reached(g, si, sj, chain, i, j),
    ensures
        seen.contains((i, j)),
{
    let trail = choose|trail: Seq<(int, int)>|
        #[trigger] is_trail(g, si, sj, chain, trail) && trail.last() == (i, j);
    lemma_trail_inside(g, si, sj, chain, seen, trail, trail.len() - 1);
}

/// Where the start does not spread, the reveal reaches the start alone.
pub proof fn lemma_reach_stays(g: Grid, si: int, sj: int, chain: bool, i: int, j: int)
    requires
        !spreads(g, si, sj, chain),
        reached(g, si, sj, chain, i, j),
    ensures
        i == si && j == sj,
{
    let trail = choose|trail: Seq<(int, int)>|
        #[trigger] is_trail(g, si, sj, chain, trail) && trail.last() == (i, j);
    if trail.len() > 1 {
        let n = 0int;
        assert(passes(g, si, sj, chain, trail[n].0, trail[n].1, trail[n + 1].0, trail[n + 1].1));
    }
}

/// What is reached is the start, or a tile that the reveal passes into from
/// another reached tile.
pub proof fn lemma_reached_from(g: Grid, si: int, sj: int, chain: bool, i: int, j: int)
    requires
        reached(g, si, sj, chain, i, j),
    ensures
        (i == si && j == sj) || exists|a: int, b: int|
            reached(g, si, sj, chain, a, b) && #[trigger] passes(g, si, sj, chain, a, b, i, j),
{
    let trail = choose|trail: Seq<(int, int)>|
        #[trigger] is_trail(g, si, sj, chain, trail) && trail.last() == (i, j);
    if trail.len() > 1 {
        let shorter = trail.drop_last();
        let n = trail.len() - 2;
        assert forall|k: int| 0 <= k < shorter.len() - 1 implies passes(
            g,
            si,
            sj,
            chain,
            (#[trigger] shorter[k]).0,
            shorter[k].1,
            shorter[k + 1].0,
            shorter[k + 1].1,
        ) by {
            assert(shorter[k] == trail[k]);
            assert(shorter[k + 1] == trail[k + 1]);
        }
        assert(is_trail(g, si, sj, chain, shorter));
        assert(shorter.last() == trail[n]);
        assert(reached(g, si, sj, chain, trail[n].0, trail[n].1));
        assert(passes(g, si, sj, chain, trail[n].0, trail[n].1, trail[n + 1].0, trail[n + 1].1));
    }
}

/// A reveal changes states only, whether it meets a bomb or not.
pub proof fn lemma_reveal_ground(g: Grid, now: Grid, si: int, sj: int, chain: bool)
    requires
        now == revealed_from(g, si, sj, chain) || partly_revealed(g, now, si, sj, chain),
    ensures
        same_ground(g, now),
{
    if now == revealed_from(g, si, sj, chain) {
    } else {
        assert forall|i: int, j: int| in_grid(g, i, j) implies {
            &&& (#[trigger] g[i][j]).value == now[i][j].value
            &&& g[i][j].x == now[i][j].x
            &&& g[i][j].y == now[i][j].y
        } by {
            assert(now[i][j] == g[i][j] || now[i][j] == shown(g[i][j]));
        }
    }
}

} // verus!
