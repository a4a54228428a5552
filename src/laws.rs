use vstd::prelude::*;

use crate::board::{is_neighbor, BoardView};
use crate::grid::{reveal_result, RevealOutcome};

verus! {

/// `path` starts on the board, steps from cell to neighbouring cell, and
/// every cell but the last has no adjacent mine.
pub open spec fn is_zero_chain(g: BoardView, path: Seq<(int, int)>) -> bool {
    &&& path.len() >= 1
    &&& forall|i: int| 0 <= i < path.len() ==> g.in_bounds(#[trigger] path[i].0, path[i].1)
    &&& forall|i: int|
        0 <= i < path.len() - 1 ==> {
            &&& g.adjacent_mines(#[trigger] path[i].0, path[i].1) == 0
            &&& is_neighbor(path[i].0, path[i].1, path[i + 1].0, path[i + 1].1)
        }
}

/// The cell `(c, r)` always lies in its own flood.
pub proof fn lemma_start_in_flood(g: BoardView, c: int, r: int)
    ensures
        g.in_flood(c, r, c, r),
{
    assert forall|s: Set<(int, int)>| #[trigger] g.flood_closed(c, r, s) implies s.contains((c, r)) by {}
}

proof fn lemma_chain_in_closed_set(g: BoardView, c: int, r: int, path: Seq<(int, int)>, s: Set<(int, int)>, k: int)
    requires
        is_zero_chain(g, path),
        path[0].0 == c && path[0].1 == r,
        g.flood_closed(c, r, s),
        0 <= k < path.len(),
    ensures
        s.contains((path[k].0, path[k].1)),
    decreases k,
{
    if k > 0 {
        lemma_chain_in_closed_set(g, c, r, path, s, k - 1);
        assert(g.in_bounds(path[k - 1].0, path[k - 1].1));
        assert(g.adjacent_mines(path[k - 1].0, path[k - 1].1) == 0);
        assert(g.in_bounds(path[k].0, path[k].1));
        assert(is_neighbor(path[k - 1].0, path[k - 1].1, path[k].0, path[k].1));
    }
}

/// Revealing a cell that is already revealed and holds no mine does
/// nothing: after one reveal of a mine-free cell, a second reveal of it
/// reports no change and leaves the board as it was.
pub proof fn law_reveal_idempotent(
    g0: BoardView,
    g1: BoardView,
    g2: BoardView,
    c: int,
    r: int,
    first: RevealOutcome,
    second: RevealOutcome,
)
    requires
        g0.wf(),
        g0.in_bounds(c, r),
        !g0.mine_at(c, r),
        reveal_result(g0, c, r, g1, first),
        reveal_result(g1, c, r, g2, second),
    ensures
        second is NoOp,
        g2 == g1,
{
    if !g0.flag_at(c, r) && !g0.revealed(c, r) {
        lemma_start_in_flood(g0, c, r);
        assert(g1.revealed(c, r));
        assert(!g1.flag_at(c, r));
    }
}

/// Revealing a covered, unflagged, mine-free cell uncovers exactly its flood:
/// every cell reached from it through a chain of zero-count cells ends up
/// revealed, and every cell that the reveal uncovered is reached so.
pub proof fn law_flood_fill_closure(g0: BoardView, g1: BoardView, c: int, r: int, out: RevealOutcome)
    requires
        g0.wf(),
        g0.in_bounds(c, r),
        !g0.flag_at(c, r),
        !g0.mine_at(c, r),
        !g0.revealed(c, r),
        reveal_result(g0, c, r, g1, out),
    ensures
        forall|path: Seq<(int, int)>|
            #[trigger] is_zero_chain(g0, path) && path[0] == (c, r) ==> g1.revealed(path.last().0, path.last().1),
        forall|a: int, b: int|
            g1.in_bounds(a, b) && #[trigger] g1.revealed(a, b) && !g0.revealed(a, b) ==> exists|path: Seq<(int, int)>|
                #[trigger] is_zero_chain(g0, path) && path[0] == (c, r) && path.last() == (a, b),
{
    assert forall|path: Seq<(int, int)>|
        #[trigger] is_zero_chain(g0, path) && path[0] == (c, r) implies g1.revealed(path.last().0, path.last().1) by {
        let k = path.len() - 1;
        assert forall|s: Set<(int, int)>| #[trigger] g0.flood_closed(c, r, s) implies s.contains(
            (path[k].0, path[k].1),
        ) by {
            lemma_chain_in_closed_set(g0, c, r, path, s, k);
        }
        assert(g0.in_bounds(path[k].0, path[k].1));
    }
    let reach = Set::new(
        |q: (int, int)|
            exists|path: Seq<(int, int)>| #[trigger] is_zero_chain(g0, path) && path[0] == (c, r) && path.last() == q,
    );
    assert(reach.contains((c, r))) by {
        let p = seq![(c, r)];
        assert(is_zero_chain(g0, p));
    }
    assert forall|x: int, y: int, a: int, b: int|
        #![trigger reach.contains((x, y)), is_neighbor(x, y, a, b)]
        reach.contains((x, y)) && g0.in_bounds(x, y) && g0.adjacent_mines(x, y) == 0 && g0.in_bounds(a, b)
            && is_neighbor(x, y, a, b) implies reach.contains((a, b)) by {
        let p = choose|p: Seq<(int, int)>| #[trigger] is_zero_chain(g0, p) && p[0] == (c, r) && p.last() == (x, y);
        let q = p.push((a, b));
        assert forall|i: int| 0 <= i < q.len() implies g0.in_bounds(#[trigger] q[i].0, q[i].1) by {
            if i < p.len() {
                assert(q[i] == p[i]);
                assert(g0.in_bounds(p[i].0, p[i].1));
            }
        }
        assert forall|i: int| 0 <= i < q.len() - 1 implies {
            &&& g0.adjacent_mines(#[trigger] q[i].0, q[i].1) == 0
            &&& is_neighbor(q[i].0, q[i].1, q[i + 1].0, q[i + 1].1)
        } by {
            assert(q[i] == p[i]);
            if i < p.len() - 1 {
                assert(q[i + 1] == p[i + 1]);
                assert(g0.adjacent_mines(p[i].0, p[i].1) == 0);
            } else {
                assert(p[i] == (x, y));
            }
        }
        assert(is_zero_chain(g0, q));
        assert(q[0] == p[0]);
    }
    assert(g0.flood_closed(c, r, reach));
    assert forall|a: int, b: int|
        g1.in_bounds(a, b) && #[trigger] g1.revealed(a, b) && !g0.revealed(a, b) implies exists|path: Seq<(int, int)>|
            #[trigger] is_zero_chain(g0, path) && path[0] == (c, r) && path.last() == (a, b) by {
        assert(g0.in_flood(c, r, a, b));
        assert(reach.contains((a, b)));
    }
}

/// On a well-formed board no cell is both flagged and revealed.
pub proof fn law_flag_exclusive(g: BoardView)
    requires
        g.wf(),
    ensures
        forall|c: int, r: int| g.in_bounds(c, r) && #[trigger] g.flag_at(c, r) ==> !g.revealed(c, r),
{
    assert forall|c: int, r: int| g.in_bounds(c, r) && #[trigger] g.flag_at(c, r) implies !g.revealed(c, r) by {
        assert(g.cell_ok(c, r));
    }
}

/// A corner cell has three neighbours on the board, whatever the board's
/// size; when two of them are mines, revealing the corner shows 2.
pub proof fn law_corner_count(g0: BoardView, g1: BoardView, out: RevealOutcome)
    requires
        g0.wf(),
        g0.n >= 2,
        !g0.flag_at(0, 0),
        !g0.mine_at(0, 0),
        !g0.revealed(0, 0),
        (if g0.mine_at(1, 0) { 1int } else { 0 }) + (if g0.mine_at(0, 1) { 1int } else { 0 }) + (if g0.mine_at(1, 1) {
            1int
        } else {
            0
        }) == 2,
        reveal_result(g0, 0, 0, g1, out),
        g1.wf(),
    ensures
        g1.value_at(0, 0) == 2,
{
    lemma_start_in_flood(g0, 0, 0);
    assert(g1.revealed(0, 0));
    assert(g1.cell_ok(0, 0));
}

} // verus!
