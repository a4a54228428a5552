use vstd::prelude::*;

use crate::board::{
    count_in_matrix, count_in_row, is_neighbor, lemma_count_cell_update, lemma_count_matrix_prefix,
    lemma_count_row_prefix, lemma_zero_has_no_mined_neighbor, BoardView, MAX_SIDE, UNREVEALED,
};

verus! {

/// A request to the presentation layer for one particle at the centre of a
/// cell.
#[derive(Clone, Copy, Debug, PartialEq, Eq, Structural)]
pub struct Effect {
    pub col: usize,
    pub row: usize,
}

/// What a reveal did.
#[derive(Debug)]
pub enum RevealOutcome {
    NoOp,
    /// A mine went off; the effects burst over every mine of the board.
    Detonated(Vec<Effect>),
    /// Cells were uncovered; the effects burst over each of them.
    Revealed(Vec<Effect>),
}

/// What a flag toggle did.
#[derive(Debug)]
pub enum FlagOutcome {
    NoOp,
    Toggled { won: bool, effects: Vec<Effect> },
}

/// A square minesweeper board.
pub struct Grid {
    size: usize,
    values: Vec<Vec<i32>>,
    mines: Vec<Vec<bool>>,
    flags: Vec<Vec<bool>>,
}

impl View for Grid {
    type V = BoardView;

    closed spec fn view(&self) -> BoardView {
        BoardView {
            n: self.size as int,
            value: self.values@.map_values(|row: Vec<i32>| row@),
            mine: self.mines@.map_values(|row: Vec<bool>| row@),
            flag: self.flags@.map_values(|row: Vec<bool>| row@),
        }
    }
}

/// `e` is made of runs of five equal effects.
pub open spec fn in_fives(e: Seq<Effect>) -> bool {
    forall|i: int| 0 <= i < e.len() ==> #[trigger] e[i] == e[i - i % 5]
}

/// Each effect stands on a cell that `after` shows and `before` did not, each
/// such cell has one, and they come five by five: one run for each cell.
pub open spec fn bursts_on_new_cells(e: Seq<Effect>, before: BoardView, after: BoardView) -> bool {
    &&& e.len() + 5 * after.hidden_count() == 5 * before.hidden_count()
    &&& in_fives(e)
    &&& forall|i: int|
        0 <= i < e.len() ==> {
            let (x, y) = (#[trigger] e[i].col as int, e[i].row as int);
            after.in_bounds(x, y) && after.revealed(x, y) && !before.revealed(x, y)
        }
    &&& forall|x: int, y: int|
        after.in_bounds(x, y) && #[trigger] after.revealed(x, y) && !before.revealed(x, y) ==> exists|i: int|
            0 <= i < e.len() && e[i].col == x && e[i].row == y
}

/// Each effect stands on a mine, each mine has one, and they come five by
/// five: one run for each mine.
pub open spec fn bursts_on_mines(e: Seq<Effect>, g: BoardView) -> bool {
    &&& e.len() == 5 * g.mine_count()
    &&& in_fives(e)
    &&& forall|i: int|
        0 <= i < e.len() ==> {
            let (x, y) = (#[trigger] e[i].col as int, e[i].row as int);
            g.in_bounds(x, y) && g.mine_at(x, y)
        }
    &&& forall|x: int, y: int|
        g.in_bounds(x, y) && #[trigger] g.mine_at(x, y) ==> exists|i: int|
            0 <= i < e.len() && e[i].col == x && e[i].row == y
}



/// What revealing `(c, r)` on `g0` does, leaving `g1` and reporting `out`.
pub open spec fn reveal_result(g0: BoardView, c: int, r: int, g1: BoardView, out: RevealOutcome) -> bool {
    &&& g1.n == g0.n
    &&& g1.mine == g0.mine
    &&& g0.flag_at(c, r) ==> out is NoOp && g1 == g0
    &&& !g0.flag_at(c, r) && g0.mine_at(c, r) ==> {
        &&& out is Detonated
        &&& bursts_on_mines(out->Detonated_0@, g0)
        &&& g1 == g0
    }
    &&& !g0.flag_at(c, r) && !g0.mine_at(c, r) && g0.revealed(c, r) ==> out is NoOp && g1 == g0
    &&& !g0.flag_at(c, r) && !g0.mine_at(c, r) && !g0.revealed(c, r) ==> {
        &&& out is Revealed
        &&& bursts_on_new_cells(out->Revealed_0@, g0, g1)
        &&& forall|a: int, b: int|
            #![trigger g1.revealed(a, b)]
            #![trigger g1.flag_at(a, b)]
            g1.in_bounds(a, b) ==> {
                &&& g1.revealed(a, b) == (g0.revealed(a, b) || g0.in_flood(c, r, a, b))
                &&& g1.flag_at(a, b) == (g0.flag_at(a, b) && !g1.revealed(a, b))
            }
    }
}

/// What toggling the flag on `(c, r)` of `g0` does, leaving `g1` and
/// reporting `out`.
pub open spec fn flag_result(g0: BoardView, c: int, r: int, g1: BoardView, out: FlagOutcome) -> bool {
    &&& g0.revealed(c, r) ==> out is NoOp && g1 == g0
    &&& !g0.revealed(c, r) ==> {
        &&& g1 == BoardView { flag: g0.flag.update(r, g0.flag[r].update(c, !g0.flag_at(c, r))), ..g0 }
        &&& match out {
            FlagOutcome::Toggled { won, effects } => {
                &&& won == g1.won()
                &&& effects@ == seq![Effect { col: c as usize, row: r as usize }; 2]
            },
            FlagOutcome::NoOp => false,
        }
    }
}

/// Appends `k` effects on the cell `(col, row)`.
fn burst(effects: &mut Vec<Effect>, col: usize, row: usize, k: usize)
    ensures
        final(effects)@ == old(effects)@ + Seq::new(k as nat, |_i: int| Effect { col, row }),
{
    let mut i: usize = 0;
    while i < k
        invariant
            i <= k,
            effects@ == old(effects)@ + Seq::new(i as nat, |_i: int| Effect { col, row }),
        decreases k - i,
    {
        effects.push(Effect { col, row });
        i = i + 1;
        assert(effects@ =~= old(effects)@ + Seq::new(i as nat, |_i: int| Effect { col, row }));
    }
}

/// The cell `(x, y)` waits in the work list, or is the one being spread.
spec fn pending(w: Seq<(usize, usize)>, cur: Option<(int, int)>, x: int, y: int) -> bool {
    cur == Some((x, y)) || exists|k: int| 0 <= k < w.len() && w[k].0 == x && w[k].1 == y
}

/// Every neighbour of `(x, y)` on the board is revealed.
spec fn settled(g: BoardView, x: int, y: int) -> bool {
    forall|a: int, b: int| #[trigger] is_neighbor(x, y, a, b) && g.in_bounds(a, b) ==> g.revealed(a, b)
}

/// What holds of each cell while a flood from `(c0, r0)` spreads over `g0`.
spec fn flood_cell(
    g0: BoardView,
    g: BoardView,
    c0: int,
    r0: int,
    w: Seq<(usize, usize)>,
    cur: Option<(int, int)>,
    x: int,
    y: int,
) -> bool {
    &&& (g.value_at(x, y) == UNREVEALED || (g.value_at(x, y) == g.adjacent_mines(x, y) && !g.mine_at(x, y)))
    &&& g.flag_at(x, y) == (g0.flag_at(x, y) && !g.revealed(x, y))
    &&& (g0.revealed(x, y) ==> g.revealed(x, y))
    &&& (g.revealed(x, y) && !g0.revealed(x, y) ==> g0.in_flood(c0, r0, x, y))
    &&& (g.value_at(x, y) == 0 && !pending(w, cur, x, y) ==> settled(g, x, y))
}

spec fn flood_inv(
    g0: BoardView,
    g: BoardView,
    c0: int,
    r0: int,
    w: Seq<(usize, usize)>,
    e: Seq<Effect>,
    cur: Option<(int, int)>,
) -> bool {
    &&& g0.wf()
    &&& g.shaped()
    &&& g.n == g0.n
    &&& g.mine == g0.mine
    &&& forall|x: int, y: int| g.in_bounds(x, y) ==> #[trigger] flood_cell(g0, g, c0, r0, w, cur, x, y)
    &&& forall|k: int|
        0 <= k < w.len() ==> {
            let (x, y) = (#[trigger] w[k].0 as int, w[k].1 as int);
            g.in_bounds(x, y) && g.value_at(x, y) == 0 && !g0.revealed(x, y)
        }
    &&& bursts_on_new_cells(e, g0, g)
}

/// An `n` by `n` matrix holding `x` everywhere.
pub(crate) fn square_of<T: Copy>(n: usize, x: T) -> (m: Vec<Vec<T>>)
    ensures
        m@.len() == n,
        forall|r: int| 0 <= r < n ==> (#[trigger] m@[r])@ == Seq::new(n as nat, |_i: int| x),
{
    let mut m: Vec<Vec<T>> = Vec::new();
    let mut r: usize = 0;
    while r < n
        invariant
            r <= n,
            m@.len() == r,
            forall|i: int| 0 <= i < r ==> (#[trigger] m@[i])@ == Seq::new(n as nat, |_i: int| x),
        decreases n - r,
    {
        let mut row: Vec<T> = Vec::new();
        let mut c: usize = 0;
        while c < n
            invariant
                c <= n,
                row@ == Seq::new(c as nat, |_i: int| x),
            decreases n - c,
        {
            row.push(x);
            c = c + 1;
            assert(row@ =~= Seq::new(c as nat, |_i: int| x));
        }
        m.push(row);
        r = r + 1;
    }
    m
}

impl Grid {
    proof fn lemma_shape(&self)
        requires
            self@.shaped(),
        ensures
            self.values@.len() == self.size,
            self.mines@.len() == self.size,
            self.flags@.len() == self.size,
            forall|r: int| 0 <= r < self.size ==> (#[trigger] self.values@[r])@.len() == self.size,
            forall|r: int| 0 <= r < self.size ==> (#[trigger] self.mines@[r])@.len() == self.size,
            forall|r: int| 0 <= r < self.size ==> (#[trigger] self.flags@[r])@.len() == self.size,
    {
        assert forall|r: int| 0 <= r < self.size implies (#[trigger] self.values@[r])@.len() == self.size by {
            assert(self@.value[r].len() == self.size);
        }
        assert forall|r: int| 0 <= r < self.size implies (#[trigger] self.mines@[r])@.len() == self.size by {
            assert(self@.mine[r].len() == self.size);
        }
        assert forall|r: int| 0 <= r < self.size implies (#[trigger] self.flags@[r])@.len() == self.size by {
            assert(self@.flag[r].len() == self.size);
        }
    }

    /// A board of side `mines.len()` with mines where `mines[row][col]` is
    /// set, every cell covered and no flag.
    pub fn from_mines(mines: Vec<Vec<bool>>) -> (g: Grid)
        requires
            1 <= mines@.len() <= MAX_SIDE,
            forall|r: int| 0 <= r < mines@.len() ==> (#[trigger] mines@[r])@.len() == mines@.len(),
        ensures
            g@.wf(),
            g@.n == mines@.len(),
            g@.mine == mines@.map_values(|row: Vec<bool>| row@),
            forall|c: int, r: int| g@.in_bounds(c, r) ==> #[trigger] g@.mine_at(c, r) == mines@[r]@[c],
            forall|c: int, r: int|
                #![trigger g@.revealed(c, r)]
                #![trigger g@.flag_at(c, r)]
                g@.in_bounds(c, r) ==> !g@.revealed(c, r) && !g@.flag_at(c, r),
    {
        let n = mines.len();
        let values = square_of(n, UNREVEALED);
        let flags = square_of(n, false);
        let g = Grid { size: n, values, mines, flags };
        assert(g@.shaped());
        g
    }

    /// The side of the board.
    pub fn size(&self) -> (n: usize)
        ensures
            n == self@.n,
    {
        self.size
    }

    /// What the cell shows: `UNREVEALED`, or its count of adjacent mines.
    pub fn cell_value(&self, c: usize, r: usize) -> (v: i32)
        requires
            self@.wf(),
            self@.in_bounds(c as int, r as int),
        ensures
            v == self@.value_at(c as int, r as int),
    {
        proof {
            self.lemma_shape();
        }
        self.values[r][c]
    }

    pub fn is_mine(&self, c: usize, r: usize) -> (b: bool)
        requires
            self@.wf(),
            self@.in_bounds(c as int, r as int),
        ensures
            b == self@.mine_at(c as int, r as int),
    {
        proof {
            self.lemma_shape();
        }
        self.mines[r][c]
    }

    pub fn is_flagged(&self, c: usize, r: usize) -> (b: bool)
        requires
            self@.wf(),
            self@.in_bounds(c as int, r as int),
        ensures
            b == self@.flag_at(c as int, r as int),
    {
        proof {
            self.lemma_shape();
        }
        self.flags[r][c]
    }

    /// 1 if `(c + dc - 1, r + dr - 1)` lies on the board and holds a mine.
    fn mine_weight(&self, c: usize, r: usize, dc: usize, dr: usize) -> (w: i32)
        requires
            self@.shaped(),
            self@.in_bounds(c as int, r as int),
            dc <= 2,
            dr <= 2,
        ensures
            w == self@.mine_weight(c + dc - 1, r + dr - 1),
    {
        proof {
            self.lemma_shape();
        }
        let x = c + dc;
        let y = r + dr;
        if x >= 1 && x - 1 < self.size && y >= 1 && y - 1 < self.size && self.mines[y - 1][x - 1] {
            1
        } else {
            0
        }
    }

    /// The number of mines among the eight cells around `(c, r)`.
    pub fn adjacent_mines(&self, c: usize, r: usize) -> (k: i32)
        requires
            self@.shaped(),
            self@.in_bounds(c as int, r as int),
        ensures
            k == self@.adjacent_mines(c as int, r as int),
            0 <= k <= 8,
    {
        self.mine_weight(c, r, 0, 0) + self.mine_weight(c, r, 1, 0) + self.mine_weight(c, r, 2, 0)
            + self.mine_weight(c, r, 0, 1) + self.mine_weight(c, r, 2, 1)
            + self.mine_weight(c, r, 0, 2) + self.mine_weight(c, r, 1, 2)
            + self.mine_weight(c, r, 2, 2)
    }

    /// Uncovers the covered, mine-free cell `(x, y)` of a spreading flood:
    /// clears its flag, shows its count, bursts five effects on it, and
    /// queues it when the count is zero.
    fn uncover(
        &mut self,
        Ghost(g0): Ghost<BoardView>,
        c0: usize,
        r0: usize,
        x: usize,
        y: usize,
        work: &mut Vec<(usize, usize)>,
        effects: &mut Vec<Effect>,
        Ghost(cur): Ghost<Option<(int, int)>>,
    )
        requires
            flood_inv(g0, old(self)@, c0 as int, r0 as int, old(work)@, old(effects)@, cur),
            old(self)@.in_bounds(x as int, y as int),
            !old(self)@.revealed(x as int, y as int),
            !old(self)@.mine_at(x as int, y as int),
            g0.in_flood(c0 as int, r0 as int, x as int, y as int),
        ensures
            flood_inv(g0, final(self)@, c0 as int, r0 as int, final(work)@, final(effects)@, cur),
            forall|a: int, b: int|
                old(self)@.in_bounds(a, b) && #[trigger] old(self)@.revealed(a, b) ==> final(self)@.revealed(a, b),
            final(self)@.revealed(x as int, y as int),
            final(self)@.hidden_count() + 1 == old(self)@.hidden_count(),
            final(work)@.len() <= old(work)@.len() + 1,
    {
        let ghost g = self@;
        let ghost w = work@;
        let ghost e = effects@;
        proof {
            self.lemma_shape();
        }
        let k = self.adjacent_mines(x, y);
        self.flags[y][x] = false;
        self.values[y][x] = k;
        burst(effects, x, y, 5);
        if k == 0 {
            work.push((x, y));
        }
        proof {
            let g1 = self@;
            let w1 = work@;
            let e1 = effects@;
            let (xi, yi) = (x as int, y as int);
            assert(g1.value =~= g.value.update(yi, g.value[yi].update(xi, k)));
            assert(g1.flag =~= g.flag.update(yi, g.flag[yi].update(xi, false)));
            assert(g1.mine =~= g.mine);
            lemma_count_cell_update(g.value, yi, xi, k, UNREVEALED);
            assert(g1.shaped());
            assert forall|a: int, b: int| g1.in_bounds(a, b) && #[trigger] g.revealed(a, b) implies g1.revealed(a, b) by {}
            assert forall|a: int, b: int| g1.in_bounds(a, b) implies #[trigger] flood_cell(g0, g1, c0 as int, r0 as int, w1, cur, a, b) by {
                assert(flood_cell(g0, g, c0 as int, r0 as int, w, cur, a, b));
                if a == xi && b == yi {
                    if k == 0 {
                        assert(w1[w.len() as int] == (x, y));
                    }
                } else {
                    if pending(w, cur, a, b) && cur != Some((a, b)) {
                        let j = choose|j: int| 0 <= j < w.len() && w[j].0 == a && w[j].1 == b;
                        assert(w1[j] == w[j]);
                    }
                    if g1.value_at(a, b) == 0 && !pending(w1, cur, a, b) {
                        assert(settled(g, a, b));
                        assert forall|a2: int, b2: int| #[trigger] is_neighbor(a, b, a2, b2) && g1.in_bounds(a2, b2) implies g1.revealed(a2, b2) by {
                            assert(g.in_bounds(a2, b2));
                        }
                    }
                }
            }
            assert forall|j: int| 0 <= j < w1.len() implies {
                let (a, b) = (#[trigger] w1[j].0 as int, w1[j].1 as int);
                g1.in_bounds(a, b) && g1.value_at(a, b) == 0 && !g0.revealed(a, b)
            } by {
                if j < w.len() {
                    assert(w1[j] == w[j]);
                    let (a, b) = (w[j].0 as int, w[j].1 as int);
                    assert(g.value_at(a, b) == 0);
                    assert(g.value[b].len() == g.n);
                } else {
                    assert(flood_cell(g0, g, c0 as int, r0 as int, w, cur, xi, yi));
                }
            }
            assert forall|i: int| 0 <= i < e1.len() implies {
                let (a, b) = (#[trigger] e1[i].col as int, e1[i].row as int);
                g1.in_bounds(a, b) && g1.revealed(a, b) && !g0.revealed(a, b)
            } by {
                if i < e.len() {
                    assert(e1[i] == e[i]);
                } else {
                    assert(flood_cell(g0, g, c0 as int, r0 as int, w, cur, xi, yi));
                }
            }
            assert forall|a: int, b: int|
                g1.in_bounds(a, b) && #[trigger] g1.revealed(a, b) && !g0.revealed(a, b) implies exists|i: int|
                    0 <= i < e1.len() && e1[i].col == a && e1[i].row == b by {
                if a == xi && b == yi {
                    assert(e1[e.len() as int] == Effect { col: x, row: y });
                } else {
                    assert(g.revealed(a, b));
                    let i = choose|i: int| 0 <= i < e.len() && e[i].col == a && e[i].row == b;
                    assert(e1[i] == e[i]);
                }
            }
        }
    }

    /// Uncovers every covered neighbour of the revealed zero `(x, y)`.
    fn spread(
        &mut self,
        Ghost(g0): Ghost<BoardView>,
        c0: usize,
        r0: usize,
        x: usize,
        y: usize,
        work: &mut Vec<(usize, usize)>,
        effects: &mut Vec<Effect>,
    )
        requires
            flood_inv(g0, old(self)@, c0 as int, r0 as int, old(work)@, old(effects)@, Some((x as int, y as int))),
            old(self)@.in_bounds(x as int, y as int),
            old(self)@.value_at(x as int, y as int) == 0,
            !g0.revealed(x as int, y as int),
            old(self)@.in_bounds(c0 as int, r0 as int),
            old(self)@.revealed(c0 as int, r0 as int),
        ensures
            flood_inv(g0, final(self)@, c0 as int, r0 as int, final(work)@, final(effects)@, None),
            final(self)@.revealed(c0 as int, r0 as int),
            2 * final(self)@.hidden_count() + final(work)@.len() <= 2 * old(self)@.hidden_count() + old(work)@.len(),
    {
        let ghost cur = Some((x as int, y as int));
        proof {
            assert(flood_cell(g0, self@, c0 as int, r0 as int, work@, cur, x as int, y as int));
        }
        let mut k: usize = 0;
        while k < 9
            invariant
                k <= 9,
                flood_inv(g0, self@, c0 as int, r0 as int, work@, effects@, cur),
                self@.in_bounds(x as int, y as int),
                self@.value_at(x as int, y as int) == 0,
                g0.in_flood(c0 as int, r0 as int, x as int, y as int),
                self@.in_bounds(c0 as int, r0 as int),
                self@.revealed(c0 as int, r0 as int),
                forall|a: int, b: int|
                    #[trigger] is_neighbor(x as int, y as int, a, b) && self@.in_bounds(a, b)
                        && (b - y + 1) * 3 + (a - x + 1) < k ==> self@.revealed(a, b),
                2 * self@.hidden_count() + work@.len() <= 2 * old(self)@.hidden_count() + old(work)@.len(),
            decreases 9 - k,
        {
            let dx = k % 3;
            let dy = k / 3;
            let ghost before = self@;
            if k != 4 && x + dx >= 1 && x + dx - 1 < self.size && y + dy >= 1 && y + dy - 1 < self.size {
                let a = x + dx - 1;
                let b = y + dy - 1;
                proof {
                    self.lemma_shape();
                }
                if self.values[b][a] == UNREVEALED {
                    proof {
                        assert(flood_cell(g0, self@, c0 as int, r0 as int, work@, cur, x as int, y as int));
                        assert(g0.adjacent_mines(x as int, y as int) == 0);
                        assert(is_neighbor(x as int, y as int, a as int, b as int));
                        lemma_zero_has_no_mined_neighbor(self@, x as int, y as int, a as int, b as int);
                        assert forall|s: Set<(int, int)>| #[trigger] g0.flood_closed(c0 as int, r0 as int, s) implies s.contains(
                            (a as int, b as int),
                        ) by {
                            assert(s.contains((x as int, y as int)));
                        }
                    }
                    self.uncover(Ghost(g0), c0, r0, a, b, work, effects, Ghost(cur));
                }
            }
            k = k + 1;
            proof {
                assert(before.revealed(x as int, y as int));
                assert(before.revealed(c0 as int, r0 as int));
                assert(flood_cell(g0, self@, c0 as int, r0 as int, work@, cur, x as int, y as int));
                assert forall|a: int, b: int|
                    #[trigger] is_neighbor(x as int, y as int, a, b) && self@.in_bounds(a, b)
                        && (b - y + 1) * 3 + (a - x + 1) < k implies self@.revealed(a, b) by {
                    assert(before.in_bounds(a, b));
                    if (b - y + 1) * 3 + (a - x + 1) < k - 1 {
                        assert(before.revealed(a, b));
                    }
                }
            }
        }
        proof {
            let g1 = self@;
            assert forall|a: int, b: int| g1.in_bounds(a, b) implies #[trigger] flood_cell(g0, g1, c0 as int, r0 as int, work@, None, a, b) by {
                assert(flood_cell(g0, g1, c0 as int, r0 as int, work@, cur, a, b));
                if a == x && b == y {
                    assert forall|a2: int, b2: int| #[trigger] is_neighbor(a, b, a2, b2) && g1.in_bounds(a2, b2) implies g1.revealed(a2, b2) by {}
                }
            }
        }
    }

    /// Reveals `(c, r)`: a flagged or revealed cell is left alone, a mine
    /// goes off, and any other cell is uncovered together with the flood of
    /// zero-count cells around it.
    pub fn reveal_at(&mut self, c: usize, r: usize) -> (out: RevealOutcome)
        requires
            old(self)@.wf(),
            old(self)@.in_bounds(c as int, r as int),
        ensures
            final(self)@.wf(),
            reveal_result(old(self)@, c as int, r as int, final(self)@, out),
    {
        proof {
            self.lemma_shape();
        }
        if self.flags[r][c] {
            return RevealOutcome::NoOp;
        }
        if self.mines[r][c] {
            let effects = self.mine_bursts();
            return RevealOutcome::Detonated(effects);
        }
        if self.values[r][c] != UNREVEALED {
            return RevealOutcome::NoOp;
        }
        let ghost g0 = self@;
        let mut work: Vec<(usize, usize)> = Vec::new();
        let mut effects: Vec<Effect> = Vec::new();
        proof {
            assert forall|a: int, b: int| g0.in_bounds(a, b) implies #[trigger] flood_cell(g0, g0, c as int, r as int, work@, None, a, b) by {
                assert(g0.cell_ok(a, b));
            }
        }
        self.uncover(Ghost(g0), c, r, c, r, &mut work, &mut effects, Ghost(None));
        while work.len() > 0
            invariant
                flood_inv(g0, self@, c as int, r as int, work@, effects@, None),
                self@.in_bounds(c as int, r as int),
                self@.revealed(c as int, r as int),
            decreases 2 * self@.hidden_count() + work@.len(),
        {
            let ghost w = work@;
            let (x, y) = work.pop().unwrap();
            proof {
                let cur = Some((x as int, y as int));
                assert(w[w.len() - 1] == (x, y));
                assert forall|a: int, b: int| self@.in_bounds(a, b) implies #[trigger] flood_cell(g0, self@, c as int, r as int, work@, cur, a, b) by {
                    assert(flood_cell(g0, self@, c as int, r as int, w, None, a, b));
                    if pending(w, None, a, b) && cur != Some((a, b)) {
                        let j = choose|j: int| 0 <= j < w.len() && w[j].0 == a && w[j].1 == b;
                        assert(work@[j] == w[j]);
                    }
                }
                assert forall|j: int| 0 <= j < work@.len() implies {
                    let (a, b) = (#[trigger] work@[j].0 as int, work@[j].1 as int);
                    self@.in_bounds(a, b) && self@.value_at(a, b) == 0 && !g0.revealed(a, b)
                } by {
                    assert(work@[j] == w[j]);
                }
                assert(w[w.len() - 1].0 == x);
            }
            self.spread(Ghost(g0), c, r, x, y, &mut work, &mut effects);
        }
        proof {
            let g1 = self@;
            assert forall|a: int, b: int| g1.in_bounds(a, b) implies #[trigger] g1.cell_ok(a, b) by {
                assert(flood_cell(g0, g1, c as int, r as int, work@, None, a, b));
                if g1.value_at(a, b) == 0 {
                    assert(settled(g1, a, b));
                }
            }
            let s = Set::new(|p: (int, int)| g1.in_bounds(p.0, p.1) && g1.revealed(p.0, p.1));
            assert(g0.flood_closed(c as int, r as int, s)) by {
                assert forall|x: int, y: int, a: int, b: int|
                    #![trigger s.contains((x, y)), is_neighbor(x, y, a, b)]
                    s.contains((x, y)) && g0.in_bounds(x, y) && g0.adjacent_mines(x, y) == 0
                        && g0.in_bounds(a, b) && is_neighbor(x, y, a, b) implies s.contains((a, b)) by {
                    assert(g1.cell_ok(x, y));
                }
            }
            assert forall|a: int, b: int| #![trigger g1.revealed(a, b)] #![trigger g1.flag_at(a, b)] g1.in_bounds(a, b) implies {
                &&& g1.revealed(a, b) == (g0.revealed(a, b) || g0.in_flood(c as int, r as int, a, b))
                &&& g1.flag_at(a, b) == (g0.flag_at(a, b) && !g1.revealed(a, b))
            } by {
                assert(flood_cell(g0, g1, c as int, r as int, work@, None, a, b));
                if g0.in_flood(c as int, r as int, a, b) {
                    assert(s.contains((a, b)));
                }
            }
        }
        RevealOutcome::Revealed(effects)
    }

    /// Five effects on each mine of the board, row by row.
    fn mine_bursts(&self) -> (e: Vec<Effect>)
        requires
            self@.wf(),
        ensures
            bursts_on_mines(e@, self@),
    {
        proof {
            self.lemma_shape();
        }
        let ghost g = self@;
        let n = self.size;
        let mut e: Vec<Effect> = Vec::new();
        let mut y: usize = 0;
        while y < n
            invariant
                g == self@,
                g.wf(),
                n == g.n,
                y <= n,
                e@.len() == 5 * count_in_matrix(g.mine.take(y as int), true),
                in_fives(e@),
                forall|i: int|
                    0 <= i < e@.len() ==> {
                        let (a, b) = (#[trigger] e@[i].col as int, e@[i].row as int);
                        g.in_bounds(a, b) && g.mine_at(a, b)
                    },
                forall|a: int, b: int|
                    g.in_bounds(a, b) && b < y && #[trigger] g.mine_at(a, b) ==> exists|i: int|
                        0 <= i < e@.len() && e@[i].col == a && e@[i].row == b,
            decreases n - y,
        {
            let mut x: usize = 0;
            while x < n
                invariant
                    g == self@,
                    g.wf(),
                    n == g.n,
                    y < n,
                    x <= n,
                    e@.len() == 5 * (count_in_matrix(g.mine.take(y as int), true) + count_in_row(
                        g.mine[y as int].take(x as int),
                        true,
                    )),
                    in_fives(e@),
                    forall|i: int|
                        0 <= i < e@.len() ==> {
                            let (a, b) = (#[trigger] e@[i].col as int, e@[i].row as int);
                            g.in_bounds(a, b) && g.mine_at(a, b)
                        },
                    forall|a: int, b: int|
                        g.in_bounds(a, b) && (b < y || (b == y && a < x)) && #[trigger] g.mine_at(a, b) ==> exists|i: int|
                            0 <= i < e@.len() && e@[i].col == a && e@[i].row == b,
                decreases n - x,
            {
                let ghost e0 = e@;
                proof {
                    self.lemma_shape();
                }
                if self.mines[y][x] {
                    burst(&mut e, x, y, 5);
                }
                proof {
                    lemma_count_row_prefix(g.mine[y as int], x as int, true);
                    assert forall|i: int| 0 <= i < e@.len() implies #[trigger] e@[i] == e@[i - i % 5] by {
                        if i < e0.len() {
                            assert(e@[i] == e0[i]);
                            assert(e@[i - i % 5] == e0[i - i % 5]);
                        } else {
                            assert(e@[i - i % 5] == e@[e0.len() as int]);
                        }
                    }
                    assert forall|i: int| 0 <= i < e@.len() implies {
                        let (a, b) = (#[trigger] e@[i].col as int, e@[i].row as int);
                        g.in_bounds(a, b) && g.mine_at(a, b)
                    } by {
                        if i < e0.len() {
                            assert(e@[i] == e0[i]);
                        }
                    }
                    assert forall|a: int, b: int|
                        g.in_bounds(a, b) && (b < y || (b == y && a < x + 1)) && #[trigger] g.mine_at(a, b) implies exists|i: int|
                            0 <= i < e@.len() && e@[i].col == a && e@[i].row == b by {
                        if a == x && b == y {
                            assert(e@[e0.len() as int] == Effect { col: x, row: y });
                        } else {
                            let i = choose|i: int| 0 <= i < e0.len() && e0[i].col == a && e0[i].row == b;
                            assert(e@[i] == e0[i]);
                        }
                    }
                }
                x = x + 1;
            }
            proof {
                lemma_count_matrix_prefix(g.mine, y as int, true);
                assert(g.mine[y as int].take(n as int) =~= g.mine[y as int]);
            }
            y = y + 1;
        }
        proof {
            assert(g.mine.take(n as int) =~= g.mine);
        }
        e
    }

    /// Whether every flag marks a mine and every mine carries a flag.
    pub fn check_for_win(&self) -> (won: bool)
        requires
            self@.shaped(),
        ensures
            won == self@.won(),
    {
        proof {
            self.lemma_shape();
        }
        let n = self.size;
        let mut y: usize = 0;
        while y < n
            invariant
                self@.shaped(),
                n == self@.n,
                y <= n,
                forall|a: int, b: int| self@.in_bounds(a, b) && b < y ==> #[trigger] self@.flag_at(a, b) == self@.mine_at(a, b),
            decreases n - y,
        {
            let mut x: usize = 0;
            while x < n
                invariant
                    self@.shaped(),
                    n == self@.n,
                    y < n,
                    x <= n,
                    forall|a: int, b: int|
                        self@.in_bounds(a, b) && (b < y || (b == y && a < x)) ==> #[trigger] self@.flag_at(a, b) == self@.mine_at(a, b),
                decreases n - x,
            {
                proof {
                    self.lemma_shape();
                }
                if self.flags[y][x] != self.mines[y][x] {
                    assert(!(self@.flag_at(x as int, y as int) == self@.mine_at(x as int, y as int)));
                    return false;
                }
                x = x + 1;
            }
            y = y + 1;
        }
        true
    }

    /// Toggles the flag on the covered cell `(c, r)` and reports whether the
    /// flags now match the mines exactly; a revealed cell is left alone.
    pub fn toggle_flag_at(&mut self, c: usize, r: usize) -> (out: FlagOutcome)
        requires
            old(self)@.wf(),
            old(self)@.in_bounds(c as int, r as int),
        ensures
            final(self)@.wf(),
            flag_result(old(self)@, c as int, r as int, final(self)@, out),
    {
        proof {
            self.lemma_shape();
        }
        if self.values[r][c] != UNREVEALED {
            return FlagOutcome::NoOp;
        }
        let ghost g0 = self@;
        let f = self.flags[r][c];
        self.flags[r][c] = !f;
        proof {
            let g1 = self@;
            assert(g1.flag =~= g0.flag.update(r as int, g0.flag[r as int].update(c as int, !f)));
            assert(g1.value =~= g0.value);
            assert(g1.mine =~= g0.mine);
            assert(g1 == BoardView { flag: g0.flag.update(r as int, g0.flag[r as int].update(c as int, !f)), ..g0 });
            assert forall|a: int, b: int| g1.in_bounds(a, b) implies #[trigger] g1.cell_ok(a, b) by {
                assert(g0.cell_ok(a, b));
                if g1.value_at(a, b) == 0 {
                    assert forall|a2: int, b2: int| #[trigger] is_neighbor(a, b, a2, b2) && g1.in_bounds(a2, b2) implies g1.revealed(a2, b2) by {
                        assert(g0.in_bounds(a2, b2));
                    }
                }
            }
        }
        let won = self.check_for_win();
        let mut effects: Vec<Effect> = Vec::new();
        burst(&mut effects, c, r, 2);
        proof {
            assert(effects@ =~= seq![Effect { col: c, row: r }; 2]);
        }
        FlagOutcome::Toggled { won, effects }
    }
}

} // verus!
