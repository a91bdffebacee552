//! What the player sees: per-tile visibility, the game status, and the
//! actions reveal, flag and chord reveal.
use crate::board::{
    count_tile, generated_cells, lemma_coords_index, lemma_count_tile_total, lemma_index_coords,
    BoardModel, Mines, Tile,
};
use vstd::prelude::*;

verus! {

/// Visibility of one tile.
#[derive(Clone, Copy, PartialEq, Eq, Structural, Debug)]
pub enum ViewTile {
    Hidden,
    Revealed(u8),
    Exploded,
    Flagged,
}

/// Tile state flattened to one of twelve values, for hosts that need a
/// plain enumeration.
#[derive(Clone, Copy, PartialEq, Eq, Structural, Debug)]
pub enum PrimitiveViewTile {
    R0,
    R1,
    R2,
    R3,
    R4,
    R5,
    R6,
    R7,
    R8,
    Hidden,
    Exploded,
    Flagged,
}

/// Overall state of a game.
#[derive(Clone, Copy, PartialEq, Eq, Structural, Debug)]
pub enum GameStatus {
    Playing,
    Won,
    Lost,
}

pub open spec fn count_revealed(s: Seq<ViewTile>) -> nat
    decreases s.len(),
{
    if s.len() == 0 {
        0
    } else {
        count_revealed(s.drop_last()) + if s.last() is Revealed {
            1nat
        } else {
            0nat
        }
    }
}

pub open spec fn count_hidden(s: Seq<ViewTile>) -> nat
    decreases s.len(),
{
    if s.len() == 0 {
        0
    } else {
        count_hidden(s.drop_last()) + if s.last() is Hidden {
            1nat
        } else {
            0nat
        }
    }
}

/// Column offset of the `k`-th position of a 3x3 block (4 is the centre).
pub open spec fn off_x(k: int) -> int {
    k / 3 - 1
}

/// Row offset of the `k`-th position of a 3x3 block (4 is the centre).
pub open spec fn off_y(k: int) -> int {
    k % 3 - 1
}

pub open spec fn adjacent(px: int, py: int, x: int, y: int) -> bool {
    -1 <= x - px <= 1 && -1 <= y - py <= 1 && !(x == px && y == py)
}

/// Mathematical model of a game.
pub ghost struct GameModel {
    pub board: BoardModel,
    pub tiles: Seq<ViewTile>,
    pub status: GameStatus,
    pub revealed: nat,
}

impl GameModel {
    pub open spec fn tile(self, x: int, y: int) -> ViewTile {
        self.tiles[self.board.index(x, y)]
    }

    pub open spec fn has_exploded(self) -> bool {
        exists|i: int| 0 <= i < self.tiles.len() && self.tiles[i] == ViewTile::Exploded
    }

    pub open spec fn wf(self) -> bool {
        &&& self.board.wf()
        &&& self.tiles.len() == self.board.cells.len()
        &&& self.revealed == count_revealed(self.tiles)
        &&& forall|i: int|
            0 <= i < self.tiles.len() && #[trigger] self.tiles[i] is Revealed ==> {
                &&& self.board.cells[i] == Tile::Empty
                &&& self.tiles[i]->Revealed_0 == self.board.neighbor_mines(
                    self.board.col(i),
                    self.board.row(i),
                )
            }
        &&& forall|i: int|
            0 <= i < self.tiles.len() && #[trigger] self.tiles[i] == ViewTile::Exploded
                ==> self.board.cells[i] == Tile::Mine
        &&& (self.status == GameStatus::Lost <==> self.has_exploded())
        &&& (self.status == GameStatus::Won <==> (self.revealed == self.board.safe_cells()
            && !self.has_exploded()))
    }

    /// A hidden, mine-free cell at `(px, py)` opens onto its neighbour `(x, y)`.
    pub open spec fn opens_onto(self, px: int, py: int, x: int, y: int) -> bool {
        &&& self.board.in_bounds(px, py)
        &&& self.board.in_bounds(x, y)
        &&& adjacent(px, py, x, y)
        &&& self.tile(px, py) == ViewTile::Hidden
        &&& self.board.neighbor_mines(px, py) == 0
    }

    /// `p` is a path of the flood started at `(sx, sy)`: it starts there and
    /// each cell on it opens onto the next.
    pub open spec fn flood_path(self, p: Seq<(int, int)>, sx: int, sy: int) -> bool {
        &&& p.len() > 0
        &&& p[0] == (sx, sy)
        &&& forall|i: int|
            0 <= i < p.len() - 1 ==> self.opens_onto(#[trigger] p[i].0, p[i].1, p[i + 1].0, p[i + 1].1)
    }

    /// `(x, y)` is reached by the flood started at `(sx, sy)`.
    pub open spec fn floods(self, sx: int, sy: int, x: int, y: int) -> bool {
        exists|p: Seq<(int, int)>| #[trigger] self.flood_path(p, sx, sy) && p.last() == (x, y)
    }

    /// `(x, y)` is a hidden cell that the flood from `(sx, sy)` reveals.
    pub open spec fn opened(self, sx: int, sy: int, x: int, y: int) -> bool {
        self.board.in_bounds(x, y) && self.tile(x, y) == ViewTile::Hidden && self.floods(
            sx,
            sy,
            x,
            y,
        )
    }

    /// The tiles after a flood from `(sx, sy)`: every cell it opens shows its
    /// neighbour mine count; every other tile is unchanged.
    pub open spec fn flood_tiles(self, sx: int, sy: int) -> Seq<ViewTile> {
        Seq::new(
            self.tiles.len(),
            |i: int|
                if self.opened(sx, sy, self.board.col(i), self.board.row(i)) {
                    ViewTile::Revealed(
                        self.board.neighbor_mines(self.board.col(i), self.board.row(i)) as u8,
                    )
                } else {
                    self.tiles[i]
                },
        )
    }

    /// Text of the cells `0..x` of row `y`: each symbol followed by a space.
    pub open spec fn row_text(self, y: int, x: int) -> Seq<char>
        decreases x,
    {
        if x <= 0 {
            Seq::empty()
        } else {
            self.row_text(y, x - 1) + seq![symbol(self.tile(x - 1, y)), ' ']
        }
    }

    /// Text of rows `0..y`, each ended by a newline.
    pub open spec fn rows_text(self, y: int) -> Seq<char>
        decreases y,
    {
        if y <= 0 {
            Seq::empty()
        } else {
            self.rows_text(y - 1) + self.row_text(y - 1, self.board.width as int) + seq!['\n']
        }
    }

    /// The whole grid as text, one line per row.
    pub open spec fn text(self) -> Seq<char> {
        self.rows_text(self.board.height as int)
    }

    /// The game after revealing `(x, y)`.
    pub open spec fn after_reveal(self, x: int, y: int) -> GameModel {
        if self.status != GameStatus::Playing || !self.board.in_bounds(x, y) {
            self
        } else if self.board.is_mine(x, y) {
            GameModel {
                tiles: self.tiles.update(self.board.index(x, y), ViewTile::Exploded),
                status: GameStatus::Lost,
                ..self
            }
        } else {
            let t = self.flood_tiles(x, y);
            GameModel {
                tiles: t,
                revealed: count_revealed(t),
                status: if count_revealed(t) == self.board.safe_cells() {
                    GameStatus::Won
                } else {
                    GameStatus::Playing
                },
                ..self
            }
        }
    }

    /// The game after toggling the flag on `(x, y)`.
    pub open spec fn after_flag(self, x: int, y: int) -> GameModel {
        if self.status != GameStatus::Playing || !self.board.in_bounds(x, y) {
            self
        } else if self.tile(x, y) == ViewTile::Hidden {
            GameModel {
                tiles: self.tiles.update(self.board.index(x, y), ViewTile::Flagged),
                ..self
            }
        } else if self.tile(x, y) == ViewTile::Flagged {
            GameModel {
                tiles: self.tiles.update(self.board.index(x, y), ViewTile::Hidden),
                ..self
            }
        } else {
            self
        }
    }

    /// Whether the `k`-th position around `(x, y)` is a neighbour on the grid.
    pub open spec fn has_neighbor(self, x: int, y: int, k: int) -> bool {
        k != 4 && self.board.in_bounds(x + off_x(k), y + off_y(k))
    }

    /// Flagged tiles among the positions `k..9` around `(x, y)`.
    pub open spec fn flagged_from(self, x: int, y: int, k: int) -> nat
        decreases 9 - k,
    {
        if k >= 9 {
            0
        } else {
            (if self.has_neighbor(x, y, k) && self.tile(x + off_x(k), y + off_y(k))
                == ViewTile::Flagged {
                1nat
            } else {
                0nat
            }) + self.flagged_from(x, y, k + 1)
        }
    }

    /// Flagged tiles around `(x, y)`.
    pub open spec fn flagged_neighbors(self, x: int, y: int) -> nat {
        self.flagged_from(x, y, 0)
    }

    /// Reveals, in order, each neighbour at positions `k..9` around `(x, y)`
    /// that is hidden when its turn comes.
    pub open spec fn chord_from(self, x: int, y: int, k: int) -> GameModel
        decreases 9 - k,
    {
        if k >= 9 {
            self
        } else {
            let nx = x + off_x(k);
            let ny = y + off_y(k);
            let next = if self.has_neighbor(x, y, k) && self.tile(nx, ny) == ViewTile::Hidden {
                self.after_reveal(nx, ny)
            } else {
                self
            };
            next.chord_from(x, y, k + 1)
        }
    }

    /// The game after a chord reveal on `(x, y)`.
    pub open spec fn after_reveal_around(self, x: int, y: int) -> GameModel {
        if self.status != GameStatus::Playing || !self.board.in_bounds(x, y) {
            self
        } else if !(self.tile(x, y) is Revealed) {
            self
        } else if self.flagged_neighbors(x, y) != self.tile(x, y)->Revealed_0 {
            self
        } else {
            self.chord_from(x, y, 0)
        }
    }
}

proof fn lemma_count_revealed_update(s: Seq<ViewTile>, i: int, v: ViewTile)
    requires
        0 <= i < s.len(),
    ensures
        count_revealed(s.update(i, v)) + (if s[i] is Revealed {
            1int
        } else {
            0int
        }) == count_revealed(s) + (if v is Revealed {
            1int
        } else {
            0int
        }),
    decreases s.len(),
{
    if i == s.len() - 1 {
        assert(s.update(i, v).drop_last() =~= s.drop_last());
    } else {
        lemma_count_revealed_update(s.drop_last(), i, v);
        assert(s.update(i, v).drop_last() =~= s.drop_last().update(i, v));
    }
}

proof fn lemma_count_hidden_update(s: Seq<ViewTile>, i: int, v: ViewTile)
    requires
        0 <= i < s.len(),
    ensures
        count_hidden(s.update(i, v)) + (if s[i] is Hidden {
            1int
        } else {
            0int
        }) == count_hidden(s) + (if v is Hidden {
            1int
        } else {
            0int
        }),
    decreases s.len(),
{
    if i == s.len() - 1 {
        assert(s.update(i, v).drop_last() =~= s.drop_last());
    } else {
        lemma_count_hidden_update(s.drop_last(), i, v);
        assert(s.update(i, v).drop_last() =~= s.drop_last().update(i, v));
    }
}

/// Revealed tiles lie on empty cells, so there are no more of them than
/// empty cells.
proof fn lemma_count_revealed_bound(t: Seq<ViewTile>, c: Seq<Tile>)
    requires
        t.len() == c.len(),
        forall|i: int| 0 <= i < t.len() && #[trigger] t[i] is Revealed ==> c[i] == Tile::Empty,
    ensures
        count_revealed(t) <= count_tile(c, Tile::Empty),
    decreases t.len(),
{
    if t.len() > 0 {
        let n = (t.len() - 1) as int;
        assert forall|i: int|
            0 <= i < t.drop_last().len() && #[trigger] t.drop_last()[i] is Revealed
                implies c.drop_last()[i] == Tile::Empty by {
            assert(t[i] is Revealed);
        }
        lemma_count_revealed_bound(t.drop_last(), c.drop_last());
        if t[n] is Revealed {
            assert(c[n] == Tile::Empty);
        }
    }
}

proof fn lemma_all_hidden_counts(n: nat)
    ensures
        count_revealed(Seq::new(n, |i: int| ViewTile::Hidden)) == 0,
    decreases n,
{
    if n > 0 {
        lemma_all_hidden_counts((n - 1) as nat);
        assert(Seq::new(n, |i: int| ViewTile::Hidden).drop_last() =~= Seq::new(
            (n - 1) as nat,
            |i: int| ViewTile::Hidden,
        ));
    }
}

/// A game in progress has not yet revealed every safe cell.
proof fn lemma_revealed_bound(g: GameModel)
    requires
        g.wf(),
    ensures
        g.revealed <= g.board.safe_cells(),
{
    lemma_count_revealed_bound(g.tiles, g.board.cells);
    lemma_count_tile_total(g.board.cells);
}

/// The position `k` of the 3x3 block around `(x, y)`, on the grid of size
/// `w` by `h`, or `None` for the centre and for positions off the grid.
fn neighbor(w: usize, h: usize, x: usize, y: usize, k: usize) -> (r: Option<(usize, usize)>)
    requires
        x < w,
        y < h,
        k < 9,
    ensures
        r is Some <==> (k != 4 && 0 <= x + off_x(k as int) < w && 0 <= y + off_y(k as int) < h),
        r matches Some((nx, ny)) ==> nx == x + off_x(k as int) && ny == y + off_y(k as int),
{
    if k == 4 {
        return None;
    }
    let dx = k / 3;
    let dy = k % 3;
    if (x == 0 && dx == 0) || (y == 0 && dy == 0) {
        return None;
    }
    let nx = if dx == 0 {
        x - 1
    } else {
        x + (dx - 1)
    };
    let ny = if dy == 0 {
        y - 1
    } else {
        y + (dy - 1)
    };
    if nx >= w || ny >= h {
        None
    } else {
        Some((nx, ny))
    }
}

/// `(x, y)` is among the cells still waiting on `stack`.
spec fn pending(stack: Seq<(usize, usize)>, x: int, y: int) -> bool {
    exists|j: int| 0 <= j < stack.len() && #[trigger] stack[j] == (x as usize, y as usize)
}

/// Every neighbour of `(px, py)` on the grid is uncovered in `t` or pending.
spec fn settled(b: BoardModel, t: Seq<ViewTile>, stack: Seq<(usize, usize)>, px: int, py: int) -> bool {
    forall|nx: int, ny: int|
        b.in_bounds(nx, ny) && adjacent(px, py, nx, ny) ==> #[trigger] t[b.index(nx, ny)]
            != ViewTile::Hidden || pending(stack, nx, ny)
}

proof fn lemma_count_revealed_le_len(s: Seq<ViewTile>)
    ensures
        count_revealed(s) <= s.len(),
    decreases s.len(),
{
    if s.len() > 0 {
        lemma_count_revealed_le_len(s.drop_last());
    }
}

/// A neighbour is the position `k` of the 3x3 block for one `k`.
proof fn lemma_adjacent_position(px: int, py: int, x: int, y: int) -> (k: int)
    requires
        adjacent(px, py, x, y),
    ensures
        0 <= k < 9,
        k != 4,
        off_x(k) == x - px,
        off_y(k) == y - py,
{
    let k = (x - px + 1) * 3 + (y - py + 1);
    assert(off_x(k) == x - px && off_y(k) == y - py) by {
        if x - px == -1 {
            assert(k == y - py + 1);
        } else if x - px == 0 {
            assert(k == y - py + 4);
        } else {
            assert(k == y - py + 7);
        }
    }
    k
}

/// No mine is reached by a flood that starts on a safe cell.
proof fn lemma_flood_safe(g: GameModel, p: Seq<(int, int)>, sx: int, sy: int)
    requires
        g.board.wf(),
        g.board.in_bounds(sx, sy),
        !g.board.is_mine(sx, sy),
        g.flood_path(p, sx, sy),
    ensures
        g.board.in_bounds(p.last().0, p.last().1),
        !g.board.is_mine(p.last().0, p.last().1),
    decreases p.len(),
{
    if p.len() > 1 {
        let q = p.drop_last();
        assert(g.flood_path(q, sx, sy)) by {
            assert forall|i: int| 0 <= i < q.len() - 1 implies g.opens_onto(
                #[trigger] q[i].0,
                q[i].1,
                q[i + 1].0,
                q[i + 1].1,
            ) by {
                assert(g.opens_onto(p[i].0, p[i].1, p[i + 1].0, p[i + 1].1));
            }
        }
        let n = p.len() - 2;
        assert(g.opens_onto(p[n].0, p[n].1, p[n + 1].0, p[n + 1].1));
        let (px, py) = p[n];
        let (x, y) = p.last();
        assert(g.board.mine_at(x, y) == 0) by {
            if x == px - 1 {
                assert(y == py - 1 || y == py || y == py + 1);
            } else if x == px {
                assert(y == py - 1 || y == py + 1);
            } else {
                assert(y == py - 1 || y == py || y == py + 1);
            }
        }
    }
}

/// Once nothing is pending, every hidden cell that the flood reaches has
/// been uncovered.
proof fn lemma_flood_complete(g0: GameModel, t: Seq<ViewTile>, sx: int, sy: int, p: Seq<(int, int)>)
    requires
        g0.board.wf(),
        t.len() == g0.tiles.len(),
        t[g0.board.index(sx, sy)] != ViewTile::Hidden,
        forall|px: int, py: int|
            g0.board.in_bounds(px, py) && #[trigger] t[g0.board.index(px, py)] != g0.tile(px, py)
                && g0.board.neighbor_mines(px, py) == 0 ==> settled(
                g0.board,
                t,
                Seq::empty(),
                px,
                py,
            ),
        g0.flood_path(p, sx, sy),
        g0.tile(p.last().0, p.last().1) == ViewTile::Hidden,
    ensures
        t[g0.board.index(p.last().0, p.last().1)] != ViewTile::Hidden,
    decreases p.len(),
{
    if p.len() > 1 {
        let q = p.drop_last();
        assert(g0.flood_path(q, sx, sy)) by {
            assert forall|i: int| 0 <= i < q.len() - 1 implies g0.opens_onto(
                #[trigger] q[i].0,
                q[i].1,
                q[i + 1].0,
                q[i + 1].1,
            ) by {
                assert(g0.opens_onto(p[i].0, p[i].1, p[i + 1].0, p[i + 1].1));
            }
        }
        let n = p.len() - 2;
        assert(g0.opens_onto(p[n].0, p[n].1, p[n + 1].0, p[n + 1].1));
        let (px, py) = p[n];
        let (x, y) = p.last();
        lemma_flood_complete(g0, t, sx, sy, q);
        assert(t[g0.board.index(px, py)] != g0.tile(px, py));
        assert(settled(g0.board, t, Seq::empty(), px, py));
        assert(t[g0.board.index(x, y)] != ViewTile::Hidden || pending(Seq::empty(), x, y));
    }
}

/// A cell uncovered or pending stays so when the last pending cell is taken
/// off, uncovered, and more cells are pushed.
proof fn lemma_pending_step(
    b: BoardModel,
    t1: Seq<ViewTile>,
    s1: Seq<(usize, usize)>,
    t2: Seq<ViewTile>,
    s2: Seq<(usize, usize)>,
    x: int,
    y: int,
)
    requires
        b.wf(),
        t1.len() == b.cells.len(),
        t2.len() == b.cells.len(),
        s1.len() > 0,
        b.in_bounds(s1.last().0 as int, s1.last().1 as int),
        t2[b.index(s1.last().0 as int, s1.last().1 as int)] != ViewTile::Hidden,
        forall|i: int| 0 <= i < t1.len() && t1[i] != ViewTile::Hidden ==> #[trigger] t2[i] != ViewTile::Hidden,
        s2.len() >= s1.len() - 1,
        forall|j: int| 0 <= j < s1.len() - 1 ==> #[trigger] s2[j] == s1[j],
        b.in_bounds(x, y),
        t1[b.index(x, y)] != ViewTile::Hidden || pending(s1, x, y),
    ensures
        t2[b.index(x, y)] != ViewTile::Hidden || pending(s2, x, y),
{
    lemma_index_coords(b, x, y);
    if t1[b.index(x, y)] == ViewTile::Hidden {
        let j = choose|j: int| 0 <= j < s1.len() && #[trigger] s1[j] == (x as usize, y as usize);
        if j < s1.len() - 1 {
            assert(s2[j] == s1[j]);
        }
    }
}

proof fn lemma_settled_step(
    b: BoardModel,
    t1: Seq<ViewTile>,
    s1: Seq<(usize, usize)>,
    t2: Seq<ViewTile>,
    s2: Seq<(usize, usize)>,
    px: int,
    py: int,
)
    requires
        b.wf(),
        t1.len() == b.cells.len(),
        t2.len() == b.cells.len(),
        s1.len() > 0,
        b.in_bounds(s1.last().0 as int, s1.last().1 as int),
        t2[b.index(s1.last().0 as int, s1.last().1 as int)] != ViewTile::Hidden,
        forall|i: int| 0 <= i < t1.len() && t1[i] != ViewTile::Hidden ==> #[trigger] t2[i] != ViewTile::Hidden,
        s2.len() >= s1.len() - 1,
        forall|j: int| 0 <= j < s1.len() - 1 ==> #[trigger] s2[j] == s1[j],
        settled(b, t1, s1, px, py),
    ensures
        settled(b, t2, s2, px, py),
{
    assert forall|nx: int, ny: int|
        b.in_bounds(nx, ny) && adjacent(px, py, nx, ny) implies #[trigger] t2[b.index(nx, ny)]
            != ViewTile::Hidden || pending(s2, nx, ny) by {
        assert(t1[b.index(nx, ny)] != ViewTile::Hidden || pending(s1, nx, ny));
        lemma_pending_step(b, t1, s1, t2, s2, nx, ny);
    }
}

/// Pushes every neighbour of `(cx, cy)` on the `w` by `h` grid.
fn push_neighbors(stack: &mut Vec<(usize, usize)>, w: usize, h: usize, cx: usize, cy: usize)
    requires
        cx < w,
        cy < h,
    ensures
        old(stack)@.len() <= final(stack)@.len() <= old(stack)@.len() + 8,
        forall|j: int| 0 <= j < old(stack)@.len() ==> #[trigger] final(stack)@[j] == old(stack)@[j],
        forall|j: int|
            old(stack)@.len() <= j < final(stack)@.len() ==> {
                &&& #[trigger] final(stack)@[j].0 < w
                &&& final(stack)@[j].1 < h
                &&& adjacent(cx as int, cy as int, final(stack)@[j].0 as int, final(stack)@[j].1 as int)
            },
        forall|nx: int, ny: int|
            0 <= nx < w && 0 <= ny < h && adjacent(cx as int, cy as int, nx, ny) ==> pending(
                final(stack)@,
                nx,
                ny,
            ),
{
    let ghost s0 = stack@;
    let mut k: usize = 0;
    while k < 9
        invariant
            k <= 9,
            cx < w,
            cy < h,
            s0.len() <= stack@.len() <= s0.len() + k - (if k > 4 {
                1int
            } else {
                0int
            }),
            forall|j: int| 0 <= j < s0.len() ==> #[trigger] stack@[j] == s0[j],
            forall|j: int|
                s0.len() <= j < stack@.len() ==> {
                    &&& #[trigger] stack@[j].0 < w
                    &&& stack@[j].1 < h
                    &&& adjacent(cx as int, cy as int, stack@[j].0 as int, stack@[j].1 as int)
                },
            forall|kk: int|
                0 <= kk < k && kk != 4 && 0 <= cx + off_x(kk) < w && 0 <= cy + off_y(kk) < h
                    ==> pending(stack@, cx + #[trigger] off_x(kk), cy + off_y(kk)),
        decreases 9 - k,
    {
        let ghost before = stack@;
        if let Some((nx, ny)) = neighbor(w, h, cx, cy, k) {
            stack.push((nx, ny));
            proof {
                assert(stack@[before.len() as int] == (nx, ny));
                assert forall|kk: int|
                    0 <= kk < k && kk != 4 && 0 <= cx + off_x(kk) < w && 0 <= cy + off_y(kk) < h
                        implies pending(stack@, cx + #[trigger] off_x(kk), cy + off_y(kk)) by {
                    let j = choose|j: int|
                        0 <= j < before.len() && #[trigger] before[j] == ((cx + off_x(kk)) as usize, (
                        cy + off_y(kk)) as usize);
                    assert(stack@[j] == before[j]);
                }
            }
        }
        k = k + 1;
    }
    proof {
        assert forall|nx: int, ny: int|
            0 <= nx < w && 0 <= ny < h && adjacent(cx as int, cy as int, nx, ny) implies pending(
                stack@,
                nx,
                ny,
            ) by {
            let kk = lemma_adjacent_position(cx as int, cy as int, nx, ny);
            assert(off_x(kk) == nx - cx);
        }
    }
}

/// The character that shows a tile in the text rendering (counts never
/// exceed 8).
pub open spec fn symbol(t: ViewTile) -> char {
    match t {
        ViewTile::Hidden => '#',
        ViewTile::Exploded => 'X',
        ViewTile::Flagged => 'F',
        ViewTile::Revealed(n) => if n == 0 {
            '.'
        } else if n == 1 {
            '1'
        } else if n == 2 {
            '2'
        } else if n == 3 {
            '3'
        } else if n == 4 {
            '4'
        } else if n == 5 {
            '5'
        } else if n == 6 {
            '6'
        } else if n == 7 {
            '7'
        } else {
            '8'
        },
    }
}

fn symbol_of(t: ViewTile) -> (c: char)
    ensures
        c == symbol(t),
{
    match t {
        ViewTile::Hidden => '#',
        ViewTile::Exploded => 'X',
        ViewTile::Flagged => 'F',
        ViewTile::Revealed(0) => '.',
        ViewTile::Revealed(1) => '1',
        ViewTile::Revealed(2) => '2',
        ViewTile::Revealed(3) => '3',
        ViewTile::Revealed(4) => '4',
        ViewTile::Revealed(5) => '5',
        ViewTile::Revealed(6) => '6',
        ViewTile::Revealed(7) => '7',
        ViewTile::Revealed(_) => '8',
    }
}

/// Relies on `String::push`: appends one character at the end.
#[verifier::external_body]
fn push_char(s: &mut String, c: char)
    ensures
        final(s)@ == old(s)@.push(c),
{
    s.push(c);
}

impl PrimitiveViewTile {
    pub open spec fn spec_from(t: ViewTile) -> PrimitiveViewTile {
        match t {
            ViewTile::Hidden => PrimitiveViewTile::Hidden,
            ViewTile::Exploded => PrimitiveViewTile::Exploded,
            ViewTile::Flagged => PrimitiveViewTile::Flagged,
            ViewTile::Revealed(n) => if n == 0 {
                PrimitiveViewTile::R0
            } else if n == 1 {
                PrimitiveViewTile::R1
            } else if n == 2 {
                PrimitiveViewTile::R2
            } else if n == 3 {
                PrimitiveViewTile::R3
            } else if n == 4 {
                PrimitiveViewTile::R4
            } else if n == 5 {
                PrimitiveViewTile::R5
            } else if n == 6 {
                PrimitiveViewTile::R6
            } else if n == 7 {
                PrimitiveViewTile::R7
            } else {
                PrimitiveViewTile::R8
            },
        }
    }

    /// Flattens a tile state; a revealed count is at most 8.
    pub fn from(value: ViewTile) -> (r: PrimitiveViewTile)
        requires
            value matches ViewTile::Revealed(n) ==> n <= 8,
        ensures
            r == Self::spec_from(value),
    {
        match value {
            ViewTile::Hidden => PrimitiveViewTile::Hidden,
            ViewTile::Revealed(0) => PrimitiveViewTile::R0,
            ViewTile::Revealed(1) => PrimitiveViewTile::R1,
            ViewTile::Revealed(2) => PrimitiveViewTile::R2,
            ViewTile::Revealed(3) => PrimitiveViewTile::R3,
            ViewTile::Revealed(4) => PrimitiveViewTile::R4,
            ViewTile::Revealed(5) => PrimitiveViewTile::R5,
            ViewTile::Revealed(6) => PrimitiveViewTile::R6,
            ViewTile::Revealed(7) => PrimitiveViewTile::R7,
            ViewTile::Revealed(_) => PrimitiveViewTile::R8,
            ViewTile::Exploded => PrimitiveViewTile::Exploded,
            ViewTile::Flagged => PrimitiveViewTile::Flagged,
        }
    }
}

/// A game: a mine field and what the player has uncovered of it.
pub struct MinesView {
    mines: Mines,
    tiles: Vec<ViewTile>,
    pub status: GameStatus,
    revealed: usize,
}

impl View for MinesView {
    type V = GameModel;

    closed spec fn view(&self) -> GameModel {
        GameModel {
            board: self.mines@,
            tiles: self.tiles@,
            status: self.status,
            revealed: self.revealed as nat,
        }
    }
}

impl MinesView {
    /// Starts a game on a freshly generated board, every tile hidden.
    pub fn generate(seed: u32, width: usize, height: usize, mines: usize) -> (r: MinesView)
        requires
            width > 0,
            height > 0,
            mines > 0,
            mines < width * height,
            width * height <= usize::MAX,
        ensures
            r@.wf(),
            r@.board.width == width,
            r@.board.height == height,
            r@.board.mines == mines,
            r@.board.cells == generated_cells(seed, width as nat, height as nat, mines as nat),
            r@.tiles == Seq::new(r@.board.cells.len(), |i: int| ViewTile::Hidden),
            r@.status == GameStatus::Playing,
            r@.revealed == 0,
    {
        let mines = Mines::new(seed, width, height, mines);
        MinesView::new(mines)
    }

    fn new(mines: Mines) -> (r: MinesView)
        requires
            mines@.wf(),
        ensures
            r@.wf(),
            r@.board == mines@,
            r@.tiles == Seq::new(r@.board.cells.len(), |i: int| ViewTile::Hidden),
            r@.status == GameStatus::Playing,
            r@.revealed == 0,
    {
        let len = mines.width() * mines.height();
        let mut tiles: Vec<ViewTile> = Vec::new();
        let mut i: usize = 0;
        while i < len
            invariant
                i <= len,
                tiles@ =~= Seq::new(i as nat, |j: int| ViewTile::Hidden),
            decreases len - i,
        {
            tiles.push(ViewTile::Hidden);
            i = i + 1;
        }
        proof {
            lemma_all_hidden_counts(len as nat);
            assert(!(GameModel {
                board: mines@,
                tiles: tiles@,
                status: GameStatus::Playing,
                revealed: 0,
            }).has_exploded());
        }
        MinesView { mines, tiles, status: GameStatus::Playing, revealed: 0 }
    }

    /// Toggles the flag on a hidden or flagged tile; does nothing once the
    /// game is over, off the grid, or on a revealed or exploded tile.
    pub fn flag(&mut self, x: usize, y: usize)
        requires
            old(self)@.wf(),
        ensures
            final(self)@.wf(),
            final(self)@ == old(self)@.after_flag(x as int, y as int),
    {
        if self.status != GameStatus::Playing {
            return;
        }
        if x >= self.mines.width() || y >= self.mines.height() {
            return;
        }
        proof {
            lemma_index_coords(self@.board, x as int, y as int);
        }
        let index = y * self.mines.width() + x;
        let ghost g = self@;
        match self.tiles[index] {
            ViewTile::Hidden => self.tiles.set(index, ViewTile::Flagged),
            ViewTile::Flagged => self.tiles.set(index, ViewTile::Hidden),
            _ => {},
        }
        proof {
            lemma_count_revealed_update(g.tiles, index as int, self.tiles@[index as int]);
            assert(self@.has_exploded() ==> g.has_exploded());
        }
    }

    /// Reveals `(x, y)`. On a mine the tile explodes and the game is lost;
    /// otherwise the flood from `(x, y)` uncovers its region (see
    /// `GameModel::flood_tiles`), and the game is won once every safe cell
    /// is revealed. Does nothing once the game is over or off the grid.
    pub fn reveal_at(&mut self, x: usize, y: usize)
        requires
            old(self)@.wf(),
        ensures
            final(self)@.wf(),
            final(self)@ == old(self)@.after_reveal(x as int, y as int),
    {
        if self.status != GameStatus::Playing {
            return;
        }
        let w = self.mines.width();
        let h = self.mines.height();
        if x >= w || y >= h {
            return;
        }
        let ghost g0 = self@;
        let ghost b = g0.board;
        proof {
            lemma_index_coords(b, x as int, y as int);
        }
        if self.mines.is_mine(x, y) {
            self.tiles.set(y * w + x, ViewTile::Exploded);
            self.status = GameStatus::Lost;
            proof {
                lemma_count_revealed_update(g0.tiles, (y * w + x) as int, ViewTile::Exploded);
                assert(self@.tiles[(y * w + x) as int] == ViewTile::Exploded);
                assert(self@ == g0.after_reveal(x as int, y as int));
            }
            return;
        }
        let mut stack: Vec<(usize, usize)> = Vec::new();
        stack.push((x, y));
        proof {
            let p = seq![(x as int, y as int)];
            assert(g0.flood_path(p, x as int, y as int));
            assert(stack@[0] == (x, y));
        }
        while stack.len() > 0
            invariant
                g0.wf(),
                g0.status == GameStatus::Playing,
                b == g0.board,
                b.in_bounds(x as int, y as int),
                !b.is_mine(x as int, y as int),
                w == b.width,
                h == b.height,
                self@.board == b,
                self@.status == GameStatus::Playing,
                self@.tiles.len() == g0.tiles.len(),
                self@.revealed == count_revealed(self@.tiles),
                forall|j: int|
                    0 <= j < stack@.len() ==> b.in_bounds(#[trigger] stack@[j].0 as int, stack@[j].1 as int)
                        && g0.floods(x as int, y as int, stack@[j].0 as int, stack@[j].1 as int),
                forall|i: int|
                    0 <= i < self@.tiles.len() ==> #[trigger] self@.tiles[i] == g0.tiles[i] || (
                    g0.tiles[i] == ViewTile::Hidden && g0.floods(x as int, y as int, b.col(i), b.row(i))
                        && self@.tiles[i] == ViewTile::Revealed(
                        b.neighbor_mines(b.col(i), b.row(i)) as u8,
                    )),
                self@.tiles[b.index(x as int, y as int)] != ViewTile::Hidden || pending(
                    stack@,
                    x as int,
                    y as int,
                ),
                forall|px: int, py: int|
                    b.in_bounds(px, py) && #[trigger] self@.tiles[b.index(px, py)] != g0.tile(px, py)
                        && b.neighbor_mines(px, py) == 0 ==> settled(b, self@.tiles, stack@, px, py),
            decreases count_hidden(self@.tiles) * 9 + stack@.len(),
        {
            let ghost t1 = self@.tiles;
            let ghost s1 = stack@;
            let (cx, cy) = stack.pop().unwrap();
            let ghost s_popped = stack@;
            proof {
                lemma_index_coords(b, cx as int, cy as int);
                assert(s1.last() == (cx, cy));
                assert(b.in_bounds(cx as int, cy as int));
            }
            let index = cy * w + cx;
            if self.tiles[index] != ViewTile::Hidden {
                proof {
                    assert forall|px: int, py: int|
                        b.in_bounds(px, py) && #[trigger] self@.tiles[b.index(px, py)] != g0.tile(px, py)
                            && b.neighbor_mines(px, py) == 0 implies settled(
                        b,
                        self@.tiles,
                        stack@,
                        px,
                        py,
                    ) by {
                        lemma_settled_step(b, t1, s1, self@.tiles, stack@, px, py);
                    }
                    lemma_pending_step(b, t1, s1, self@.tiles, stack@, x as int, y as int);
                }
                continue;
            }
            let count = self.mines.count_mines(cx, cy);
            self.tiles.set(index, ViewTile::Revealed(count));
            proof {
                lemma_count_revealed_update(t1, index as int, ViewTile::Revealed(count));
                lemma_count_hidden_update(t1, index as int, ViewTile::Revealed(count));
                lemma_count_revealed_le_len(self@.tiles);
            }
            self.revealed = self.revealed + 1;
            let ghost t2 = self@.tiles;
            proof {
                // the cell just uncovered was hidden from the start, so the
                // flood reaches it
                assert(t1[index as int] == ViewTile::Hidden);
                assert(g0.tiles[index as int] == ViewTile::Hidden);
                assert(g0.floods(x as int, y as int, cx as int, cy as int));
            }
            if count != 0 {
                proof {
                    assert forall|px: int, py: int|
                        b.in_bounds(px, py) && #[trigger] self@.tiles[b.index(px, py)] != g0.tile(px, py)
                            && b.neighbor_mines(px, py) == 0 implies settled(
                        b,
                        self@.tiles,
                        stack@,
                        px,
                        py,
                    ) by {
                        lemma_index_coords(b, px, py);
                        if px != cx || py != cy {
                            assert(b.index(px, py) != index) by {
                                lemma_index_coords(b, cx as int, cy as int);
                            }
                            assert(t1[b.index(px, py)] != g0.tile(px, py));
                        }
                        lemma_settled_step(b, t1, s1, self@.tiles, stack@, px, py);
                    }
                    lemma_pending_step(b, t1, s1, self@.tiles, stack@, x as int, y as int);
                }
                continue;
            }
            push_neighbors(&mut stack, w, h, cx, cy);
            proof {
                let pc = choose|p: Seq<(int, int)>|
                    #[trigger] g0.flood_path(p, x as int, y as int) && p.last() == (cx as int, cy as int);
                assert forall|j: int| 0 <= j < stack@.len() implies b.in_bounds(
                    #[trigger] stack@[j].0 as int,
                    stack@[j].1 as int,
                ) && g0.floods(x as int, y as int, stack@[j].0 as int, stack@[j].1 as int) by {
                    if j < s_popped.len() {
                        assert(stack@[j] == s1[j]);
                    } else {
                        let n = (stack@[j].0 as int, stack@[j].1 as int);
                        let q = pc.push(n);
                        assert(g0.opens_onto(cx as int, cy as int, n.0, n.1));
                        assert forall|i: int| 0 <= i < q.len() - 1 implies g0.opens_onto(
                            #[trigger] q[i].0,
                            q[i].1,
                            q[i + 1].0,
                            q[i + 1].1,
                        ) by {
                            if i < pc.len() - 1 {
                                assert(g0.opens_onto(pc[i].0, pc[i].1, pc[i + 1].0, pc[i + 1].1));
                            }
                        }
                        assert(g0.flood_path(q, x as int, y as int));
                    }
                }
                assert forall|px: int, py: int|
                    b.in_bounds(px, py) && #[trigger] self@.tiles[b.index(px, py)] != g0.tile(px, py)
                        && b.neighbor_mines(px, py) == 0 implies settled(
                    b,
                    self@.tiles,
                    stack@,
                    px,
                    py,
                ) by {
                    lemma_index_coords(b, px, py);
                    if px != cx || py != cy {
                        assert(b.index(px, py) != index) by {
                            lemma_index_coords(b, cx as int, cy as int);
                        }
                        assert(t1[b.index(px, py)] != g0.tile(px, py));
                        lemma_settled_step(b, t1, s1, self@.tiles, stack@, px, py);
                    } else {
                        assert forall|nx: int, ny: int|
                            b.in_bounds(nx, ny) && adjacent(px, py, nx, ny) implies #[trigger] t2[b.index(
                            nx,
                            ny,
                        )] != ViewTile::Hidden || pending(stack@, nx, ny) by {
                            assert(pending(stack@, nx, ny));
                        }
                    }
                }
                lemma_pending_step(b, t1, s1, self@.tiles, stack@, x as int, y as int);
            }
        }
        proof {
            assert forall|i: int| 0 <= i < self@.tiles.len() implies #[trigger] self@.tiles[i]
                == g0.flood_tiles(x as int, y as int)[i] by {
                lemma_coords_index(b, i);
                let (cx, cy) = (b.col(i), b.row(i));
                if g0.opened(x as int, y as int, cx, cy) {
                    let p = choose|p: Seq<(int, int)>|
                        #[trigger] g0.flood_path(p, x as int, y as int) && p.last() == (cx, cy);
                    assert forall|px: int, py: int|
                        b.in_bounds(px, py) && #[trigger] self@.tiles[b.index(px, py)] != g0.tile(px, py)
                            && b.neighbor_mines(px, py) == 0 implies settled(
                        b,
                        self@.tiles,
                        Seq::empty(),
                        px,
                        py,
                    ) by {
                        assert(settled(b, self@.tiles, stack@, px, py));
                        assert(stack@ =~= Seq::<(usize, usize)>::empty());
                    }
                    lemma_flood_complete(g0, self@.tiles, x as int, y as int, p);
                }
            }
            assert(self@.tiles =~= g0.flood_tiles(x as int, y as int));
            assert forall|i: int|
                0 <= i < self@.tiles.len() && #[trigger] self@.tiles[i] is Revealed implies {
                &&& b.cells[i] == Tile::Empty
                &&& self@.tiles[i]->Revealed_0 == b.neighbor_mines(b.col(i), b.row(i))
            } by {
                if self@.tiles[i] != g0.tiles[i] {
                    lemma_coords_index(b, i);
                    let p = choose|p: Seq<(int, int)>|
                        #[trigger] g0.flood_path(p, x as int, y as int) && p.last() == (b.col(i), b.row(i));
                    lemma_flood_safe(g0, p, x as int, y as int);
                }
            }
            assert forall|i: int| 0 <= i < self@.tiles.len() implies #[trigger] self@.tiles[i]
                != ViewTile::Exploded by {
                assert(g0.tiles[i] != ViewTile::Exploded);
            }
            lemma_revealed_bound(g0);
        }
        if self.revealed == w * h - self.mines.mine_count() {
            self.status = GameStatus::Won;
        }
        proof {
            assert(!self@.has_exploded());
            lemma_count_revealed_bound(self@.tiles, b.cells);
            lemma_count_tile_total(b.cells);
        }
    }

    /// Chord reveal on `(x, y)`: when the tile is revealed and exactly as many
    /// of its neighbours are flagged as its count says, reveals in order each
    /// neighbour that is still hidden when its turn comes.
    pub fn reveal_around(&mut self, x: usize, y: usize)
        requires
            old(self)@.wf(),
        ensures
            final(self)@.wf(),
            final(self)@ == old(self)@.after_reveal_around(x as int, y as int),
    {
        let w = self.mines.width();
        let h = self.mines.height();
        if x >= w || y >= h {
            return;
        }
        if self.status != GameStatus::Playing {
            return;
        }
        let ghost g0 = self@;
        let ghost b = g0.board;
        proof {
            lemma_index_coords(b, x as int, y as int);
        }
        let num = match self.tiles[y * w + x] {
            ViewTile::Revealed(num) => num,
            _ => return,
        };
        let mut count: u8 = 0;
        let mut k: usize = 0;
        while k < 9
            invariant
                k <= 9,
                self@ == g0,
                g0.wf(),
                b == g0.board,
                x < w,
                y < h,
                w == b.width,
                h == b.height,
                count <= k,
                count as nat + g0.flagged_from(x as int, y as int, k as int) == g0.flagged_from(
                    x as int,
                    y as int,
                    0,
                ),
            decreases 9 - k,
        {
            if let Some((nx, ny)) = neighbor(w, h, x, y, k) {
                proof {
                    lemma_index_coords(b, nx as int, ny as int);
                }
                if self.tiles[ny * w + nx] == ViewTile::Flagged {
                    count = count + 1;
                }
            }
            k = k + 1;
        }
        if count == num {
            let mut k: usize = 0;
            while k < 9
                invariant
                    k <= 9,
                    self@.wf(),
                    self@.board == b,
                    x < w,
                    y < h,
                    w == b.width,
                    h == b.height,
                    self@.chord_from(x as int, y as int, k as int) == g0.chord_from(
                        x as int,
                        y as int,
                        0,
                    ),
                decreases 9 - k,
            {
                if let Some((nx, ny)) = neighbor(w, h, x, y, k) {
                    proof {
                        lemma_index_coords(b, nx as int, ny as int);
                    }
                    if self.tiles[ny * w + nx] == ViewTile::Hidden {
                        self.reveal_at(nx, ny);
                    }
                }
                k = k + 1;
            }
        }
    }

    /// The grid as text: one line per row, each tile shown by its symbol
    /// and a space (`#` hidden, `.` no mine around, a digit, `X` exploded,
    /// `F` flagged).
    pub fn render(&self) -> (r: String)
        requires
            self@.wf(),
        ensures
            r@ == self@.text(),
    {
        let w = self.mines.width();
        let h = self.mines.height();
        let ghost g = self@;
        let mut out = String::new();
        let mut y: usize = 0;
        while y < h
            invariant
                g == self@,
                g.wf(),
                w == g.board.width,
                h == g.board.height,
                y <= h,
                out@ == g.rows_text(y as int),
            decreases h - y,
        {
            let mut x: usize = 0;
            while x < w
                invariant
                    g == self@,
                    g.wf(),
                    w == g.board.width,
                    h == g.board.height,
                    y < h,
                    x <= w,
                    out@ == g.rows_text(y as int) + g.row_text(y as int, x as int),
                decreases w - x,
            {
                proof {
                    lemma_index_coords(g.board, x as int, y as int);
                }
                let c = symbol_of(self.tiles[y * w + x]);
                push_char(&mut out, c);
                push_char(&mut out, ' ');
                proof {
                    assert(out@ =~= g.rows_text(y as int) + g.row_text(y as int, x + 1));
                }
                x = x + 1;
            }
            push_char(&mut out, '\n');
            proof {
                assert(out@ =~= g.rows_text(y + 1));
            }
            y = y + 1;
        }
        out
    }

    /// The state of the tile at `(x, y)`.
    pub fn get(&self, x: usize, y: usize) -> (r: PrimitiveViewTile)
        requires
            self@.wf(),
            self@.board.in_bounds(x as int, y as int),
        ensures
            r == PrimitiveViewTile::spec_from(self@.tile(x as int, y as int)),
    {
        proof {
            lemma_index_coords(self@.board, x as int, y as int);
        }
        self.get_by_index(y * self.mines.width() + x)
    }

    /// The state of the tile at index `index` (row-major order).
    pub fn get_by_index(&self, index: usize) -> (r: PrimitiveViewTile)
        requires
            self@.wf(),
            index < self@.tiles.len(),
        ensures
            r == PrimitiveViewTile::spec_from(self@.tiles[index as int]),
    {
        PrimitiveViewTile::from(self.tiles[index])
    }

    pub fn width(&self) -> (r: usize)
        ensures
            r == self@.board.width,
    {
        self.mines.width()
    }

    pub fn height(&self) -> (r: usize)
        ensures
            r == self@.board.height,
    {
        self.mines.height()
    }
}


/// In every reachable state the game is won exactly when every safe cell is
/// revealed and no mine has exploded.
pub proof fn lemma_won_exactly_when(g: GameModel)
    requires
        g.wf(),
    ensures
        (g.status == GameStatus::Won) <==> (g.revealed == g.board.safe_cells() && !g.has_exploded()),
        g.revealed <= g.board.safe_cells(),
{
    lemma_revealed_bound(g);
}

/// Once the game is won or lost, revealing, flagging and chord revealing
/// change nothing.
pub proof fn lemma_finished_game_is_frozen(g: GameModel, x: int, y: int)
    requires
        g.status != GameStatus::Playing,
    ensures
        g.after_reveal(x, y) == g,
        g.after_flag(x, y) == g,
        g.after_reveal_around(x, y) == g,
{
}

/// Flagging a hidden tile twice leaves the game as it was.
pub proof fn lemma_flag_twice_restores(g: GameModel, x: int, y: int)
    requires
        g.wf(),
        g.board.in_bounds(x, y),
        g.tile(x, y) == ViewTile::Hidden,
    ensures
        g.after_flag(x, y).after_flag(x, y) == g,
{
    lemma_index_coords(g.board, x, y);
    if g.status == GameStatus::Playing {
        let i = g.board.index(x, y);
        assert(g.tiles.update(i, ViewTile::Flagged).update(i, ViewTile::Hidden) =~= g.tiles);
    }
}

} // verus!
