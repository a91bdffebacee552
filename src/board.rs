//! The mine field: an immutable grid of mine and empty cells.
use rand::seq::SliceRandom;
use rand::SeedableRng;
use vstd::arithmetic::div_mod::lemma_fundamental_div_mod_converse;
use vstd::multiset::Multiset;
use vstd::prelude::*;

verus! {

/// One cell of the mine field.
#[derive(Clone, Copy, PartialEq, Eq, Structural, Debug)]
pub enum Tile {
    Empty,
    Mine,
}

/// Mathematical model of a mine field.
pub ghost struct BoardModel {
    pub width: nat,
    pub height: nat,
    pub mines: nat,
    pub cells: Seq<Tile>,
}

/// How many entries of `s` are `t`.
pub open spec fn count_tile(s: Seq<Tile>, t: Tile) -> nat
    decreases s.len(),
{
    if s.len() == 0 {
        0
    } else {
        count_tile(s.drop_last(), t) + if s.last() == t {
            1nat
        } else {
            0nat
        }
    }
}

/// The layout before shuffling: `mines` mines followed by empty cells.
pub open spec fn initial_cells(len: nat, mines: nat) -> Seq<Tile> {
    Seq::new(len, |i: int| if i < mines { Tile::Mine } else { Tile::Empty })
}

/// What the seeded shuffle makes of `cells`.
pub uninterp spec fn shuffled(seed: u32, cells: Seq<Tile>) -> Seq<Tile>;

/// The cells of the board generated from these parameters.
pub open spec fn generated_cells(seed: u32, width: nat, height: nat, mines: nat) -> Seq<Tile> {
    shuffled(seed, initial_cells(width * height, mines))
}

impl BoardModel {
    pub open spec fn wf(self) -> bool {
        &&& self.width > 0
        &&& self.height > 0
        &&& self.mines > 0
        &&& self.mines < self.width * self.height
        &&& self.width * self.height <= usize::MAX
        &&& self.cells.len() == self.width * self.height
        &&& count_tile(self.cells, Tile::Mine) == self.mines
    }

    pub open spec fn in_bounds(self, x: int, y: int) -> bool {
        0 <= x < self.width && 0 <= y < self.height
    }

    pub open spec fn index(self, x: int, y: int) -> int {
        y * self.width + x
    }

    /// Column of the cell at index `i`.
    pub open spec fn col(self, i: int) -> int {
        i % (self.width as int)
    }

    /// Row of the cell at index `i`.
    pub open spec fn row(self, i: int) -> int {
        i / (self.width as int)
    }

    pub open spec fn is_mine(self, x: int, y: int) -> bool {
        self.in_bounds(x, y) && self.cells[self.index(x, y)] == Tile::Mine
    }

    /// 1 if `(x, y)` lies on the grid and holds a mine, else 0.
    pub open spec fn mine_at(self, x: int, y: int) -> nat {
        if self.is_mine(x, y) {
            1
        } else {
            0
        }
    }

    /// Mines among the (up to eight) cells around `(x, y)`.
    pub open spec fn neighbor_mines(self, x: int, y: int) -> nat {
        self.mine_at(x - 1, y - 1) + self.mine_at(x - 1, y) + self.mine_at(x - 1, y + 1)
            + self.mine_at(x, y - 1) + self.mine_at(x, y + 1) + self.mine_at(x + 1, y - 1)
            + self.mine_at(x + 1, y) + self.mine_at(x + 1, y + 1)
    }

    /// Number of cells that are not mines.
    pub open spec fn safe_cells(self) -> nat {
        (self.width * self.height - self.mines) as nat
    }
}

/// Coordinates on the grid and indices into the cells correspond.
pub proof fn lemma_index_coords(b: BoardModel, x: int, y: int)
    requires
        b.width > 0,
        b.in_bounds(x, y),
    ensures
        0 <= b.index(x, y) < b.width * b.height,
        b.col(b.index(x, y)) == x,
        b.row(b.index(x, y)) == y,
{
    let w = b.width as int;
    let h = b.height as int;
    assert(0 <= y * w + x < w * h) by (nonlinear_arith)
        requires
            0 <= x < w,
            0 <= y < h,
    ;
    lemma_fundamental_div_mod_converse(y * w + x, w, y, x);
}

/// Each index of the grid names a cell with coordinates on the grid.
pub proof fn lemma_coords_index(b: BoardModel, i: int)
    requires
        b.width > 0,
        0 <= i < b.width * b.height,
    ensures
        b.in_bounds(b.col(i), b.row(i)),
        b.index(b.col(i), b.row(i)) == i,
{
    let w = b.width as int;
    let h = b.height as int;
    assert(0 <= i / w < h && 0 <= i % w < w && (i / w) * w + i % w == i) by (nonlinear_arith)
        requires
            w > 0,
            0 <= i < w * h,
    ;
}

proof fn lemma_count_tile_multiset(s: Seq<Tile>, t: Tile)
    ensures
        count_tile(s, t) == s.to_multiset().count(t),
    decreases s.len(),
{
    broadcast use vstd::seq_lib::group_to_multiset_ensures;

    if s.len() == 0 {
        assert(s.to_multiset() =~= Multiset::empty());
    } else {
        lemma_count_tile_multiset(s.drop_last(), t);
        assert(s =~= s.drop_last().push(s.last()));
    }
}

/// Every cell is either a mine or empty.
pub proof fn lemma_count_tile_total(s: Seq<Tile>)
    ensures
        count_tile(s, Tile::Mine) + count_tile(s, Tile::Empty) == s.len(),
    decreases s.len(),
{
    if s.len() > 0 {
        lemma_count_tile_total(s.drop_last());
    }
}

proof fn lemma_initial_cells_count(len: nat, mines: nat)
    requires
        mines <= len,
    ensures
        count_tile(initial_cells(len, mines), Tile::Mine) == mines,
    decreases len,
{
    if len > mines {
        lemma_initial_cells_count((len - 1) as nat, mines);
        assert(initial_cells(len, mines).drop_last() =~= initial_cells((len - 1) as nat, mines));
    } else if len > 0 {
        lemma_initial_cells_count((len - 1) as nat, (mines - 1) as nat);
        lemma_initial_cells_prefix(len, mines);
    }
}

proof fn lemma_initial_cells_prefix(len: nat, mines: nat)
    requires
        0 < len,
        mines == len,
    ensures
        initial_cells(len, mines).drop_last() =~= initial_cells((len - 1) as nat, (mines - 1) as nat),
{
}

/// Relies on rand's `SmallRng::seed_from_u64` and `SliceRandom::shuffle`: the
/// generator is seeded from `seed` alone and shuffles the slice in place by
/// swapping entries, so the result is a fixed permutation of `cells`.
#[verifier::external_body]
fn shuffle_cells(seed: u32, cells: Vec<Tile>) -> (r: Vec<Tile>)
    ensures
        r@ == shuffled(seed, cells@),
        r@.to_multiset() == cells@.to_multiset(),
{
    let mut rng = rand::rngs::SmallRng::seed_from_u64(seed as u64);
    let mut cells = cells;
    cells.shuffle(&mut rng);
    cells
}

/// A mine field, fixed once generated.
pub struct Mines {
    width: usize,
    height: usize,
    mines: usize,
    board: Vec<Tile>,
}

impl View for Mines {
    type V = BoardModel;

    closed spec fn view(&self) -> BoardModel {
        BoardModel {
            width: self.width as nat,
            height: self.height as nat,
            mines: self.mines as nat,
            cells: self.board@,
        }
    }
}

impl Mines {
    /// Generates a board of `width * height` cells holding exactly `mines`
    /// mines, laid out by a shuffle seeded from `seed`.
    pub fn new(seed: u32, width: usize, height: usize, mines: usize) -> (r: Mines)
        requires
            width > 0,
            height > 0,
            mines > 0,
            mines < width * height,
            width * height <= usize::MAX,
        ensures
            r@.wf(),
            r@.width == width,
            r@.height == height,
            r@.mines == mines,
            r@.cells == generated_cells(seed, width as nat, height as nat, mines as nat),
    {
        let len = width * height;
        let mut cells: Vec<Tile> = Vec::new();
        let mut i: usize = 0;
        while i < len
            invariant
                i <= len,
                mines < len,
                cells@ =~= Seq::new(i as nat, |j: int| if j < mines { Tile::Mine } else { Tile::Empty }),
            decreases len - i,
        {
            if i < mines {
                cells.push(Tile::Mine);
            } else {
                cells.push(Tile::Empty);
            }
            i = i + 1;
        }
        proof {
            assert(cells@ =~= initial_cells(len as nat, mines as nat));
            lemma_initial_cells_count(len as nat, mines as nat);
            lemma_count_tile_multiset(cells@, Tile::Mine);
        }
        let board = shuffle_cells(seed, cells);
        proof {
            broadcast use vstd::seq_lib::group_to_multiset_ensures;

            lemma_count_tile_multiset(board@, Tile::Mine);
            assert(board@.len() == board@.to_multiset().len());
            assert(cells@.len() == cells@.to_multiset().len());
        }
        Mines { width, height, mines, board }
    }

    pub fn width(&self) -> (r: usize)
        ensures
            r == self@.width,
    {
        self.width
    }

    pub fn height(&self) -> (r: usize)
        ensures
            r == self@.height,
    {
        self.height
    }

    pub fn mine_count(&self) -> (r: usize)
        ensures
            r == self@.mines,
    {
        self.mines
    }

    /// Whether the cell at `(x, y)` is a mine.
    pub fn is_mine(&self, x: usize, y: usize) -> (r: bool)
        requires
            self@.wf(),
            self@.in_bounds(x as int, y as int),
        ensures
            r == self@.is_mine(x as int, y as int),
    {
        proof {
            lemma_index_coords(self@, x as int, y as int);
        }
        match self.board[y * self.width + x] {
            Tile::Mine => true,
            Tile::Empty => false,
        }
    }

    /// 1 if the cell at `(x + dx - 1, y + dy - 1)` is on the grid and a mine.
    fn mine_at(&self, x: usize, y: usize, dx: usize, dy: usize) -> (r: u8)
        requires
            self@.wf(),
            self@.in_bounds(x as int, y as int),
            dx <= 2,
            dy <= 2,
        ensures
            r as nat == self@.mine_at(x + dx - 1, y + dy - 1),
    {
        if (x == 0 && dx == 0) || (y == 0 && dy == 0) {
            return 0;
        }
        let nx = if dx == 0 { x - 1 } else { x + (dx - 1) };
        let ny = if dy == 0 { y - 1 } else { y + (dy - 1) };
        if nx >= self.width || ny >= self.height {
            return 0;
        }
        if self.is_mine(nx, ny) {
            1
        } else {
            0
        }
    }

    /// Number of mines around `(x, y)`.
    pub fn count_mines(&self, x: usize, y: usize) -> (r: u8)
        requires
            self@.wf(),
            self@.in_bounds(x as int, y as int),
        ensures
            r as nat == self@.neighbor_mines(x as int, y as int),
            r <= 8,
    {
        self.mine_at(x, y, 0, 0) + self.mine_at(x, y, 0, 1) + self.mine_at(x, y, 0, 2)
            + self.mine_at(x, y, 1, 0) + self.mine_at(x, y, 1, 2) + self.mine_at(x, y, 2, 0)
            + self.mine_at(x, y, 2, 1) + self.mine_at(x, y, 2, 2)
    }
}

/// Generation depends on its parameters alone: two boards generated from the
/// same seed, dimensions and mine count have the same layout.
pub proof fn lemma_generation_deterministic(
    seed: u32,
    width: nat,
    height: nat,
    mines: nat,
    a: BoardModel,
    b: BoardModel,
)
    requires
        a.cells == generated_cells(seed, width, height, mines),
        b.cells == generated_cells(seed, width, height, mines),
    ensures
        a.cells == b.cells,
{
}

} // verus!
