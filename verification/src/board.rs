//! The toroidal grid: a flat, reusable buffer of cells with neighbor counting.

use vstd::prelude::*;

use crate::cell::{cell_bit, CellState};

verus! {

/// A toroidal grid of cells, stored row-major in a flat buffer.  The buffer
/// is sized once at construction and only rewritten in place afterwards, so
/// the hot loop of the search never reallocates.
#[derive(Debug)]
pub struct Board {
    pub cells: Vec<CellState>,
    pub width: usize,
    pub height: usize,
}

/// Row-major index of the cell at `(row, col)`.
pub open spec fn cell_index(width: nat, row: nat, col: nat) -> nat {
    row * width + col
}

/// The coordinate one before `i` on a wrapping axis of extent `n`.
pub open spec fn wrap_dec(i: nat, n: nat) -> nat
    recommends
        1 <= n,
{
    ((i + n - 1) as nat) % n
}

/// The coordinate one after `i` on a wrapping axis of extent `n`.
pub open spec fn wrap_inc(i: nat, n: nat) -> nat
    recommends
        1 <= n,
{
    (i + 1) % n
}

/// Count of alive cells among the eight toroidal neighbors of `(row, col)`.
/// Every neighbor coordinate wraps around the edges, so on degenerate boards
/// several of the eight slots may alias the same cell (or the cell itself),
/// and each aliased slot still contributes its own bit to the sum.
pub open spec fn neighbor_count(
    s: Seq<CellState>,
    width: nat,
    height: nat,
    row: nat,
    col: nat,
) -> nat
    recommends
        1 <= width,
        1 <= height,
        s.len() == width * height,
        row < height,
        col < width,
{
    let xl = wrap_dec(col, width);
    let xr = wrap_inc(col, width);
    let yt = wrap_dec(row, height);
    let yb = wrap_inc(row, height);
    cell_bit(s[cell_index(width, yt, xl) as int]) + cell_bit(s[cell_index(width, yt, col) as int])
        + cell_bit(s[cell_index(width, yt, xr) as int]) + cell_bit(
        s[cell_index(width, row, xl) as int],
    ) + cell_bit(s[cell_index(width, row, xr) as int]) + cell_bit(
        s[cell_index(width, yb, xl) as int],
    ) + cell_bit(s[cell_index(width, yb, col) as int]) + cell_bit(
        s[cell_index(width, yb, xr) as int],
    )
}

/// A row-major index stays inside the buffer.
pub proof fn lemma_cell_index_bound(width: nat, height: nat, row: nat, col: nat)
    requires
        row < height,
        col < width,
    ensures
        cell_index(width, row, col) < width * height,
{
    assert(row * width + col < width * height) by (nonlinear_arith)
        requires
            row < height,
            col < width,
    ;
}

impl Board {
    /// Well-formed boards have positive extents, a buffer of exactly
    /// `width * height` cells, and few enough cells that the whole state
    /// packs into one `u64`.
    pub open spec fn wf(self) -> bool {
        &&& 1 <= self.width
        &&& 1 <= self.height
        &&& self.width * self.height <= 64
        &&& self.cells@.len() == self.width * self.height
    }

    /// The grid contents as a mathematical sequence.
    pub open spec fn grid(self) -> Seq<CellState> {
        self.cells@
    }

    /// Builds an all-dead board of the given extents.  The state must fit
    /// the packed `u64` encoding; larger boards are rejected up front rather
    /// than silently truncated, since truncation would let two distinct
    /// states collide during cycle detection.
    pub fn new(width: usize, height: usize) -> (b: Board)
        requires
            1 <= width,
            1 <= height,
            width * height <= 64,
        ensures
            b.wf(),
            b.width == width,
            b.height == height,
            forall|i: int| 0 <= i < b.grid().len() ==> b.grid()[i] is Dead,
    {
        let n = width * height;
        let mut cells: Vec<CellState> = Vec::new();
        while cells.len() < n
            invariant
                cells@.len() <= n,
                forall|i: int| 0 <= i < cells@.len() ==> cells@[i] is Dead,
            decreases n - cells@.len(),
        {
            cells.push(CellState::Dead);
        }
        Board { cells, width, height }
    }

    /// Overwrites every cell in place from a packed configuration: cell `i`
    /// becomes alive exactly when bit `i` of `conf` is set.
    pub fn replace_with_conf(&mut self, conf: u64)
        requires
            old(self).wf(),
        ensures
            final(self).wf(),
            final(self).width == old(self).width,
            final(self).height == old(self).height,
            forall|i: int|
                0 <= i < final(self).grid().len() ==> final(self).grid()[i] == (if conf_bit(
                    conf,
                    i as u64,
                ) {
                    CellState::Alive
                } else {
                    CellState::Dead
                }),
    {
        let n = self.cells.len();
        let mut k: usize = 0;
        while k < n
            invariant
                k <= n,
                n <= 64,
                n == self.cells@.len(),
                self.width == old(self).width,
                self.height == old(self).height,
                old(self).wf(),
                n == self.width * self.height,
                forall|i: int|
                    0 <= i < k ==> self.cells@[i] == (if conf_bit(conf, i as u64) {
                        CellState::Alive
                    } else {
                        CellState::Dead
                    }),
            decreases n - k,
        {
            let bit = (conf & (1u64 << (k as u64))) > 0;
            proof {
                assert(((conf & (1u64 << (k as u64))) > 0) == (((conf >> (k as u64)) & 1u64)
                    == 1u64)) by (bit_vector)
                    requires
                        (k as u64) < 64,
                ;
            }
            self.cells.set(k, CellState::from(bit));
            k = k + 1;
        }
    }

    /// Count of alive cells among the eight toroidal neighbors of
    /// `(row, col)`.  Wraparound in the decreasing direction is computed by
    /// adding the extent before taking the remainder, so no intermediate
    /// value ever goes negative.
    pub fn alive_neighbor_count(&self, row: usize, col: usize) -> (n: i32)
        requires
            self.wf(),
            row < self.height,
            col < self.width,
        ensures
            n == neighbor_count(
                self.grid(),
                self.width as nat,
                self.height as nat,
                row as nat,
                col as nat,
            ),
            0 <= n <= 8,
    {
        let width = self.width;
        let height = self.height;

        proof {
            assert(width <= width * height && height <= width * height) by (nonlinear_arith)
                requires
                    1 <= width,
                    1 <= height,
            ;
        }

        let xl = (col + width - 1) % width;
        let xr = (col + 1) % width;
        let yt = (row + height - 1) % height;
        let yb = (row + 1) % height;

        proof {
            lemma_cell_index_bound(width as nat, height as nat, yt as nat, xl as nat);
            lemma_cell_index_bound(width as nat, height as nat, yt as nat, col as nat);
            lemma_cell_index_bound(width as nat, height as nat, yt as nat, xr as nat);
            lemma_cell_index_bound(width as nat, height as nat, row as nat, xl as nat);
            lemma_cell_index_bound(width as nat, height as nat, row as nat, xr as nat);
            lemma_cell_index_bound(width as nat, height as nat, yb as nat, xl as nat);
            lemma_cell_index_bound(width as nat, height as nat, yb as nat, col as nat);
            lemma_cell_index_bound(width as nat, height as nat, yb as nat, xr as nat);
        }

        (self.cells[yt * width + xl].bit() as i32) + (self.cells[yt * width + col].bit() as i32)
            + (self.cells[yt * width + xr].bit() as i32) + (self.cells[row * width + xl].bit()
            as i32) + (self.cells[row * width + xr].bit() as i32) + (self.cells[yb * width
            + xl].bit() as i32) + (self.cells[yb * width + col].bit() as i32) + (self.cells[yb
            * width + xr].bit() as i32)
    }
}

/// Whether bit `i` of the packed configuration `conf` is set.
pub open spec fn conf_bit(conf: u64, i: u64) -> bool
    recommends
        i < 64,
{
    ((conf >> i) & 1u64) == 1u64
}

/// On a board where every cell is alive, every cell sees eight alive
/// neighbors: toroidal wraparound fills all eight slots no matter where the
/// cell sits.
pub proof fn lemma_all_alive_neighbor_count(
    s: Seq<CellState>,
    width: nat,
    height: nat,
    row: nat,
    col: nat,
)
    requires
        1 <= width,
        1 <= height,
        s.len() == width * height,
        row < height,
        col < width,
        forall|i: int| 0 <= i < s.len() ==> s[i] is Alive,
    ensures
        neighbor_count(s, width, height, row, col) == 8,
{
    let xl = wrap_dec(col, width);
    let xr = wrap_inc(col, width);
    let yt = wrap_dec(row, height);
    let yb = wrap_inc(row, height);
    lemma_cell_index_bound(width, height, yt, xl);
    lemma_cell_index_bound(width, height, yt, col);
    lemma_cell_index_bound(width, height, yt, xr);
    lemma_cell_index_bound(width, height, row, xl);
    lemma_cell_index_bound(width, height, row, xr);
    lemma_cell_index_bound(width, height, yb, xl);
    lemma_cell_index_bound(width, height, yb, col);
    lemma_cell_index_bound(width, height, yb, xr);
}

/// On a one-by-one board the single cell fills all eight neighbor slots
/// itself, so its neighbor count is eight times its own bit.
pub proof fn lemma_single_cell_neighbor_count(s: Seq<CellState>)
    requires
        s.len() == 1,
    ensures
        neighbor_count(s, 1, 1, 0, 0) == 8 * cell_bit(s[0]),
{
}

} // verus!
