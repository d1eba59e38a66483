//! The generation stepper: one transition of the whole board, packed as bits.

use vstd::prelude::*;

use crate::board::{cell_index, neighbor_count, Board};
use crate::cell::{cell_bit, CellState};
use vstd::arithmetic::div_mod::{lemma_fundamental_div_mod, lemma_multiply_divide_lt};
use vstd::arithmetic::power2::{lemma2_to64, lemma_pow2_strictly_increases, lemma_pow2_unfold, pow2};
use vstd::bits::lemma_u64_shl_is_mul;

verus! {

/// The standard Game-of-Life transition rule for one cell: a cell is alive
/// in the next generation exactly when it has three alive neighbors (birth
/// on a dead cell, survival on a live one), or two alive neighbors while the
/// cell itself is alive (survival only).
pub open spec fn next_cell(
    s: Seq<CellState>,
    width: nat,
    height: nat,
    row: nat,
    col: nat,
) -> CellState
    recommends
        1 <= width,
        1 <= height,
        s.len() == width * height,
        row < height,
        col < width,
{
    let n = neighbor_count(s, width, height, row, col);
    if n == 3 || (n == 2 && s[cell_index(width, row, col) as int] is Alive) {
        CellState::Alive
    } else {
        CellState::Dead
    }
}

/// The whole next generation, row-major.
pub open spec fn step_seq(s: Seq<CellState>, width: nat, height: nat) -> Seq<CellState>
    recommends
        1 <= width,
        1 <= height,
        s.len() == width * height,
{
    Seq::new(
        width * height,
        |i: int| next_cell(s, width, height, (i / width as int) as nat, (i % width as int) as nat),
    )
}

/// The packed encoding of a grid: bit `i` of the result is the bit of cell
/// `i`, so the encoding is a bijection between grids and integers below
/// `pow2(len)`.
pub open spec fn pack(s: Seq<CellState>) -> nat
    decreases s.len(),
{
    if s.len() == 0 {
        0
    } else {
        pack(s.drop_last()) + cell_bit(s.last()) * pow2((s.len() - 1) as nat)
    }
}

/// A packed state uses one bit per cell and no more.
pub proof fn lemma_pack_bound(s: Seq<CellState>)
    ensures
        pack(s) < pow2(s.len()),
    decreases s.len(),
{
    if s.len() == 0 {
        assert(pow2(0) == 1) by {
            lemma2_to64();
        }
    } else {
        lemma_pack_bound(s.drop_last());
        lemma_pow2_unfold(s.len());
    }
}

/// The packed encoding is collision-free: two grids of the same length with
/// the same packed state hold the same cells, so a recurring key in the
/// visited-state table really is a recurring board state.
pub proof fn lemma_pack_injective(s1: Seq<CellState>, s2: Seq<CellState>)
    requires
        s1.len() == s2.len(),
        pack(s1) == pack(s2),
    ensures
        s1 == s2,
    decreases s1.len(),
{
    if s1.len() == 0 {
        assert(s1 =~= s2);
    } else {
        lemma_pack_bound(s1.drop_last());
        lemma_pack_bound(s2.drop_last());
        assert(cell_bit(s1.last()) == cell_bit(s2.last()));
        assert(s1.last() == s2.last());
        lemma_pack_injective(s1.drop_last(), s2.drop_last());
        assert(s1 =~= s1.drop_last().push(s1.last()));
        assert(s2 =~= s2.drop_last().push(s2.last()));
    }
}

/// Packing a one-cell extension adds that cell's bit at the next position.
proof fn lemma_pack_take_step(s: Seq<CellState>, k: int)
    requires
        0 <= k < s.len(),
    ensures
        pack(s.take(k + 1)) == pack(s.take(k)) + cell_bit(s[k]) * pow2(k as nat),
{
    assert(s.take(k + 1).drop_last() =~= s.take(k));
    assert(s.take(k + 1).last() == s[k]);
}

/// Stepping is deterministic and pure: the next generation and its packed
/// state depend on nothing but the grid contents and the extents.
pub proof fn lemma_step_deterministic(a: Board, b: Board)
    requires
        a.wf(),
        b.wf(),
        a.width == b.width,
        a.height == b.height,
        a.grid() == b.grid(),
    ensures
        step_seq(a.grid(), a.width as nat, a.height as nat) == step_seq(
            b.grid(),
            b.width as nat,
            b.height as nat,
        ),
        pack(step_seq(a.grid(), a.width as nat, a.height as nat)) == pack(
            step_seq(b.grid(), b.width as nat, b.height as nat),
        ),
{
}

/// Computes the next generation of `current` into `next`, fully overwriting
/// it, and returns the packed encoding of the new state.  `current` is left
/// unchanged.
pub fn next_gen(current: &mut Board, next: &mut Board) -> (state: u64)
    requires
        old(current).wf(),
        old(next).wf(),
        old(current).width == old(next).width,
        old(current).height == old(next).height,
    ensures
        *final(current) == *old(current),
        final(next).wf(),
        final(next).width == old(next).width,
        final(next).height == old(next).height,
        final(next).grid() == step_seq(
            old(current).grid(),
            old(current).width as nat,
            old(current).height as nat,
        ),
        state as nat == pack(
            step_seq(
                old(current).grid(),
                old(current).width as nat,
                old(current).height as nat,
            ),
        ),
{
    let width = current.width;
    let height = current.height;
    let n = width * height;
    let ghost ns = step_seq(current.grid(), width as nat, height as nat);

    let mut state: u64 = 0;
    let mut k: usize = 0;
    while k < n
        invariant
            current == old(current),
            current.wf(),
            next.wf(),
            width == current.width,
            height == current.height,
            next.width == old(next).width,
            next.height == old(next).height,
            n == width * height,
            n <= 64,
            k <= n,
            ns == step_seq(current.grid(), width as nat, height as nat),
            ns.len() == n,
            next.grid().len() == n,
            forall|i: int| 0 <= i < k ==> next.grid()[i] == ns[i],
            state as nat == pack(ns.take(k as int)),
        decreases n - k,
    {
        let row = k / width;
        let col = k % width;
        proof {
            lemma_multiply_divide_lt(k as int, width as int, height as int);
            lemma_fundamental_div_mod(k as int, width as int);
        }
        let cnt = current.alive_neighbor_count(row, col);
        let cur_cell = current.cells[k];
        let new_cell = CellState::from(cnt == 3 || (cnt == 2 && cur_cell.is_alive()));
        next.cells.set(k, new_cell);
        proof {
            assert((row as int) * (width as int) == (width as int) * (row as int))
                by (nonlinear_arith);
            assert(cell_index(width as nat, row as nat, col as nat) == k as nat);
            assert(next.grid()[k as int] == ns[k as int]);
            lemma_pack_take_step(ns, k as int);
            lemma_pack_bound(ns.take(k as int));
            lemma_pow2_strictly_increases(k as nat, 64);
            assert(pow2(64) == 0x10000000000000000) by {
                lemma2_to64();
            }
            lemma_u64_shl_is_mul(1u64, k as u64);
        }
        if new_cell.is_alive() {
            proof {
                let sh = k as u64;
                assert((state < (1u64 << sh)) ==> ((state | (1u64 << sh)) == state + (1u64
                    << sh))) by (bit_vector);
            }
            state = state | (1u64 << (k as u64));
        }
        k = k + 1;
    }
    proof {
        assert(ns.take(n as int) =~= ns);
        assert(next.grid() =~= ns);
    }
    state
}

} // verus!
