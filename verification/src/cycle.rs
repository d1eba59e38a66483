//! The cycle detector: repeated stepping over a pair of alternating boards
//! until a packed state recurs.

use vstd::prelude::*;

use std::collections::HashMap;

use crate::board::{conf_bit, lemma_cell_index_bound, wrap_dec, wrap_inc, Board};
use crate::cell::{cell_bit, CellState};
use crate::step::{lemma_pack_bound, next_gen, pack, step_seq};
use vstd::arithmetic::power2::{lemma2_to64, lemma_pow2_strictly_increases, pow2};
use vstd::bits::lemma_u64_shl_is_mul;
use vstd::set::{axiom_set_insert_len, axiom_set_remove_len};
use vstd::set_lib::lemma_len_subset;

verus! {

broadcast use vstd::std_specs::hash::group_hash_axioms;

/// The grid after `k` generations.
pub open spec fn iterate(s: Seq<CellState>, width: nat, height: nat, k: nat) -> Seq<CellState>
    decreases k,
{
    if k == 0 {
        s
    } else {
        step_seq(iterate(s, width, height, (k - 1) as nat), width, height)
    }
}

/// The packed state after `k` generations: the trajectory whose first
/// repetition the detector reports.
pub open spec fn packed_after(s: Seq<CellState>, width: nat, height: nat, k: nat) -> nat {
    pack(iterate(s, width, height, k))
}

/// The packed state after `k` generations, truncated to the machine word
/// used as key of the visited-state table.
spec fn packed_key(s: Seq<CellState>, width: nat, height: nat, k: nat) -> u64 {
    packed_after(s, width, height, k) as u64
}

/// The grid a packed configuration loads: cell `i` is alive exactly when
/// bit `i` of `conf` is set.
pub open spec fn conf_grid(conf: u64, width: nat, height: nat) -> Seq<CellState> {
    Seq::new(
        width * height,
        |i: int|
            if conf_bit(conf, i as u64) {
                CellState::Alive
            } else {
                CellState::Dead
            },
    )
}

/// A grid whose cells spell out the bits of `conf` packs back to `conf`.
proof fn lemma_pack_bits(s: Seq<CellState>, conf: u64, n: nat)
    requires
        s.len() == n,
        n <= 64,
        (conf as nat) < pow2(n),
        forall|i: int| 0 <= i < n ==> ((s[i] is Alive) <==> conf_bit(conf, i as u64)),
    ensures
        pack(s) == conf as nat,
    decreases n,
{
    if n == 0 {
        assert(pow2(0) == 1) by {
            lemma2_to64();
        }
    } else {
        let m = (n - 1) as u64;
        let rest = conf & !(1u64 << m);
        let top = (conf >> m) & 1u64;
        assert(pow2(64) == 0x10000000000000000) by {
            lemma2_to64();
        }
        lemma_pow2_strictly_increases((n - 1) as nat, 64);
        lemma_u64_shl_is_mul(1u64, m);
        if n < 64 {
            lemma_pow2_strictly_increases(n, 64);
            lemma_u64_shl_is_mul(1u64, n as u64);
        }
        assert(rest < (1u64 << m)) by (bit_vector)
            requires
                m < 64,
                m == 63 || conf < (1u64 << (m + 1)),
                rest == conf & !(1u64 << m),
        ;
        assert(forall|i: u64|
            i < m ==> ((#[trigger] ((conf & !(1u64 << m)) >> i)) & 1u64) == ((conf >> i)
                & 1u64)) by (bit_vector)
            requires
                m < 64,
        ;
        assert((top == 0 || top == 1) && (top == 1 ==> conf == rest + (1u64 << m)) && (top == 0
            ==> conf == rest)) by (bit_vector)
            requires
                m < 64,
                m == 63 || conf < (1u64 << (m + 1)),
                rest == conf & !(1u64 << m),
                top == (conf >> m) & 1u64,
        ;
        lemma_pack_bits(s.drop_last(), rest, (n - 1) as nat);
        assert(cell_bit(s.last()) == (if top == 1 {
            1nat
        } else {
            0nat
        }));
        assert(pack(s) == pack(s.drop_last()) + cell_bit(s.last()) * pow2((n - 1) as nat));
        assert((1u64 << m) as nat == pow2((n - 1) as nat));
        assert(conf as nat == rest as nat + (if top == 1 {
            pow2((n - 1) as nat)
        } else {
            0nat
        }));
    }
}

/// Loading a packed configuration and re-packing the loaded grid
/// round-trips.  Together with the injectivity of `pack`, the packed
/// encoding is a bijection between the grids of a board and the
/// configurations below `pow2(width * height)`.
pub proof fn lemma_pack_conf_grid(conf: u64, width: nat, height: nat)
    requires
        width * height <= 64,
        (conf as nat) < pow2(width * height),
    ensures
        pack(conf_grid(conf, width, height)) == conf as nat,
{
    lemma_pack_bits(conf_grid(conf, width, height), conf, width * height);
}

/// What the cycle detector reports of a trajectory: the states reached after
/// `1 ..= end` generations are pairwise distinct, and the state after
/// `end + 1` generations repeats the one after `start + 1`.
pub open spec fn is_cycle_pair(
    s: Seq<CellState>,
    width: nat,
    height: nat,
    start: nat,
    end: nat,
) -> bool {
    &&& start < end
    &&& packed_after(s, width, height, end + 1) == packed_after(s, width, height, start + 1)
    &&& forall|t1: nat, t2: nat|
        1 <= t1 < t2 <= end ==> packed_after(s, width, height, t1) != packed_after(
            s,
            width,
            height,
            t2,
        )
}

/// The cycle pair of a trajectory, as a single value: well defined because
/// at most one pair satisfies `is_cycle_pair` for a given trajectory
/// (`lemma_cycle_pair_unique`), and `find_cycle` shows that one exists.
pub open spec fn cycle_pair_of(s: Seq<CellState>, width: nat, height: nat) -> (nat, nat) {
    choose|pr: (nat, nat)| is_cycle_pair(s, width, height, pr.0, pr.1)
}

/// The cycle length of the trajectory that the configuration `conf` starts.
pub open spec fn cycle_len_of(conf: u64, width: nat, height: nat) -> nat {
    let pr = cycle_pair_of(conf_grid(conf, width, height), width, height);
    (pr.1 - pr.0) as nat
}

/// A trajectory has exactly one cycle pair, so the detector's answer is
/// fully determined by the initial grid: any two pairs that satisfy
/// `is_cycle_pair` for the same trajectory coincide.
pub proof fn lemma_cycle_pair_unique(
    s: Seq<CellState>,
    width: nat,
    height: nat,
    a1: nat,
    b1: nat,
    a2: nat,
    b2: nat,
)
    requires
        is_cycle_pair(s, width, height, a1, b1),
        is_cycle_pair(s, width, height, a2, b2),
    ensures
        a1 == a2,
        b1 == b2,
{
    if b1 < b2 {
        assert(packed_after(s, width, height, a1 + 1) != packed_after(s, width, height, b1 + 1));
        assert(false);
    }
    if b2 < b1 {
        assert(packed_after(s, width, height, a2 + 1) != packed_after(s, width, height, b2 + 1));
        assert(false);
    }
    if a1 != a2 {
        assert(packed_after(s, width, height, a1 + 1) != packed_after(s, width, height, a2 + 1));
        assert(false);
    }
}

/// Stepping preserves the grid's length.
pub proof fn lemma_iterate_len(s: Seq<CellState>, width: nat, height: nat, k: nat)
    requires
        s.len() == width * height,
    ensures
        iterate(s, width, height, k).len() == width * height,
    decreases k,
{
    if k > 0 {
        lemma_iterate_len(s, width, height, (k - 1) as nat);
    }
}

/// All `u64` values below `bound`.
pub(crate) open spec fn u64_below(bound: nat) -> Set<u64> {
    Set::new(|k: u64| (k as nat) < bound)
}

/// There are exactly `bound` machine words below `bound`.
pub(crate) proof fn lemma_u64_below_card(bound: nat)
    requires
        bound <= 0x1_0000_0000_0000_0000,
    ensures
        u64_below(bound).finite(),
        u64_below(bound).len() == bound,
    decreases bound,
{
    if bound == 0 {
        assert(u64_below(0) =~= Set::<u64>::empty());
    } else {
        let prev = (bound - 1) as nat;
        lemma_u64_below_card(prev);
        assert(u64_below(bound) =~= u64_below(prev).insert(prev as u64));
        axiom_set_insert_len(u64_below(prev), prev as u64);
    }
}

/// Runs the stepper over the alternating pair of boards until a packed state
/// recurs, and returns `(start, end)`: the frame at which the recurring state
/// was first produced and the frame at which it recurred.  The caller reads
/// the cycle length as `end - start`.
///
/// `buffer1` holds the configuration to probe; both boards are scratch space
/// afterwards.  Frame `f` in the visited-state table names the state reached
/// after `f + 1` generations, so a configuration that maps straight to itself
/// (a fixed point) is reported as `(0, 1)`: cycle length one by this
/// library's convention.
///
/// The contract pins the result to the trajectory of the initial grid: the
/// states after `1 ..= end` generations are pairwise distinct, the state
/// after `end + 1` generations equals the one after `start + 1`, and the
/// detector needs at most `pow2(width * height)` steps to find it.
pub fn find_cycle(buffer1: &mut Board, buffer2: &mut Board) -> (r: (usize, usize))
    requires
        old(buffer1).wf(),
        old(buffer2).wf(),
        old(buffer1).width == old(buffer2).width,
        old(buffer1).height == old(buffer2).height,
        pow2((old(buffer1).width * old(buffer1).height) as nat) <= usize::MAX,
    ensures
        final(buffer1).wf(),
        final(buffer2).wf(),
        final(buffer1).width == old(buffer1).width,
        final(buffer1).height == old(buffer1).height,
        final(buffer2).width == old(buffer2).width,
        final(buffer2).height == old(buffer2).height,
        r.0 < r.1,
        r.1 <= pow2((old(buffer1).width * old(buffer1).height) as nat),
        packed_after(
            old(buffer1).grid(),
            old(buffer1).width as nat,
            old(buffer1).height as nat,
            (r.1 + 1) as nat,
        ) == packed_after(
            old(buffer1).grid(),
            old(buffer1).width as nat,
            old(buffer1).height as nat,
            (r.0 + 1) as nat,
        ),
        forall|t1: nat, t2: nat|
            1 <= t1 < t2 <= r.1 ==> packed_after(
                old(buffer1).grid(),
                old(buffer1).width as nat,
                old(buffer1).height as nat,
                t1,
            ) != packed_after(
                old(buffer1).grid(),
                old(buffer1).width as nat,
                old(buffer1).height as nat,
                t2,
            ),
        final(buffer1).grid() == iterate(
            old(buffer1).grid(),
            old(buffer1).width as nat,
            old(buffer1).height as nat,
            (r.1 + 1) as nat,
        ) || final(buffer2).grid() == iterate(
            old(buffer1).grid(),
            old(buffer1).width as nat,
            old(buffer1).height as nat,
            (r.1 + 1) as nat,
        ),
        is_cycle_pair(
            old(buffer1).grid(),
            old(buffer1).width as nat,
            old(buffer1).height as nat,
            r.0 as nat,
            r.1 as nat,
        ),
{
    let ghost init = buffer1.grid();
    let ghost w = buffer1.width as nat;
    let ghost h = buffer1.height as nat;
    let ghost cap = w * h;
    let ghost total = pow2(cap);

    let mut turn: bool = true;
    let mut frame: usize = 0;
    let mut state_dict: HashMap<u64, u64> = HashMap::new();

    loop
        invariant
            buffer1.wf(),
            buffer2.wf(),
            buffer1.width == old(buffer1).width,
            buffer1.height == old(buffer1).height,
            buffer2.width == old(buffer2).width,
            buffer2.height == old(buffer2).height,
            buffer1.width == buffer2.width,
            buffer1.height == buffer2.height,
            w == buffer1.width as nat,
            h == buffer1.height as nat,
            cap == w * h,
            total == pow2(cap),
            total <= usize::MAX,
            init == old(buffer1).grid(),
            init.len() == cap,
            (if turn {
                buffer1.grid()
            } else {
                buffer2.grid()
            }) == iterate(init, w, h, frame as nat),
            frame <= total,
            state_dict@.dom().finite(),
            state_dict@.dom().len() == frame,
            forall|t: nat|
                1 <= t <= frame ==> state_dict@.contains_key(#[trigger] packed_key(init, w, h, t))
                    && state_dict@[packed_key(init, w, h, t)] == (t - 1) as u64,
            forall|ky: u64|
                #[trigger] state_dict@.contains_key(ky) ==> exists|t: nat|
                    1 <= t <= frame && ky == packed_key(init, w, h, t),
            forall|t1: nat, t2: nat|
                1 <= t1 < t2 <= frame ==> packed_after(init, w, h, t1) != packed_after(
                    init,
                    w,
                    h,
                    t2,
                ),
        decreases total - frame,
    {
        let s: u64 = if turn {
            next_gen(buffer1, buffer2)
        } else {
            next_gen(buffer2, buffer1)
        };
        proof {
            assert(iterate(init, w, h, (frame + 1) as nat) == step_seq(
                iterate(init, w, h, frame as nat),
                w,
                h,
            ));
            lemma_iterate_len(init, w, h, (frame + 1) as nat);
            lemma_pack_bound(iterate(init, w, h, (frame + 1) as nat));
            assert(s as nat == packed_after(init, w, h, (frame + 1) as nat));
            assert(s == packed_key(init, w, h, (frame + 1) as nat));
        }
        let prev: Option<u64> = match state_dict.get(&s) {
            Some(f0) => Some(*f0),
            None => None,
        };
        match prev {
            Some(f0) => {
                proof {
                    let t = choose|t: nat| 1 <= t <= frame && s == packed_key(init, w, h, t);
                    lemma_iterate_len(init, w, h, t);
                    lemma_pack_bound(iterate(init, w, h, t));
                    assert(packed_after(init, w, h, t) == s as nat);
                    assert(f0 == (t - 1) as u64);
                    assert(f0 as usize == t - 1);
                }
                return (f0 as usize, frame);
            },
            None => {
                proof {
                    lemma_u64_below_card(total);
                    assert forall|ky: u64| state_dict@.dom().contains(ky) implies u64_below(
                        total,
                    ).remove(s).contains(ky) by {
                        let t = choose|t: nat| 1 <= t <= frame && ky == packed_key(init, w, h, t);
                        lemma_iterate_len(init, w, h, t);
                        lemma_pack_bound(iterate(init, w, h, t));
                    };
                    assert(state_dict@.dom().subset_of(u64_below(total).remove(s)));
                    lemma_len_subset(state_dict@.dom(), u64_below(total).remove(s));
                    axiom_set_remove_len(u64_below(total), s);
                    assert(frame < total);
                }
                let ghost m0 = state_dict@;
                state_dict.insert(s, frame as u64);
                proof {
                    axiom_set_insert_len(m0.dom(), s);
                    assert forall|t: nat| 1 <= t <= frame + 1 implies state_dict@.contains_key(
                        #[trigger] packed_key(init, w, h, t),
                    ) && state_dict@[packed_key(init, w, h, t)] == (t - 1) as u64 by {
                        if t <= frame {
                            assert(m0.contains_key(packed_key(init, w, h, t)));
                        }
                    };
                    assert forall|ky: u64| #[trigger]
                        state_dict@.contains_key(ky) implies exists|t: nat|
                        1 <= t <= frame + 1 && ky == packed_key(init, w, h, t) by {
                        if m0.contains_key(ky) {
                            let t0 = choose|t: nat|
                                1 <= t <= frame && ky == packed_key(init, w, h, t);
                            assert(1 <= t0 <= frame + 1 && ky == packed_key(init, w, h, t0));
                        } else {
                            let t1 = (frame + 1) as nat;
                            assert(1 <= t1 <= frame + 1 && ky == packed_key(init, w, h, t1));
                        }
                    };
                    assert forall|t1: nat, t2: nat| 1 <= t1 < t2 <= frame + 1 implies packed_after(
                        init,
                        w,
                        h,
                        t1,
                    ) != packed_after(init, w, h, t2) by {
                        if t2 == frame + 1 {
                            assert(m0.contains_key(packed_key(init, w, h, t1)));
                        }
                    };
                }
                turn = !turn;
                frame = frame + 1;
            },
        }
    }
}

/// Iterating a fixed point changes nothing.
pub proof fn lemma_iterate_fixed_point(s: Seq<CellState>, width: nat, height: nat, k: nat)
    requires
        step_seq(s, width, height) == s,
    ensures
        iterate(s, width, height, k) == s,
    decreases k,
{
    if k > 0 {
        lemma_iterate_fixed_point(s, width, height, (k - 1) as nat);
    }
}

/// A configuration that maps straight to itself is reported with cycle start
/// 0 and end 1 — cycle length one, the convention this library uses for an
/// immediately self-repeating state.  The hypotheses are exactly what
/// `find_cycle` ensures of its result.
pub proof fn lemma_fixed_point_cycle(
    init: Seq<CellState>,
    width: nat,
    height: nat,
    start: usize,
    end: usize,
)
    requires
        step_seq(init, width, height) == init,
        start < end,
        forall|t1: nat, t2: nat|
            1 <= t1 < t2 <= end ==> packed_after(init, width, height, t1) != packed_after(
                init,
                width,
                height,
                t2,
            ),
    ensures
        start == 0,
        end == 1,
{
    if end >= 2 {
        lemma_iterate_fixed_point(init, width, height, 1);
        lemma_iterate_fixed_point(init, width, height, 2);
        assert(packed_after(init, width, height, 1) == packed_after(init, width, height, 2));
        assert(false);
    }
}

/// The all-dead grid is a fixed point of the transition rule: every neighbor
/// count is zero, so no cell is born.
pub proof fn lemma_all_dead_fixed_point(s: Seq<CellState>, width: nat, height: nat)
    requires
        1 <= width,
        1 <= height,
        s.len() == width * height,
        forall|i: int| 0 <= i < s.len() ==> s[i] is Dead,
    ensures
        step_seq(s, width, height) == s,
{
    assert forall|i: int| 0 <= i < s.len() implies step_seq(s, width, height)[i] == s[i] by {
        let r = (i / width as int) as nat;
        let c = (i % width as int) as nat;
        vstd::arithmetic::div_mod::lemma_multiply_divide_lt(i, width as int, height as int);
        lemma_cell_index_bound(
            width,
            height,
            wrap_dec(r, height),
            wrap_dec(c, width),
        );
        lemma_cell_index_bound(width, height, wrap_dec(r, height), c);
        lemma_cell_index_bound(
            width,
            height,
            wrap_dec(r, height),
            wrap_inc(c, width),
        );
        lemma_cell_index_bound(width, height, r, wrap_dec(c, width));
        lemma_cell_index_bound(width, height, r, wrap_inc(c, width));
        lemma_cell_index_bound(
            width,
            height,
            wrap_inc(r, height),
            wrap_dec(c, width),
        );
        lemma_cell_index_bound(width, height, wrap_inc(r, height), c);
        lemma_cell_index_bound(
            width,
            height,
            wrap_inc(r, height),
            wrap_inc(c, width),
        );
    };
    assert(step_seq(s, width, height) =~= s);
}

} // verus!
