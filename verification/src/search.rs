//! The exhaustive search driver: every configuration of the board, tallied
//! by cycle length.

use vstd::prelude::*;

use std::collections::HashMap;

use crate::board::Board;
use crate::cycle::{
    conf_grid, cycle_len_of, cycle_pair_of, find_cycle, is_cycle_pair, lemma_cycle_pair_unique,
    lemma_u64_below_card, u64_below,
};
use vstd::set_lib::lemma_len_subset;
use vstd::arithmetic::power2::{lemma2_to64, lemma_pow2_strictly_increases, pow2};
use vstd::bits::lemma_u64_shl_is_mul;
use vstd::set::{axiom_set_insert_len, axiom_set_remove_len};

verus! {

broadcast use vstd::std_specs::hash::group_hash_axioms;

/// Sum of all counts in a frequency table.
pub open spec fn table_total(m: Map<usize, usize>) -> int
    decreases m.dom().len(),
    when m.dom().finite()
    via table_total_decreases
{
    if m.dom().len() == 0 {
        0
    } else {
        let k = m.dom().choose();
        m[k] + table_total(m.remove(k))
    }
}

#[via_fn]
proof fn table_total_decreases(m: Map<usize, usize>) {
    if m.dom().len() != 0 {
        lemma_nonempty_set_has_elem(m.dom());
        let k = m.dom().choose();
        axiom_set_remove_len(m.dom(), k);
    }
}

/// A finite set of positive cardinality contains something.
proof fn lemma_nonempty_set_has_elem<A>(s: Set<A>)
    requires
        s.finite(),
        s.len() != 0,
    ensures
        exists|x: A| s.contains(x),
{
    if !(exists|x: A| s.contains(x)) {
        assert(s =~= Set::<A>::empty());
        assert(Set::<A>::empty().len() == 0);
    }
}

/// Removing a present key takes exactly its count out of the total.
proof fn lemma_table_total_remove(m: Map<usize, usize>, k: usize)
    requires
        m.dom().finite(),
        m.dom().contains(k),
    ensures
        table_total(m) == m[k] + table_total(m.remove(k)),
    decreases m.dom().len(),
{
    axiom_set_remove_len(m.dom(), k);
    let k0 = m.dom().choose();
    if k0 == k {
    } else {
        lemma_table_total_remove(m.remove(k0), k);
        lemma_table_total_remove(m.remove(k), k0);
        assert(m.remove(k0).remove(k) =~= m.remove(k).remove(k0));
    }
}

/// Inserting a count changes the total by the difference with the count it
/// replaces.
proof fn lemma_table_total_insert(m: Map<usize, usize>, k: usize, v: usize)
    requires
        m.dom().finite(),
    ensures
        table_total(m.insert(k, v)) == table_total(m) + v - (if m.dom().contains(k) {
            m[k] as int
        } else {
            0
        }),
{
    let m2 = m.insert(k, v);
    lemma_table_total_remove(m2, k);
    if m.dom().contains(k) {
        lemma_table_total_remove(m, k);
        assert(m2.remove(k) =~= m.remove(k));
    } else {
        assert(m2.remove(k) =~= m);
    }
}

/// Whether `p` is the length of the cycle that some configuration of a
/// `width` by `height` board runs into.
pub open spec fn is_observed_cycle_length(p: usize, width: nat, height: nat) -> bool {
    exists|conf: u64, a: nat, b: nat|
        (conf as nat) < pow2(width * height) && is_cycle_pair(
            conf_grid(conf, width, height),
            width,
            height,
            a,
            b,
        ) && p as nat == b - a
}

/// The configurations below `bound` whose trajectory runs into a cycle of
/// length `p`.
pub open spec fn confs_of_len(p: usize, width: nat, height: nat, bound: nat) -> Set<u64> {
    Set::new(|conf: u64| (conf as nat) < bound && cycle_len_of(conf, width, height) == p)
}

/// The count a frequency table holds for `p`; zero when `p` is absent.
pub open spec fn count_of(freq: Map<usize, usize>, p: usize) -> nat {
    if freq.dom().contains(p) {
        freq[p] as nat
    } else {
        0
    }
}

/// Only finitely many configurations fit below a bound.
proof fn lemma_confs_of_len_finite(p: usize, width: nat, height: nat, bound: nat)
    requires
        bound <= 0x1_0000_0000_0000_0000,
    ensures
        confs_of_len(p, width, height, bound).finite(),
{
    lemma_u64_below_card(bound);
    assert(confs_of_len(p, width, height, bound).subset_of(u64_below(bound)));
    lemma_len_subset(confs_of_len(p, width, height, bound), u64_below(bound));
}

/// Whether the table records a cycle length for the trajectory of `conf`.
pub open spec fn records_conf(
    freq: Map<usize, usize>,
    conf: u64,
    width: nat,
    height: nat,
) -> bool {
    exists|a: nat, b: nat|
        is_cycle_pair(conf_grid(conf, width, height), width, height, a, b) && freq.dom().contains(
            ((b - a) as usize),
        )
}

/// Probes every configuration in `[0, pow2(width * height))`, including the
/// all-dead configuration `0`, and returns the frequency table mapping each
/// observed cycle length to the number of configurations that produced it.
///
/// The table's counts sum to exactly `pow2(width * height)`, and each entry
/// holds exactly the number of configurations whose trajectory runs into a
/// cycle of that length: every configuration is counted once, under its own
/// cycle length.  Every recorded cycle length is at least one, and no count
/// is zero.
pub fn find_cycles(width: usize, height: usize) -> (freq: HashMap<usize, usize>)
    requires
        1 <= width,
        1 <= height,
        width * height <= 64,
        pow2((width * height) as nat) <= usize::MAX,
    ensures
        freq@.dom().finite(),
        table_total(freq@) == pow2((width * height) as nat),
        forall|p: usize| freq@.dom().contains(p) ==> 1 <= p && 1 <= freq@[p],
        forall|p: usize|
            freq@.dom().contains(p) ==> is_observed_cycle_length(
                p,
                width as nat,
                height as nat,
            ),
        forall|conf: u64|
            (conf as nat) < pow2((width * height) as nat) ==> #[trigger] records_conf(
                freq@,
                conf,
                width as nat,
                height as nat,
            ),
        forall|p: usize|
            #[trigger] count_of(freq@, p) == confs_of_len(
                p,
                width as nat,
                height as nat,
                pow2((width * height) as nat),
            ).len(),
{
    let mut freq_table: HashMap<usize, usize> = HashMap::new();
    let mut board1 = Board::new(width, height);
    let mut board2 = Board::new(width, height);

    let cap = width * height;
    proof {
        assert(pow2(64) == 0x10000000000000000) by {
            lemma2_to64();
        }
        assert(cap < 64);
        lemma_pow2_strictly_increases(cap as nat, 64);
        lemma_u64_shl_is_mul(1u64, cap as u64);
    }
    let len: u64 = 1u64 << (cap as u64);

    proof {
        assert forall|p: usize| #[trigger] count_of(freq_table@, p) == confs_of_len(
            p,
            width as nat,
            height as nat,
            0,
        ).len() by {
            assert(confs_of_len(p, width as nat, height as nat, 0) =~= Set::<u64>::empty());
        };
    }

    let mut i: u64 = 0;
    while i < len
        invariant
            board1.wf(),
            board2.wf(),
            board1.width == width,
            board1.height == height,
            board2.width == width,
            board2.height == height,
            1 <= width,
            1 <= height,
            cap == width * height,
            len as nat == pow2(cap as nat),
            len <= usize::MAX,
            i <= len,
            freq_table@.dom().finite(),
            table_total(freq_table@) == i,
            forall|p: usize|
                freq_table@.dom().contains(p) ==> 1 <= p && 1 <= freq_table@[p] <= i,
            forall|p: usize|
                freq_table@.dom().contains(p) ==> is_observed_cycle_length(
                    p,
                    width as nat,
                    height as nat,
                ),
            forall|conf: u64|
                (conf as nat) < i ==> #[trigger] records_conf(
                    freq_table@,
                    conf,
                    width as nat,
                    height as nat,
                ),
            forall|p: usize|
                #[trigger] count_of(freq_table@, p) == confs_of_len(
                    p,
                    width as nat,
                    height as nat,
                    i as nat,
                ).len(),
        decreases len - i,
    {
        board1.replace_with_conf(i);
        proof {
            assert(board1.grid() =~= conf_grid(i, width as nat, height as nat));
        }
        let r = find_cycle(&mut board1, &mut board2);
        let period = r.1 - r.0;
        let ghost m0 = freq_table@;
        let prev: Option<usize> = match freq_table.get(&period) {
            Some(c) => Some(*c),
            None => None,
        };
        match prev {
            Some(c) => {
                freq_table.insert(period, c + 1);
                proof {
                    lemma_table_total_insert(m0, period, (c + 1) as usize);
                }
            },
            None => {
                freq_table.insert(period, 1);
                proof {
                    lemma_table_total_insert(m0, period, 1usize);
                }
            },
        }
        proof {
            let w = width as nat;
            let h = height as nat;
            assert(is_cycle_pair(conf_grid(i, w, h), w, h, r.0 as nat, r.1 as nat));
            assert((i as nat) < pow2(w * h) && is_cycle_pair(
                conf_grid(i, w, h),
                w,
                h,
                r.0 as nat,
                r.1 as nat,
            ) && period as nat == r.1 as nat - r.0 as nat);
            assert(is_observed_cycle_length(period, w, h));
            assert(freq_table@.dom().contains(period));
            assert(records_conf(freq_table@, i, w, h));
            assert forall|conf: u64| (conf as nat) < i + 1 implies #[trigger] records_conf(
                freq_table@,
                conf,
                w,
                h,
            ) by {
                if (conf as nat) < i as nat {
                    assert(records_conf(m0, conf, w, h));
                    let (a, b) = choose|a: nat, b: nat|
                        is_cycle_pair(conf_grid(conf, w, h), w, h, a, b) && m0.dom().contains(
                            ((b - a) as usize),
                        );
                    assert(freq_table@.dom().contains(((b - a) as usize)));
                    assert(is_cycle_pair(conf_grid(conf, w, h), w, h, a, b)
                        && freq_table@.dom().contains(((b - a) as usize)));
                }
            };
            let pr = cycle_pair_of(conf_grid(i, w, h), w, h);
            let witness = (r.0 as nat, r.1 as nat);
            assert(is_cycle_pair(conf_grid(i, w, h), w, h, witness.0, witness.1));
            assert(is_cycle_pair(conf_grid(i, w, h), w, h, pr.0, pr.1));
            lemma_cycle_pair_unique(conf_grid(i, w, h), w, h, pr.0, pr.1, r.0 as nat, r.1 as nat);
            assert(cycle_len_of(i, w, h) == period as nat);
            assert forall|p: usize| #[trigger] count_of(freq_table@, p) == confs_of_len(
                p,
                w,
                h,
                (i + 1) as nat,
            ).len() by {
                lemma_confs_of_len_finite(p, w, h, i as nat);
                if p == period {
                    assert(confs_of_len(p, w, h, (i + 1) as nat) =~= confs_of_len(
                        p,
                        w,
                        h,
                        i as nat,
                    ).insert(i));
                    axiom_set_insert_len(confs_of_len(p, w, h, i as nat), i);
                    assert(count_of(freq_table@, p) == count_of(m0, p) + 1);
                } else {
                    assert(confs_of_len(p, w, h, (i + 1) as nat) =~= confs_of_len(
                        p,
                        w,
                        h,
                        i as nat,
                    ));
                    assert(count_of(freq_table@, p) == count_of(m0, p));
                }
            };
        }
        i = i + 1;
    }
    freq_table
}

} // verus!
