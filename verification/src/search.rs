//! Search-based solvers: the first question by breadth-first search from
//! both ends, the second by trying every parity-matching seed selection
//! and solving what is left.
use std::collections::HashMap;
use std::collections::VecDeque;
use vstd::prelude::*;
use crate::bits::{
    bit, fits, lemma_bit_narrow, lemma_fits_lt, lemma_xor_algebra, lemma_xor_twice, popcount, test_bit,
    weight,
};
use crate::coset::{combo, lemma_combo_span, lemma_span_index, seeded_combo};
use crate::counts::{
    all_zero, doubled, feasible, half_part, hits, is_count_answer, is_parity, lemma_compose,
    lemma_decompose, lemma_least_total_bound, lemma_parity_needed, lemma_within_total_mono,
    lemma_zero_counts, residual, solvable_counts, total, within_total,
};
use crate::gf2::{lemma_coset_member, solution_space, solve_gf2};
use crate::solver::{apply_candidate, is_all_zero, parity_pattern, Memo};
use crate::bits::lemma_bit_single;
use crate::notation::{
    first_other, is_pattern, lemma_first_other, mask_fold, narrowed, number_list, pattern_fold, piece_bounds,
    piece_text, prepend, read_pattern, shown,
};
use crate::text::{
    decimal_text, find_byte, message_with_number, next_at, parse_unsigned, reads_unsigned, trim_hi, trim_lo,
    trim_range,
};
use vstd::string::StringSliceAdditionalSpecFns;
use crate::best_first::min_steps_part2;
use crate::counts::is_least_total;
use crate::toggle::{answers_sum, well_formed};
use vstd::string::StringExecFns;
use crate::layers::{
    at_depth, covers, expanded, growing, is_layer, lemma_apart, lemma_empty_layer, lemma_growing_sound,
    lemma_growing_start, lemma_layer_done, lemma_layer_mark, lemma_layer_skip, lemma_layer_start,
    lemma_meet, near, sound,
};
use crate::toggle::{
    is_answer, is_least_weight, lemma_least_bound, lemma_least_weight_unique, lemma_reach_bound,
    lemma_within_mono, lemma_within_zero, reaches, solvable, within,
};

verus! {

broadcast use vstd::std_specs::hash::group_hash_axioms;

/// Every recorded distance is the depth of its state.
pub open spec fn valued(steps: Seq<u32>, o: u32, dist: Map<u32, u64>) -> bool {
    forall|s: u32| #[trigger] dist.dom().contains(s) ==> at_depth(steps, o, s, dist[s] as int)
}

/// One side of the search at depth `d`: the states met are exactly those
/// within `d` steps of the origin, each with its depth, and the queue holds
/// the states at depth `d`.
pub open spec fn side_ok(steps: Seq<u32>, o: u32, dist: Map<u32, u64>, queue: Seq<u32>, d: int) -> bool {
    &&& sound(steps, o, dist.dom(), d)
    &&& covers(steps, o, dist.dom(), d)
    &&& is_layer(steps, o, queue, d)
    &&& valued(steps, o, dist)
}

/// The two sides have met no state in common.
pub open spec fn apart(one: Set<u32>, two: Set<u32>) -> bool {
    forall|s: u32| !(#[trigger] one.contains(s) && two.contains(s))
}

/// The distances `after` are the distances `before` and, for states that
/// `before` does not hold, the distance `d`.
pub open spec fn grown_by(before: Map<u32, u64>, after: Map<u32, u64>, d: int) -> bool {
    &&& forall|s: u32| #[trigger] before.dom().contains(s) ==> after.dom().contains(s) && after[s] == before[s]
    &&& forall|s: u32| #[trigger] after.dom().contains(s) && !before.dom().contains(s) ==> after[s] == d
}

/// Expands one whole layer of one side of the search. Returns the length
/// of a shortest connection as soon as a new state is found that the other
/// side has met: the depth of that state on this side and its distance on
/// the other. Otherwise the side stands one layer deeper. Either way the
/// distances of this side are kept, the new states stand at the next
/// depth, and none of them is a state of the other side.
pub fn expand_bfs_layer(
    queue: &mut VecDeque<u32>,
    dist_this: &mut HashMap<u32, u64>,
    dist_other: &HashMap<u32, u64>,
    step_masks: &[u32],
    Ghost(o1): Ghost<u32>,
    Ghost(o2): Ghost<u32>,
    Ghost(a): Ghost<int>,
    Ghost(b): Ghost<int>,
) -> (res: Option<u64>)
    requires
        step_masks.len() <= 64,
        0 <= a,
        0 <= b,
        side_ok(step_masks@, o1, old(dist_this)@, old(queue)@, a),
        sound(step_masks@, o2, dist_other@.dom(), b),
        covers(step_masks@, o2, dist_other@.dom(), b),
        valued(step_masks@, o2, dist_other@),
        apart(old(dist_this)@.dom(), dist_other@.dom()),
    ensures
        match res {
            Some(r) => is_least_weight(step_masks@, o1 ^ o2, r as int) && r <= a + b + 1 && exists|s: u32|
                #[trigger] dist_other@.dom().contains(s) && at_depth(step_masks@, o1, s, a + 1) && r == a + 1
                    + dist_other@[s],
            None => side_ok(step_masks@, o1, final(dist_this)@, final(queue)@, a + 1),
        },
        grown_by(old(dist_this)@, final(dist_this)@, a + 1),
        valued(step_masks@, o1, final(dist_this)@),
        apart(final(dist_this)@.dom(), dist_other@.dom()),
{
    let ghost steps = step_masks@;
    let ghost start = dist_this@;
    let ghost frontier = queue@;
    let ghost mut next: Seq<u32> = Seq::empty();
    let layer_size: usize = queue.len();
    let m: usize = step_masks.len();
    proof {
        lemma_growing_start(steps, o1, dist_this@.dom(), a);
        assert(queue@ =~= frontier.subrange(0, frontier.len() as int) + next);
    }
    let mut fi: usize = 0;
    while fi < layer_size
        invariant
            fi <= layer_size,
            layer_size == frontier.len(),
            m == step_masks.len(),
            m <= 64,
            steps == step_masks@,
            0 <= a,
            0 <= b,
            queue@ == frontier.subrange(fi as int, frontier.len() as int) + next,
            covers(steps, o1, dist_this@.dom(), a),
            is_layer(steps, o1, frontier, a),
            growing(steps, o1, dist_this@.dom(), next, a),
            expanded(steps, dist_this@.dom(), frontier, fi as int, 0),
            valued(steps, o1, dist_this@),
            sound(steps, o2, dist_other@.dom(), b),
            covers(steps, o2, dist_other@.dom(), b),
            valued(steps, o2, dist_other@),
            apart(dist_this@.dom(), dist_other@.dom()),
            grown_by(start, dist_this@, a + 1),
            start == old(dist_this)@,
        decreases layer_size - fi,
    {
        let state: u32 = queue.pop_front().unwrap();
        let base: u64 = match dist_this.get(&state) {
            Some(v) => *v,
            None => 0,
        };
        proof {
            assert(state == frontier[fi as int]);
            assert(at_depth(steps, o1, frontier[fi as int], a));
            assert(near(steps, o1, state, a));
            assert(dist_this@.dom().contains(state));
            assert(at_depth(steps, o1, state, dist_this@[state] as int));
            lemma_least_weight_unique(steps, state ^ o1, a, base as int);
            lemma_least_bound(steps, state ^ o1, a);
            assert(queue@ =~= frontier.subrange(fi as int + 1, frontier.len() as int) + next);
        }
        let mut si: usize = 0;
        while si < m
            invariant
                fi < layer_size,
                si <= m,
                layer_size == frontier.len(),
                m == step_masks.len(),
                m <= 64,
                steps == step_masks@,
                0 <= a <= 64,
                0 <= b,
                base == a,
                state == frontier[fi as int],
                queue@ == frontier.subrange(fi as int + 1, frontier.len() as int) + next,
                covers(steps, o1, dist_this@.dom(), a),
                is_layer(steps, o1, frontier, a),
                growing(steps, o1, dist_this@.dom(), next, a),
                expanded(steps, dist_this@.dom(), frontier, fi as int, si as int),
                valued(steps, o1, dist_this@),
                sound(steps, o2, dist_other@.dom(), b),
                covers(steps, o2, dist_other@.dom(), b),
                valued(steps, o2, dist_other@),
                apart(dist_this@.dom(), dist_other@.dom()),
                grown_by(start, dist_this@, a + 1),
            start == old(dist_this)@,
            decreases m - si,
        {
            let mask: u32 = step_masks[si];
            let t: u32 = state ^ mask;
            if dist_this.contains_key(&t) {
                proof {
                    lemma_layer_skip(steps, dist_this@.dom(), frontier, fi as int, si as int);
                }
            } else {
                let next_dist: u64 = base + 1;
                proof {
                    lemma_layer_mark(steps, o1, dist_this@.dom(), frontier, next, a, fi as int, si as int);
                }
                match dist_other.get(&t) {
                    Some(od) => {
                        proof {
                            let k = *od as int;
                            assert(dist_other@.dom().contains(t));
                            assert(at_depth(steps, o2, t, k));
                            lemma_least_bound(steps, t ^ o2, k);
                            lemma_meet(steps, o1, o2, t, a + 1, k);
                            lemma_apart(steps, o1, o2, dist_this@.dom(), dist_other@.dom(), a, b);
                            assert(near(steps, o2, t, b));
                            if b < k {
                                lemma_within_mono(steps, t ^ o2, b, k - 1);
                            }
                            if within(steps, o1 ^ o2, a + k) {
                                lemma_within_mono(steps, o1 ^ o2, a + k, a + b);
                            }
                            assert(k <= b) by {
                                if b < k {
                                    lemma_within_mono(steps, t ^ o2, b, k - 1);
                                }
                            }
                            assert(at_depth(steps, o1, t, a + 1));
                            assert(dist_other@.dom().contains(t) && at_depth(steps, o1, t, a + 1) && next_dist + *od
                                == a + 1 + dist_other@[t]);
                        }
                        return Some(next_dist + *od);
                    },
                    None => {},
                }
                let ghost before = dist_this@;
                dist_this.insert(t, next_dist);
                queue.push_back(t);
                proof {
                    next = next.push(t);
                    assert(dist_this@.dom() =~= before.dom().insert(t));
                    assert(queue@ =~= frontier.subrange(fi as int + 1, frontier.len() as int) + next);
                    assert forall|s: u32| #[trigger] dist_this@.dom().contains(s) implies at_depth(
                        steps,
                        o1,
                        s,
                        dist_this@[s] as int,
                    ) by {
                        if s != t {
                            assert(before.dom().contains(s));
                        }
                    }
                    assert forall|s: u32| !(#[trigger] dist_this@.dom().contains(s) && dist_other@.dom().contains(
                        s,
                    )) by {
                        if s != t {
                            assert(!(before.dom().contains(s) && dist_other@.dom().contains(s)));
                        }
                    }
                    assert(grown_by(start, dist_this@, a + 1)) by {
                        assert forall|s: u32| #[trigger] start.dom().contains(s) implies dist_this@.dom().contains(s)
                            && dist_this@[s] == start[s] by {
                            assert(before.dom().contains(s) && before[s] == start[s]);
                        }
                        assert forall|s: u32| #[trigger]
                            dist_this@.dom().contains(s) && !start.dom().contains(s) implies dist_this@[s] == a + 1 by {
                            if s != t {
                                assert(before.dom().contains(s));
                            }
                        }
                    }
                }
            }
            si = si + 1;
        }
        fi = fi + 1;
    }
    proof {
        lemma_growing_sound(steps, o1, dist_this@.dom(), next, a);
        lemma_layer_done(steps, o1, dist_this@.dom(), frontier, next, a);
        assert(queue@ =~= next);
    }
    None
}

/// Answers the first question by breadth-first search from the all-off
/// state and from the target at once, always expanding the side with the
/// shorter queue, until the two sides meet.
pub fn min_steps(end_mask: u32, step_masks: &[u32], positions: usize) -> (res: Option<u64>)
    requires
        step_masks.len() <= 64,
    ensures
        is_answer(step_masks@, end_mask, res),
{
    let ghost steps = step_masks@;
    let m: usize = step_masks.len();
    proof {
        lemma_within_zero(steps, end_mask);
    }
    if end_mask == 0 {
        return Some(0);
    }
    let mut dist_forward: HashMap<u32, u64> = HashMap::new();
    let mut dist_backward: HashMap<u32, u64> = HashMap::new();
    let mut queue_forward: VecDeque<u32> = VecDeque::new();
    let mut queue_backward: VecDeque<u32> = VecDeque::new();
    dist_forward.insert(0u32, 0u64);
    dist_backward.insert(end_mask, 0u64);
    queue_forward.push_back(0u32);
    queue_backward.push_back(end_mask);
    let ghost mut a: int = 0;
    let ghost mut b: int = 0;
    let mut rounds: usize = 0;
    proof {
        lemma_layer_start(steps, 0u32);
        lemma_layer_start(steps, end_mask);
        assert(dist_forward@.dom() =~= set![0u32]);
        assert(dist_backward@.dom() =~= set![end_mask]);
        assert(queue_forward@ =~= seq![0u32]);
        assert(queue_backward@ =~= seq![end_mask]);
        assert(seq![0u32][0] == 0u32);
        assert(seq![end_mask][0] == end_mask);
        assert(at_depth(steps, 0u32, seq![0u32][0], 0));
        assert(at_depth(steps, end_mask, seq![end_mask][0], 0));
    }
    while rounds <= m && queue_forward.len() > 0 && queue_backward.len() > 0
        invariant
            m == step_masks.len(),
            m <= 64,
            steps == step_masks@,
            0 <= a,
            0 <= b,
            a + b == rounds,
            rounds <= m + 1,
            side_ok(steps, 0u32, dist_forward@, queue_forward@, a),
            side_ok(steps, end_mask, dist_backward@, queue_backward@, b),
            apart(dist_forward@.dom(), dist_backward@.dom()),
        decreases m + 1 - rounds,
    {
        if queue_forward.len() <= queue_backward.len() {
            let found = expand_bfs_layer(
                &mut queue_forward,
                &mut dist_forward,
                &dist_backward,
                step_masks,
                Ghost(0u32),
                Ghost(end_mask),
                Ghost(a),
                Ghost(b),
            );
            proof {
                lemma_xor_twice(end_mask, 0u32);
            }
            if let Some(result) = found {
                return Some(result);
            }
            proof {
                a = a + 1;
            }
        } else {
            let found = expand_bfs_layer(
                &mut queue_backward,
                &mut dist_backward,
                &dist_forward,
                step_masks,
                Ghost(end_mask),
                Ghost(0u32),
                Ghost(b),
                Ghost(a),
            );
            proof {
                lemma_xor_twice(end_mask, 0u32);
            }
            if let Some(result) = found {
                return Some(result);
            }
            proof {
                b = b + 1;
                assert forall|s: u32| !(#[trigger] dist_forward@.dom().contains(s) && dist_backward@.dom().contains(
                    s,
                )) by {
                    assert(!(dist_backward@.dom().contains(s) && dist_forward@.dom().contains(s)));
                }
            }
        }
        rounds = rounds + 1;
    }
    proof {
        lemma_xor_twice(end_mask, 0u32);
        lemma_xor_twice(end_mask, end_mask);
        lemma_within_zero(steps, 0u32);
        if solvable(steps, end_mask) {
            let x = choose|x: u64| reaches(steps, end_mask, x);
            lemma_reach_bound(steps, end_mask, x);
            assert(near(steps, 0u32, 0u32, a)) by {
                lemma_within_mono(steps, 0u32, 0, a);
            }
            assert(near(steps, end_mask, end_mask, b)) by {
                lemma_within_mono(steps, 0u32, 0, b);
            }
            assert(dist_forward@.dom().contains(0u32));
            assert(dist_backward@.dom().contains(end_mask));
            if rounds > m {
                lemma_apart(steps, 0u32, end_mask, dist_forward@.dom(), dist_backward@.dom(), a, b);
                lemma_within_mono(steps, end_mask, m as int, a + b);
            } else if queue_forward.len() == 0 {
                assert(queue_forward@ =~= Seq::<u32>::empty());
                lemma_empty_layer(steps, 0u32, end_mask, a);
                lemma_within_mono(steps, end_mask, a - 1, a);
                assert(near(steps, 0u32, end_mask, a));
                assert(dist_forward@.dom().contains(end_mask));
            } else {
                assert(queue_backward@ =~= Seq::<u32>::empty());
                lemma_empty_layer(steps, end_mask, 0u32, b);
                lemma_within_mono(steps, end_mask, b - 1, b);
                assert(near(steps, end_mask, 0u32, b));
                assert(dist_backward@.dom().contains(0u32));
            }
        }
    }
    None
}

/// Above this many kernel dimensions the seeds are not enumerated.
pub const MAX_SEED_ENUM: usize = 20;

/// Tells whether some selection of steps reaches `target_mask`.
pub fn reachable_mod2(step_masks: &[u32], target_mask: u32) -> (ok: bool)
    requires
        step_masks.len() <= 64,
    ensures
        ok == solvable(step_masks@, target_mask),
{
    proof {
        lemma_bit_narrow(target_mask);
        assert forall|i: int| 0 <= i < step_masks@.len() implies fits(#[trigger] step_masks@[i] as u64, 32) by {
            lemma_bit_narrow(step_masks@[i]);
        }
    }
    match solve_gf2(step_masks, target_mask, 32) {
        Some((p, _)) => {
            proof {
                assert(reaches(step_masks@, target_mask, p));
            }
            true
        },
        None => false,
    }
}

/// Lists, for each step, the positions it touches, in rising order.
pub fn step_indices(step_masks: &[u32], positions: usize) -> (out: Vec<Vec<usize>>)
    requires
        positions <= 32,
    ensures
        out.len() == step_masks.len(),
        forall|i: int, j: int|
            0 <= i < out.len() && 0 <= j < out[i].len() ==> (#[trigger] out[i][j]) < positions && bit(
                step_masks[i] as u64,
                out[i][j] as int,
            ),
        forall|i: int, r: int|
            0 <= i < out.len() && 0 <= r < positions && #[trigger] bit(step_masks[i] as u64, r)
                ==> out[i]@.contains(r as usize),
        forall|i: int, j: int, k: int|
            0 <= i < out.len() && 0 <= j < k < out[i].len() ==> (#[trigger] out[i][j]) < (#[trigger] out[i][k]),
{
    let mut out: Vec<Vec<usize>> = Vec::new();
    let mut i: usize = 0;
    while i < step_masks.len()
        invariant
            i <= step_masks.len(),
            positions <= 32,
            out.len() == i,
            forall|a: int, j: int|
                0 <= a < out.len() && 0 <= j < out[a].len() ==> (#[trigger] out[a][j]) < positions && bit(
                    step_masks[a] as u64,
                    out[a][j] as int,
                ),
            forall|a: int, r: int|
                0 <= a < out.len() && 0 <= r < positions && #[trigger] bit(step_masks[a] as u64, r)
                    ==> out[a]@.contains(r as usize),
            forall|a: int, j: int, k: int|
                0 <= a < out.len() && 0 <= j < k < out[a].len() ==> (#[trigger] out[a][j]) < (
                #[trigger] out[a][k]),
        decreases step_masks.len() - i,
    {
        let mask: u32 = step_masks[i];
        let mut list: Vec<usize> = Vec::new();
        let mut idx: usize = 0;
        while idx < positions
            invariant
                idx <= positions <= 32,
                forall|j: int| 0 <= j < list.len() ==> (#[trigger] list[j]) < idx && bit(mask as u64, list[j] as int),
                forall|r: int| 0 <= r < idx && #[trigger] bit(mask as u64, r) ==> list@.contains(r as usize),
                forall|j: int, k: int| 0 <= j < k < list.len() ==> (#[trigger] list[j]) < (#[trigger] list[k]),
            decreases positions - idx,
        {
            if test_bit(mask as u64, idx) {
                let ghost before = list@;
                list.push(idx);
                proof {
                    assert forall|r: int| 0 <= r < idx + 1 && #[trigger] bit(mask as u64, r) implies list@.contains(
                        r as usize,
                    ) by {
                        if r < idx {
                            let j = choose|j: int| 0 <= j < before.len() && before[j] == r as usize;
                            assert(list@[j] == r as usize);
                        } else {
                            assert(list@[list.len() - 1] == r as usize);
                        }
                    }
                }
            }
            idx = idx + 1;
        }
        out.push(list);
        i = i + 1;
    }
    out
}

/// The seed selection that `bits` picks: the particular solution combined
/// with the chosen kernel vectors.
pub open spec fn seed_of(particular: u64, basis: Seq<u64>, bits: u64) -> u64 {
    particular ^ combo(basis, bits, basis.len() as int)
}

/// Answers the second question by seeds: every selection that matches the
/// parity of the counts is tried as the set of steps applied an odd number
/// of times; what is left of the counts is halved and solved whole, and
/// costs twice. Where the kernel has more than `MAX_SEED_ENUM` dimensions
/// the counts are solved whole at once.
pub fn min_steps_part2_seeded(step_masks: &[u32], targets: &[u32], positions: usize) -> (res:
    Option<u64>)
    requires
        well_formed(step_masks@, positions as int),
        targets.len() == positions,
    ensures
        is_count_answer(step_masks@, targets@, res),
{
    let ghost steps = step_masks@;
    let ghost t = targets@;
    let ghost n = positions as int;
    let ghost m = steps.len() as int;
    let target_vec: Vec<u32> = vstd::slice::slice_to_vec(targets);
    let steps_vec: Vec<u32> = vstd::slice::slice_to_vec(step_masks);
    if is_all_zero(&target_vec) {
        proof {
            lemma_zero_counts(steps, t);
        }
        return Some(0);
    }
    let target_mask: u32 = parity_pattern(&target_vec);
    let (particular, basis) = match solve_gf2(step_masks, target_mask, positions) {
        Some(found) => found,
        None => {
            proof {
                lemma_parity_needed(steps, n, t, target_mask);
            }
            return None;
        },
    };
    if basis.len() > MAX_SEED_ENUM {
        return min_steps_part2(step_masks, targets, positions);
    }
    let mut cache = Memo::new(Ghost(steps));
    let mut best: Option<u64> = None;
    let total_seeds: u64 = 1u64 << (basis.len() as u64);
    let mut seed_bits: u64 = 0;
    while seed_bits < total_seeds
        invariant
            seed_bits <= total_seeds,
            total_seeds == 1u64 << (basis.len() as u64),
            basis.len() <= MAX_SEED_ENUM,
            steps == step_masks@,
            steps == steps_vec@,
            t == targets@,
            t == target_vec@,
            n == positions,
            m == steps.len(),
            t.len() == n,
            well_formed(steps, n),
            !all_zero(t),
            is_parity(t, target_mask),
            solution_space(steps, target_mask, particular, basis@),
            cache.wf(),
            cache.step_set() == steps,
            best matches Some(b) ==> within_total(steps, t, b as int),
            forall|sb: u64, k: int|
                sb < seed_bits && feasible(steps, seed_of(particular, basis@, sb), t) && #[trigger] within_total(
                    steps,
                    residual(steps, seed_of(particular, basis@, sb), t),
                    k,
                ) ==> best is Some && best.unwrap() <= weight(seed_of(particular, basis@, sb)) + 2 * k,
        decreases total_seeds - seed_bits,
    {
        let seed_mask: u64 = seeded_combo(particular, &basis, seed_bits);
        let seed_steps: u64 = popcount(seed_mask);
        let skip: bool = match best {
            Some(best_steps) => seed_steps >= best_steps,
            None => false,
        };
        if !skip {
            match apply_candidate(&steps_vec, positions, seed_mask, &target_vec) {
                Some(even_targets) => {
                    let ghost rest = even_targets@;
                    let sub: Option<u64> = if is_all_zero(&even_targets) {
                        proof {
                            lemma_zero_counts(steps, rest);
                        }
                        Some(0)
                    } else {
                        match cache.get(&even_targets) {
                            Some(cached) => cached,
                            None => {
                                let result = min_steps_part2(step_masks, even_targets.as_slice(), positions);
                                cache.insert(even_targets, result);
                                result
                            },
                        }
                    };
                    match sub {
                        Some(sub_steps) => {
                            proof {
                                lemma_least_total_bound(steps, n, rest, sub_steps as int, 0xFFFF_FFFF);
                                assert(m * 0xFFFF_FFFF <= 64 * 0xFFFF_FFFF) by (nonlinear_arith)
                                    requires
                                        0 <= m <= 64,
                                ;
                            }
                            let cost: u64 = seed_steps + 2 * sub_steps;
                            let better: bool = match best {
                                None => true,
                                Some(b) => cost < b,
                            };
                            if better {
                                best = Some(cost);
                            }
                            proof {
                                lemma_combo_span(basis@, seed_bits, basis@.len() as int);
                                assert(basis@.subrange(0, basis@.len() as int) =~= basis@);
                                lemma_xor_algebra(particular, combo(basis@, seed_bits, basis@.len() as int), 0);
                                lemma_xor_algebra(combo(basis@, seed_bits, basis@.len() as int), particular, 0);
                                assert(seed_mask ^ particular == combo(basis@, seed_bits, basis@.len() as int));
                                lemma_coset_member(steps, target_mask, particular, basis@, seed_mask);
                                let y = choose|y: Seq<nat>| #[trigger]
                                    hits(steps, y, rest) && total(y, m) <= sub_steps;
                                lemma_compose(steps, n, seed_mask, y, t, target_mask);
                                assert(hits(steps, doubled(seed_mask, y), t) && total(doubled(seed_mask, y), m)
                                    <= cost);
                                assert forall|k: int| #[trigger]
                                    within_total(steps, rest, k) implies sub_steps <= k by {
                                    if k < sub_steps {
                                        lemma_within_total_mono(steps, rest, k, sub_steps - 1);
                                    }
                                }
                            }
                        },
                        None => {
                            proof {
                                assert forall|k: int| !#[trigger] within_total(steps, rest, k) by {
                                    if within_total(steps, rest, k) {
                                        let y = choose|y: Seq<nat>| #[trigger]
                                            hits(steps, y, rest) && total(y, m) <= k;
                                        assert(hits(steps, y, rest));
                                    }
                                }
                            }
                        },
                    }
                },
                None => {},
            }
        }
        seed_bits = seed_bits + 1;
    }
    proof {
        let k = basis@.len() as int;
        lemma_fits_lt(0, k);
        match best {
            Some(b) => {
                if within_total(steps, t, b - 1) {
                    let mult = choose|mu: Seq<nat>| #[trigger] hits(steps, mu, t) && total(mu, m) <= b - 1;
                    let c = lemma_decompose(steps, n, mult, t, target_mask);
                    let sb = lemma_span_index(basis@, c ^ particular);
                    lemma_fits_lt(sb, k);
                    lemma_xor_algebra(particular, c, 0);
                    lemma_xor_algebra(c, particular, 0);
                    assert(seed_of(particular, basis@, sb) == c);
                    let y = half_part(mult);
                    assert(hits(steps, y, residual(steps, c, t)) && total(y, m) <= total(y, m));
                    assert(within_total(steps, residual(steps, seed_of(particular, basis@, sb), t), total(y, m) as int));
                }
            },
            None => {
                if solvable_counts(steps, t) {
                    let mult = choose|mu: Seq<nat>| hits(steps, mu, t);
                    let c = lemma_decompose(steps, n, mult, t, target_mask);
                    let sb = lemma_span_index(basis@, c ^ particular);
                    lemma_fits_lt(sb, k);
                    lemma_xor_algebra(particular, c, 0);
                    lemma_xor_algebra(c, particular, 0);
                    assert(seed_of(particular, basis@, sb) == c);
                    let y = half_part(mult);
                    assert(hits(steps, y, residual(steps, c, t)) && total(y, m) <= total(y, m));
                    assert(within_total(steps, residual(steps, seed_of(particular, basis@, sb), t), total(y, m) as int));
                }
            },
        }
    }
    best
}

/// Builds the message `head`, the piece `s[from..to]`, then `tail`.
pub fn message_with_piece(head: &str, s: &[u8], from: usize, to: usize, tail: &str) -> (msg: String)
    requires
        from <= to <= s.len(),
    ensures
        msg@ == head@ + shown(s@, from as int, to as int) + tail@,
{
    let mut msg = String::from_str(head);
    let shown = piece_text(s, from, to);
    msg.append(shown.as_str());
    msg.append(tail);
    msg
}

/// What `s[from..to]` gives as target counts: the numbers between the
/// first `{` and the next `}`, separated by commas and trimmed, one per
/// position.
pub open spec fn targets_view(s: Seq<u8>, from: int, to: int, positions: int) -> Option<Seq<u32>> {
    let open = next_at(s, from, to, 123);
    let close = next_at(s, open + 1, to, 125);
    let ba = trim_lo(s, open + 1, close);
    let bb = trim_hi(s, ba, close);
    if open >= to || close >= to || ba >= bb {
        None
    } else {
        match number_list(s, ba, bb, true, 0xFFFF_FFFF) {
            None => None,
            Some(list) => if list.len() == positions {
                Some(narrowed(list))
            } else {
                None
            },
        }
    }
}

/// What the body `s[ba..bb]` of a step gives: the pattern of the
/// positions listed, each below `n` and none twice.
pub open spec fn step_view(s: Seq<u8>, ba: int, bb: int, n: int) -> Option<u32> {
    match number_list(s, ba, bb, true, 0xFFFF_FFFF_FFFF_FFFF) {
        None => None,
        Some(list) => if (forall|i: int| 0 <= i < list.len() ==> #[trigger] list[i] < n) && list.no_duplicates() {
            Some(mask_fold(list, list.len() as int) as u32)
        } else {
            None
        },
    }
}

/// What the steps section `s[from..to]` gives from place `from` on: one
/// step for each `(`, up to the next `)`.
pub open spec fn steps_view(s: Seq<u8>, from: int, to: int, n: int) -> Option<Seq<u32>>
    decreases to - from,
{
    let open = next_at(s, from, to, 40);
    if open >= to || open < from {
        Some(Seq::<u32>::empty())
    } else {
        let close = next_at(s, open + 1, to, 41);
        let ba = trim_lo(s, open + 1, close);
        let bb = trim_hi(s, ba, close);
        if close >= to || close <= open || ba >= bb {
            None
        } else {
            match step_view(s, ba, bb, n) {
                None => None,
                Some(mask) => match steps_view(s, close + 1, to, n) {
                    None => None,
                    Some(rest) => Some(seq![mask] + rest),
                },
            }
        }
    }
}

/// What is said of the target counts listed in `s[x..bb]` where one is
/// in error: of the first piece that is empty or no number.
pub open spec fn target_said(s: Seq<u8>, x: int, bb: int) -> Seq<char>
    decreases bb - x,
{
    let c = next_at(s, x, bb, crate::notation::COMMA);
    let span = crate::notation::piece_span(s, x, bb, true);
    if span.0 >= span.1 {
        "empty target value"@
    } else if reads_unsigned(s, span.0, span.1, 0xFFFF_FFFF) is None {
        "invalid target '"@ + shown(s, span.0, span.1) + "'"@
    } else if c >= bb || c < x {
        Seq::empty()
    } else {
        target_said(s, c + 1, bb)
    }
}

/// What is said of the target counts of `s[from..to]` where they are in
/// error.
pub open spec fn targets_said(s: Seq<u8>, from: int, to: int, positions: int) -> Seq<char> {
    let open = next_at(s, from, to, 123);
    let close = next_at(s, open + 1, to, 125);
    let ba = trim_lo(s, open + 1, close);
    let bb = trim_hi(s, ba, close);
    if open >= to {
        "missing '{'"@
    } else if close >= to {
        "missing '}'"@
    } else if ba >= bb {
        "empty target list"@
    } else {
        match number_list(s, ba, bb, true, 0xFFFF_FFFF) {
            None => target_said(s, ba, bb),
            Some(list) => "target length "@ + decimal_text(list.len()) + " does not match positions "@ + decimal_text(
                positions as nat,
            ),
        }
    }
}

/// What is said of the positions listed in `s[x..bb]` where one is in
/// error, `seen` being the positions read before: of the first piece
/// that is empty, no number, beyond the positions, or read before.
pub open spec fn index_said(s: Seq<u8>, x: int, bb: int, n: int, seen: Seq<nat>) -> Seq<char>
    decreases bb - x,
{
    let c = next_at(s, x, bb, crate::notation::COMMA);
    let span = crate::notation::piece_span(s, x, bb, true);
    if span.0 >= span.1 {
        "empty index in step"@
    } else {
        match reads_unsigned(s, span.0, span.1, 0xFFFF_FFFF_FFFF_FFFF) {
            None => "invalid index '"@ + shown(s, span.0, span.1) + "'"@,
            Some(v) => if v >= n {
                "index "@ + decimal_text(v) + " out of range"@
            } else if seen.contains(v) {
                "duplicate index "@ + decimal_text(v) + " in step"@
            } else if c >= bb || c < x {
                Seq::empty()
            } else {
                index_said(s, c + 1, bb, n, seen.push(v))
            },
        }
    }
}

/// What is said of the steps section `s[from..to]` where a step is in
/// error: of the first such step.
pub open spec fn steps_said(s: Seq<u8>, from: int, to: int, n: int) -> Seq<char>
    decreases to - from,
{
    let open = next_at(s, from, to, 40);
    if open >= to || open < from {
        Seq::empty()
    } else {
        let close = next_at(s, open + 1, to, 41);
        let ba = trim_lo(s, open + 1, close);
        let bb = trim_hi(s, ba, close);
        if close >= to || close <= open {
            "missing ')' in step"@
        } else if ba >= bb {
            "empty step"@
        } else if step_view(s, ba, bb, n) is None {
            index_said(s, ba, bb, n, Seq::empty())
        } else {
            steps_said(s, close + 1, to, n)
        }
    }
}

/// What is said of a line in error: the message of the first fault met
/// when the target pattern is read first, then the steps, then the
/// target counts.
pub open spec fn line_said(s: Seq<u8>) -> Seq<char> {
    let len = s.len() as int;
    let start = next_at(s, 0, len, 91);
    let end = next_at(s, start + 1, len, 93);
    let positions = end - start - 1;
    let section_end = next_at(s, end + 1, len, 123);
    if start >= len {
        "missing '['"@
    } else if end >= len {
        "missing ']'"@
    } else if positions == 0 {
        "endstate is empty"@
    } else if positions > 32 {
        "too many positions: "@ + decimal_text(positions as nat)
    } else if !is_pattern(s, start + 1, end) {
        "invalid endstate char '"@ + shown(s, first_other(s, start + 1, end), first_other(s, start + 1, end) + 1)
            + "'"@
    } else {
        match steps_view(s, end + 1, section_end, positions) {
            None => steps_said(s, end + 1, section_end, positions),
            Some(steps) => if steps.len() == 0 {
                "no steps provided"@
            } else {
                targets_said(s, end + 1, len, positions)
            },
        }
    }
}

/// What a line says of a configuration.
pub struct LineText {
    /// The on/off pattern to reach.
    pub end_mask: u32,
    /// The pattern of each step.
    pub steps: Seq<u32>,
    /// The target count of each position.
    pub targets: Seq<u32>,
    /// Number of positions.
    pub positions: int,
}

/// What a line reads as: the target pattern between the first `[` and the
/// next `]`, of one to 32 positions; at least one step between that and
/// the first `{` after it; then the target counts.
pub open spec fn line_view(s: Seq<u8>) -> Option<LineText> {
    let len = s.len() as int;
    let start = next_at(s, 0, len, 91);
    let end = next_at(s, start + 1, len, 93);
    let positions = end - start - 1;
    let section_end = next_at(s, end + 1, len, 123);
    if start >= len || end >= len || positions < 1 || positions > 32 || !is_pattern(s, start + 1, end) {
        None
    } else {
        match steps_view(s, end + 1, section_end, positions) {
            None => None,
            Some(steps) => if steps.len() == 0 {
                None
            } else {
                match targets_view(s, end + 1, len, positions) {
                    None => None,
                    Some(targets) => Some(
                        LineText { end_mask: pattern_fold(s, start + 1, positions) as u32, steps, targets, positions },
                    ),
                }
            },
        }
    }
}

/// Reads the target counts `{a,b,..}` found in `s[from..to]`: one count
/// per position.
pub fn targets_in(s: &[u8], from: usize, to: usize, positions: usize) -> (res: Result<Vec<u32>, String>)
    requires
        from <= to <= s.len(),
    ensures
        match res {
            Ok(targets) => targets_view(s@, from as int, to as int, positions as int) == Some(targets@)
                && targets.len() == positions,
            Err(e) => targets_view(s@, from as int, to as int, positions as int) is None && e@ == targets_said(
                s@,
                from as int,
                to as int,
                positions as int,
            ),
        },
{
    let open: usize = match find_byte(s, from, to, 123) {
        Some(i) => i,
        None => {
            return Err(String::from_str("missing '{'"));
        },
    };
    let close: usize = match find_byte(s, open + 1, to, 125) {
        Some(i) => i,
        None => {
            return Err(String::from_str("missing '}'"));
        },
    };
    let (ba, bb) = trim_range(s, open + 1, close);
    if ba == bb {
        return Err(String::from_str("empty target list"));
    }
    let mut targets: Vec<u32> = Vec::new();
    let mut x: usize = ba;
    let mut done: bool = false;
    let ghost mut acc: Seq<nat> = Seq::empty();
    proof {
        match number_list(s@, x as int, bb as int, true, 0xFFFF_FFFF) {
            None => {},
            Some(r) => {
                assert(acc + r =~= r);
            },
        }
        assert(targets@ =~= narrowed(acc));
    }
    while !done
        invariant
            ba <= x <= bb <= s.len(),
            ba < bb,
            targets_view(s@, from as int, to as int, positions as int) == (match number_list(
                s@,
                ba as int,
                bb as int,
                true,
                0xFFFF_FFFF,
            ) {
                None => None::<Seq<u32>>,
                Some(list) => if list.len() == positions {
                    Some(narrowed(list))
                } else {
                    None
                },
            }),
            !done ==> number_list(s@, ba as int, bb as int, true, 0xFFFF_FFFF) == prepend(
                acc,
                number_list(s@, x as int, bb as int, true, 0xFFFF_FFFF),
            ),
            done ==> number_list(s@, ba as int, bb as int, true, 0xFFFF_FFFF) == Some(acc),
            targets@ == narrowed(acc),
            open == next_at(s@, from as int, to as int, 123),
            close == next_at(s@, open + 1, to as int, 125),
            open < to,
            close < to,
            ba == trim_lo(s@, open + 1, close as int),
            bb == trim_hi(s@, ba as int, close as int),
            !done && number_list(s@, ba as int, bb as int, true, 0xFFFF_FFFF) is None ==> target_said(
                s@,
                ba as int,
                bb as int,
            ) == target_said(s@, x as int, bb as int),
        decreases bb - x + (if done { 0int } else { 1int }),
    {
        let (pa, pb, stop) = piece_bounds(s, x, bb, true);
        if pa == pb {
            proof {
                assert(number_list(s@, x as int, bb as int, true, 0xFFFF_FFFF) is None);
            }
            return Err(String::from_str("empty target value"));
        }
        match parse_unsigned(s, pa, pb, 0xFFFF_FFFF) {
            Some(v) => {
                let ghost old_acc = acc;
                targets.push(v as u32);
                proof {
                    acc = acc.push(v as nat);
                    assert(targets@ =~= narrowed(acc));
                    if stop != bb {
                        match number_list(s@, stop as int + 1, bb as int, true, 0xFFFF_FFFF) {
                            None => {},
                            Some(r) => {
                                assert(old_acc + (seq![v as nat] + r) =~= acc + r);
                            },
                        }
                    } else {
                        assert(old_acc + seq![v as nat] =~= acc);
                    }
                }
            },
            None => {
                proof {
                    assert(number_list(s@, x as int, bb as int, true, 0xFFFF_FFFF) is None);
                }
                return Err(message_with_piece("invalid target '", s, pa, pb, "'"));
            },
        }
        if stop == bb {
            done = true;
        } else {
            x = stop + 1;
        }
    }
    if targets.len() != positions {
        let mut msg = message_with_number("target length ", targets.len() as u64, " does not match positions ");
        let tail = message_with_number("", positions as u64, "");
        msg.append(tail.as_str());
        proof {
            reveal_strlit("");
            assert(msg@ =~= "target length "@ + decimal_text(targets.len() as nat) + " does not match positions "@
                + decimal_text(positions as nat));
        }
        return Err(msg);
    }
    Ok(targets)
}

/// Reads the target counts `{a,b,..}` from the text after the target
/// pattern.
pub fn parse_targets(rest: &str, positions: usize) -> (res: Result<Vec<u32>, String>)
    ensures
        match res {
            Ok(targets) => targets_view(rest.spec_bytes(), 0, rest.spec_bytes().len() as int, positions as int)
                == Some(targets@) && targets.len() == positions,
            Err(e) => targets_view(rest.spec_bytes(), 0, rest.spec_bytes().len() as int, positions as int) is None
                && e@ == targets_said(rest.spec_bytes(), 0, rest.spec_bytes().len() as int, positions as int),
        },
{
    let s = rest.as_bytes();
    targets_in(s, 0, s.len(), positions)
}

/// The line says exactly what was read.
pub open spec fn reads_as(text: LineText, end_mask: u32, steps: Seq<u32>, targets: Seq<u32>, positions: int) -> bool {
    &&& text.end_mask == end_mask
    &&& text.steps == steps
    &&& text.targets == targets
    &&& text.positions == positions
}

/// Reads one line of the form `[.##.] (3) (1,3) {3,5,4,7}`: the target
/// pattern in brackets, the steps in parentheses up to the first brace,
/// and the target counts in braces. Returns the target pattern, the step
/// patterns, the target counts and the number of positions.
pub fn parse_configuration(line: &str) -> (res: Result<(u32, Vec<u32>, Vec<u32>, usize), String>)
    ensures
        match res {
            Ok((end_mask, step_masks, targets, positions)) => {
                &&& line_view(line.spec_bytes()) matches Some(text) && reads_as(
                    text,
                    end_mask,
                    step_masks@,
                    targets@,
                    positions as int,
                )
                &&& 1 <= positions <= 32
                &&& fits(end_mask as u64, positions as int)
                &&& step_masks.len() >= 1
                &&& forall|i: int|
                    0 <= i < step_masks.len() ==> fits(#[trigger] step_masks[i] as u64, positions as int)
                &&& targets.len() == positions
            },
            Err(e) => line_view(line.spec_bytes()) is None && e@ == line_said(line.spec_bytes()),
        },
{
    let s = line.as_bytes();
    let len: usize = s.len();
    let start: usize = match find_byte(s, 0, len, 91) {
        Some(i) => i,
        None => {
            return Err(String::from_str("missing '['"));
        },
    };
    let end: usize = match find_byte(s, start + 1, len, 93) {
        Some(i) => i,
        None => {
            return Err(String::from_str("missing ']'"));
        },
    };
    if end == start + 1 {
        return Err(String::from_str("endstate is empty"));
    }
    let positions: usize = end - (start + 1);
    if positions > 32 {
        let msg = message_with_number("too many positions: ", positions as u64, "");
        proof {
            reveal_strlit("");
            assert(msg@ =~= "too many positions: "@ + decimal_text(positions as nat));
        }
        return Err(msg);
    }
    let end_mask: u32 = match read_pattern(s, start + 1, end) {
        Ok(mask) => mask,
        Err(at) => {
            proof {
                assert(!(s@[at as int] == crate::notation::ON || s@[at as int] == crate::notation::OFF));
                lemma_first_other(s@, start + 1, end as int, at as int);
            }
            return Err(message_with_piece("invalid endstate char '", s, at, at + 1, "'"));
        },
    };
    let rest_from: usize = end + 1;
    let section_end: usize = match find_byte(s, rest_from, len, 123) {
        Some(i) => i,
        None => len,
    };
    let ghost n = positions as int;
    let ghost whole = steps_view(s@, rest_from as int, section_end as int, n);
    let ghost said = line_said(s@);
    let mut step_masks: Vec<u32> = Vec::new();
    let mut scan_from: usize = rest_from;
    let mut more: bool = true;
    proof {
        match steps_view(s@, scan_from as int, section_end as int, n) {
            None => {},
            Some(r) => {
                assert(step_masks@ + r =~= r);
            },
        }
    }
    while more
        invariant
            rest_from <= scan_from <= section_end <= len,
            len == s.len(),
            s@ == line.spec_bytes(),
            n == positions,
            1 <= positions <= 32,
            forall|i: int| 0 <= i < step_masks.len() ==> fits(#[trigger] step_masks[i] as u64, positions as int),
            whole is None ==> line_view(s@) is None,
            said == line_said(s@),
            whole == steps_view(s@, rest_from as int, section_end as int, n),
            start == next_at(s@, 0, len as int, 91),
            end == next_at(s@, start + 1, len as int, 93),
            start < len,
            end < len,
            rest_from == end + 1,
            positions == end - start - 1,
            is_pattern(s@, start + 1, end as int),
            section_end == next_at(s@, rest_from as int, len as int, 123),
            more && whole is None ==> said == steps_said(s@, scan_from as int, section_end as int, n),
            more ==> whole == (match steps_view(s@, scan_from as int, section_end as int, n) {
                None => None::<Seq<u32>>,
                Some(r) => Some(step_masks@ + r),
            }),
            !more ==> whole == Some(step_masks@),
        decreases section_end - scan_from + (if more { 1int } else { 0int }),
    {
        match find_byte(s, scan_from, section_end, 40) {
            None => {
                proof {
                    assert(step_masks@ + Seq::<u32>::empty() =~= step_masks@);
                }
                more = false;
            },
            Some(open_idx) => {
                let close_idx: usize = match find_byte(s, open_idx + 1, section_end, 41) {
                    Some(i) => i,
                    None => {
                        return Err(String::from_str("missing ')' in step"));
                    },
                };
                let (ba, bb) = trim_range(s, open_idx + 1, close_idx);
                if ba == bb {
                    return Err(String::from_str("empty step"));
                }
                let mut wide: u64 = 0;
                let mut x: usize = ba;
                let mut done: bool = false;
                let ghost mut acc: Seq<nat> = Seq::empty();
                proof {
                    lemma_bit_single(0);
                    assert(step_view(s@, ba as int, bb as int, n) is None ==> line_view(s@) is None);
                    assert(step_view(s@, ba as int, bb as int, n) is None ==> said == index_said(
                        s@,
                        ba as int,
                        bb as int,
                        n,
                        Seq::empty(),
                    ));
                    match number_list(s@, x as int, bb as int, true, 0xFFFF_FFFF_FFFF_FFFF) {
                        None => {},
                        Some(r) => {
                            assert(acc + r =~= r);
                        },
                    }
                }
                while !done
                    invariant
                        ba <= x <= bb <= len,
                        ba < bb,
                        len == s.len(),
                        s@ == line.spec_bytes(),
                        n == positions,
                        1 <= positions <= 32,
                        step_view(s@, ba as int, bb as int, n) is None ==> line_view(s@) is None,
                        said == line_said(s@),
                        !done && step_view(s@, ba as int, bb as int, n) is None ==> said == index_said(
                            s@,
                            x as int,
                            bb as int,
                            n,
                            acc,
                        ),
                        !done ==> number_list(s@, ba as int, bb as int, true, 0xFFFF_FFFF_FFFF_FFFF) == prepend(
                            acc,
                            number_list(s@, x as int, bb as int, true, 0xFFFF_FFFF_FFFF_FFFF),
                        ),
                        done ==> number_list(s@, ba as int, bb as int, true, 0xFFFF_FFFF_FFFF_FFFF) == Some(acc),
                        forall|i: int| 0 <= i < acc.len() ==> #[trigger] acc[i] < n,
                        acc.no_duplicates(),
                        wide == mask_fold(acc, acc.len() as int),
                        fits(wide, n),
                    decreases bb - x + (if done { 0int } else { 1int }),
                {
                    let (pa, pb, stop) = piece_bounds(s, x, bb, true);
                    if pa == pb {
                        proof {
                            assert(number_list(s@, x as int, bb as int, true, 0xFFFF_FFFF_FFFF_FFFF) is None);
                            assert(step_view(s@, ba as int, bb as int, n) is None);
                        }
                        return Err(String::from_str("empty index in step"));
                    }
                    let idx: u64 = match parse_unsigned(s, pa, pb, 0xFFFF_FFFF_FFFF_FFFF) {
                        Some(v) => v,
                        None => {
                            proof {
                                assert(number_list(s@, x as int, bb as int, true, 0xFFFF_FFFF_FFFF_FFFF) is None);
                                assert(step_view(s@, ba as int, bb as int, n) is None);
                            }
                            return Err(message_with_piece("invalid index '", s, pa, pb, "'"));
                        },
                    };
                    let ghost old_acc = acc;
                    proof {
                        acc = acc.push(idx as nat);
                        if stop != bb {
                            match number_list(s@, stop as int + 1, bb as int, true, 0xFFFF_FFFF_FFFF_FFFF) {
                                None => {},
                                Some(r) => {
                                    assert(old_acc + (seq![idx as nat] + r) =~= acc + r);
                                },
                            }
                        } else {
                            assert(old_acc + seq![idx as nat] =~= acc);
                        }
                    }
                    if idx >= positions as u64 {
                        proof {
                            match number_list(s@, ba as int, bb as int, true, 0xFFFF_FFFF_FFFF_FFFF) {
                                None => {},
                                Some(full) => {
                                    assert(full[old_acc.len() as int] == idx);
                                },
                            }
                            assert(step_view(s@, ba as int, bb as int, n) is None);
                        }
                        return Err(message_with_number("index ", idx, " out of range"));
                    }
                    proof {
                        crate::notation::lemma_mask_fold_bits(old_acc, old_acc.len() as int);
                    }
                    if test_bit(wide, idx as usize) {
                        proof {
                            let w = choose|w: int| 0 <= w < old_acc.len() && #[trigger] old_acc[w] == idx;
                            match number_list(s@, ba as int, bb as int, true, 0xFFFF_FFFF_FFFF_FFFF) {
                                None => {},
                                Some(full) => {
                                    assert(full[old_acc.len() as int] == idx);
                                    assert(full[w] == idx);
                                    assert(!full.no_duplicates());
                                },
                            }
                            assert(step_view(s@, ba as int, bb as int, n) is None);
                            assert(old_acc.contains(idx as nat));
                        }
                        return Err(message_with_number("duplicate index ", idx, " in step"));
                    }
                    wide = crate::bits::with_bit(wide, idx as usize);
                    proof {
                        assert(acc.drop_last() =~= old_acc);
                        crate::notation::lemma_mask_fold_same(old_acc, acc, old_acc.len() as int);
                        assert forall|i: int, j: int| 0 <= i < j < acc.len() implies acc[i] != acc[j] by {
                            if j == old_acc.len() {
                                assert(old_acc[i] != idx);
                            } else {
                                assert(old_acc[i] != old_acc[j]);
                            }
                        }
                        assert(!old_acc.contains(idx as nat)) by {
                            if old_acc.contains(idx as nat) {
                                let w = choose|w: int| 0 <= w < old_acc.len() && old_acc[w] == idx as nat;
                                assert(acc[w] != acc[old_acc.len() as int]);
                            }
                        }
                    }
                    if stop == bb {
                        done = true;
                    } else {
                        x = stop + 1;
                    }
                }
                proof {
                    assert(fits(wide, 32));
                    lemma_fits_lt(wide, 32);
                }
                let mask: u32 = wide as u32;
                let ghost before = step_masks@;
                step_masks.push(mask);
                scan_from = close_idx + 1;
                proof {
                    assert(step_view(s@, ba as int, bb as int, n) == Some(mask));
                    match steps_view(s@, scan_from as int, section_end as int, n) {
                        None => {},
                        Some(r) => {
                            assert(before + (seq![mask] + r) =~= step_masks@ + r);
                        },
                    }
                }
            },
        }
    }
    if step_masks.len() == 0 {
        return Err(String::from_str("no steps provided"));
    }
    let targets = match targets_in(s, rest_from, len, positions) {
        Ok(t) => t,
        Err(e) => {
            return Err(e);
        },
    };
    Ok((end_mask, step_masks, targets, positions))
}

/// Puts `line N: ` in front of a message.
pub fn at_line(line_idx: usize, msg: &str) -> (out: String)
    requires
        line_idx < usize::MAX,
    ensures
        out@ == "line "@ + decimal_text((line_idx + 1) as nat) + ": "@ + msg@,
{
    let mut out = message_with_number("line ", (line_idx + 1) as u64, ": ");
    out.append(msg);
    out
}

/// The bytes of line `i`.
pub open spec fn line_text(lines: Seq<String>, i: int) -> Seq<u8> {
    vstd::utf8::encode_utf8(lines[i]@)
}

/// `v` is the answer for the line: to the second question where `counts`
/// is set, else to the first, for which no more than 63 steps are taken.
pub open spec fn line_answer(s: Seq<u8>, counts: bool, v: u64) -> bool {
    match line_view(s) {
        None => false,
        Some(text) => if counts {
            text.steps.len() <= 64 && is_least_total(text.steps, text.targets, v as int)
        } else {
            text.steps.len() <= 63 && is_least_weight(text.steps, text.end_mask, v as int)
        },
    }
}

/// The line has no answer: it is in error, has too many steps or has no
/// solution.
pub open spec fn line_fails(s: Seq<u8>, counts: bool) -> bool {
    match line_view(s) {
        None => true,
        Some(text) => if counts {
            text.steps.len() > 64 || !solvable_counts(text.steps, text.targets)
        } else {
            text.steps.len() > 63 || !solvable(text.steps, text.end_mask)
        },
    }
}

/// What is said of a line without answer: what is wrong with it where it
/// is in error, else that it has too many steps or no solution.
pub open spec fn fault_said(s: Seq<u8>, counts: bool) -> Seq<char> {
    match line_view(s) {
        None => line_said(s),
        Some(text) => if text.steps.len() > (if counts { 64int } else { 63int }) {
            "too many steps"@
        } else {
            "no solution found"@
        },
    }
}

/// A message with the number of line `k`, counted from one, in front.
pub open spec fn at_line_said(k: int, said: Seq<char>) -> Seq<char> {
    "line "@ + decimal_text((k + 1) as nat) + ": "@ + said
}

/// `answers` holds the answers of the first `k` lines.
pub open spec fn answers_upto(lines: Seq<String>, counts: bool, answers: Seq<u64>, k: int) -> bool {
    &&& answers.len() == k
    &&& 0 <= k <= lines.len()
    &&& forall|i: int| 0 <= i < k ==> line_answer(line_text(lines, i), counts, #[trigger] answers[i])
}

/// What a sum over the lines may return: the sum of the answers of all
/// lines; at the first line that has no answer, what is said of it; at
/// the first line that brings the sum beyond 64 bits, that it does. Each
/// message names its line.
pub open spec fn is_sum_over(lines: Seq<String>, counts: bool, res: Result<u64, String>) -> bool {
    match res {
        Ok(total) => exists|answers: Seq<u64>| #[trigger]
            answers_upto(lines, counts, answers, lines.len() as int) && total == answers_sum(
                answers,
                lines.len() as int,
            ),
        Err(e) => exists|answers: Seq<u64>, k: int| #[trigger]
            answers_upto(lines, counts, answers, k) && ((k < lines.len() && line_fails(line_text(lines, k), counts)
                && answers_sum(answers, k) <= u64::MAX && e@ == at_line_said(
                k,
                fault_said(line_text(lines, k), counts),
            )) || (k >= 1 && answers_sum(answers, k - 1) <= u64::MAX && answers_sum(answers, k) > u64::MAX && e@
                == at_line_said(k - 1, "total overflow"@))),
    }
}

/// Sums over the lines the answers to the first question or, where
/// `counts` is set, to the second.
pub fn sum_over_lines(input: &[String], counts: bool) -> (res: Result<u64, String>)
    ensures
        is_sum_over(input@, counts, res),
{
    let mut sum: u64 = 0;
    let mut line_idx: usize = 0;
    let ghost mut answers: Seq<u64> = Seq::empty();
    while line_idx < input.len()
        invariant
            line_idx <= input.len(),
            answers_upto(input@, counts, answers, line_idx as int),
            sum == answers_sum(answers, line_idx as int),
        decreases input.len() - line_idx,
    {
        let (end_mask, step_masks, targets, positions) = match parse_configuration(input[line_idx].as_str()) {
            Ok(c) => c,
            Err(e) => {
                proof {
                    assert(line_fails(line_text(input@, line_idx as int), counts));
                }
                return Err(at_line(line_idx, e.as_str()));
            },
        };
        let limit: usize = if counts {
            64
        } else {
            63
        };
        if step_masks.len() > limit {
            proof {
                assert(line_fails(line_text(input@, line_idx as int), counts));
            }
            return Err(at_line(line_idx, "too many steps"));
        }
        let found: Option<u64> = if counts {
            min_steps_part2_seeded(step_masks.as_slice(), targets.as_slice(), positions)
        } else {
            min_steps(end_mask, step_masks.as_slice(), positions)
        };
        let steps: u64 = match found {
            Some(v) => v,
            None => {
                proof {
                    assert(line_fails(line_text(input@, line_idx as int), counts));
                }
                return Err(at_line(line_idx, "no solution found"));
            },
        };
        let ghost before = answers;
        proof {
            answers = answers.push(steps);
            assert(line_answer(line_text(input@, line_idx as int), counts, steps));
            crate::toggle::lemma_answers_sum_same(before, answers, line_idx as int);
            assert forall|i: int| 0 <= i < line_idx + 1 implies line_answer(
                line_text(input@, i),
                counts,
                #[trigger] answers[i],
            ) by {
                if i < line_idx {
                    assert(answers[i] == before[i]);
                }
            }
            assert(answers_upto(input@, counts, answers, line_idx as int + 1));
            assert(answers_sum(answers, line_idx as int + 1) == sum + steps);
        }
        if steps > u64::MAX - sum {
            return Err(at_line(line_idx, "total overflow"));
        }
        sum = sum + steps;
        line_idx = line_idx + 1;
    }
    Ok(sum)
}

/// Sums, over the lines, the least number of distinct steps that reach
/// each line's target pattern. Fails at the first line that does not
/// parse, has more than 63 steps or has no solution, and where the sum
/// would overflow.
pub fn part1(input: &[String]) -> (res: Result<u64, String>)
    ensures
        is_sum_over(input@, false, res),
{
    sum_over_lines(input, false)
}

/// Sums, over the lines, the least total number of step applications that
/// hits each line's target counts. Fails at the first line that does not
/// parse, has more than 64 steps or has no solution, and where the sum
/// would overflow.
pub fn part2(input: &[String]) -> (res: Result<u64, String>)
    ensures
        is_sum_over(input@, true, res),
{
    sum_over_lines(input, true)
}

} // verus!
