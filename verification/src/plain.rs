//! Plain search: the first question by breadth-first search over the
//! states, the second by trying every total in rising order and every way
//! to share it out among the steps.
use std::collections::HashSet;
use std::collections::VecDeque;
use vstd::prelude::*;
use vstd::string::StringExecFns;
use vstd::string::StringSliceAdditionalSpecFns;
use crate::bits::{bit, fits, lemma_bit_single, lemma_xor_twice, with_bit32};
use crate::layers::{
    at_depth, covers, expanded, growing, is_layer, lemma_empty_layer, lemma_growing_sound,
    lemma_growing_start, lemma_layer_done, lemma_layer_mark, lemma_layer_skip, lemma_layer_start, near,
};
use crate::notation::{bad_piece, number_list, piece_bounds, piece_text, prepend, shown, OFF, ON};
use crate::text::{
    decimal_text, find_byte, message_with_number, next_at, next_space, next_token, parse_unsigned, trim_lo,
};
use crate::toggle::{
    answers_sum, is_answer, is_least_weight, lemma_least_bound, lemma_reach_bound, lemma_within_zero,
    reaches, solvable,
};

verus! {

broadcast use vstd::std_specs::hash::group_hash_axioms;

/// What is wrong with a line.
#[derive(Debug)]
pub enum ParseError {
    /// Nothing stands between the brackets.
    EmptyEndstate,
    /// A bracket is missing, or the closing one comes first.
    InvalidBrackets,
    /// The line has no step.
    EmptySteps,
    /// A step names this position, beyond the largest one there is.
    InvalidPosition(usize, usize),
    /// This piece is not a number.
    ParseIntError(String),
    /// The target pattern has this many positions, more than 32.
    ConfigurationTooLarge(usize),
    /// The opening brace of the target counts is missing.
    MissingTargets,
    /// The closing brace of the target counts is missing or misplaced.
    InvalidTargets,
    /// There is not one target count per position.
    MismatchedLength,
    /// The line has this many steps, more than 64.
    TooManySteps(usize),
}

impl ParseError {
    /// The message of the error, as characters.
    pub open spec fn message(&self) -> Seq<char> {
        match *self {
            ParseError::EmptyEndstate => "Endstate cannot be empty"@,
            ParseError::InvalidBrackets => "Invalid or missing brackets"@,
            ParseError::EmptySteps => "No steps provided"@,
            ParseError::InvalidPosition(pos, max) => "Invalid position "@ + decimal_text(pos as nat) + " (max: "@
                + decimal_text(max as nat) + ")"@,
            ParseError::ParseIntError(s) => "Failed to parse integer: "@ + s@,
            ParseError::ConfigurationTooLarge(size) => "Configuration too large: "@ + decimal_text(size as nat)
                + " positions (max 32)"@,
            ParseError::MissingTargets => "Missing target values in braces"@,
            ParseError::InvalidTargets => "Invalid or missing target braces"@,
            ParseError::MismatchedLength => "Number of targets doesn't match number of positions"@,
            ParseError::TooManySteps(count) => "Too many steps: "@ + decimal_text(count as nat) + " (max 64)"@,
        }
    }

    /// The message of the error.
    pub fn to_string(&self) -> (msg: String)
        ensures
            msg@ == self.message(),
    {
        proof {
            reveal_strlit("");
        }
        match self {
            ParseError::EmptyEndstate => String::from_str("Endstate cannot be empty"),
            ParseError::InvalidBrackets => String::from_str("Invalid or missing brackets"),
            ParseError::EmptySteps => String::from_str("No steps provided"),
            ParseError::InvalidPosition(pos, max) => {
                let mut msg = message_with_number("Invalid position ", *pos as u64, " (max: ");
                let tail = message_with_number("", *max as u64, ")");
                msg.append(tail.as_str());
                proof {
                    assert(msg@ =~= self.message());
                }
                msg
            },
            ParseError::ParseIntError(s) => {
                let mut msg = String::from_str("Failed to parse integer: ");
                msg.append(s.as_str());
                msg
            },
            ParseError::ConfigurationTooLarge(size) => message_with_number(
                "Configuration too large: ",
                *size as u64,
                " positions (max 32)",
            ),
            ParseError::MissingTargets => String::from_str("Missing target values in braces"),
            ParseError::InvalidTargets => String::from_str("Invalid or missing target braces"),
            ParseError::MismatchedLength => String::from_str(
                "Number of targets doesn't match number of positions",
            ),
            ParseError::TooManySteps(count) => message_with_number("Too many steps: ", *count as u64, " (max 64)"),
        }
    }
}

/// Why a sum over lines failed.
#[derive(Debug)]
pub enum SolveError {
    /// A line could not be read.
    Parse(ParseError),
    /// A line has no solution, or is too large to search.
    Message(String),
}

impl SolveError {
    /// The message of the error, as characters.
    pub open spec fn message(&self) -> Seq<char> {
        match *self {
            SolveError::Parse(e) => e.message(),
            SolveError::Message(s) => s@,
        }
    }

    /// The message of the error.
    pub fn to_string(&self) -> (msg: String)
        ensures
            msg@ == self.message(),
    {
        match self {
            SolveError::Parse(e) => e.to_string(),
            SolveError::Message(s) => String::from_str(s.as_str()),
        }
    }
}

/// One puzzle instance, with each step as the list of positions it touches.
#[derive(Debug)]
pub struct Configuration {
    /// The on/off state to reach, position by position.
    pub endstate: Vec<bool>,
    /// The count to reach at each position.
    pub target_counts: Vec<u64>,
    /// The positions that each step touches.
    pub steps: Vec<Vec<usize>>,
    /// The bit pattern of each step.
    pub step_masks: Vec<u32>,
}

/// The pattern `mask` has exactly the bits of the positions in `list`.
pub open spec fn is_mask_of(list: Seq<usize>, mask: u32) -> bool {
    forall|p: int| 0 <= p < 64 ==> (#[trigger] bit(mask as u64, p)) == list.contains(p as usize)
}

/// The pattern `mask` has exactly the bits of the positions that are on.
pub open spec fn is_goal_of(endstate: Seq<bool>, mask: u32) -> bool {
    forall|p: int| 0 <= p < 64 ==> (#[trigger] bit(mask as u64, p)) == (p < endstate.len() && endstate[p])
}

impl Configuration {
    /// The steps name positions that exist, each mask is the pattern of
    /// its step, and there are at most 32 positions and 64 steps.
    pub open spec fn wf(&self) -> bool {
        &&& self.endstate.len() <= 32
        &&& self.steps.len() <= 64
        &&& self.steps.len() == self.step_masks.len()
        &&& self.target_counts.len() == self.endstate.len()
        &&& forall|i: int, j: int|
            0 <= i < self.steps.len() && 0 <= j < self.steps[i].len() ==> (#[trigger] self.steps[i][j])
                < self.endstate.len()
        &&& forall|i: int|
            0 <= i < self.steps.len() ==> is_mask_of(self.steps[i]@, #[trigger] self.step_masks[i])
    }
}

/// Computes the bit pattern of each step.
pub fn compute_step_masks(steps: &[Vec<usize>]) -> (masks: Vec<u32>)
    requires
        forall|i: int, j: int| 0 <= i < steps.len() && 0 <= j < steps[i].len() ==> (#[trigger] steps[i][j]) < 32,
    ensures
        masks.len() == steps.len(),
        forall|i: int| 0 <= i < steps.len() ==> is_mask_of(steps[i]@, #[trigger] masks[i]),
{
    let mut masks: Vec<u32> = Vec::new();
    let mut i: usize = 0;
    while i < steps.len()
        invariant
            i <= steps.len(),
            masks.len() == i,
            forall|a: int, j: int| 0 <= a < steps.len() && 0 <= j < steps[a].len() ==> (#[trigger] steps[a][j]) < 32,
            forall|a: int| 0 <= a < i ==> is_mask_of(steps[a]@, #[trigger] masks[a]),
        decreases steps.len() - i,
    {
        let positions: &Vec<usize> = &steps[i];
        let mut mask: u32 = 0;
        let mut j: usize = 0;
        proof {
            lemma_bit_single(0);
            crate::bits::lemma_bit_narrow(0u32);
        }
        while j < positions.len()
            invariant
                j <= positions.len(),
                forall|k: int| 0 <= k < positions.len() ==> (#[trigger] positions[k]) < 32,
                fits(mask as u64, 32),
                forall|p: int|
                    0 <= p < 64 ==> (#[trigger] bit(mask as u64, p)) == positions@.subrange(0, j as int).contains(
                        p as usize,
                    ),
            decreases positions.len() - j,
        {
            let pos: usize = positions[j];
            let ghost before = positions@.subrange(0, j as int);
            let ghost after = positions@.subrange(0, j as int + 1);
            mask = with_bit32(mask, pos, 32);
            proof {
                assert forall|p: int| 0 <= p < 64 implies (#[trigger] bit(mask as u64, p)) == after.contains(
                    p as usize,
                ) by {
                    if before.contains(p as usize) {
                        let k = choose|k: int| 0 <= k < before.len() && before[k] == p as usize;
                        assert(after[k] == p as usize);
                    }
                    if p == pos {
                        assert(after[j as int] == p as usize);
                    }
                    if after.contains(p as usize) && p != pos {
                        let k = choose|k: int| 0 <= k < after.len() && after[k] == p as usize;
                        assert(before[k] == p as usize);
                    }
                }
            }
            j = j + 1;
        }
        proof {
            assert(positions@.subrange(0, positions@.len() as int) =~= positions@);
        }
        masks.push(mask);
        i = i + 1;
    }
    masks
}

/// Converts the state to reach into a bit pattern, position `i` on bit `i`.
pub fn endstate_to_bitmask(endstate: &[bool]) -> (mask: u32)
    requires
        endstate.len() <= 32,
    ensures
        is_goal_of(endstate@, mask),
        fits(mask as u64, endstate.len() as int),
{
    let mut mask: u32 = 0;
    let mut i: usize = 0;
    proof {
        lemma_bit_single(0);
    }
    while i < endstate.len()
        invariant
            i <= endstate.len() <= 32,
            fits(mask as u64, endstate.len() as int),
            forall|p: int| 0 <= p < 64 ==> (#[trigger] bit(mask as u64, p)) == (p < i && endstate[p]),
        decreases endstate.len() - i,
    {
        if endstate[i] {
            mask = with_bit32(mask, i, endstate.len());
        }
        i = i + 1;
    }
    mask
}

/// Answers the first question by breadth-first search from the all-off
/// state: `Ok(Some(k))` where `k` is the least number of distinct steps
/// that reach the state wanted, `Ok(None)` where it is unreachable, and an
/// error where there are more than 32 positions.
pub fn find_minimum_steps(config: &Configuration) -> (res: Result<Option<usize>, String>)
    requires
        config.steps.len() == config.step_masks.len(),
        config.steps.len() <= 64,
    ensures
        res is Err <==> config.endstate.len() > 32,
        res matches Err(msg) ==> msg@ == "Configuration too large: "@ + decimal_text(config.endstate.len() as nat)
            + " positions (max 32)"@,
        res matches Ok(found) ==> exists|goal: u32| #[trigger]
            is_goal_of(config.endstate@, goal) && is_answer(config.step_masks@, goal, match found {
                Some(k) => Some(k as u64),
                None => None,
            }),
{
    if config.endstate.len() > 32 {
        return Err(
            message_with_number("Configuration too large: ", config.endstate.len() as u64, " positions (max 32)"),
        );
    }
    let ghost steps = config.step_masks@;
    let m: usize = config.steps.len();
    let initial: u32 = 0;
    let goal: u32 = endstate_to_bitmask(config.endstate.as_slice());
    proof {
        lemma_within_zero(steps, goal);
    }
    if initial == goal {
        return Ok(Some(0));
    }
    let mut queue: VecDeque<(u32, usize)> = VecDeque::new();
    let mut visited: HashSet<u32> = HashSet::new();
    queue.push_back((initial, 0));
    visited.insert(initial);
    let ghost mut frontier: Seq<u32> = seq![0u32];
    let ghost mut next: Seq<u32> = Seq::empty();
    let ghost mut fi: int = 0;
    let ghost mut d: int = 0;
    proof {
        lemma_layer_start(steps, 0u32);
        assert(visited@ =~= set![0u32]);
        lemma_growing_start(steps, 0u32, visited@, 0);
    }
    while queue.len() > 0
        invariant
            m == config.steps.len(),
            m == config.step_masks.len(),
            m <= 64,
            steps == config.step_masks@,
            goal != 0,
            config.endstate.len() <= 32,
            is_goal_of(config.endstate@, goal),
            0 <= d <= m,
            0 <= fi <= frontier.len(),
            queue.len() == (frontier.len() - fi) + next.len(),
            forall|i: int| 0 <= i < frontier.len() - fi ==> queue@[i] == (frontier[fi + i], d as usize),
            forall|i: int| 0 <= i < next.len() ==> queue@[frontier.len() - fi + i] == (next[i], (d + 1) as usize),
            covers(steps, 0u32, visited@, d),
            is_layer(steps, 0u32, frontier, d),
            growing(steps, 0u32, visited@, next, d),
            expanded(steps, visited@, frontier, fi, 0),
            !visited@.contains(goal),
        decreases m - d, frontier.len() - fi,
    {
        proof {
            if fi == frontier.len() {
                lemma_growing_sound(steps, 0u32, visited@, next, d);
                lemma_layer_done(steps, 0u32, visited@, frontier, next, d);
                assert(at_depth(steps, 0u32, next[0], d + 1));
                lemma_least_bound(steps, next[0] ^ 0u32, d + 1);
                frontier = next;
                next = Seq::empty();
                fi = 0;
                d = d + 1;
                lemma_growing_start(steps, 0u32, visited@, d);
            }
        }
        let (state, step_count) = queue.pop_front().unwrap();
        proof {
            assert(state == frontier[fi]);
            assert(step_count == d);
        }
        let mut step_idx: usize = 0;
        while step_idx < m
            invariant
                step_idx <= m,
                m == config.steps.len(),
                m == config.step_masks.len(),
                m <= 64,
                steps == config.step_masks@,
                goal != 0,
                config.endstate.len() <= 32,
                is_goal_of(config.endstate@, goal),
                0 <= d <= m,
                0 <= fi < frontier.len(),
                state == frontier[fi],
                step_count == d,
                queue.len() == (frontier.len() - fi - 1) + next.len(),
                forall|i: int|
                    0 <= i < frontier.len() - fi - 1 ==> queue@[i] == (frontier[fi + 1 + i], d as usize),
                forall|i: int|
                    0 <= i < next.len() ==> queue@[frontier.len() - fi - 1 + i] == (next[i], (d + 1) as usize),
                covers(steps, 0u32, visited@, d),
                is_layer(steps, 0u32, frontier, d),
                growing(steps, 0u32, visited@, next, d),
                expanded(steps, visited@, frontier, fi, step_idx as int),
                !visited@.contains(goal),
            decreases m - step_idx,
        {
            let next_state: u32 = state ^ config.step_masks[step_idx];
            if next_state == goal {
                proof {
                    lemma_layer_mark(steps, 0u32, visited@, frontier, next, d, fi, step_idx as int);
                    lemma_xor_twice(goal, 0u32);
                }
                return Ok(Some(step_count + 1));
            }
            let ghost seen = visited@;
            let ghost old_queue = queue@;
            proof {
                if seen.contains(next_state) {
                    lemma_layer_skip(steps, seen, frontier, fi, step_idx as int);
                } else {
                    lemma_layer_mark(steps, 0u32, seen, frontier, next, d, fi, step_idx as int);
                }
            }
            if visited.insert(next_state) {
                queue.push_back((next_state, step_count + 1));
                proof {
                    next = next.push(next_state);
                    assert(queue@ == old_queue.push((next_state, (d + 1) as usize)));
                }
            } else {
                proof {
                    assert(visited@ =~= seen);
                }
            }
            step_idx = step_idx + 1;
        }
        proof {
            fi = fi + 1;
        }
    }
    proof {
        assert(next =~= Seq::<u32>::empty());
        lemma_growing_sound(steps, 0u32, visited@, next, d);
        lemma_layer_done(steps, 0u32, visited@, frontier, next, d);
        lemma_xor_twice(goal, 0u32);
        if solvable(steps, goal) {
            let x = choose|x: u64| reaches(steps, goal, x);
            lemma_reach_bound(steps, goal, x);
            lemma_empty_layer(steps, 0u32, goal, d + 1);
            assert(near(steps, 0u32, goal, d));
        }
    }
    Ok(None)
}

/// How often position `r` occurs among the first `k` entries of a step.
pub open spec fn occurrences(step: Seq<usize>, r: int, k: int) -> nat
    decreases k,
{
    if k <= 0 {
        0
    } else {
        occurrences(step, r, k - 1) + (if step[k - 1] == r { 1nat } else { 0nat })
    }
}

/// How often position `r` is incremented by the first `k` steps under the
/// shares `mult`, a step counting once for each time it lists `r`.
pub open spec fn list_tally(steps: Seq<Vec<usize>>, mult: Seq<usize>, r: int, k: int) -> nat
    decreases k,
{
    if k <= 0 {
        0
    } else {
        list_tally(steps, mult, r, k - 1) + (mult[k - 1] as nat) * occurrences(
            steps[k - 1]@,
            r,
            steps[k - 1]@.len() as int,
        )
    }
}

/// Sum of the shares from index `from` on.
pub open spec fn share_sum(mult: Seq<usize>, from: int) -> nat
    decreases mult.len() - from,
{
    if from >= mult.len() || from < 0 {
        0
    } else {
        mult[from] as nat + share_sum(mult, from + 1)
    }
}

/// The shares `mult`, one per step, bring every position exactly to its
/// target count.
pub open spec fn shares_hit(config: &Configuration, mult: Seq<usize>) -> bool {
    &&& mult.len() == config.steps.len()
    &&& forall|r: int|
        0 <= r < config.target_counts.len() ==> #[trigger] list_tally(
            config.steps@,
            mult,
            r,
            config.steps.len() as int,
        ) == config.target_counts[r]
}

/// Some shares that add up to exactly `k` hit the target counts.
pub open spec fn total_hits(config: &Configuration, k: int) -> bool {
    exists|mult: Seq<usize>| #[trigger] shares_hit(config, mult) && share_sum(mult, 0) == k
}

/// Some shares that begin with `prefix`, and whose other entries add up
/// to `remaining`, hit the target counts.
pub open spec fn completes(config: &Configuration, prefix: Seq<usize>, remaining: int) -> bool {
    exists|full: Seq<usize>| #[trigger]
        shares_hit(config, full) && prefix.len() <= full.len() && full.subrange(
            0,
            prefix.len() as int,
        ) =~= prefix && share_sum(full, prefix.len() as int) == remaining
}

/// Sum of the counts, as far as the first `k`.
pub open spec fn count_sum(counts: Seq<u64>, k: int) -> nat
    decreases k,
{
    if k <= 0 {
        0
    } else {
        count_sum(counts, k - 1) + counts[k - 1] as nat
    }
}

/// Some step lists position `pos`.
pub open spec fn listed(steps: Seq<Seq<usize>>, pos: int) -> bool {
    exists|i: int| 0 <= i < steps.len() && (#[trigger] steps[i]).contains(pos as usize)
}

/// Every position with a positive count is listed by some step.
pub open spec fn all_listed(steps: Seq<Seq<usize>>, counts: Seq<u64>) -> bool {
    forall|pos: int| 0 <= pos < counts.len() && counts[pos] > 0 ==> #[trigger] listed(steps, pos)
}

/// The counts are too large to search: every position with a positive
/// count is listed by some step, and the counts add up to more than the
/// machine can number, so that the answer, if there is one, may not fit
/// the result.
pub open spec fn too_large_lists(steps: Seq<Seq<usize>>, counts: Seq<u64>) -> bool {
    all_listed(steps, counts) && count_sum(counts, counts.len() as int) > usize::MAX
}

/// The counts of the configuration are too large to search.
pub open spec fn too_large(config: &Configuration) -> bool {
    too_large_lists(Seq::new(config.steps@.len(), |i: int| config.steps@[i]@), config.target_counts@)
}

/// The sums of the counts only grow.
pub proof fn lemma_count_sum_mono(counts: Seq<u64>, a: int, b: int)
    requires
        a <= b,
    ensures
        count_sum(counts, a) <= count_sum(counts, b),
    decreases b - a,
{
    if a < b {
        lemma_count_sum_mono(counts, a, b - 1);
    }
}

/// Occurrences only grow as more of the step is taken into account.
pub proof fn lemma_occurrences_mono(step: Seq<usize>, r: int, a: int, b: int)
    requires
        a <= b,
    ensures
        occurrences(step, r, a) <= occurrences(step, r, b),
    decreases b - a,
{
    if a < b {
        lemma_occurrences_mono(step, r, a, b - 1);
    }
}

/// Tallies only grow as more steps are taken into account.
pub proof fn lemma_list_tally_mono(steps: Seq<Vec<usize>>, mult: Seq<usize>, r: int, a: int, b: int)
    requires
        a <= b,
    ensures
        list_tally(steps, mult, r, a) <= list_tally(steps, mult, r, b),
    decreases b - a,
{
    if a < b {
        lemma_list_tally_mono(steps, mult, r, a, b - 1);
        if b > 0 {
            assert(mult[b - 1] * occurrences(steps[b - 1]@, r, steps[b - 1]@.len() as int) >= 0) by (nonlinear_arith);
        }
    }
}

/// A position that no step lists is never incremented.
pub proof fn lemma_unlisted(steps: Seq<Vec<usize>>, mult: Seq<usize>, r: int, k: int)
    requires
        0 <= k <= steps.len(),
        forall|i: int| 0 <= i < steps.len() ==> !(#[trigger] steps[i])@.contains(r as usize),
        0 <= r <= usize::MAX,
    ensures
        list_tally(steps, mult, r, k) == 0,
    decreases k,
{
    if k > 0 {
        lemma_unlisted(steps, mult, r, k - 1);
        lemma_no_occurrence(steps[k - 1]@, r, steps[k - 1]@.len() as int);
        assert(!steps[k - 1]@.contains(r as usize));
    }
}

/// A step that does not list a position has no occurrence of it.
pub proof fn lemma_no_occurrence(step: Seq<usize>, r: int, k: int)
    requires
        0 <= k <= step.len(),
        0 <= r <= usize::MAX,
        !step.contains(r as usize),
    ensures
        occurrences(step, r, k) == 0,
    decreases k,
{
    if k > 0 {
        lemma_no_occurrence(step, r, k - 1);
        assert(step[k - 1] != r);
    }
}

/// Shares of zero increment nothing and add up to zero.
pub proof fn lemma_zero_shares(steps: Seq<Vec<usize>>, mult: Seq<usize>, r: int, k: int)
    requires
        0 <= k <= mult.len(),
        forall|i: int| 0 <= i < mult.len() ==> mult[i] == 0,
    ensures
        list_tally(steps, mult, r, k) == 0,
        share_sum(mult, mult.len() - k) == 0,
    decreases k,
{
    if k > 0 {
        lemma_zero_shares(steps, mult, r, k - 1);
    }
}

/// The sum over the first `n` positions of how often each is incremented.
pub open spec fn list_rows(steps: Seq<Vec<usize>>, mult: Seq<usize>, n: int, k: int) -> nat
    decreases n,
{
    if n <= 0 {
        0
    } else {
        list_rows(steps, mult, n - 1, k) + list_tally(steps, mult, n - 1, k)
    }
}

/// How many of the first `k` entries of a step lie below `n`.
pub open spec fn entries_below(step: Seq<usize>, n: int, k: int) -> nat
    decreases k,
{
    if k <= 0 {
        0
    } else {
        entries_below(step, n, k - 1) + (if step[k - 1] < n { 1nat } else { 0nat })
    }
}

/// The occurrences of the positions below `n` add up to the entries
/// below `n`.
pub proof fn lemma_occurrences_sum(step: Seq<usize>, n: int, k: int) -> (total: nat)
    requires
        0 <= n,
        0 <= k <= step.len(),
    ensures
        total == entries_below(step, n, k),
        total == occurrences_upto(step, n, k),
    decreases n,
{
    if n == 0 {
        lemma_entries_none(step, k);
        0
    } else {
        let before = lemma_occurrences_sum(step, n - 1, k);
        lemma_entries_step(step, n, k);
        (before + occurrences(step, n - 1, k)) as nat
    }
}

/// The occurrences, in the first `k` entries, of the positions below `n`.
pub open spec fn occurrences_upto(step: Seq<usize>, n: int, k: int) -> nat
    decreases n,
{
    if n <= 0 {
        0
    } else {
        occurrences_upto(step, n - 1, k) + occurrences(step, n - 1, k)
    }
}

/// No entry lies below zero.
pub proof fn lemma_entries_none(step: Seq<usize>, k: int)
    ensures
        entries_below(step, 0, k) == 0,
    decreases k,
{
    if k > 0 {
        lemma_entries_none(step, k - 1);
    }
}

/// The entries below `n` are those below `n - 1` and the occurrences of
/// `n - 1`.
pub proof fn lemma_entries_step(step: Seq<usize>, n: int, k: int)
    requires
        1 <= n,
        0 <= k <= step.len(),
    ensures
        entries_below(step, n, k) == entries_below(step, n - 1, k) + occurrences(step, n - 1, k),
    decreases k,
{
    if k > 0 {
        lemma_entries_step(step, n, k - 1);
    }
}

/// A step whose entries all lie below `n` has as many entries below `n`
/// as it has entries.
pub proof fn lemma_entries_all(step: Seq<usize>, n: int, k: int)
    requires
        0 <= k <= step.len(),
        forall|j: int| 0 <= j < step.len() ==> step[j] < n,
    ensures
        entries_below(step, n, k) == k,
    decreases k,
{
    if k > 0 {
        lemma_entries_all(step, n, k - 1);
    }
}

/// One more step adds to the row sums its share times its entries.
pub proof fn lemma_list_rows_step(steps: Seq<Vec<usize>>, mult: Seq<usize>, n: int, k: int)
    requires
        0 <= n,
        1 <= k <= steps.len(),
    ensures
        list_rows(steps, mult, n, k) == list_rows(steps, mult, n, k - 1) + mult[k - 1] * occurrences_upto(
            steps[k - 1]@,
            n,
            steps[k - 1]@.len() as int,
        ),
    decreases n,
{
    if n > 0 {
        lemma_list_rows_step(steps, mult, n - 1, k);
        let c = mult[k - 1] as int;
        let a = occurrences_upto(steps[k - 1]@, n - 1, steps[k - 1]@.len() as int) as int;
        let b = occurrences(steps[k - 1]@, n - 1, steps[k - 1]@.len() as int) as int;
        assert(c * (a + b) == c * a + c * b) by (nonlinear_arith);
    } else {
        assert(mult[k - 1] * 0 == 0) by (nonlinear_arith);
    }
}

/// Without steps the row sums are zero.
pub proof fn lemma_list_rows_none(steps: Seq<Vec<usize>>, mult: Seq<usize>, n: int)
    ensures
        list_rows(steps, mult, n, 0) == 0,
    decreases n,
{
    if n > 0 {
        lemma_list_rows_none(steps, mult, n - 1);
    }
}

/// Where every step with a share lists at least one position, and the
/// steps list only positions below `n`, the shares add up to no more
/// than the row sums.
pub proof fn lemma_shares_le_rows(steps: Seq<Vec<usize>>, mult: Seq<usize>, n: int, k: int)
    requires
        0 <= n,
        0 <= k <= steps.len(),
        k <= mult.len(),
        forall|i: int| 0 <= i < k ==> (#[trigger] steps[i]).len() >= 1 || mult[i] == 0,
        forall|i: int, j: int| 0 <= i < steps.len() && 0 <= j < steps[i].len() ==> (#[trigger] steps[i][j]) < n,
    ensures
        prefix_sum(mult, k) <= list_rows(steps, mult, n, k),
    decreases k,
{
    if k == 0 {
        lemma_list_rows_none(steps, mult, n);
    } else {
        lemma_shares_le_rows(steps, mult, n, k - 1);
        lemma_list_rows_step(steps, mult, n, k);
        let step = steps[k - 1]@;
        let t = lemma_occurrences_sum(step, n, step.len() as int);
        assert forall|j: int| 0 <= j < step.len() implies step[j] < n by {
            assert(steps[k - 1][j] < n);
        }
        lemma_entries_all(step, n, step.len() as int);
        let c = mult[k - 1] as int;
        let e = step.len() as int;
        assert(steps[k - 1].len() >= 1 || mult[k - 1] == 0);
        assert(c * e >= c) by (nonlinear_arith)
            requires
                c >= 0,
                e >= 1 || c == 0,
                e >= 0,
        ;
    }
}

/// Sum of the first `k` shares.
pub open spec fn prefix_sum(mult: Seq<usize>, k: int) -> nat
    decreases k,
{
    if k <= 0 {
        0
    } else {
        prefix_sum(mult, k - 1) + mult[k - 1] as nat
    }
}

/// The shares add up the same from either end.
pub proof fn lemma_prefix_is_share(mult: Seq<usize>, from: int)
    requires
        0 <= from <= mult.len(),
    ensures
        share_sum(mult, from) + prefix_sum(mult, from) == prefix_sum(mult, mult.len() as int),
    decreases mult.len() - from,
{
    if from < mult.len() {
        lemma_prefix_is_share(mult, from + 1);
    }
}

/// The row sums of shares that hit the counts are the sum of the counts.
pub proof fn lemma_rows_are_counts(config: &Configuration, mult: Seq<usize>, k: int)
    requires
        shares_hit(config, mult),
        0 <= k <= config.target_counts.len(),
    ensures
        list_rows(config.steps@, mult, k, config.steps.len() as int) == count_sum(config.target_counts@, k),
    decreases k,
{
    if k > 0 {
        lemma_rows_are_counts(config, mult, k - 1);
        assert(list_tally(config.steps@, mult, k - 1, config.steps.len() as int) == config.target_counts[k - 1]);
    }
}

/// Shares that hit the counts, with no share for a step that lists no
/// position, add up to no more than the sum of the counts.
pub proof fn lemma_total_bounded(config: &Configuration, mult: Seq<usize>)
    requires
        config.wf(),
        shares_hit(config, mult),
        forall|i: int| 0 <= i < config.steps.len() ==> (#[trigger] config.steps@[i]).len() >= 1 || mult[i] == 0,
    ensures
        share_sum(mult, 0) <= count_sum(config.target_counts@, config.target_counts.len() as int),
{
    let n = config.target_counts.len() as int;
    lemma_shares_le_rows(config.steps@, mult, n, mult.len() as int);
    lemma_prefix_is_share(mult, 0);
    lemma_rows_are_counts(config, mult, n);
}

/// The shares `mult` with nothing for the steps that list no position.
pub open spec fn trimmed(steps: Seq<Vec<usize>>, mult: Seq<usize>) -> Seq<usize> {
    Seq::new(mult.len(), |i: int| if steps[i].len() == 0 { 0usize } else { mult[i] })
}

/// A step that lists no position increments nothing: the trimmed shares
/// increment each position as often as the shares themselves.
pub proof fn lemma_trimmed_tally(steps: Seq<Vec<usize>>, mult: Seq<usize>, r: int, k: int)
    requires
        0 <= k <= mult.len(),
        k <= steps.len(),
    ensures
        list_tally(steps, trimmed(steps, mult), r, k) == list_tally(steps, mult, r, k),
    decreases k,
{
    if k > 0 {
        lemma_trimmed_tally(steps, mult, r, k - 1);
        if steps[k - 1].len() == 0 {
            assert(occurrences(steps[k - 1]@, r, 0) == 0);
            assert(mult[k - 1] * 0 == 0) by (nonlinear_arith);
            assert(0 * 0 == 0);
        }
    }
}

/// Where some shares hit the counts, some shares that add up to no more
/// than the sum of the counts do: a search up to that sum misses no
/// configuration that has an answer.
pub proof fn lemma_hit_below(config: &Configuration, j: int) -> (low: int)
    requires
        config.wf(),
        total_hits(config, j),
    ensures
        0 <= low <= count_sum(config.target_counts@, config.target_counts.len() as int),
        total_hits(config, low),
{
    let mult = choose|mult: Seq<usize>| #[trigger] shares_hit(config, mult) && share_sum(mult, 0) == j;
    let less = trimmed(config.steps@, mult);
    let m = config.steps.len() as int;
    assert forall|r: int| 0 <= r < config.target_counts.len() implies #[trigger] list_tally(
        config.steps@,
        less,
        r,
        m,
    ) == config.target_counts[r] by {
        lemma_trimmed_tally(config.steps@, mult, r, m);
        assert(list_tally(config.steps@, mult, r, m) == config.target_counts[r]);
    }
    assert(shares_hit(config, less));
    lemma_total_bounded(config, less);
    share_sum(less, 0) as int
}

/// Tells whether every position with a positive target count is listed by
/// some step.
pub fn is_potentially_reachable(config: &Configuration) -> (ok: bool)
    ensures
        ok == forall|pos: int|
            0 <= pos < config.target_counts.len() && config.target_counts[pos] > 0 ==> exists|i: int|
                0 <= i < config.steps.len() && (#[trigger] config.steps[i])@.contains(pos as usize),
{
    let mut pos: usize = 0;
    while pos < config.target_counts.len()
        invariant
            pos <= config.target_counts.len(),
            forall|p: int|
                0 <= p < pos && config.target_counts[p] > 0 ==> exists|i: int|
                    0 <= i < config.steps.len() && (#[trigger] config.steps[i])@.contains(p as usize),
        decreases config.target_counts.len() - pos,
    {
        if config.target_counts[pos] > 0 {
            let mut has_step: bool = false;
            let mut i: usize = 0;
            while i < config.steps.len()
                invariant
                    i <= config.steps.len(),
                    has_step == exists|a: int| 0 <= a < i && (#[trigger] config.steps[a])@.contains(pos),
                decreases config.steps.len() - i,
            {
                let step: &Vec<usize> = &config.steps[i];
                let mut j: usize = 0;
                let mut here: bool = false;
                while j < step.len()
                    invariant
                        j <= step.len(),
                        here == exists|b: int| 0 <= b < j && step[b] == pos,
                    decreases step.len() - j,
                {
                    if step[j] == pos {
                        here = true;
                    }
                    j = j + 1;
                }
                proof {
                    if here {
                        let b = choose|b: int| 0 <= b < step.len() && step[b] == pos;
                        assert(step@[b] == pos);
                        assert(config.steps[i as int]@.contains(pos));
                    } else {
                        assert(!config.steps[i as int]@.contains(pos)) by {
                            if config.steps[i as int]@.contains(pos) {
                                let b = choose|b: int| 0 <= b < step@.len() && step@[b] == pos;
                                assert(step[b] == pos);
                            }
                        }
                    }
                }
                if here {
                    has_step = true;
                }
                i = i + 1;
            }
            if !has_step {
                proof {
                    assert(config.target_counts[pos as int] > 0);
                    assert(!exists|i: int|
                        0 <= i < config.steps.len() && (#[trigger] config.steps[i])@.contains(pos));
                }
                return false;
            }
        }
        pos = pos + 1;
    }
    true
}

/// Tells whether applying each step as often as its share says gives
/// exactly the target counts.
pub fn shares_match(config: &Configuration, partition: &Vec<usize>) -> (ok: bool)
    requires
        config.wf(),
        partition.len() == config.steps.len(),
    ensures
        ok == shares_hit(config, partition@),
{
    let n: usize = config.target_counts.len();
    let m: usize = config.steps.len();
    let ghost steps = config.steps@;
    let ghost part = partition@;
    let mut counts: Vec<u64> = Vec::new();
    let mut z: usize = 0;
    while z < n
        invariant
            z <= n,
            counts.len() == z,
            forall|r: int| 0 <= r < z ==> counts[r] == 0,
        decreases n - z,
    {
        counts.push(0);
        z = z + 1;
    }
    let mut step_idx: usize = 0;
    while step_idx < m
        invariant
            step_idx <= m,
            config.wf(),
            n == config.target_counts.len(),
            m == config.steps.len(),
            steps == config.steps@,
            part == partition@,
            part.len() == m,
            counts.len() == n,
            forall|r: int|
                0 <= r < n ==> (#[trigger] counts[r]) == list_tally(steps, part, r, step_idx as int) && counts[r]
                    <= config.target_counts[r],
        decreases m - step_idx,
    {
        let times: usize = partition[step_idx];
        let step: &Vec<usize> = &config.steps[step_idx];
        let mut j: usize = 0;
        while j < step.len()
            invariant
                j <= step.len(),
                step_idx < m,
                config.wf(),
                n == config.target_counts.len(),
                m == config.steps.len(),
                steps == config.steps@,
                part == partition@,
                part.len() == m,
                counts.len() == n,
                step@ == steps[step_idx as int]@,
                times == part[step_idx as int],
                forall|r: int|
                    0 <= r < n ==> (#[trigger] counts[r]) == list_tally(steps, part, r, step_idx as int) + times
                        * occurrences(step@, r, j as int) && counts[r] <= config.target_counts[r],
            decreases step.len() - j,
        {
            let pos: usize = step[j];
            proof {
                assert(config.steps[step_idx as int][j as int] < config.endstate.len());
                assert forall|r: int| 0 <= r < n implies times * occurrences(step@, r, j as int + 1) == times
                    * occurrences(step@, r, j as int) + (if r == pos { times as int } else { 0int }) by {
                    let o = occurrences(step@, r, j as int);
                    if r == pos {
                        assert(times * (o + 1) == times * o + times) by (nonlinear_arith);
                    }
                }
            }
            if times as u64 > config.target_counts[pos] - counts[pos] {
                proof {
                    let r = pos as int;
                    lemma_occurrences_mono(step@, r, j as int + 1, step@.len() as int);
                    let o1 = occurrences(step@, r, j as int + 1);
                    let o2 = occurrences(step@, r, step@.len() as int);
                    assert(times * o1 <= times * o2) by (nonlinear_arith)
                        requires
                            o1 <= o2,
                            times >= 0,
                    ;
                    lemma_list_tally_mono(steps, part, r, step_idx as int + 1, m as int);
                    assert(list_tally(steps, part, r, m as int) > config.target_counts[r]);
                }
                return false;
            }
            let cur: u64 = counts[pos];
            counts.set(pos, cur + times as u64);
            j = j + 1;
        }
        step_idx = step_idx + 1;
    }
    let mut r: usize = 0;
    while r < n
        invariant
            r <= n,
            n == config.target_counts.len(),
            m == config.steps.len(),
            steps == config.steps@,
            part == partition@,
            part.len() == m,
            counts.len() == n,
            forall|q: int| 0 <= q < n ==> (#[trigger] counts[q]) == list_tally(steps, part, q, m as int),
            forall|q: int| 0 <= q < r ==> list_tally(steps, part, q, m as int) == config.target_counts[q],
        decreases n - r,
    {
        if counts[r] != config.target_counts[r] {
            proof {
                assert(list_tally(steps, part, r as int, m as int) != config.target_counts[r as int]);
            }
            return false;
        }
        r = r + 1;
    }
    true
}

/// Tries every way to share `remaining` out among the slots from
/// `slot_idx` on, the slots before it being fixed, and stops at the first
/// that gives exactly the target counts.
pub fn generate_partitions_recursive(
    remaining: usize,
    slot_idx: usize,
    num_slots: usize,
    partition: &mut Vec<usize>,
    config: &Configuration,
) -> (found: bool)
    requires
        config.wf(),
        num_slots == config.steps.len(),
        slot_idx < num_slots,
        old(partition).len() == num_slots,
    ensures
        final(partition).len() == num_slots,
        final(partition)@.subrange(0, slot_idx as int) == old(partition)@.subrange(0, slot_idx as int),
        found == completes(config, old(partition)@.subrange(0, slot_idx as int), remaining as int),
        found ==> shares_hit(config, final(partition)@) && share_sum(final(partition)@, slot_idx as int)
            == remaining,
    decreases num_slots - slot_idx,
{
    let ghost prefix = partition@.subrange(0, slot_idx as int);
    if slot_idx == num_slots - 1 {
        partition.set(slot_idx, remaining);
        let ok = shares_match(config, partition);
        proof {
            let full0 = partition@;
            assert(full0.subrange(0, slot_idx as int) =~= prefix);
            assert(share_sum(full0, slot_idx as int + 1) == 0);
            assert(share_sum(full0, slot_idx as int) == remaining);
            if completes(config, prefix, remaining as int) {
                let full = choose|full: Seq<usize>| #[trigger]
                    shares_hit(config, full) && prefix.len() <= full.len() && full.subrange(
                        0,
                        prefix.len() as int,
                    ) =~= prefix && share_sum(full, prefix.len() as int) == remaining;
                assert(share_sum(full, slot_idx as int + 1) == 0);
                assert(full[slot_idx as int] == remaining);
                assert forall|i: int| 0 <= i < full.len() implies full[i] == full0[i] by {
                    if i < slot_idx {
                        assert(full.subrange(0, slot_idx as int)[i] == prefix[i]);
                        assert(full0.subrange(0, slot_idx as int)[i] == prefix[i]);
                    }
                }
                assert(full =~= full0);
            }
        }
        return ok;
    }
    let mut value: usize = 0;
    let mut done: bool = false;
    while !done
        invariant
            config.wf(),
            num_slots == config.steps.len(),
            slot_idx < num_slots - 1,
            partition.len() == num_slots,
            old(partition).len() == num_slots,
            prefix == old(partition)@.subrange(0, slot_idx as int),
            partition@.subrange(0, slot_idx as int) == prefix,
            prefix.len() == slot_idx,
            value <= remaining,
            done ==> value == remaining,
            forall|v: int|
                0 <= v < value + (if done { 1int } else { 0int }) ==> !completes(
                    config,
                    #[trigger] prefix.push(v as usize),
                    remaining - v,
                ),
        decreases remaining - value + (if done { 0int } else { 1int }),
    {
        partition.set(slot_idx, value);
        proof {
            assert(partition@.subrange(0, slot_idx as int) =~= prefix);
            assert(partition@.subrange(0, slot_idx as int + 1) =~= prefix.push(value));
        }
        let ghost before = partition@;
        if generate_partitions_recursive(remaining - value, slot_idx + 1, num_slots, partition, config) {
            proof {
                let full = partition@;
                assert(full.subrange(0, slot_idx as int + 1) == before.subrange(0, slot_idx as int + 1));
                assert(full.subrange(0, slot_idx as int) =~= prefix) by {
                    assert forall|i: int| 0 <= i < slot_idx implies full[i] == prefix[i] by {
                        assert(full.subrange(0, slot_idx as int + 1)[i] == before.subrange(
                            0,
                            slot_idx as int + 1,
                        )[i]);
                        assert(before.subrange(0, slot_idx as int)[i] == prefix[i]);
                    }
                }
                assert(full[slot_idx as int] == value) by {
                    assert(full.subrange(0, slot_idx as int + 1)[slot_idx as int] == before.subrange(
                        0,
                        slot_idx as int + 1,
                    )[slot_idx as int]);
                }
                assert(share_sum(full, slot_idx as int) == remaining);
                assert(shares_hit(config, full) && prefix.len() <= full.len() && full.subrange(
                    0,
                    prefix.len() as int,
                ) =~= prefix && share_sum(full, prefix.len() as int) == remaining);
            }
            return true;
        }
        proof {
            assert(partition@.subrange(0, slot_idx as int) =~= prefix) by {
                assert forall|i: int| 0 <= i < slot_idx implies partition@[i] == prefix[i] by {
                    assert(partition@.subrange(0, slot_idx as int + 1)[i] == before.subrange(
                        0,
                        slot_idx as int + 1,
                    )[i]);
                    assert(before.subrange(0, slot_idx as int)[i] == prefix[i]);
                }
            }
        }
        if value == remaining {
            done = true;
        } else {
            value = value + 1;
        }
    }
    proof {
        if completes(config, prefix, remaining as int) {
            let full = choose|full: Seq<usize>| #[trigger]
                shares_hit(config, full) && prefix.len() <= full.len() && full.subrange(
                    0,
                    prefix.len() as int,
                ) =~= prefix && share_sum(full, prefix.len() as int) == remaining;
            let v = full[slot_idx as int];
            assert(share_sum(full, slot_idx as int) == v + share_sum(full, slot_idx as int + 1));
            assert(full.subrange(0, slot_idx as int + 1) =~= prefix.push(v)) by {
                assert forall|i: int| 0 <= i < slot_idx implies full[i] == prefix[i] by {
                    assert(full.subrange(0, slot_idx as int)[i] == prefix[i]);
                }
            }
            assert(shares_hit(config, full) && prefix.push(v).len() <= full.len() && full.subrange(
                0,
                prefix.push(v).len() as int,
            ) =~= prefix.push(v) && share_sum(full, prefix.push(v).len() as int) == remaining - v);
            assert(completes(config, prefix.push(v), remaining - v));
            let vi: int = v as int;
            assert(vi <= remaining);
            assert(!completes(config, prefix.push(vi as usize), remaining - vi));
        }
    }
    false
}

/// Tries every way to share `total` out among the steps; tells whether
/// one of them gives exactly the target counts.
pub fn generate_partitions(total: usize, num_slots: usize, config: &Configuration) -> (found: bool)
    requires
        config.wf(),
        num_slots == config.steps.len(),
        num_slots >= 1,
    ensures
        found == total_hits(config, total as int),
{
    let mut partition: Vec<usize> = Vec::new();
    let mut i: usize = 0;
    while i < num_slots
        invariant
            i <= num_slots,
            partition.len() == i,
        decreases num_slots - i,
    {
        partition.push(0);
        i = i + 1;
    }
    let ghost start = partition@;
    let found = generate_partitions_recursive(total, 0, num_slots, &mut partition, config);
    proof {
        let empty = start.subrange(0, 0);
        if total_hits(config, total as int) {
            let mult = choose|mult: Seq<usize>| #[trigger] shares_hit(config, mult) && share_sum(mult, 0) == total;
            assert(mult.subrange(0, 0) =~= empty);
            assert(shares_hit(config, mult) && empty.len() <= mult.len() && mult.subrange(0, empty.len() as int)
                =~= empty && share_sum(mult, empty.len() as int) == total);
        }
        if found {
            assert(shares_hit(config, partition@) && share_sum(partition@, 0) == total);
        }
    }
    found
}

/// What is said of counts that are too large.
pub open spec fn too_large_said() -> Seq<char> {
    "Target counts too large: their sum does not fit the machine word"@
}

/// Answers the second question by trying the totals in rising order, up
/// to the sum of the target counts: `Ok(Some(k))` where `k` is the least
/// total for which some shares give exactly the target counts, `Ok(None)`
/// where no shares give them. Fails where the counts are too large.
pub fn find_minimum_steps_part2(config: &Configuration) -> (res: Result<Option<usize>, String>)
    requires
        config.wf(),
    ensures
        match res {
            Ok(Some(k)) => total_hits(config, k as int) && forall|j: int| 0 <= j < k ==> !total_hits(config, j),
            Ok(None) => forall|j: int| !total_hits(config, j),
            Err(msg) => msg@ == too_large_said(),
        },
        res is Err <==> too_large(config),
{
    let n: usize = config.target_counts.len();
    let m: usize = config.steps.len();
    let ghost lists = Seq::new(config.steps@.len(), |i: int| config.steps@[i]@);
    let mut all_zero: bool = true;
    let mut total: usize = 0;
    let mut fits: bool = true;
    let mut r: usize = 0;
    while r < n
        invariant
            r <= n,
            n == config.target_counts.len(),
            all_zero == forall|q: int| 0 <= q < r ==> config.target_counts[q] == 0,
            fits ==> total == count_sum(config.target_counts@, r as int),
            !fits ==> count_sum(config.target_counts@, r as int) > usize::MAX,
        decreases n - r,
    {
        let c: u64 = config.target_counts[r];
        if c != 0 {
            all_zero = false;
        }
        if fits {
            if c > (usize::MAX - total) as u64 {
                fits = false;
            } else {
                total = total + c as usize;
            }
        }
        r = r + 1;
    }
    let ghost named = forall|pos: int|
        0 <= pos < config.target_counts.len() && config.target_counts[pos] > 0 ==> exists|i: int|
            0 <= i < config.steps.len() && (#[trigger] config.steps[i])@.contains(pos as usize);
    proof {
        if named {
            assert forall|pos: int|
                0 <= pos < config.target_counts.len() && config.target_counts@[pos] > 0 implies #[trigger] listed(
                lists,
                pos,
            ) by {
                let i = choose|i: int|
                    0 <= i < config.steps.len() && (#[trigger] config.steps[i])@.contains(pos as usize);
                assert(lists[i].contains(pos as usize));
            }
        }
        if all_listed(lists, config.target_counts@) {
            assert forall|pos: int| 0 <= pos < config.target_counts.len() && #[trigger] config.target_counts[pos]
                > 0 implies exists|i: int|
                0 <= i < config.steps.len() && (#[trigger] config.steps[i])@.contains(pos as usize) by {
                assert(listed(lists, pos));
                let i = choose|i: int| 0 <= i < lists.len() && (#[trigger] lists[i]).contains(pos as usize);
                assert(config.steps[i]@.contains(pos as usize));
            }
        }
        assert(all_listed(lists, config.target_counts@) == named);
    }
    if all_zero {
        proof {
            let zeros = Seq::new(m as nat, |i: int| 0usize);
            assert forall|q: int| 0 <= q < config.target_counts.len() implies #[trigger] list_tally(
                config.steps@,
                zeros,
                q,
                m as int,
            ) == config.target_counts[q] by {
                lemma_zero_shares(config.steps@, zeros, q, m as int);
            }
            lemma_zero_shares(config.steps@, zeros, 0, m as int);
            assert(shares_hit(config, zeros) && share_sum(zeros, 0) == 0);
            lemma_all_zero_sum(config.target_counts@, n as int);
        }
        return Ok(Some(0));
    }
    if !is_potentially_reachable(config) {
        proof {
            let pos = choose|pos: int|
                0 <= pos < config.target_counts.len() && config.target_counts[pos] > 0 && !exists|i: int|
                    0 <= i < config.steps.len() && (#[trigger] config.steps[i])@.contains(pos as usize);
            assert forall|j: int| !total_hits(config, j) by {
                if total_hits(config, j) {
                    let mult = choose|mult: Seq<usize>| #[trigger] shares_hit(config, mult) && share_sum(mult, 0) == j;
                    assert forall|i: int| 0 <= i < config.steps@.len() implies !(#[trigger] config.steps@[i])@.contains(
                        pos as usize,
                    ) by {}
                    lemma_unlisted(config.steps@, mult, pos, m as int);
                    assert(list_tally(config.steps@, mult, pos, m as int) == config.target_counts[pos]);
                }
            }
        }
        return Ok(None);
    }
    if !fits {
        return Err(String::from_str("Target counts too large: their sum does not fit the machine word"));
    }
    proof {
        if m == 0 {
            let pos = choose|pos: int| 0 <= pos < n && config.target_counts[pos] != 0;
            assert(config.target_counts[pos] > 0);
        }
    }
    let mut k: usize = 0;
    let mut done: bool = false;
    while !done
        invariant
            config.wf(),
            m == config.steps.len(),
            m >= 1,
            total == count_sum(config.target_counts@, config.target_counts.len() as int),
            k <= total,
            done ==> k == total,
            forall|j: int| 0 <= j < k + (if done { 1int } else { 0int }) ==> !total_hits(config, j),
            !too_large(config),
        decreases total - k + (if done { 0int } else { 1int }),
    {
        if generate_partitions(k, m, config) {
            return Ok(Some(k));
        }
        if k == total {
            done = true;
        } else {
            k = k + 1;
        }
    }
    proof {
        assert forall|j: int| !total_hits(config, j) by {
            if total_hits(config, j) {
                let low = lemma_hit_below(config, j);
                assert(!total_hits(config, low));
            }
        }
    }
    Ok(None)
}

/// Counts that are all zero add up to zero.
pub proof fn lemma_all_zero_sum(counts: Seq<u64>, k: int)
    requires
        0 <= k <= counts.len(),
        forall|q: int| 0 <= q < k ==> counts[q] == 0,
    ensures
        count_sum(counts, k) == 0,
    decreases k,
{
    if k > 0 {
        lemma_all_zero_sum(counts, k - 1);
    }
}

/// The on/off flags that the bytes `s[from..to]` spell: `true` for each
/// `#`, `false` for each `.`, other bytes being passed over.
pub open spec fn flags_fold(s: Seq<u8>, from: int, to: int) -> Seq<bool>
    decreases to - from,
{
    if to <= from {
        Seq::empty()
    } else if s[to - 1] == ON {
        flags_fold(s, from, to - 1).push(true)
    } else if s[to - 1] == OFF {
        flags_fold(s, from, to - 1).push(false)
    } else {
        flags_fold(s, from, to - 1)
    }
}

/// What a line gives as the state to reach, with the place of the
/// closing bracket: the flags between the first `[` and the first `]`,
/// which must come later and not at once; at most 32 flags.
pub open spec fn endstate_view(s: Seq<u8>) -> Option<(Seq<bool>, int)> {
    let len = s.len() as int;
    let start = next_at(s, 0, len, 91);
    let end = next_at(s, 0, len, 93);
    if start >= len || end >= len || end <= start + 1 || flags_fold(s, start + 1, end).len() > 32 {
        None
    } else {
        Some((flags_fold(s, start + 1, end), end))
    }
}

/// The numbers as machine words.
pub open spec fn as_words(list: Seq<nat>) -> Seq<usize> {
    Seq::new(list.len(), |i: int| list[i] as usize)
}

/// The numbers as 64-bit counts.
pub open spec fn as_counts(list: Seq<nat>) -> Seq<u64> {
    Seq::new(list.len(), |i: int| list[i] as u64)
}

/// What the token `s[a..b]` of the form `(..)` gives as a step: the
/// positions listed, each below `max_pos`.
pub open spec fn step_list(s: Seq<u8>, a: int, b: int, max_pos: int) -> Option<Seq<usize>> {
    match number_list(s, a + 1, b - 1, true, usize::MAX as nat) {
        None => None,
        Some(list) => if forall|i: int| 0 <= i < list.len() ==> #[trigger] list[i] < max_pos {
            Some(as_words(list))
        } else {
            None
        },
    }
}

/// Steps put in front of what the rest of the tokens give.
pub open spec fn with_steps(acc: Seq<Seq<usize>>, rest: Option<Seq<Seq<usize>>>) -> Option<Seq<Seq<usize>>> {
    match rest {
        None => None,
        Some(r) => Some(acc + r),
    }
}

/// What the tokens of `s[pos..to]` give as steps; tokens that are not of
/// the form `(..)` are passed over.
pub open spec fn step_tokens(s: Seq<u8>, pos: int, to: int, max_pos: int) -> Option<Seq<Seq<usize>>>
    decreases to - pos,
{
    let a = trim_lo(s, pos, to);
    if a >= to || a < pos {
        Some(Seq::<Seq<usize>>::empty())
    } else {
        let b = next_space(s, a, to);
        if b <= a || b > to {
            None
        } else if s[a] == 40 && s[b - 1] == 41 {
            match step_list(s, a, b, max_pos) {
                None => None,
                Some(step) => with_steps(seq![step], step_tokens(s, b, to, max_pos)),
            }
        } else {
            step_tokens(s, b, to, max_pos)
        }
    }
}

/// What a line gives as steps: the tokens `(..)` between the closing
/// bracket and the first `{` of the line; at least one.
pub open spec fn steps_view(s: Seq<u8>, end_bracket: int, max_pos: int) -> Option<Seq<Seq<usize>>> {
    let len = s.len() as int;
    let steps_end = next_at(s, 0, len, 123);
    if end_bracket >= len || steps_end < end_bracket + 1 {
        None
    } else {
        match step_tokens(s, end_bracket + 1, steps_end, max_pos) {
            None => None,
            Some(steps) => if steps.len() == 0 {
                None
            } else {
                Some(steps)
            },
        }
    }
}

/// What a line gives as target counts: the numbers between the first `{`
/// and the first `}`, which must come later, separated by commas.
pub open spec fn targets_view(s: Seq<u8>) -> Option<Seq<u64>> {
    let len = s.len() as int;
    let start = next_at(s, 0, len, 123);
    let end = next_at(s, 0, len, 125);
    if start >= len || end >= len || end <= start {
        None
    } else {
        match number_list(s, start + 1, end, true, 0xFFFF_FFFF_FFFF_FFFF) {
            None => None,
            Some(list) => Some(as_counts(list)),
        }
    }
}

/// What is wrong with a line, with the places and numbers it speaks of.
pub enum Fault {
    /// Nothing stands between the brackets.
    EmptyEndstate,
    /// A bracket is missing, or the closing one comes first.
    InvalidBrackets,
    /// The line has no step.
    EmptySteps,
    /// A step names the first position, beyond the second, the largest
    /// there is.
    InvalidPosition(int, int),
    /// The piece between the two places is not a number.
    NotANumber(int, int),
    /// The target pattern has this many positions, more than 32.
    TooLarge(int),
    /// The opening brace of the target counts is missing.
    MissingTargets,
    /// The closing brace of the target counts is missing or misplaced.
    InvalidTargets,
    /// There is not one target count per position.
    MismatchedLength,
    /// The line has this many steps, more than 64.
    TooManySteps(int),
}

/// The error tells of the fault: it is of the same kind and holds the
/// same numbers, or the text of the piece that the fault points at.
pub open spec fn tells(e: ParseError, fault: Fault, s: Seq<u8>) -> bool {
    match fault {
        Fault::EmptyEndstate => e matches ParseError::EmptyEndstate,
        Fault::InvalidBrackets => e matches ParseError::InvalidBrackets,
        Fault::EmptySteps => e matches ParseError::EmptySteps,
        Fault::InvalidPosition(pos, max) => e matches ParseError::InvalidPosition(p, m) && p == pos && m == max,
        Fault::NotANumber(a, b) => e matches ParseError::ParseIntError(text) && text@ == shown(s, a, b),
        Fault::TooLarge(size) => e matches ParseError::ConfigurationTooLarge(n) && n == size,
        Fault::MissingTargets => e matches ParseError::MissingTargets,
        Fault::InvalidTargets => e matches ParseError::InvalidTargets,
        Fault::MismatchedLength => e matches ParseError::MismatchedLength,
        Fault::TooManySteps(count) => e matches ParseError::TooManySteps(n) && n == count,
    }
}

/// The place of the first number from place `i` on that is `max_pos` or
/// more; the length of the list where there is none.
pub open spec fn first_over(list: Seq<nat>, max_pos: int, i: int) -> int
    decreases list.len() - i,
{
    if i < 0 || i >= list.len() {
        list.len() as int
    } else if list[i] >= max_pos {
        i
    } else {
        first_over(list, max_pos, i + 1)
    }
}

/// Where the numbers before place `k` are below `max_pos` and the one at
/// `k` is not, `k` is the first such place.
pub proof fn lemma_first_over(list: Seq<nat>, max_pos: int, i: int, k: int)
    requires
        0 <= i <= k < list.len(),
        forall|j: int| i <= j < k ==> #[trigger] list[j] < max_pos,
        list[k] >= max_pos,
    ensures
        first_over(list, max_pos, i) == k,
    decreases k - i,
{
    if i < k {
        lemma_first_over(list, max_pos, i + 1, k);
    }
}

/// The largest position below `max_pos`; the largest number of the
/// machine where there is no position at all.
pub open spec fn largest_below(max_pos: int) -> int {
    if max_pos == 0 {
        usize::MAX as int
    } else {
        max_pos - 1
    }
}

/// What is wrong with the token `s[a..b]` of the form `(..)` that gives
/// no step: the first piece that is no number, or else the first
/// position beyond the largest.
pub open spec fn token_fault(s: Seq<u8>, a: int, b: int, max_pos: int) -> Fault {
    match number_list(s, a + 1, b - 1, true, usize::MAX as nat) {
        None => Fault::NotANumber(
            bad_piece(s, a + 1, b - 1, true, usize::MAX as nat).0,
            bad_piece(s, a + 1, b - 1, true, usize::MAX as nat).1,
        ),
        Some(list) => Fault::InvalidPosition(list[first_over(list, max_pos, 0)] as int, largest_below(max_pos)),
    }
}

/// What is wrong with the first token of `s[pos..to]` that gives no
/// step.
pub open spec fn tokens_fault(s: Seq<u8>, pos: int, to: int, max_pos: int) -> Fault
    decreases to - pos,
{
    let a = trim_lo(s, pos, to);
    if a >= to || a < pos {
        Fault::EmptySteps
    } else {
        let b = next_space(s, a, to);
        if b <= a || b > to {
            Fault::EmptySteps
        } else if s[a] == 40 && s[b - 1] == 41 && step_list(s, a, b, max_pos) is None {
            token_fault(s, a, b, max_pos)
        } else {
            tokens_fault(s, b, to, max_pos)
        }
    }
}

/// What is wrong with the steps of a line that gives none: the brace
/// comes before the bracket, or a token is in error, or there is no step.
pub open spec fn steps_fault(s: Seq<u8>, end_bracket: int, max_pos: int) -> Fault {
    let len = s.len() as int;
    let steps_end = next_at(s, 0, len, 123);
    if end_bracket >= len || steps_end < end_bracket + 1 {
        Fault::InvalidBrackets
    } else if step_tokens(s, end_bracket + 1, steps_end, max_pos) is None {
        tokens_fault(s, end_bracket + 1, steps_end, max_pos)
    } else {
        Fault::EmptySteps
    }
}

/// What is wrong with the state to reach of a line that gives none.
pub open spec fn endstate_fault(s: Seq<u8>) -> Fault {
    let len = s.len() as int;
    let start = next_at(s, 0, len, 91);
    let end = next_at(s, 0, len, 93);
    if start >= len || end >= len || end <= start {
        Fault::InvalidBrackets
    } else if end == start + 1 {
        Fault::EmptyEndstate
    } else {
        Fault::TooLarge(flags_fold(s, start + 1, end).len() as int)
    }
}

/// What is wrong with the target counts of a line that gives none.
pub open spec fn targets_fault(s: Seq<u8>) -> Fault {
    let len = s.len() as int;
    let start = next_at(s, 0, len, 123);
    let end = next_at(s, 0, len, 125);
    if start >= len {
        Fault::MissingTargets
    } else if end >= len || end <= start {
        Fault::InvalidTargets
    } else {
        Fault::NotANumber(
            bad_piece(s, start + 1, end, true, 0xFFFF_FFFF_FFFF_FFFF).0,
            bad_piece(s, start + 1, end, true, 0xFFFF_FFFF_FFFF_FFFF).1,
        )
    }
}

/// What is wrong with a line in error: the first fault met when the
/// state to reach is read first, then the steps, then the target counts,
/// and their numbers are compared last.
pub open spec fn line_fault(s: Seq<u8>) -> Fault {
    match endstate_view(s) {
        None => endstate_fault(s),
        Some((flags, end)) => match steps_view(s, end, flags.len() as int) {
            None => steps_fault(s, end, flags.len() as int),
            Some(steps) => match targets_view(s) {
                None => targets_fault(s),
                Some(targets) => if targets.len() != flags.len() {
                    Fault::MismatchedLength
                } else {
                    Fault::TooManySteps(steps.len() as int)
                },
            },
        },
    }
}

/// The lists of a step set, as sequences.
pub open spec fn lists_of(steps: Seq<Vec<usize>>) -> Seq<Seq<usize>> {
    Seq::new(steps.len(), |i: int| steps[i]@)
}

/// The configuration holds exactly what the line says: the state to
/// reach, the steps and the target counts, one count per position and no
/// more than 64 steps.
pub open spec fn line_config(s: Seq<u8>, config: &Configuration) -> bool {
    match endstate_view(s) {
        None => false,
        Some((flags, end)) => match (steps_view(s, end, flags.len() as int), targets_view(s)) {
            (Some(steps), Some(targets)) => {
                &&& targets.len() == flags.len()
                &&& steps.len() <= 64
                &&& config.endstate@ == flags
                &&& lists_of(config.steps@) == steps
                &&& config.target_counts@ == targets
                &&& config.wf()
            },
            _ => false,
        },
    }
}

/// The line is in error.
pub open spec fn line_in_error(s: Seq<u8>) -> bool {
    match endstate_view(s) {
        None => true,
        Some((flags, end)) => match (steps_view(s, end, flags.len() as int), targets_view(s)) {
            (Some(steps), Some(targets)) => targets.len() != flags.len() || steps.len() > 64,
            _ => true,
        },
    }
}

/// Reads the state to reach: the `.` and `#` between the first `[` and
/// the first `]`, other characters between them being passed over.
/// Returns the state and the place of the closing bracket.
pub fn parse_endstate(line: &str) -> (res: Result<(Vec<bool>, usize), ParseError>)
    ensures
        match res {
            Ok((endstate, end)) => endstate_view(line.spec_bytes()) == Some((endstate@, end as int)) && endstate.len()
                <= 32 && end < line.spec_bytes().len(),
            Err(e) => endstate_view(line.spec_bytes()) is None && tells(
                e,
                endstate_fault(line.spec_bytes()),
                line.spec_bytes(),
            ),
        },
{
    let s = line.as_bytes();
    let len: usize = s.len();
    let start: usize = match find_byte(s, 0, len, 91) {
        Some(i) => i,
        None => {
            return Err(ParseError::InvalidBrackets);
        },
    };
    let end: usize = match find_byte(s, 0, len, 93) {
        Some(i) => i,
        None => {
            return Err(ParseError::InvalidBrackets);
        },
    };
    if end <= start {
        return Err(ParseError::InvalidBrackets);
    }
    if end == start + 1 {
        return Err(ParseError::EmptyEndstate);
    }
    let mut endstate: Vec<bool> = Vec::new();
    let mut i: usize = start + 1;
    while i < end
        invariant
            start < i <= end < len,
            len == s.len(),
            endstate@ == flags_fold(s@, start + 1, i as int),
        decreases end - i,
    {
        let b: u8 = s[i];
        if b == ON {
            endstate.push(true);
        } else if b == OFF {
            endstate.push(false);
        }
        i = i + 1;
    }
    if endstate.len() > 32 {
        return Err(ParseError::ConfigurationTooLarge(endstate.len()));
    }
    Ok((endstate, end))
}

/// Reads the steps: the tokens `(a,b,..)` between the closing bracket and
/// the first brace, each a list of positions below `max_pos`.
pub fn parse_steps(line: &str, end_bracket: usize, max_pos: usize) -> (res: Result<
    Vec<Vec<usize>>,
    ParseError,
>)
    ensures
        match res {
            Ok(steps) => steps_view(line.spec_bytes(), end_bracket as int, max_pos as int) == Some(lists_of(steps@))
                && steps.len() >= 1 && forall|i: int, j: int|
                0 <= i < steps.len() && 0 <= j < steps[i].len() ==> (#[trigger] steps[i][j]) < max_pos,
            Err(e) => steps_view(line.spec_bytes(), end_bracket as int, max_pos as int) is None && tells(
                e,
                steps_fault(line.spec_bytes(), end_bracket as int, max_pos as int),
                line.spec_bytes(),
            ),
        },
{
    let s = line.as_bytes();
    let len: usize = s.len();
    let steps_end: usize = match find_byte(s, 0, len, 123) {
        Some(i) => i,
        None => len,
    };
    if end_bracket >= len {
        return Err(ParseError::InvalidBrackets);
    }
    let steps_start: usize = end_bracket + 1;
    if steps_end < steps_start {
        return Err(ParseError::InvalidBrackets);
    }
    let ghost whole = step_tokens(s@, steps_start as int, steps_end as int, max_pos as int);
    let mut steps: Vec<Vec<usize>> = Vec::new();
    let mut pos: usize = steps_start;
    proof {
        match step_tokens(s@, pos as int, steps_end as int, max_pos as int) {
            None => {},
            Some(r) => {
                assert(lists_of(steps@) + r =~= r);
            },
        }
    }
    while pos < steps_end
        invariant
            steps_start <= pos <= steps_end <= len,
            len == s.len(),
            s@ == line.spec_bytes(),
            steps_end == next_at(s@, 0, len as int, 123),
            end_bracket < len,
            steps_start == end_bracket + 1,
            whole == step_tokens(s@, steps_start as int, steps_end as int, max_pos as int),
            whole == with_steps(lists_of(steps@), step_tokens(s@, pos as int, steps_end as int, max_pos as int)),
            whole is None ==> tokens_fault(s@, steps_start as int, steps_end as int, max_pos as int) == tokens_fault(
                s@,
                pos as int,
                steps_end as int,
                max_pos as int,
            ),
            forall|i: int, j: int|
                0 <= i < steps.len() && 0 <= j < steps[i].len() ==> (#[trigger] steps[i][j]) < max_pos,
        decreases steps_end - pos,
    {
        let ghost before = lists_of(steps@);
        match next_token(s, pos, steps_end) {
            None => {
                proof {
                    assert(step_tokens(s@, steps_end as int, steps_end as int, max_pos as int) == Some(
                        Seq::<Seq<usize>>::empty(),
                    ));
                }
                pos = steps_end;
            },
            Some((ta, tb)) => {
                let ghost tail = step_tokens(s@, tb as int, steps_end as int, max_pos as int);
                if s[ta] == 40 && s[tb - 1] == 41 {
                    let mut positions: Vec<usize> = Vec::new();
                    let end: usize = tb - 1;
                    let mut x: usize = ta + 1;
                    let mut done: bool = false;
                    let ghost mut acc: Seq<nat> = Seq::empty();
                    proof {
                        match number_list(s@, x as int, end as int, true, usize::MAX as nat) {
                            None => {},
                            Some(r) => {
                                assert(acc + r =~= r);
                            },
                        }
                        assert(positions@ =~= as_words(acc));
                    }
                    while !done
                        invariant
                            ta < x <= end < tb <= len,
                            len == s.len(),
                            s@ == line.spec_bytes(),
                            !done ==> number_list(s@, ta + 1, end as int, true, usize::MAX as nat) == prepend(
                                acc,
                                number_list(s@, x as int, end as int, true, usize::MAX as nat),
                            ),
                            done ==> number_list(s@, ta + 1, end as int, true, usize::MAX as nat) == Some(acc),
                            !done ==> bad_piece(s@, ta + 1, end as int, true, usize::MAX as nat) == bad_piece(
                                s@,
                                x as int,
                                end as int,
                                true,
                                usize::MAX as nat,
                            ),
                            positions@ == as_words(acc),
                            forall|i: int| 0 <= i < acc.len() ==> #[trigger] acc[i] <= usize::MAX,
                            end == tb - 1,
                            steps_end == next_at(s@, 0, len as int, 123),
                            end_bracket < len,
                            steps_start == end_bracket + 1,
                            steps_start <= steps_end,
                            whole == step_tokens(s@, steps_start as int, steps_end as int, max_pos as int),
                            step_list(s@, ta as int, tb as int, max_pos as int) is None ==> whole is None,
                            step_list(s@, ta as int, tb as int, max_pos as int) is None ==> steps_fault(
                                s@,
                                end_bracket as int,
                                max_pos as int,
                            ) == token_fault(s@, ta as int, tb as int, max_pos as int),
                        decreases end - x + (if done { 0int } else { 1int }),
                    {
                        let (pa, pb, stop) = piece_bounds(s, x, end, true);
                        match parse_unsigned(s, pa, pb, usize::MAX as u64) {
                            Some(v) => {
                                let ghost old_acc = acc;
                                positions.push(v as usize);
                                proof {
                                    acc = acc.push(v as nat);
                                    assert(positions@ =~= as_words(acc));
                                    if stop != end {
                                        match number_list(s@, stop as int + 1, end as int, true, usize::MAX as nat) {
                                            None => {},
                                            Some(r) => {
                                                assert(old_acc + (seq![v as nat] + r) =~= acc + r);
                                            },
                                        }
                                    } else {
                                        assert(old_acc + seq![v as nat] =~= acc);
                                    }
                                }
                            },
                            None => {
                                proof {
                                    assert(number_list(s@, x as int, end as int, true, usize::MAX as nat) is None);
                                    assert(bad_piece(s@, x as int, end as int, true, usize::MAX as nat) == (
                                        x as int,
                                        stop as int,
                                    ));
                                    assert(step_list(s@, ta as int, tb as int, max_pos as int) is None);
                                }
                                return Err(ParseError::ParseIntError(piece_text(s, x, stop)));
                            },
                        }
                        if stop == end {
                            done = true;
                        } else {
                            x = stop + 1;
                        }
                    }
                    let mut k: usize = 0;
                    while k < positions.len()
                        invariant
                            k <= positions.len(),
                            positions@ == as_words(acc),
                            forall|i: int| 0 <= i < acc.len() ==> #[trigger] acc[i] <= usize::MAX,
                            forall|j: int| 0 <= j < k ==> positions[j] < max_pos,
                            number_list(s@, ta + 1, tb - 1, true, usize::MAX as nat) == Some(acc),
                            s@ == line.spec_bytes(),
                            steps_end == next_at(s@, 0, s@.len() as int, 123),
                            end_bracket < s@.len(),
                            steps_start == end_bracket + 1,
                            steps_start <= steps_end,
                            whole == step_tokens(s@, steps_start as int, steps_end as int, max_pos as int),
                            step_list(s@, ta as int, tb as int, max_pos as int) is None ==> whole is None,
                            step_list(s@, ta as int, tb as int, max_pos as int) is None ==> steps_fault(
                                s@,
                                end_bracket as int,
                                max_pos as int,
                            ) == token_fault(s@, ta as int, tb as int, max_pos as int),
                        decreases positions.len() - k,
                    {
                        if positions[k] >= max_pos {
                            let largest: usize = if max_pos == 0 {
                                usize::MAX
                            } else {
                                max_pos - 1
                            };
                            proof {
                                assert(acc[k as int] as usize == positions@[k as int]);
                                assert forall|j: int| 0 <= j < k implies #[trigger] acc[j] < max_pos by {
                                    assert(positions@[j] == acc[j] as usize);
                                }
                                lemma_first_over(acc, max_pos as int, 0, k as int);
                                assert(step_list(s@, ta as int, tb as int, max_pos as int) is None);
                            }
                            return Err(ParseError::InvalidPosition(positions[k], largest));
                        }
                        k = k + 1;
                    }
                    proof {
                        assert forall|i: int| 0 <= i < acc.len() implies #[trigger] acc[i] < max_pos by {
                            assert(positions@[i] == acc[i] as usize);
                        }
                        assert(step_list(s@, ta as int, tb as int, max_pos as int) == Some(positions@));
                    }
                    let ghost step = positions@;
                    steps.push(positions);
                    proof {
                        assert(lists_of(steps@) =~= before.push(step));
                        match tail {
                            None => {},
                            Some(r) => {
                                assert(before + (seq![step] + r) =~= lists_of(steps@) + r);
                            },
                        }
                    }
                } else {
                }
                pos = tb;
            },
        }
    }
    proof {
        assert(step_tokens(s@, steps_end as int, steps_end as int, max_pos as int) == Some(Seq::<Seq<usize>>::empty()));
        assert(lists_of(steps@) + Seq::<Seq<usize>>::empty() =~= lists_of(steps@));
    }
    if steps.len() == 0 {
        return Err(ParseError::EmptySteps);
    }
    Ok(steps)
}

/// Reads the target counts: the numbers between the first `{` and the
/// first `}`, separated by commas.
pub fn parse_targets(line: &str) -> (res: Result<Vec<u64>, ParseError>)
    ensures
        match res {
            Ok(targets) => targets_view(line.spec_bytes()) == Some(targets@),
            Err(e) => targets_view(line.spec_bytes()) is None && tells(
                e,
                targets_fault(line.spec_bytes()),
                line.spec_bytes(),
            ),
        },
{
    let s = line.as_bytes();
    let len: usize = s.len();
    let start: usize = match find_byte(s, 0, len, 123) {
        Some(i) => i,
        None => {
            return Err(ParseError::MissingTargets);
        },
    };
    let end: usize = match find_byte(s, 0, len, 125) {
        Some(i) => i,
        None => {
            return Err(ParseError::InvalidTargets);
        },
    };
    if end <= start {
        return Err(ParseError::InvalidTargets);
    }
    let mut targets: Vec<u64> = Vec::new();
    let mut x: usize = start + 1;
    let mut done: bool = false;
    let ghost mut acc: Seq<nat> = Seq::empty();
    proof {
        match number_list(s@, x as int, end as int, true, 0xFFFF_FFFF_FFFF_FFFF) {
            None => {},
            Some(r) => {
                assert(acc + r =~= r);
            },
        }
        assert(targets@ =~= as_counts(acc));
    }
    while !done
        invariant
            start < x <= end < len,
            len == s.len(),
            s@ == line.spec_bytes(),
            start == next_at(s@, 0, len as int, 123),
            end == next_at(s@, 0, len as int, 125),
            !done ==> number_list(s@, start + 1, end as int, true, 0xFFFF_FFFF_FFFF_FFFF) == prepend(
                acc,
                number_list(s@, x as int, end as int, true, 0xFFFF_FFFF_FFFF_FFFF),
            ),
            done ==> number_list(s@, start + 1, end as int, true, 0xFFFF_FFFF_FFFF_FFFF) == Some(acc),
            !done ==> bad_piece(s@, start + 1, end as int, true, 0xFFFF_FFFF_FFFF_FFFF) == bad_piece(
                s@,
                x as int,
                end as int,
                true,
                0xFFFF_FFFF_FFFF_FFFF,
            ),
            targets@ == as_counts(acc),
        decreases end - x + (if done { 0int } else { 1int }),
    {
        let (pa, pb, stop) = piece_bounds(s, x, end, true);
        match parse_unsigned(s, pa, pb, 0xFFFF_FFFF_FFFF_FFFF) {
            Some(v) => {
                let ghost old_acc = acc;
                targets.push(v);
                proof {
                    acc = acc.push(v as nat);
                    assert(targets@ =~= as_counts(acc));
                    if stop != end {
                        match number_list(s@, stop as int + 1, end as int, true, 0xFFFF_FFFF_FFFF_FFFF) {
                            None => {},
                            Some(r) => {
                                assert(old_acc + (seq![v as nat] + r) =~= acc + r);
                            },
                        }
                    } else {
                        assert(old_acc + seq![v as nat] =~= acc);
                    }
                }
            },
            None => {
                proof {
                    assert(number_list(s@, x as int, end as int, true, 0xFFFF_FFFF_FFFF_FFFF) is None);
                    assert(bad_piece(s@, x as int, end as int, true, 0xFFFF_FFFF_FFFF_FFFF) == (x as int, stop as int));
                }
                return Err(ParseError::ParseIntError(piece_text(s, x, stop)));
            },
        }
        if stop == end {
            done = true;
        } else {
            x = stop + 1;
        }
    }
    Ok(targets)
}

/// Reads one line of the form `[.##.] (3) (1,3) {3,5,4,7}`.
pub fn parse_configuration(line: &str) -> (res: Result<Configuration, ParseError>)
    ensures
        match res {
            Ok(config) => line_config(line.spec_bytes(), &config) && config.steps.len() >= 1,
            Err(e) => line_in_error(line.spec_bytes()) && tells(e, line_fault(line.spec_bytes()), line.spec_bytes()),
        },
{
    let (endstate, end_bracket) = match parse_endstate(line) {
        Ok(found) => found,
        Err(e) => {
            return Err(e);
        },
    };
    let steps = match parse_steps(line, end_bracket, endstate.len()) {
        Ok(found) => found,
        Err(e) => {
            return Err(e);
        },
    };
    let targets = match parse_targets(line) {
        Ok(found) => found,
        Err(e) => {
            return Err(e);
        },
    };
    let step_masks = compute_step_masks(steps.as_slice());
    if targets.len() != endstate.len() {
        return Err(ParseError::MismatchedLength);
    }
    if steps.len() > 64 {
        return Err(ParseError::TooManySteps(steps.len()));
    }
    Ok(Configuration { endstate, target_counts: targets, steps, step_masks })
}

/// Builds the message of a line without solution.
pub fn no_solution_text(line_num: usize, tail: &str) -> (msg: String)
    requires
        line_num < usize::MAX,
    ensures
        msg@ == "No solution found for line "@ + decimal_text((line_num + 1) as nat) + ": "@ + tail@,
{
    let mut msg = message_with_number("No solution found for line ", (line_num + 1) as u64, ": ");
    msg.append(tail);
    msg
}

/// The bytes of line `i`.
pub open spec fn line_text(lines: Seq<String>, i: int) -> Seq<u8> {
    vstd::utf8::encode_utf8(lines[i]@)
}

/// `v` answers the question for the configuration: the second question
/// where `counts` is set, else the first.
pub open spec fn config_answer(config: &Configuration, counts: bool, v: u64) -> bool {
    if counts {
        total_hits(config, v as int) && forall|j: int| 0 <= j < v ==> !total_hits(config, j)
    } else {
        exists|goal: u32| #[trigger] is_goal_of(config.endstate@, goal) && is_least_weight(config.step_masks@, goal, v as int)
    }
}

/// The configuration has no answer: its state is unreachable, or no
/// total that the search tries has shares that give its counts.
pub open spec fn config_fails(config: &Configuration, counts: bool) -> bool {
    if counts {
        too_large(config) || forall|j: int| !total_hits(config, j)
    } else {
        exists|goal: u32| #[trigger] is_goal_of(config.endstate@, goal) && !solvable(config.step_masks@, goal)
    }
}

/// `v` is the answer for the line.
pub open spec fn line_answer(s: Seq<u8>, counts: bool, v: u64) -> bool {
    exists|config: Configuration| #[trigger] line_config(s, &config) && config_answer(&config, counts, v)
}

/// The line has no answer: it is in error or its configuration has none.
pub open spec fn line_fails(s: Seq<u8>, counts: bool) -> bool {
    line_in_error(s) || exists|config: Configuration| #[trigger] line_config(s, &config) && config_fails(&config, counts)
}

/// What is said of line `k`, counted from zero, whose configuration has
/// no answer.
pub open spec fn no_solution_said(k: int, counts: bool) -> Seq<char> {
    "No solution found for line "@ + decimal_text((k + 1) as nat) + ": "@ + (if counts {
        "target counts cannot be reached with given steps"@
    } else {
        "target state is unreachable with given steps"@
    })
}

/// The steps and target counts of the line are too large to search.
pub open spec fn line_too_large(s: Seq<u8>) -> bool {
    match endstate_view(s) {
        None => false,
        Some((flags, end)) => match (steps_view(s, end, flags.len() as int), targets_view(s)) {
            (Some(steps), Some(targets)) => too_large_lists(steps, targets),
            _ => false,
        },
    }
}

/// The error tells why line `k` has no answer: what is wrong with it
/// where it is in error, else that its counts are too large, where the
/// second question is asked of such counts, or that it has no solution.
pub open spec fn tells_failure(e: SolveError, s: Seq<u8>, k: int, counts: bool) -> bool {
    if line_in_error(s) {
        e matches SolveError::Parse(fault) && tells(fault, line_fault(s), s)
    } else if counts && line_too_large(s) {
        e matches SolveError::Message(text) && text@ == too_large_said()
    } else {
        e matches SolveError::Message(text) && text@ == no_solution_said(k, counts)
    }
}

/// `answers` holds the answers of the first `k` lines.
pub open spec fn answers_upto(lines: Seq<String>, counts: bool, answers: Seq<u64>, k: int) -> bool {
    &&& answers.len() == k
    &&& 0 <= k <= lines.len()
    &&& forall|i: int| 0 <= i < k ==> line_answer(line_text(lines, i), counts, #[trigger] answers[i])
}

/// What is said where the answer of line `k`, counted from zero, brings
/// the sum beyond 64 bits.
pub open spec fn overflow_said(k: int) -> Seq<char> {
    "Sum of answers does not fit 64 bits at line "@ + decimal_text((k + 1) as nat)
}

/// The error tells that the answer of line `k` brings the sum beyond 64
/// bits.
pub open spec fn tells_overflow(e: SolveError, k: int) -> bool {
    e matches SolveError::Message(text) && text@ == overflow_said(k)
}

/// What a sum over the lines may return: the sum of the answers of all
/// lines; the error that tells why the first line without answer has
/// none; or, at the first line that brings the sum beyond 64 bits, that
/// it does.
pub open spec fn is_sum_over(lines: Seq<String>, counts: bool, res: Result<u64, SolveError>) -> bool {
    match res {
        Ok(total) => exists|answers: Seq<u64>| #[trigger]
            answers_upto(lines, counts, answers, lines.len() as int) && total == answers_sum(
                answers,
                lines.len() as int,
            ),
        Err(e) => exists|answers: Seq<u64>, k: int| #[trigger]
            answers_upto(lines, counts, answers, k) && ((k < lines.len() && line_fails(line_text(lines, k), counts)
                && answers_sum(answers, k) <= u64::MAX && tells_failure(e, line_text(lines, k), k, counts)) || (k >= 1
                && answers_sum(answers, k - 1) <= u64::MAX && answers_sum(answers, k) > u64::MAX && tells_overflow(
                e,
                k - 1,
            ))),
    }
}

/// Sums over the lines the answers to the first question or, where
/// `counts` is set, to the second.
pub fn sum_over_lines(input: &[String], counts: bool) -> (res: Result<u64, SolveError>)
    ensures
        is_sum_over(input@, counts, res),
{
    let mut sum: u64 = 0;
    let mut line_num: usize = 0;
    let ghost mut answers: Seq<u64> = Seq::empty();
    while line_num < input.len()
        invariant
            line_num <= input.len(),
            answers_upto(input@, counts, answers, line_num as int),
            sum == answers_sum(answers, line_num as int),
        decreases input.len() - line_num,
    {
        let ghost s = line_text(input@, line_num as int);
        let config = match parse_configuration(input[line_num].as_str()) {
            Ok(c) => c,
            Err(e) => {
                proof {
                    assert(line_fails(s, counts));
                }
                return Err(SolveError::Parse(e));
            },
        };
        proof {
            assert(line_config(s, &config));
            assert(!line_in_error(s));
            assert(line_too_large(s) == too_large(&config)) by {
                assert(lists_of(config.steps@) =~= Seq::new(config.steps@.len(), |i: int| config.steps@[i]@));
            }
        }
        let outcome = if counts {
            find_minimum_steps_part2(&config)
        } else {
            find_minimum_steps(&config)
        };
        let found = match outcome {
            Ok(f) => f,
            Err(msg) => {
                proof {
                    assert(counts);
                    assert(config_fails(&config, counts));
                }
                return Err(SolveError::Message(msg));
            },
        };
        let steps: usize = match found {
            Some(steps) => steps,
            None => {
                proof {
                    if !counts {
                        let goal = choose|goal: u32| #[trigger]
                            is_goal_of(config.endstate@, goal) && is_answer(config.step_masks@, goal, None);
                        assert(is_goal_of(config.endstate@, goal) && !solvable(config.step_masks@, goal));
                    }
                    assert(config_fails(&config, counts));
                }
                let tail = if counts {
                    "target counts cannot be reached with given steps"
                } else {
                    "target state is unreachable with given steps"
                };
                let text = no_solution_text(line_num, tail);
                proof {
                    assert(text@ =~= no_solution_said(line_num as int, counts));
                }
                return Err(SolveError::Message(text));
            },
        };
        let ghost before = answers;
        proof {
            if !counts {
                let goal = choose|goal: u32| #[trigger]
                    is_goal_of(config.endstate@, goal) && is_answer(config.step_masks@, goal, Some(steps as u64));
                lemma_least_bound(config.step_masks@, goal, steps as int);
            }
            assert(config_answer(&config, counts, steps as u64));
            answers = answers.push(steps as u64);
            crate::toggle::lemma_answers_sum_same(before, answers, line_num as int);
            assert forall|i: int| 0 <= i < line_num + 1 implies line_answer(
                line_text(input@, i),
                counts,
                #[trigger] answers[i],
            ) by {
                if i < line_num {
                    assert(answers[i] == before[i]);
                }
            }
            assert(answers_upto(input@, counts, answers, line_num as int + 1));
            assert(answers_sum(answers, line_num as int + 1) == sum + steps);
        }
        if steps as u64 > u64::MAX - sum {
            let text = message_with_number("Sum of answers does not fit 64 bits at line ", (line_num + 1) as u64, "");
            proof {
                reveal_strlit("");
                assert(text@ =~= overflow_said(line_num as int));
            }
            return Err(SolveError::Message(text));
        }
        sum = sum + steps as u64;
        line_num = line_num + 1;
    }
    Ok(sum)
}

/// Sums, over the lines, the least number of distinct steps that reach
/// each line's state. Fails at the first line that cannot be read or has
/// no solution.
pub fn part1(input: &[String]) -> (res: Result<u64, SolveError>)
    ensures
        is_sum_over(input@, false, res),
{
    sum_over_lines(input, false)
}

/// Sums, over the lines, the least total number of step applications that
/// gives each line's target counts. Fails at the first line that cannot
/// be read, has counts too large to search or has no solution, and where
/// the sum does not fit 64 bits.
pub fn part2(input: &[String]) -> (res: Result<u64, SolveError>)
    ensures
        is_sum_over(input@, true, res),
{
    sum_over_lines(input, true)
}

} // verus!
