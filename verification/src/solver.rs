//! The problem model and the two solvers built on linear algebra: least
//! number of distinct steps by state search or by meeting in the middle on
//! the kernel, and least number of step applications by parity
//! decomposition.
use vstd::prelude::*;
use crate::bits::{
    bit, fits, lemma_bit_ops, lemma_bit_single, lemma_fits_lt, lemma_xor_algebra, lemma_xor_twice,
    lemma_xor_widen, popcount, test_bit, weight, with_bit,
};
use crate::coset::{expand, marked, min_weight_coset};
use vstd::arithmetic::power2::pow2;
use crate::counts::{
    all_zero, feasible, half_part, hits, is_count_answer, is_least_total, is_parity, lemma_compose,
    lemma_decompose, lemma_least_total_bound, lemma_residual_smaller, lemma_same_answer,
    lemma_touch_mono,
    lemma_within_total_mono, lemma_zero_counts, doubled, residual, solvable_counts, sum_counts, tally,
    total, within_total,
};
use crate::gf2::{in_span, kernel_space, lemma_coset_member, lists_free, pinned, reduced, solve_gf2};
use crate::notation::{
    first_other, is_pattern, lemma_first_other, mask_fold, narrowed, number_list, pattern_fold, piece_bounds,
    piece_text, prepend, read_pattern, shown,
};
use crate::text::{
    decimal_text, message_with_number, next_at, next_space, next_token, parse_unsigned, reads_unsigned, trim_lo,
};
use vstd::string::StringSliceAdditionalSpecFns;
use crate::toggle::{answers_sum, checked_sum, lemma_fold_linear, lemma_fold_zero, touch};
use vstd::string::StringExecFns;
use crate::toggle::{
    is_answer, is_least_weight, lemma_reach_bound, lemma_within_back, lemma_within_mono,
    lemma_within_step, lemma_within_zero, reaches, solvable, well_formed, within,
};

verus! {

/// One puzzle instance.
#[derive(Debug)]
pub struct Problem {
    /// Number of positions (at most 32).
    pub num_positions: usize,
    /// The on/off pattern to reach, bit `i` for position `i`.
    pub target: u32,
    /// The pattern of positions that each step touches.
    pub steps: Vec<u32>,
    /// The count to reach at each position; empty where only the on/off
    /// question is asked.
    pub target_counts: Vec<u32>,
}

impl Problem {
    /// The steps and the target lie within the positions, and the counts,
    /// where given, are one per position.
    pub open spec fn wf(&self) -> bool {
        &&& well_formed(self.steps@, self.num_positions as int)
        &&& fits(self.target as u64, self.num_positions as int)
        &&& (self.target_counts.len() == 0 || self.target_counts.len() == self.num_positions)
    }
}

/// What a line of text says of a problem.
pub struct ProblemText {
    /// Number of positions.
    pub n: int,
    /// The on/off pattern to reach.
    pub target: u32,
    /// The pattern of each step.
    pub steps: Seq<u32>,
    /// The target counts; empty where the line gives none.
    pub counts: Seq<u32>,
}

/// What the token `s[a..b]` of the form `{..}` reads as: target counts
/// separated by commas, white space around each being passed over.
pub open spec fn counts_token(s: Seq<u8>, a: int, b: int) -> Option<Seq<u32>> {
    match number_list(s, a + 1, b - 1, true, 0xFFFF_FFFF) {
        None => None,
        Some(list) => Some(narrowed(list)),
    }
}

/// What the token `s[a..b]` of the form `(..)` reads as: the pattern of
/// the positions listed, each below `n`; the empty pattern for `()`.
pub open spec fn step_token(s: Seq<u8>, a: int, b: int, n: int) -> Option<u32> {
    if a + 1 == b - 1 {
        Some(0u32)
    } else {
        match number_list(s, a + 1, b - 1, false, 0xFFFF_FFFF_FFFF_FFFF) {
            None => None,
            Some(list) => if forall|i: int| 0 <= i < list.len() ==> #[trigger] list[i] < n {
                Some(mask_fold(list, list.len() as int) as u32)
            } else {
                None
            },
        }
    }
}

/// Steps and counts put in front of what the rest of a line gives;
/// nothing where the rest is in error.
pub open spec fn glue(
    steps: Seq<u32>,
    counts: Seq<u32>,
    rest: Option<(Seq<u32>, Seq<u32>)>,
) -> Option<(Seq<u32>, Seq<u32>)> {
    match rest {
        None => None,
        Some((st, ct)) => Some((steps + st, counts + ct)),
    }
}

/// What the tokens from place `pos` on give: the steps and the counts, in
/// order; tokens that are neither `(..)` nor `{..}` are passed over.
pub open spec fn tokens_from(s: Seq<u8>, pos: int, n: int) -> Option<(Seq<u32>, Seq<u32>)>
    decreases s.len() - pos,
{
    let len = s.len() as int;
    let a = trim_lo(s, pos, len);
    if a >= len || a < pos {
        Some((Seq::<u32>::empty(), Seq::<u32>::empty()))
    } else {
        let b = next_space(s, a, len);
        if b <= a || b > len {
            None
        } else {
            let tail = tokens_from(s, b, n);
            if s[a] == 123 && s[b - 1] == 125 {
                match counts_token(s, a, b) {
                    None => None,
                    Some(cs) => glue(Seq::<u32>::empty(), cs, tail),
                }
            } else if s[a] == 40 && s[b - 1] == 41 {
                match step_token(s, a, b, n) {
                    None => None,
                    Some(mask) => glue(seq![mask], Seq::<u32>::empty(), tail),
                }
            } else {
                tail
            }
        }
    }
}

/// The problem that steps and counts make with a target: there must be a
/// step, fewer than 64 steps, and no counts or one per position.
pub open spec fn finish(n: int, target: u32, found: Option<(Seq<u32>, Seq<u32>)>) -> Option<ProblemText> {
    match found {
        None => None,
        Some((steps, counts)) => if steps.len() == 0 || steps.len() >= 64 || (counts.len() != 0 && counts.len()
            != n) {
            None
        } else {
            Some(ProblemText { n, target, steps, counts })
        },
    }
}

/// What a line reads as: the first token is the target pattern in
/// brackets, of one to 32 positions; the tokens after it give the steps
/// and the counts. `None` where the line is in error.
pub open spec fn parse_view(s: Seq<u8>) -> Option<ProblemText> {
    let len = s.len() as int;
    let a = trim_lo(s, 0, len);
    if a >= len {
        None
    } else {
        let b = next_space(s, a, len);
        let n = b - a - 2;
        if s[a] != 91 || s[b - 1] != 93 || n < 1 || n > 32 || !is_pattern(s, a + 1, b - 1) {
            None
        } else {
            finish(n, pattern_fold(s, a + 1, n) as u32, tokens_from(s, b, n))
        }
    }
}

/// What is said of the step listed in `s[x..end]` where it is in error:
/// of its first piece that is no number or names no position.
pub open spec fn step_message(s: Seq<u8>, x: int, end: int, n: int) -> Seq<char>
    decreases end - x,
{
    let c = next_at(s, x, end, crate::notation::COMMA);
    match reads_unsigned(s, x, c, 0xFFFF_FFFF_FFFF_FFFF) {
        None => "Invalid number in step"@,
        Some(v) => if v >= n {
            "Step index "@ + decimal_text(v) + " out of bounds (size "@ + decimal_text(n as nat) + ")"@
        } else if c >= end || c < x {
            Seq::empty()
        } else {
            step_message(s, c + 1, end, n)
        },
    }
}

/// What is said of the tokens from place `pos` on where one is in error:
/// of the first such token.
pub open spec fn tokens_message(s: Seq<u8>, pos: int, n: int) -> Seq<char>
    decreases s.len() - pos,
{
    let len = s.len() as int;
    let a = trim_lo(s, pos, len);
    if a >= len || a < pos {
        Seq::empty()
    } else {
        let b = next_space(s, a, len);
        if b <= a || b > len {
            Seq::empty()
        } else if s[a] == 123 && s[b - 1] == 125 {
            if counts_token(s, a, b) is None {
                "Invalid number in target counts"@
            } else {
                tokens_message(s, b, n)
            }
        } else if s[a] == 40 && s[b - 1] == 41 {
            if step_token(s, a, b, n) is None {
                step_message(s, a + 1, b - 1, n)
            } else {
                tokens_message(s, b, n)
            }
        } else {
            tokens_message(s, b, n)
        }
    }
}

/// What is said of a line whose target pattern reads, with `n`
/// positions, and whose first token ends at `b`.
pub open spec fn rest_message(s: Seq<u8>, b: int, n: int) -> Seq<char> {
    match tokens_from(s, b, n) {
        None => tokens_message(s, b, n),
        Some((steps, counts)) => if steps.len() == 0 {
            "No steps provided"@
        } else if steps.len() >= 64 {
            "Too many steps: "@ + decimal_text(steps.len())
        } else {
            "Target counts length "@ + decimal_text(counts.len()) + " does not match positions "@ + decimal_text(
                n as nat,
            )
        },
    }
}

/// What is said of a line in error: the message of the first fault met
/// from the left.
pub open spec fn parse_message(s: Seq<u8>) -> Seq<char> {
    let len = s.len() as int;
    let a = trim_lo(s, 0, len);
    if a >= len {
        "Empty input"@
    } else {
        let b = next_space(s, a, len);
        let n = b - a - 2;
        if s[a] != 91 || s[b - 1] != 93 {
            "Invalid endstate format"@
        } else if n == 0 {
            "Endstate cannot be empty"@
        } else if n > 32 {
            "Too many positions: "@ + decimal_text(n as nat)
        } else if !is_pattern(s, a + 1, b - 1) {
            "Invalid char in endstate: "@ + shown(s, first_other(s, a + 1, b - 1), first_other(s, a + 1, b - 1) + 1)
        } else {
            rest_message(s, b, n)
        }
    }
}

/// The text says exactly what the problem holds.
pub open spec fn says(text: ProblemText, p: &Problem) -> bool {
    &&& text.n == p.num_positions
    &&& text.target == p.target
    &&& text.steps == p.steps@
    &&& text.counts == p.target_counts@
}

impl Problem {
    /// Reads one line of the form `[.##.] (3) (1,3) {3,5,4,7}`: the target
    /// pattern in brackets, then steps in parentheses and target counts in
    /// braces, separated by white space. Other tokens are passed over.
    #[verifier::rlimit(60)]
    pub fn parse(input: &str) -> (res: Result<Problem, String>)
        ensures
            match res {
                Ok(p) => parse_view(input.spec_bytes()) matches Some(text) && says(text, &p) && p.wf() && 1
                    <= p.num_positions <= 32 && 1 <= p.steps.len() < 64,
                Err(e) => parse_view(input.spec_bytes()) is None && e@ == parse_message(input.spec_bytes()),
            },
    {
        let s = input.as_bytes();
        let len: usize = s.len();
        let (a, b) = match next_token(s, 0, len) {
            Some(t) => t,
            None => {
                return Err(String::from_str("Empty input"));
            },
        };
        if s[a] != 91 || s[b - 1] != 93 {
            return Err(String::from_str("Invalid endstate format"));
        }
        let ca: usize = a + 1;
        let cb: usize = b - 1;
        if ca == cb {
            return Err(String::from_str("Endstate cannot be empty"));
        }
        let num_positions: usize = cb - ca;
        if num_positions > 32 {
            let msg = message_with_number("Too many positions: ", num_positions as u64, "");
            proof {
                reveal_strlit("");
                assert(msg@ =~= "Too many positions: "@ + decimal_text(num_positions as nat));
            }
            return Err(msg);
        }
        let target: u32 = match read_pattern(s, ca, cb) {
            Ok(t) => t,
            Err(at) => {
                let mut msg = String::from_str("Invalid char in endstate: ");
                let shown = piece_text(s, at, at + 1);
                msg.append(shown.as_str());
                proof {
                    assert(!(s@[at as int] == crate::notation::ON || s@[at as int] == crate::notation::OFF));
                    lemma_first_other(s@, ca as int, cb as int, at as int);
                }
                return Err(msg);
            },
        };
        let ghost n = num_positions as int;
        let ghost whole = tokens_from(s@, b as int, n);
        let ghost said = parse_message(s@);
        proof {
            assert(parse_view(s@) == finish(n, target, whole));
            assert(said == rest_message(s@, b as int, n));
        }
        let mut steps: Vec<u32> = Vec::new();
        let mut steps_found: bool = false;
        let mut target_counts: Vec<u32> = Vec::new();
        let mut pos: usize = b;
        proof {
            assert(glue(steps@, target_counts@, tokens_from(s@, pos as int, n)) == whole) by {
                match tokens_from(s@, pos as int, n) {
                    None => {},
                    Some((st, ct)) => {
                        assert(steps@ + st =~= st);
                        assert(target_counts@ + ct =~= ct);
                    },
                }
            }
        }
        while pos < len
            invariant
                pos <= len,
                len == s.len(),
                s@ == input.spec_bytes(),
                n == num_positions,
                1 <= num_positions <= 32,
                steps_found == (steps.len() > 0),
                forall|i: int| 0 <= i < steps.len() ==> fits(#[trigger] steps[i] as u64, num_positions as int),
                fits(target as u64, n),
                parse_view(s@) == finish(n, target, whole),
                glue(steps@, target_counts@, tokens_from(s@, pos as int, n)) == whole,
                whole == tokens_from(s@, b as int, n),
                said == parse_message(s@),
                said == rest_message(s@, b as int, n),
                whole is None ==> said == tokens_message(s@, pos as int, n),
            decreases len - pos,
        {
            let ghost here = tokens_from(s@, pos as int, n);
            let ghost steps_before = steps@;
            let ghost counts_before = target_counts@;
            match next_token(s, pos, len) {
                None => {
                    proof {
                        assert(here == tokens_from(s@, len as int, n));
                    }
                    pos = len;
                },
                Some((ta, tb)) => {
                    let ghost tail = tokens_from(s@, tb as int, n);
                    if s[ta] == 123 && s[tb - 1] == 125 {
                        let mut x: usize = ta + 1;
                        let end: usize = tb - 1;
                        let mut done: bool = false;
                        let ghost mut acc: Seq<nat> = Seq::empty();
                        proof {
                            assert(counts_token(s@, ta as int, tb as int) is None ==> parse_view(s@) is None);
                            assert(counts_token(s@, ta as int, tb as int) is None ==> said
                                == "Invalid number in target counts"@);
                            assert(prepend(acc, number_list(s@, x as int, end as int, true, 0xFFFF_FFFF)) == number_list(
                                s@,
                                x as int,
                                end as int,
                                true,
                                0xFFFF_FFFF,
                            )) by {
                                match number_list(s@, x as int, end as int, true, 0xFFFF_FFFF) {
                                    None => {},
                                    Some(r) => {
                                        assert(acc + r =~= r);
                                    },
                                }
                            }
                            assert(target_counts@ =~= counts_before + narrowed(acc));
                        }
                        while !done
                            invariant
                                ta < x <= end < tb <= len,
                                len == s.len(),
                                s@ == input.spec_bytes(),
                                counts_token(s@, ta as int, tb as int) is None ==> parse_view(s@) is None,
                                said == parse_message(s@),
                                counts_token(s@, ta as int, tb as int) is None ==> said
                                    == "Invalid number in target counts"@,
                                !done ==> number_list(s@, ta + 1, end as int, true, 0xFFFF_FFFF) == prepend(
                                    acc,
                                    number_list(s@, x as int, end as int, true, 0xFFFF_FFFF),
                                ),
                                done ==> number_list(s@, ta + 1, end as int, true, 0xFFFF_FFFF) == Some(acc),
                                target_counts@ == counts_before + narrowed(acc),
                                end == tb - 1,
                            decreases end - x + (if done { 0int } else { 1int }),
                        {
                            let (pa, pb, stop) = piece_bounds(s, x, end, true);
                            match parse_unsigned(s, pa, pb, 0xFFFF_FFFF) {
                                Some(v) => {
                                    let ghost old_acc = acc;
                                    target_counts.push(v as u32);
                                    proof {
                                        acc = acc.push(v as nat);
                                        assert(target_counts@ =~= counts_before + narrowed(acc));
                                        if stop != end {
                                            match number_list(s@, stop as int + 1, end as int, true, 0xFFFF_FFFF) {
                                                None => {},
                                                Some(r) => {
                                                    assert(old_acc + (seq![v as nat] + r) =~= acc + r);
                                                },
                                            }
                                        } else {
                                            assert(old_acc + seq![v as nat] =~= acc);
                                        }
                                    }
                                },
                                None => {
                                    proof {
                                        assert(number_list(s@, x as int, end as int, true, 0xFFFF_FFFF) is None);
                                        assert(counts_token(s@, ta as int, tb as int) is None);
                                    }
                                    return Err(String::from_str("Invalid number in target counts"));
                                },
                            }
                            if stop == end {
                                done = true;
                            } else {
                                x = stop + 1;
                            }
                        }
                        proof {
                            let cs = narrowed(acc);
                            assert(counts_token(s@, ta as int, tb as int) == Some(cs));
                            assert(here == glue(Seq::<u32>::empty(), cs, tail));
                            match tail {
                                None => {},
                                Some((st, ct)) => {
                                    assert(Seq::<u32>::empty() + st =~= st);
                                    assert(counts_before + (cs + ct) =~= target_counts@ + ct);
                                },
                            }
                        }
                    } else if s[ta] == 40 && s[tb - 1] == 41 {
                        steps_found = true;
                        let mut step_wide: u64 = 0;
                        let mut x: usize = ta + 1;
                        let end: usize = tb - 1;
                        proof {
                            lemma_bit_single(0);
                            assert(step_token(s@, ta as int, tb as int, n) is None ==> parse_view(s@) is None);
                            assert(step_token(s@, ta as int, tb as int, n) is None ==> said == step_message(
                                s@,
                                ta + 1,
                                tb - 1,
                                n,
                            ));
                        }
                        if x < end {
                            let mut done: bool = false;
                            let ghost mut acc: Seq<nat> = Seq::empty();
                            proof {
                                assert(prepend(acc, number_list(s@, x as int, end as int, false, 0xFFFF_FFFF_FFFF_FFFF))
                                    == number_list(s@, x as int, end as int, false, 0xFFFF_FFFF_FFFF_FFFF)) by {
                                    match number_list(s@, x as int, end as int, false, 0xFFFF_FFFF_FFFF_FFFF) {
                                        None => {},
                                        Some(r) => {
                                            assert(acc + r =~= r);
                                        },
                                    }
                                }
                            }
                            while !done
                                invariant
                                    ta < x <= end < tb <= len,
                                    ta + 1 < end,
                                    len == s.len(),
                                    s@ == input.spec_bytes(),
                                    n == num_positions,
                                    1 <= num_positions <= 32,
                                    step_token(s@, ta as int, tb as int, n) is None ==> parse_view(s@) is None,
                                    said == parse_message(s@),
                                    !done && step_token(s@, ta as int, tb as int, n) is None ==> said == step_message(
                                        s@,
                                        x as int,
                                        end as int,
                                        n,
                                    ),
                                    !done ==> number_list(s@, ta + 1, end as int, false, 0xFFFF_FFFF_FFFF_FFFF) == prepend(
                                        acc,
                                        number_list(s@, x as int, end as int, false, 0xFFFF_FFFF_FFFF_FFFF),
                                    ),
                                    done ==> number_list(s@, ta + 1, end as int, false, 0xFFFF_FFFF_FFFF_FFFF) == Some(acc),
                                    forall|i: int| 0 <= i < acc.len() ==> #[trigger] acc[i] < n,
                                    step_wide == mask_fold(acc, acc.len() as int),
                                    fits(step_wide, n),
                                    end == tb - 1,
                                decreases end - x + (if done { 0int } else { 1int }),
                            {
                                let (pa, pb, stop) = piece_bounds(s, x, end, false);
                                let idx: u64 = match parse_unsigned(s, pa, pb, 0xFFFF_FFFF_FFFF_FFFF) {
                                    Some(v) => v,
                                    None => {
                                        proof {
                                            assert(number_list(s@, x as int, end as int, false, 0xFFFF_FFFF_FFFF_FFFF) is None);
                                            assert(step_token(s@, ta as int, tb as int, n) is None);
                                        }
                                        return Err(String::from_str("Invalid number in step"));
                                    },
                                };
                                let ghost old_acc = acc;
                                proof {
                                    acc = acc.push(idx as nat);
                                    if stop != end {
                                        match number_list(s@, stop as int + 1, end as int, false, 0xFFFF_FFFF_FFFF_FFFF) {
                                            None => {},
                                            Some(r) => {
                                                assert(old_acc + (seq![idx as nat] + r) =~= acc + r);
                                                assert((acc + r)[old_acc.len() as int] == idx);
                                            },
                                        }
                                    } else {
                                        assert(old_acc + seq![idx as nat] =~= acc);
                                    }
                                    assert(acc[old_acc.len() as int] == idx);
                                }
                                if idx >= num_positions as u64 {
                                    let mut msg = message_with_number("Step index ", idx, " out of bounds (size ");
                                    let size = message_with_number("", num_positions as u64, ")");
                                    msg.append(size.as_str());
                                    proof {
                                        match number_list(s@, ta + 1, end as int, false, 0xFFFF_FFFF_FFFF_FFFF) {
                                            None => {},
                                            Some(full) => {
                                                assert(full[old_acc.len() as int] == idx);
                                            },
                                        }
                                        assert(step_token(s@, ta as int, tb as int, n) is None);
                                        assert(msg@ =~= "Step index "@ + decimal_text(idx as nat) + " out of bounds (size "@
                                            + decimal_text(n as nat) + ")"@) by {
                                            reveal_strlit("");
                                        }
                                    }
                                    return Err(msg);
                                }
                                step_wide = with_bit(step_wide, idx as usize);
                                proof {
                                    assert(acc.drop_last() =~= old_acc);
                                    crate::notation::lemma_mask_fold_same(old_acc, acc, old_acc.len() as int);
                                }
                                if stop == end {
                                    done = true;
                                } else {
                                    x = stop + 1;
                                }
                            }
                        }
                        proof {
                            assert(fits(step_wide, 32));
                            lemma_fits_lt(step_wide, 32);
                        }
                        let step_mask: u32 = step_wide as u32;
                        steps.push(step_mask);
                        proof {
                            assert(step_token(s@, ta as int, tb as int, n) == Some(step_mask));
                            assert(here == glue(seq![step_mask], Seq::<u32>::empty(), tail));
                            match tail {
                                None => {},
                                Some((st, ct)) => {
                                    assert(Seq::<u32>::empty() + ct =~= ct);
                                    assert(steps_before + (seq![step_mask] + st) =~= steps@ + st);
                                },
                            }
                        }
                    } else {
                        proof {
                            assert(here == tail);
                        }
                    }
                    pos = tb;
                },
            }
        }
        proof {
            assert(tokens_from(s@, len as int, n) == Some((Seq::<u32>::empty(), Seq::<u32>::empty())));
            assert(steps@ + Seq::<u32>::empty() =~= steps@);
            assert(target_counts@ + Seq::<u32>::empty() =~= target_counts@);
            assert(whole == Some((steps@, target_counts@)));
        }
        if !steps_found {
            return Err(String::from_str("No steps provided"));
        }
        if steps.len() >= 64 {
            let msg = message_with_number("Too many steps: ", steps.len() as u64, "");
            proof {
                reveal_strlit("");
                assert(msg@ =~= "Too many steps: "@ + decimal_text(steps.len() as nat));
            }
            return Err(msg);
        }
        if target_counts.len() != 0 && target_counts.len() != num_positions {
            let mut msg = message_with_number(
                "Target counts length ",
                target_counts.len() as u64,
                " does not match positions ",
            );
            let tail = message_with_number("", num_positions as u64, "");
            msg.append(tail.as_str());
            proof {
                reveal_strlit("");
                assert(msg@ =~= "Target counts length "@ + decimal_text(target_counts.len() as nat)
                    + " does not match positions "@ + decimal_text(n as nat));
            }
            return Err(msg);
        }
        Ok(Problem { num_positions, target, steps, target_counts })
    }
}

/// The two ways to answer the first question.
#[derive(Clone, Copy, PartialEq, Eq, Debug)]
pub enum Strategy {
    /// Breadth-first search over the `2^n` states.
    StateSearch,
    /// Meet in the middle on the kernel of the step matrix.
    KernelSearch,
}

/// Which strategy is run for `n` positions and `m` steps. The kernel has
/// about `k = m - min(n, m)` dimensions; state search is taken for small
/// `n`, and for middling `n` where `2^k` is at least `2^n * m`.
pub open spec fn strategy_for(n: int, m: int) -> Strategy {
    let k = if n < m { m - n } else { 0 };
    if n <= 20 {
        Strategy::StateSearch
    } else if n > 26 {
        Strategy::KernelSearch
    } else if m >= 1 && (k < n || vstd::arithmetic::power2::pow2((k - n) as nat) < m) {
        Strategy::KernelSearch
    } else {
        Strategy::StateSearch
    }
}

/// Picks the strategy for `n` positions and `m` steps.
pub fn choose_strategy(n: usize, m: usize) -> (s: Strategy)
    requires
        n <= 32,
        m <= 64,
    ensures
        s == strategy_for(n as int, m as int),
{
    let k: usize = if n < m { m - n } else { 0 };
    if n <= 20 {
        Strategy::StateSearch
    } else if n > 26 {
        Strategy::KernelSearch
    } else if m >= 1 && k < n {
        Strategy::KernelSearch
    } else if m >= 1 {
        // Here 21 <= n <= 26 and k >= n, so 42 <= m <= 64 and k - n <= 22.
        let shift: usize = k - n;
        let mut bound: usize = 1;
        let mut i: usize = 0;
        proof {
            vstd::arithmetic::power2::lemma2_to64();
        }
        while i < shift
            invariant
                i <= shift <= 22,
                bound == vstd::arithmetic::power2::pow2(i as nat),
                bound <= 0x40_0000,
            decreases shift - i,
        {
            proof {
                vstd::arithmetic::power2::lemma_pow2_unfold((i + 1) as nat);
                vstd::arithmetic::power2::lemma_pow2_strictly_increases(i as nat, 23);
                vstd::arithmetic::power2::lemma2_to64();
            }
            bound = bound * 2;
            i = i + 1;
            proof {
                if i < 22 {
                    vstd::arithmetic::power2::lemma_pow2_strictly_increases(i as nat, 22);
                }
                vstd::arithmetic::power2::lemma2_to64();
            }
        }
        if bound < m {
            Strategy::KernelSearch
        } else {
            Strategy::StateSearch
        }
    } else {
        Strategy::StateSearch
    }
}

/// Every recorded distance is at most `hi` and is the least number of steps
/// that reach its state.
pub open spec fn known(steps: Seq<u32>, dist: Seq<u8>, hi: int) -> bool {
    forall|s: u32|
        (s as int) < dist.len() && (#[trigger] dist[s as int]) != 255 ==> dist[s as int] <= hi
            && is_least_weight(steps, s, dist[s as int] as int)
}

/// Every state that `d` steps reach has its distance recorded.
pub open spec fn complete(steps: Seq<u32>, dist: Seq<u8>, d: int) -> bool {
    forall|s: u32| (s as int) < dist.len() && within(steps, s, d) ==> (#[trigger] dist[s as int]) <= d
}

/// `list` holds exactly the states at distance `d`.
pub open spec fn layer(dist: Seq<u8>, list: Seq<u32>, d: int) -> bool {
    &&& forall|j: int|
        0 <= j < list.len() ==> ((#[trigger] list[j]) as int) < dist.len() && dist[list[j] as int] == d
    &&& forall|s: u32| (s as int) < dist.len() && (#[trigger] dist[s as int]) == d ==> list.contains(s)
}

/// Every neighbour of the frontier states before index `fi`, and the first
/// `si` neighbours of state `fi`, have a distance recorded.
pub open spec fn expanded(steps: Seq<u32>, dist: Seq<u8>, frontier: Seq<u32>, fi: int, si: int) -> bool {
    forall|j: int, i: int|
        0 <= j < frontier.len() && 0 <= i < steps.len() && (j < fi || (j == fi && i < si)) ==> ((
        #[trigger] frontier[j] ^ #[trigger] steps[i]) as int) < dist.len() && dist[(frontier[j]
            ^ steps[i]) as int] != 255
}

/// The neighbour of a state within `n` positions lies within `n` positions.
pub proof fn lemma_state_closed(s: u32, step: u32, n: int)
    requires
        0 <= n <= 32,
        (s as u64) < (1u64 << (n as u64)),
        fits(step as u64, n),
    ensures
        ((s ^ step) as u64) < (1u64 << (n as u64)),
{
    lemma_fits_lt(s as u64, n);
    lemma_xor_widen(s, step);
    lemma_bit_ops(s as u64, step as u64);
    lemma_fits_lt((s ^ step) as u64, n);
}

/// Recording distance `d + 1` for a newly met neighbour `t` of a frontier
/// state keeps the search's bookkeeping true.
pub proof fn lemma_mark(
    steps: Seq<u32>,
    dist: Seq<u8>,
    frontier: Seq<u32>,
    next: Seq<u32>,
    d: int,
    fi: int,
    si: int,
    t: u32,
)
    requires
        steps.len() <= 64,
        0 <= d < 64,
        0 <= fi < frontier.len(),
        0 <= si < steps.len(),
        known(steps, dist, d + 1),
        complete(steps, dist, d),
        layer(dist, frontier, d),
        layer(dist, next, d + 1),
        expanded(steps, dist, frontier, fi, si),
        t == frontier[fi] ^ steps[si],
        (t as int) < dist.len(),
        dist[t as int] == 255,
    ensures
        is_least_weight(steps, t, d + 1),
        known(steps, dist.update(t as int, (d + 1) as u8), d + 1),
        complete(steps, dist.update(t as int, (d + 1) as u8), d),
        layer(dist.update(t as int, (d + 1) as u8), frontier, d),
        layer(dist.update(t as int, (d + 1) as u8), next.push(t), d + 1),
        expanded(steps, dist.update(t as int, (d + 1) as u8), frontier, fi, si + 1),
{
    let s = frontier[fi];
    let dist2 = dist.update(t as int, (d + 1) as u8);
    let next2 = next.push(t);
    assert(dist[s as int] == d);
    assert(is_least_weight(steps, s, d));
    lemma_within_step(steps, s, d, si);
    if within(steps, t, d) {
        assert(dist[t as int] <= d);
    }
    assert(is_least_weight(steps, t, d + 1));
    assert forall|q: u32| (q as int) < dist2.len() && (#[trigger] dist2[q as int]) != 255 implies dist2[q as int]
        <= d + 1 && is_least_weight(steps, q, dist2[q as int] as int) by {
        if q != t {
            assert(dist[q as int] != 255);
        }
    }
    assert forall|q: u32| (q as int) < dist2.len() && within(steps, q, d) implies (#[trigger] dist2[q as int])
        <= d by {
        assert(dist[q as int] <= d);
    }
    assert forall|j: int| 0 <= j < frontier.len() implies ((#[trigger] frontier[j]) as int) < dist2.len()
        && dist2[frontier[j] as int] == d by {
        assert(dist[frontier[j] as int] == d);
    }
    assert forall|q: u32| (q as int) < dist2.len() && (#[trigger] dist2[q as int]) == d implies frontier.contains(
        q,
    ) by {
        assert(dist[q as int] == d);
    }
    assert forall|j: int| 0 <= j < next2.len() implies ((#[trigger] next2[j]) as int) < dist2.len()
        && dist2[next2[j] as int] == d + 1 by {
        if j < next.len() {
            assert(next2[j] == next[j]);
            assert(dist[next[j] as int] == d + 1);
        }
    }
    assert forall|q: u32| (q as int) < dist2.len() && (#[trigger] dist2[q as int]) == d + 1 implies next2.contains(
        q,
    ) by {
        if q == t {
            assert(next2[next.len() as int] == t);
        } else {
            assert(dist[q as int] == d + 1);
            let j = choose|j: int| 0 <= j < next.len() && next[j] == q;
            assert(next2[j] == q);
        }
    }
    assert forall|j: int, i: int|
        0 <= j < frontier.len() && 0 <= i < steps.len() && (j < fi || (j == fi && i < si + 1)) implies ((
    #[trigger] frontier[j] ^ #[trigger] steps[i]) as int) < dist2.len() && dist2[(frontier[j]
        ^ steps[i]) as int] != 255 by {
        if j == fi && i == si {
        } else {
            assert(dist[(frontier[j] ^ steps[i]) as int] != 255);
        }
    }
}

/// Once every neighbour of the frontier at distance `d` has a distance
/// recorded, every state that `d + 1` steps reach has one.
pub proof fn lemma_level_done(steps: Seq<u32>, dist: Seq<u8>, frontier: Seq<u32>, d: int, n: int)
    requires
        well_formed(steps, n),
        dist.len() == (1u64 << (n as u64)),
        0 <= d < 64,
        known(steps, dist, d + 1),
        complete(steps, dist, d),
        layer(dist, frontier, d),
        expanded(steps, dist, frontier, frontier.len() as int, 0),
    ensures
        complete(steps, dist, d + 1),
{
    assert forall|q: u32| (q as int) < dist.len() && within(steps, q, d + 1) implies (#[trigger] dist[q as int])
        <= d + 1 by {
        if within(steps, q, d) {
            assert(dist[q as int] <= d);
        } else {
            let i = lemma_within_back(steps, q, d);
            let s = q ^ steps[i];
            assert(fits(steps[i] as u64, n));
            lemma_state_closed(q, steps[i], n);
            lemma_xor_twice(q, steps[i]);
            assert(dist[s as int] <= d);
            assert(is_least_weight(steps, s, dist[s as int] as int));
            if dist[s as int] < d {
                lemma_within_step(steps, s, dist[s as int] as int, i);
                lemma_within_mono(steps, q, dist[s as int] + 1, d);
            }
            assert(frontier.contains(s));
            let j = choose|j: int| 0 <= j < frontier.len() && frontier[j] == s;
            assert(dist[(frontier[j] ^ steps[i]) as int] != 255);
        }
    }
}

/// Answers the first question by breadth-first search from the all-off
/// state, one layer of states per number of steps, with a table of `2^n`
/// distances.
pub fn solve_part1_bfs(p: &Problem) -> (res: Option<u64>)
    requires
        p.wf(),
        p.num_positions <= 26,
    ensures
        is_answer(p.steps@, p.target, res),
{
    let n: usize = p.num_positions;
    let m: usize = p.steps.len();
    let ghost steps = p.steps@;
    proof {
        lemma_fits_lt(p.target as u64, n as int);
        lemma_within_zero(steps, p.target);
    }
    if p.target == 0 {
        return Some(0);
    }
    let size: usize = (1u64 << (n as u64)) as usize;
    let mut dist: Vec<u8> = vec![255u8; size];
    dist.set(0, 0);
    let mut frontier: Vec<u32> = Vec::new();
    frontier.push(0);
    let mut d: usize = 0;
    proof {
        lemma_within_zero(steps, 0u32);
        assert forall|q: u32| (q as int) < dist@.len() && within(steps, q, 0) implies (#[trigger] dist@[q as int])
            <= 0 by {
            lemma_within_zero(steps, q);
        }
        assert forall|q: u32| (q as int) < dist@.len() && (#[trigger] dist@[q as int]) == 0 implies frontier@.contains(
            q,
        ) by {
            assert(frontier@[0] == q);
        }
    }
    while d < m
        invariant
            p.wf(),
            n == p.num_positions,
            n <= 26,
            m == p.steps.len(),
            steps == p.steps@,
            d <= m <= 64,
            dist.len() == size,
            size == (1u64 << (n as u64)),
            (p.target as int) < size,
            dist[p.target as int] == 255,
            known(steps, dist@, d as int),
            complete(steps, dist@, d as int),
            layer(dist@, frontier@, d as int),
        decreases m - d,
    {
        let mut next: Vec<u32> = Vec::new();
        let mut fi: usize = 0;
        while fi < frontier.len()
            invariant
                p.wf(),
                n == p.num_positions,
                n <= 26,
                m == p.steps.len(),
                steps == p.steps@,
                d < m <= 64,
                fi <= frontier.len(),
                dist.len() == size,
                size == (1u64 << (n as u64)),
                (p.target as int) < size,
                dist[p.target as int] == 255,
                known(steps, dist@, d as int + 1),
                complete(steps, dist@, d as int),
                layer(dist@, frontier@, d as int),
                layer(dist@, next@, d as int + 1),
                expanded(steps, dist@, frontier@, fi as int, 0),
            decreases frontier.len() - fi,
        {
            let s: u32 = frontier[fi];
            let mut si: usize = 0;
            while si < m
                invariant
                    p.wf(),
                    n == p.num_positions,
                    n <= 26,
                    m == p.steps.len(),
                    steps == p.steps@,
                    d < m <= 64,
                    fi < frontier.len(),
                    si <= m,
                    s == frontier[fi as int],
                    dist.len() == size,
                    size == (1u64 << (n as u64)),
                    (p.target as int) < size,
                    dist[p.target as int] == 255,
                    known(steps, dist@, d as int + 1),
                    complete(steps, dist@, d as int),
                    layer(dist@, frontier@, d as int),
                    layer(dist@, next@, d as int + 1),
                    expanded(steps, dist@, frontier@, fi as int, si as int),
                decreases m - si,
            {
                let t: u32 = s ^ p.steps[si];
                proof {
                    assert(fits(steps[si as int] as u64, n as int));
                    lemma_state_closed(s, steps[si as int], n as int);
                }
                if dist[t as usize] == 255 {
                    proof {
                        lemma_mark(steps, dist@, frontier@, next@, d as int, fi as int, si as int, t);
                    }
                    dist.set(t as usize, (d + 1) as u8);
                    if t == p.target {
                        return Some((d + 1) as u64);
                    }
                    next.push(t);
                }
                si = si + 1;
            }
            fi = fi + 1;
        }
        proof {
            lemma_level_done(steps, dist@, frontier@, d as int, n as int);
        }
        frontier = next;
        d = d + 1;
    }
    proof {
        if solvable(steps, p.target) {
            let x = choose|x: u64| reaches(steps, p.target, x);
            lemma_reach_bound(steps, p.target, x);
            assert(dist@[p.target as int] <= m);
        }
    }
    None
}

/// Answers the first question by linear algebra: one solution and a kernel
/// basis from Gaussian elimination, then the least weight in the coset.
pub fn solve_part1_mim(p: &Problem) -> (res: Option<u64>)
    requires
        p.wf(),
    ensures
        is_answer(p.steps@, p.target, res),
{
    match solve_gf2(p.steps.as_slice(), p.target, p.num_positions) {
        None => None,
        Some((d_mask, kernel_basis)) => {
            let (min_weight, best) = min_weight_coset(d_mask, &kernel_basis);
            proof {
                let steps = p.steps@;
                lemma_coset_member(steps, p.target, d_mask, kernel_basis@, best);
                assert(reaches(steps, p.target, best) && weight(best) <= min_weight);
                if within(steps, p.target, min_weight - 1) {
                    let y = choose|y: u64| #[trigger]
                        reaches(steps, p.target, y) && weight(y) <= min_weight - 1;
                    assert(in_span(kernel_basis@, y ^ d_mask));
                    lemma_xor_algebra(d_mask, y, 0);
                    assert(d_mask ^ (y ^ d_mask) == y);
                }
            }
            Some(min_weight)
        },
    }
}

/// Answers the first question: the least number of distinct steps whose
/// combined effect is the target pattern, or `None` where the target is
/// unreachable. Which of the two strategies runs does not change the answer.
pub fn solve_part1(p: &Problem) -> (res: Option<u64>)
    requires
        p.wf(),
    ensures
        is_answer(p.steps@, p.target, res),
{
    match choose_strategy(p.num_positions, p.steps.len()) {
        Strategy::StateSearch => solve_part1_bfs(p),
        Strategy::KernelSearch => solve_part1_mim(p),
    }
}

/// The linear system of a step set, with the kernel basis computed once.
pub struct GF2Solver {
    /// Number of positions.
    pub n: usize,
    /// Number of steps.
    pub m: usize,
    /// The pattern of positions that each step touches.
    pub steps: Vec<u32>,
    /// A basis of the selections that leave every position unchanged.
    pub kernel_basis: Vec<u64>,
}

impl GF2Solver {
    /// The steps lie within the positions and the basis spans exactly the
    /// kernel of the step matrix.
    pub open spec fn wf(&self) -> bool {
        &&& well_formed(self.steps@, self.n as int)
        &&& self.m == self.steps.len()
        &&& kernel_space(self.steps@, self.kernel_basis@)
        &&& reduced(self.steps@, 0u64, self.kernel_basis@)
    }

    /// Builds the solver of a step set: Gaussian elimination yields the
    /// kernel basis, which depends on the steps alone.
    pub fn new(steps: &[u32], n: usize) -> (s: Self)
        requires
            well_formed(steps@, n as int),
        ensures
            s.wf(),
            s.steps@ == steps@,
            s.n == n,
    {
        proof {
            lemma_bit_single(0);
            lemma_fold_zero(steps@, steps@.len() as int);
            assert(reaches(steps@, 0u32, 0u64));
        }
        let kernel_basis = match solve_gf2(steps, 0, n) {
            Some((p, basis)) => {
                proof {
                    let m = steps@.len() as int;
                    let free = choose|free: Seq<usize>| pinned(p, basis@, free, m) && lists_free(steps@, free);
                    lemma_bit_single(0);
                    assert(pinned(0u64, basis@, free, m));
                }
                basis
            },
            None => Vec::new(),
        };
        GF2Solver { n, m: steps.len(), steps: vstd::slice::slice_to_vec(steps), kernel_basis }
    }

    /// Lists every selection whose combined effect is `target_pattern`,
    /// each once: none where the pattern is unreachable, else two to the
    /// power of the number of kernel vectors.
    pub fn solve(&self, target_pattern: u32) -> (sols: Vec<u64>)
        requires
            self.wf(),
            fits(target_pattern as u64, self.n as int),
        ensures
            forall|x: u64| sols@.contains(x) <==> reaches(self.steps@, target_pattern, x),
            sols@.no_duplicates(),
            solvable(self.steps@, target_pattern) ==> sols.len() == pow2(self.kernel_basis.len() as nat),
            !solvable(self.steps@, target_pattern) ==> sols.len() == 0,
    {
        match solve_gf2(self.steps.as_slice(), target_pattern, self.n) {
            None => Vec::new(),
            Some((particular, _)) => {
                proof {
                    let free = choose|free: Seq<usize>|
                        pinned(0u64, self.kernel_basis@, free, self.steps@.len() as int) && lists_free(
                            self.steps@,
                            free,
                        );
                    let marks = Seq::new(free.len(), |u: int| free[u] as int);
                    assert(marked(self.kernel_basis@, marks));
                    assert(reaches(self.steps@, target_pattern, particular));
                }
                let sols = expand(particular, &self.kernel_basis, 0, self.kernel_basis.len());
                proof {
                    let steps = self.steps@;
                    let basis = self.kernel_basis@;
                    let m = steps.len() as int;
                    assert(basis.subrange(0, basis.len() as int) =~= basis);
                    assert forall|x: u64| sols@.contains(x) <==> reaches(steps, target_pattern, x) by {
                        if reaches(steps, target_pattern, x) {
                            lemma_fold_linear(steps, x, particular, m);
                            lemma_bit_ops(x, particular);
                            lemma_xor_algebra(target_pattern as u64, 0, 0);
                            assert(reaches(steps, 0u32, x ^ particular));
                        }
                        if in_span(basis, x ^ particular) {
                            lemma_coset_member(steps, target_pattern, particular, basis, x);
                        }
                    }
                }
                sols
            },
        }
    }
}

/// Number of chains in a memo table.
pub const CHAINS: usize = 1024;

/// Answers already found for residual count vectors, owned by one
/// top-level solve: a chained hash table laid out in flat vectors.
pub struct Memo {
    keys: Vec<Vec<u32>>,
    vals: Vec<Option<u64>>,
    link: Vec<usize>,
    heads: Vec<usize>,
    steps: Ghost<Seq<u32>>,
}

/// Tells whether two count vectors are equal.
pub fn same_counts(a: &Vec<u32>, b: &Vec<u32>) -> (eq: bool)
    ensures
        eq == (a@ == b@),
{
    if a.len() != b.len() {
        return false;
    }
    let mut i: usize = 0;
    while i < a.len()
        invariant
            i <= a.len(),
            a.len() == b.len(),
            forall|j: int| 0 <= j < i ==> a[j] == b[j],
        decreases a.len() - i,
    {
        if a[i] != b[i] {
            return false;
        }
        i = i + 1;
    }
    proof {
        assert(a@ =~= b@);
    }
    true
}

/// The number of the chain that the first `k` counts of a vector lead
/// to: from chain zero, each count takes the chain `h` to the chain
/// `31 h` plus the count, both taken modulo the number of chains.
pub open spec fn chain_index(key: Seq<u32>, k: int) -> int
    decreases k,
{
    if k <= 0 {
        0
    } else {
        (chain_index(key, k - 1) * 31 + key[k - 1] % 1024) % 1024
    }
}

/// The chain that a count vector is filed under: equal vectors are filed
/// under the same chain.
pub fn chain_of(key: &Vec<u32>) -> (h: usize)
    ensures
        h == chain_index(key@, key.len() as int),
        h < CHAINS,
{
    let mut h: usize = 0;
    let mut i: usize = 0;
    while i < key.len()
        invariant
            i <= key.len(),
            h < CHAINS,
            h == chain_index(key@, i as int),
        decreases key.len() - i,
    {
        h = (h * 31 + (key[i] % 1024) as usize) % CHAINS;
        i = i + 1;
    }
    h
}

/// Entry `i` is met on the way that starts at entry `start` and goes
/// from each entry to the earlier entry that it links to.
pub open spec fn in_chain(link: Seq<usize>, start: int, i: int) -> bool
    decreases start,
{
    0 <= start < link.len() && (start == i || (link[start] < start && in_chain(link, link[start] as int, i)))
}

/// The way from an entry is the same in a table with entries added.
pub proof fn lemma_chain_grown(link: Seq<usize>, grown: Seq<usize>, start: int, i: int)
    requires
        link.len() <= grown.len(),
        forall|j: int| 0 <= j < link.len() ==> link[j] == grown[j],
        start < link.len(),
    ensures
        in_chain(grown, start, i) == in_chain(link, start, i),
    decreases start,
{
    if 0 <= start && start != i && link[start] < start {
        lemma_chain_grown(link, grown, link[start] as int, i);
    }
}

impl Memo {
    /// Every stored answer is the answer for its key, and the chains are
    /// well linked: each entry is met on the way from the head of the
    /// chain that its key is filed under.
    pub closed spec fn wf(&self) -> bool {
        &&& self.keys.len() == self.vals.len()
        &&& self.keys.len() == self.link.len()
        &&& self.heads.len() == CHAINS
        &&& forall|h: int|
            0 <= h < CHAINS ==> (#[trigger] self.heads[h]) == usize::MAX || self.heads[h] < self.keys.len()
        &&& forall|i: int|
            0 <= i < self.link.len() ==> (#[trigger] self.link[i]) == usize::MAX || self.link[i] < i
        &&& forall|i: int|
            0 <= i < self.keys.len() ==> is_count_answer(self.steps@, (#[trigger] self.keys[i])@, self.vals[i])
        &&& forall|i: int|
            0 <= i < self.keys.len() ==> in_chain(
                self.link@,
                self.heads[chain_index((#[trigger] self.keys[i])@, self.keys[i]@.len() as int)] as int,
                i,
            )
    }

    /// The count vectors whose answers the table holds.
    pub closed spec fn known(&self) -> Set<Seq<u32>> {
        Set::new(|key: Seq<u32>| exists|i: int| 0 <= i < self.keys.len() && (#[trigger] self.keys[i])@ == key)
    }

    /// The number of entries of the table, one for each answer stored.
    pub closed spec fn len(&self) -> nat {
        self.keys@.len()
    }

    /// The step set whose answers the table holds.
    pub closed spec fn step_set(&self) -> Seq<u32> {
        self.steps@
    }

    /// An empty table for the given step set.
    pub fn new(steps: Ghost<Seq<u32>>) -> (memo: Memo)
        ensures
            memo.wf(),
            memo.step_set() == steps@,
            memo.known() == Set::<Seq<u32>>::empty(),
            memo.len() == 0,
    {
        let mut heads: Vec<usize> = Vec::new();
        let mut h: usize = 0;
        while h < CHAINS
            invariant
                h <= CHAINS,
                heads.len() == h,
                forall|j: int| 0 <= j < h ==> heads[j] == usize::MAX,
            decreases CHAINS - h,
        {
            heads.push(usize::MAX);
            h = h + 1;
        }
        let memo = Memo { keys: Vec::new(), vals: Vec::new(), link: Vec::new(), heads, steps };
        proof {
            assert(memo.known() =~= Set::<Seq<u32>>::empty());
        }
        memo
    }

    /// Looks up the answer stored for `key`: found exactly where the table
    /// holds an answer for the key, and then the answer for it.
    pub fn get(&self, key: &Vec<u32>) -> (found: Option<Option<u64>>)
        requires
            self.wf(),
        ensures
            found is Some <==> self.known().contains(key@),
            found matches Some(v) ==> is_count_answer(self.step_set(), key@, v),
    {
        let h = chain_of(key);
        let mut cur: usize = self.heads[h];
        while cur < self.keys.len()
            invariant
                self.wf(),
                cur == usize::MAX || cur < self.keys.len(),
                forall|i: int|
                    0 <= i < self.keys.len() && (#[trigger] self.keys[i])@ == key@ ==> in_chain(
                        self.link@,
                        cur as int,
                        i,
                    ),
            decreases (if cur < self.keys.len() { cur + 1 } else { 0 }),
        {
            if same_counts(&self.keys[cur], key) {
                return Some(self.vals[cur]);
            }
            proof {
                assert forall|i: int| 0 <= i < self.keys.len() && (#[trigger] self.keys[i])@ == key@ implies in_chain(
                    self.link@,
                    self.link[cur as int] as int,
                    i,
                ) by {
                    assert(in_chain(self.link@, cur as int, i));
                }
            }
            cur = self.link[cur];
        }
        proof {
            assert forall|i: int| 0 <= i < self.keys.len() implies (#[trigger] self.keys[i])@ != key@ by {
                if self.keys[i]@ == key@ {
                    assert(in_chain(self.link@, cur as int, i));
                }
            }
        }
        None
    }

    /// Stores the answer for `key` in a new entry at the head of the chain
    /// of the key. A table that holds as many entries as the machine can
    /// number stays as it is.
    pub fn insert(&mut self, key: Vec<u32>, val: Option<u64>)
        requires
            old(self).wf(),
            is_count_answer(old(self).step_set(), key@, val),
        ensures
            final(self).wf(),
            final(self).step_set() == old(self).step_set(),
            old(self).len() < usize::MAX - 1 ==> final(self).known() == old(self).known().insert(key@),
            old(self).len() < usize::MAX - 1 ==> final(self).len() == old(self).len() + 1,
            old(self).len() >= usize::MAX - 1 ==> final(self).known() == old(self).known(),
            old(self).len() >= usize::MAX - 1 ==> final(self).len() == old(self).len(),
    {
        let h = chain_of(&key);
        let idx: usize = self.keys.len();
        if idx >= usize::MAX - 1 {
            return;
        }
        let head: usize = self.heads[h];
        let ghost before = *self;
        let ghost filed = key@;
        self.keys.push(key);
        self.vals.push(val);
        self.link.push(head);
        self.heads.set(h, idx);
        proof {
            assert forall|i: int| 0 <= i < self.keys.len() implies in_chain(
                self.link@,
                self.heads[chain_index((#[trigger] self.keys[i])@, self.keys[i]@.len() as int)] as int,
                i,
            ) by {
                let c = chain_index(self.keys[i]@, self.keys[i]@.len() as int);
                if i < idx {
                    assert(self.keys[i] == before.keys[i]);
                    let start = before.heads[c] as int;
                    assert(in_chain(before.link@, start, i));
                    lemma_chain_grown(before.link@, self.link@, start, i);
                    if c == h {
                        assert(self.link[idx as int] == head);
                    }
                }
            }
            assert(self.known() =~= before.known().insert(filed)) by {
                assert forall|k: Seq<u32>| self.known().contains(k) implies before.known().insert(filed).contains(
                    k,
                ) by {
                    let i = choose|i: int| 0 <= i < self.keys.len() && (#[trigger] self.keys[i])@ == k;
                    if i < idx {
                        assert(before.keys[i]@ == k);
                    }
                }
                assert forall|k: Seq<u32>| before.known().insert(filed).contains(k) implies self.known().contains(
                    k,
                ) by {
                    if k == filed {
                        assert(self.keys[idx as int]@ == k);
                    } else {
                        let i = choose|i: int| 0 <= i < before.keys.len() && (#[trigger] before.keys[i])@ == k;
                        assert(self.keys[i]@ == k);
                    }
                }
            }
        }
    }
}

/// Tells whether every count is zero.
pub fn is_all_zero(counts: &Vec<u32>) -> (z: bool)
    ensures
        z == all_zero(counts@),
{
    let mut i: usize = 0;
    while i < counts.len()
        invariant
            i <= counts.len(),
            forall|j: int| 0 <= j < i ==> counts[j] == 0,
        decreases counts.len() - i,
    {
        if counts[i] != 0 {
            return false;
        }
        i = i + 1;
    }
    true
}

/// The pattern with a bit for each odd count.
pub fn parity_pattern(counts: &Vec<u32>) -> (pat: u32)
    requires
        counts.len() <= 32,
    ensures
        is_parity(counts@, pat),
        fits(pat as u64, counts.len() as int),
{
    let mut acc: u64 = 0;
    let mut i: usize = 0;
    proof {
        lemma_bit_single(0);
    }
    while i < counts.len()
        invariant
            i <= counts.len() <= 32,
            forall|r: int| 0 <= r < 64 ==> (#[trigger] bit(acc, r)) == (r < i && counts[r] % 2 == 1),
        decreases counts.len() - i,
    {
        if counts[i] % 2 == 1 {
            acc = with_bit(acc, i);
        }
        i = i + 1;
    }
    proof {
        assert(fits(acc, 32));
        lemma_fits_lt(acc, 32);
    }
    acc as u32
}

/// Applies once each step that `c` names and halves what is left of the
/// counts; `None` where some count would drop below zero.
pub fn apply_candidate(steps: &Vec<u32>, n: usize, c: u64, counts: &Vec<u32>) -> (res: Option<Vec<u32>>)
    requires
        well_formed(steps@, n as int),
        counts.len() == n,
    ensures
        match res {
            Some(v) => feasible(steps@, c, counts@) && v@ == residual(steps@, c, counts@),
            None => !feasible(steps@, c, counts@),
        },
{
    let m: usize = steps.len();
    let mut next: Vec<u32> = vstd::slice::slice_to_vec(counts.as_slice());
    let mut i: usize = 0;
    while i < m
        invariant
            i <= m,
            m == steps.len(),
            m <= 64,
            n <= 32,
            next.len() == n,
            counts.len() == n,
            forall|r: int| 0 <= r < n ==> (#[trigger] next[r]) + touch(steps@, c, r, i as int) == counts[r],
        decreases m - i,
    {
        if test_bit(c, i) {
            let step: u32 = steps[i];
            let mut pos: usize = 0;
            while pos < n
                invariant
                    pos <= n,
                    i < m,
                    m == steps.len(),
                    m <= 64,
                    n <= 32,
                    next.len() == n,
                    counts.len() == n,
                    step == steps[i as int],
                    bit(c, i as int),
                    forall|r: int|
                        0 <= r < pos ==> (#[trigger] next[r]) + touch(steps@, c, r, i as int + 1)
                            == counts[r],
                    forall|r: int|
                        pos <= r < n ==> (#[trigger] next[r]) + touch(steps@, c, r, i as int) == counts[r],
                decreases n - pos,
            {
                if test_bit(step as u64, pos) {
                    if next[pos] == 0 {
                        proof {
                            lemma_touch_mono(steps@, c, pos as int, i as int + 1, m as int);
                            assert(touch(steps@, c, pos as int, m as int) > counts[pos as int]);
                        }
                        return None;
                    }
                    let cur: u32 = next[pos];
                    next.set(pos, cur - 1);
                }
                pos = pos + 1;
            }
        }
        i = i + 1;
    }
    let mut r: usize = 0;
    while r < n
        invariant
            r <= n,
            next.len() == n,
            counts.len() == n,
            m == steps.len(),
            forall|q: int|
                0 <= q < r ==> (#[trigger] next[q]) == (counts[q] - touch(steps@, c, q, m as int)) / 2,
            forall|q: int| r <= q < n ==> (#[trigger] next[q]) + touch(steps@, c, q, m as int) == counts[q],
        decreases n - r,
    {
        let cur: u32 = next[r];
        next.set(r, cur / 2);
        r = r + 1;
    }
    proof {
        assert forall|q: int| 0 <= q < n implies #[trigger] touch(steps@, c, q, m as int) <= counts[q] by {
            assert(next[q] == (counts[q] - touch(steps@, c, q, m as int)) / 2);
        }
        assert(next@ =~= residual(steps@, c, counts@));
    }
    Some(next)
}

/// Answers the second question for the count vector `target` by parity
/// decomposition: every selection that matches the parity of the counts is
/// tried as the set of steps applied an odd number of times; what is left
/// of the counts is halved and solved in turn, and costs twice.
pub fn solve_part2_recursive_parity(target: Vec<u32>, solver: &GF2Solver, memo: &mut Memo) -> (res:
    Option<u64>)
    requires
        solver.wf(),
        target.len() == solver.n,
        old(memo).wf(),
        old(memo).step_set() == solver.steps@,
    ensures
        is_count_answer(solver.steps@, target@, res),
        final(memo).wf(),
        final(memo).step_set() == solver.steps@,
        old(memo).known().subset_of(final(memo).known()),
        old(memo).len() <= final(memo).len(),
        all_zero(target@) || old(memo).known().contains(target@) ==> final(memo).known() == old(memo).known()
            && final(memo).len() == old(memo).len(),
        !all_zero(target@) && final(memo).len() < usize::MAX - 1 ==> final(memo).known().contains(target@),
    decreases sum_counts(target@),
{
    let ghost known0 = memo.known();
    let ghost len0 = memo.len();
    let ghost steps = solver.steps@;
    let ghost t = target@;
    let ghost n = solver.n as int;
    let ghost m = steps.len() as int;
    if is_all_zero(&target) {
        proof {
            lemma_zero_counts(steps, t);
        }
        return Some(0);
    }
    if let Some(v) = memo.get(&target) {
        return v;
    }
    let pattern = parity_pattern(&target);
    let candidates = solver.solve(pattern);
    let mut min_total: Option<u64> = None;
    let mut ci: usize = 0;
    while ci < candidates.len()
        invariant
            ci <= candidates.len(),
            solver.wf(),
            steps == solver.steps@,
            t == target@,
            n == solver.n,
            m == steps.len(),
            t.len() == n,
            !all_zero(t),
            is_parity(t, pattern),
            memo.wf(),
            memo.step_set() == steps,
            known0.subset_of(memo.known()),
            len0 <= memo.len(),
            !known0.contains(t),
            forall|x: u64| candidates@.contains(x) <==> reaches(steps, pattern, x),
            min_total matches Some(b) ==> within_total(steps, t, b as int),
            forall|idx: int, k: int|
                0 <= idx < ci && feasible(steps, candidates@[idx], t) && #[trigger] within_total(
                    steps,
                    residual(steps, candidates@[idx], t),
                    k,
                ) ==> min_total is Some && min_total.unwrap() <= weight(candidates@[idx]) + 2 * k,
        decreases candidates.len() - ci,
    {
        let c_mask: u64 = candidates[ci];
        let ghost prev = min_total;
        proof {
            assert(candidates@.contains(c_mask));
        }
        match apply_candidate(&solver.steps, solver.n, c_mask, &target) {
            Some(next_target) => {
                let ghost rest = next_target@;
                proof {
                    lemma_residual_smaller(steps, c_mask, t);
                }
                let sub = solve_part2_recursive_parity(next_target, solver, memo);
                match sub {
                    Some(sub_cost) => {
                        proof {
                            lemma_least_total_bound(steps, n, rest, sub_cost as int, 0xFFFF_FFFF);
                            assert(m * 0xFFFF_FFFF <= 64 * 0xFFFF_FFFF) by (nonlinear_arith)
                                requires
                                    0 <= m <= 64,
                            ;
                        }
                        let cost: u64 = popcount(c_mask) + 2 * sub_cost;
                        let better: bool = match min_total {
                            None => true,
                            Some(b) => cost < b,
                        };
                        if better {
                            min_total = Some(cost);
                        }
                        proof {
                            let y = choose|y: Seq<nat>| #[trigger]
                                hits(steps, y, rest) && total(y, m) <= sub_cost;
                            lemma_compose(steps, n, c_mask, y, t, pattern);
                            assert(hits(steps, doubled(c_mask, y), t) && total(doubled(c_mask, y), m)
                                <= cost);
                            assert forall|k: int| #[trigger]
                                within_total(steps, rest, k) implies sub_cost <= k by {
                                if k < sub_cost {
                                    lemma_within_total_mono(steps, rest, k, sub_cost - 1);
                                }
                            }
                        }
                    },
                    None => {
                        proof {
                            assert forall|k: int| !#[trigger] within_total(steps, rest, k) by {
                                if within_total(steps, rest, k) {
                                    let y = choose|y: Seq<nat>| #[trigger]
                                        hits(steps, y, rest) && total(y, m) <= k;
                                    assert(hits(steps, y, rest));
                                }
                            }
                        }
                    },
                }
            },
            None => {},
        }
        ci = ci + 1;
    }
    proof {
        match min_total {
            Some(b) => {
                if within_total(steps, t, b - 1) {
                    let mult = choose|mu: Seq<nat>| #[trigger]
                        hits(steps, mu, t) && total(mu, m) <= b - 1;
                    let c = lemma_decompose(steps, n, mult, t, pattern);
                    assert(candidates@.contains(c));
                    let idx = choose|idx: int| 0 <= idx < candidates@.len() && candidates@[idx] == c;
                    let y = half_part(mult);
                    assert(hits(steps, y, residual(steps, c, t)) && total(y, m) <= total(y, m));
                    assert(within_total(steps, residual(steps, candidates@[idx], t), total(y, m) as int));
                }
            },
            None => {
                if solvable_counts(steps, t) {
                    let mult = choose|mu: Seq<nat>| hits(steps, mu, t);
                    let c = lemma_decompose(steps, n, mult, t, pattern);
                    assert(candidates@.contains(c));
                    let idx = choose|idx: int| 0 <= idx < candidates@.len() && candidates@[idx] == c;
                    let y = half_part(mult);
                    assert(hits(steps, y, residual(steps, c, t)) && total(y, m) <= total(y, m));
                    assert(within_total(steps, residual(steps, candidates@[idx], t), total(y, m) as int));
                }
            },
        }
    }
    memo.insert(target, min_total);
    min_total
}

/// Lists the steps that touch something, each once, in rising order.
pub fn distinct_steps(steps: &Vec<u32>) -> (out: Vec<u32>)
    ensures
        out.len() <= steps.len(),
        forall|i: int, j: int| 0 <= i < j < out.len() ==> out[i] < out[j],
        forall|i: int| 0 <= i < out.len() ==> (#[trigger] out[i]) != 0 && steps@.contains(out[i]),
        forall|i: int| 0 <= i < steps.len() ==> steps[i] == 0 || out@.contains(#[trigger] steps[i]),
{
    let mut out: Vec<u32> = Vec::new();
    let mut i: usize = 0;
    while i < steps.len()
        invariant
            i <= steps.len(),
            out.len() <= i,
            forall|a: int, b: int| 0 <= a < b < out.len() ==> out[a] < out[b],
            forall|a: int| 0 <= a < out.len() ==> (#[trigger] out[a]) != 0 && steps@.contains(out[a]),
            forall|a: int| 0 <= a < i ==> steps[a] == 0 || out@.contains(#[trigger] steps[a]),
        decreases steps.len() - i,
    {
        let v: u32 = steps[i];
        if v != 0 {
            let mut at: usize = 0;
            while at < out.len() && out[at] < v
                invariant
                    at <= out.len(),
                    forall|a: int| 0 <= a < at ==> out[a] < v,
                decreases out.len() - at,
            {
                at = at + 1;
            }
            if at < out.len() && out[at] == v {
                proof {
                    assert(out@[at as int] == v);
                }
            } else {
                let ghost before = out@;
                out.insert(at, v);
                proof {
                    assert(steps@[i as int] == v);
                    assert forall|a: int| 0 <= a < out.len() implies (#[trigger] out[a]) != 0 && steps@.contains(
                        out[a],
                    ) by {
                        if a < at {
                            assert(out[a] == before[a]);
                        } else if a > at {
                            assert(out[a] == before[a - 1]);
                        }
                    }
                    assert forall|a: int, b: int| 0 <= a < b < out.len() implies out[a] < out[b] by {
                        if a < at {
                            assert(out[a] == before[a]);
                        } else if a > at {
                            assert(out[a] == before[a - 1]);
                        }
                        if b < at {
                            assert(out[b] == before[b]);
                        } else if b > at {
                            assert(out[b] == before[b - 1]);
                        }
                    }
                    assert forall|a: int| 0 <= a < i + 1 implies steps[a] == 0 || out@.contains(
                        #[trigger] steps[a],
                    ) by {
                        if a < i && steps[a] != 0 {
                            let w = choose|w: int| 0 <= w < before.len() && before[w] == steps[a];
                            if w < at {
                                assert(out@[w] == steps[a]);
                            } else {
                                assert(out@[w + 1] == steps[a]);
                            }
                        } else if a == i {
                            assert(out@[at as int] == v);
                        }
                    }
                }
            }
        }
        i = i + 1;
    }
    out
}

/// Answers the second question: the least total number of step
/// applications after which every position has been incremented exactly
/// its target count, or `None` where no multiplicities achieve that.
/// Steps that touch nothing and repeated steps are set aside first: they
/// never lower the answer.
pub fn solve_part2(p: &Problem) -> (res: Option<u64>)
    requires
        p.wf(),
        p.target_counts.len() == p.num_positions,
    ensures
        is_count_answer(p.steps@, p.target_counts@, res),
{
    let distinct = distinct_steps(&p.steps);
    proof {
        assert forall|i: int| 0 <= i < distinct@.len() implies fits(
            #[trigger] distinct@[i] as u64,
            p.num_positions as int,
        ) by {
            assert(p.steps@.contains(distinct@[i]));
            let w = choose|w: int| 0 <= w < p.steps@.len() && p.steps@[w] == distinct@[i];
            assert(fits(p.steps@[w] as u64, p.num_positions as int));
        }
    }
    let m: usize = distinct.len();
    let res = if m == 0 {
        if is_all_zero(&p.target_counts) {
            proof {
                lemma_zero_counts(distinct@, p.target_counts@);
            }
            Some(0)
        } else {
            proof {
                if solvable_counts(distinct@, p.target_counts@) {
                    let mu = choose|mu: Seq<nat>| hits(distinct@, mu, p.target_counts@);
                    let r = choose|r: int| 0 <= r < p.target_counts@.len() && #[trigger] p.target_counts@[r] != 0;
                    assert(tally(distinct@, mu, r, 0) == p.target_counts@[r]);
                }
            }
            None
        }
    } else {
        let solver = GF2Solver::new(distinct.as_slice(), p.num_positions);
        let mut memo = Memo::new(Ghost(distinct@));
        let target = vstd::slice::slice_to_vec(p.target_counts.as_slice());
        solve_part2_recursive_parity(target, &solver, &mut memo)
    };
    proof {
        assert forall|x: int| 0 <= x < distinct@.len() implies distinct@[x] == 0 || p.steps@.contains(
            #[trigger] distinct@[x],
        ) by {}
        lemma_same_answer(p.steps@, distinct@, p.target_counts@, res);
    }
    res
}

/// Builds the message `head` followed by `tail`.
pub fn joined(head: &str, tail: &str) -> (msg: String)
    ensures
        msg@ == head@ + tail@,
{
    let mut msg = String::from_str(head);
    msg.append(tail);
    msg
}

/// The bytes of line `i`.
pub open spec fn line_text(lines: Seq<String>, i: int) -> Seq<u8> {
    vstd::utf8::encode_utf8(lines[i]@)
}

/// `v` is the answer for the line: to the second question where `counts`
/// is set, else to the first.
pub open spec fn line_answer(s: Seq<u8>, counts: bool, v: u64) -> bool {
    match parse_view(s) {
        None => false,
        Some(text) => if counts {
            text.counts.len() > 0 && is_least_total(text.steps, text.counts, v as int)
        } else {
            is_least_weight(text.steps, text.target, v as int)
        },
    }
}

/// The line has no answer: it is in error, has no solution, or gives no
/// counts where the second question is asked.
pub open spec fn line_fails(s: Seq<u8>, counts: bool) -> bool {
    match parse_view(s) {
        None => true,
        Some(text) => if counts {
            text.counts.len() == 0 || !solvable_counts(text.steps, text.counts)
        } else {
            !solvable(text.steps, text.target)
        },
    }
}

/// What is said of a line without answer: what is wrong with it where it
/// is in error, else that it gives no counts, where the second question
/// is asked, or that it has no solution.
pub open spec fn line_message(line: Seq<char>, counts: bool) -> Seq<char> {
    let s = vstd::utf8::encode_utf8(line);
    match parse_view(s) {
        None => parse_message(s),
        Some(text) => if counts && text.counts.len() == 0 {
            "Missing target counts for Part 2"@
        } else {
            "No solution found for: "@ + line
        },
    }
}

/// The line has an answer.
pub open spec fn has_answer(s: Seq<u8>, counts: bool) -> bool {
    exists|v: u64| line_answer(s, counts, v)
}

/// Line `i` is the first without answer, and `e` is what is said of it.
pub open spec fn fails_first(lines: Seq<String>, counts: bool, i: int, e: Seq<char>) -> bool {
    &&& 0 <= i < lines.len()
    &&& line_fails(line_text(lines, i), counts)
    &&& e == line_message(lines[i]@, counts)
    &&& forall|j: int| 0 <= j < i ==> has_answer(#[trigger] line_text(lines, j), counts)
}

/// `answers` holds the answer of each line.
pub open spec fn answers_of(lines: Seq<String>, counts: bool, answers: Seq<u64>) -> bool {
    &&& answers.len() == lines.len()
    &&& forall|i: int| 0 <= i < lines.len() ==> line_answer(line_text(lines, i), counts, #[trigger] answers[i])
}

/// What a sum over the lines may return: the sum of the answers of all
/// lines; where some line has no answer, what is said of the first such
/// line; where the sum of the answers does not fit 64 bits, that it does
/// not.
pub open spec fn is_sum_over(lines: Seq<String>, counts: bool, res: Result<u64, String>) -> bool {
    match res {
        Ok(total) => exists|answers: Seq<u64>| #[trigger]
            answers_of(lines, counts, answers) && total == answers_sum(answers, lines.len() as int),
        Err(e) => (exists|i: int| #[trigger] fails_first(lines, counts, i, e@)) || (e@
            == "Sum of answers does not fit 64 bits"@ && exists|answers: Seq<u64>| #[trigger]
            answers_of(lines, counts, answers) && answers_sum(answers, lines.len() as int) > u64::MAX),
    }
}

/// Reads one line and answers the first question for it.
pub fn part1_line(line: &str) -> (res: Result<u64, String>)
    ensures
        match res {
            Ok(v) => line_answer(line.spec_bytes(), false, v),
            Err(e) => line_fails(line.spec_bytes(), false) && e@ == line_message(line@, false),
        },
{
    let p = match Problem::parse(line) {
        Ok(p) => p,
        Err(e) => {
            return Err(e);
        },
    };
    match solve_part1(&p) {
        Some(v) => Ok(v),
        None => Err(joined("No solution found for: ", line)),
    }
}

/// Reads one line and answers the second question for it; the line must
/// give target counts.
pub fn part2_line(line: &str) -> (res: Result<u64, String>)
    ensures
        match res {
            Ok(v) => line_answer(line.spec_bytes(), true, v),
            Err(e) => line_fails(line.spec_bytes(), true) && e@ == line_message(line@, true),
        },
{
    let p = match Problem::parse(line) {
        Ok(p) => p,
        Err(e) => {
            return Err(e);
        },
    };
    if p.target_counts.len() == 0 {
        return Err(String::from_str("Missing target counts for Part 2"));
    }
    match solve_part2(&p) {
        Some(v) => Ok(v),
        None => Err(joined("No solution found for: ", line)),
    }
}

/// Sums the answers of the lines, each found by `part1_line` or, where
/// `counts` is set, by `part2_line`.
pub fn sum_over_lines(input: &[String], counts: bool) -> (res: Result<u64, String>)
    ensures
        is_sum_over(input@, counts, res),
{
    let mut answers: Vec<u64> = Vec::new();
    let mut i: usize = 0;
    while i < input.len()
        invariant
            i <= input.len(),
            answers.len() == i,
            forall|j: int| 0 <= j < i ==> line_answer(line_text(input@, j), counts, #[trigger] answers[j]),
        decreases input.len() - i,
    {
        let found = if counts {
            part2_line(input[i].as_str())
        } else {
            part1_line(input[i].as_str())
        };
        match found {
            Ok(v) => {
                answers.push(v);
            },
            Err(e) => {
                proof {
                    assert(line_fails(line_text(input@, i as int), counts));
                    assert forall|j: int| 0 <= j < i implies has_answer(#[trigger] line_text(input@, j), counts) by {
                        assert(line_answer(line_text(input@, j), counts, answers[j]));
                    }
                    assert(fails_first(input@, counts, i as int, e@));
                }
                return Err(e);
            },
        }
        i = i + 1;
    }
    proof {
        assert(answers_of(input@, counts, answers@));
    }
    match checked_sum(answers.as_slice()) {
        Some(total) => Ok(total),
        None => Err(String::from_str("Sum of answers does not fit 64 bits")),
    }
}

/// Sums the answers to the first question over the lines; fails with the
/// message of the first line that cannot be read or has no solution, and
/// where the sum does not fit 64 bits.
pub fn part1(input: &[String]) -> (res: Result<u64, String>)
    ensures
        is_sum_over(input@, false, res),
{
    sum_over_lines(input, false)
}

/// Sums the answers to the second question over the lines; fails with the
/// message of the first line that cannot be read, gives no target counts
/// or has no solution, and where the sum does not fit 64 bits.
pub fn part2(input: &[String]) -> (res: Result<u64, String>)
    ensures
        is_sum_over(input@, true, res),
{
    sum_over_lines(input, true)
}

} // verus!
