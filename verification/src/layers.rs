//! Breadth-first search by layers from an origin state: the bookkeeping
//! that the state searches share, over the set of states met so far.
use vstd::prelude::*;
use crate::bits::{lemma_xor_shuffle, lemma_xor_twice};
use crate::toggle::{
    is_least_weight, lemma_depth_chain, lemma_within_back, lemma_within_join, lemma_within_mono,
    lemma_within_split, lemma_within_step, lemma_within_zero, reaches, within,
};

verus! {

/// At most `d` steps lead from the origin `o` to state `s`.
pub open spec fn near(steps: Seq<u32>, o: u32, s: u32, d: int) -> bool {
    within(steps, s ^ o, d)
}

/// Exactly `d` steps are needed from the origin `o` to state `s`.
pub open spec fn at_depth(steps: Seq<u32>, o: u32, s: u32, d: int) -> bool {
    is_least_weight(steps, s ^ o, d)
}

/// Every state met lies within `d` steps of the origin.
pub open spec fn sound(steps: Seq<u32>, o: u32, seen: Set<u32>, d: int) -> bool {
    forall|s: u32| #[trigger] seen.contains(s) ==> near(steps, o, s, d)
}

/// Every state within `d` steps of the origin has been met.
pub open spec fn covers(steps: Seq<u32>, o: u32, seen: Set<u32>, d: int) -> bool {
    forall|s: u32| #[trigger] near(steps, o, s, d) ==> seen.contains(s)
}

/// `list` holds exactly the states at depth `d`.
pub open spec fn is_layer(steps: Seq<u32>, o: u32, list: Seq<u32>, d: int) -> bool {
    &&& forall|j: int| 0 <= j < list.len() ==> at_depth(steps, o, #[trigger] list[j], d)
    &&& forall|s: u32| #[trigger] at_depth(steps, o, s, d) ==> list.contains(s)
}

/// While the layer at depth `d` is being expanded: the states met beyond
/// depth `d` are exactly those of `next`, all at depth `d + 1`.
pub open spec fn growing(steps: Seq<u32>, o: u32, seen: Set<u32>, next: Seq<u32>, d: int) -> bool {
    &&& forall|s: u32| #[trigger] seen.contains(s) ==> near(steps, o, s, d) || next.contains(s)
    &&& forall|j: int|
        0 <= j < next.len() ==> at_depth(steps, o, #[trigger] next[j], d + 1) && seen.contains(next[j])
}

/// Every neighbour of the frontier states before index `fi`, and the first
/// `si` neighbours of state `fi`, have been met.
pub open spec fn expanded(steps: Seq<u32>, seen: Set<u32>, frontier: Seq<u32>, fi: int, si: int) -> bool {
    forall|j: int, i: int|
        0 <= j < frontier.len() && 0 <= i < steps.len() && (j < fi || (j == fi && i < si))
            ==> seen.contains(#[trigger] frontier[j] ^ #[trigger] steps[i])
}

/// The search starts with the origin alone, at depth zero.
pub proof fn lemma_layer_start(steps: Seq<u32>, o: u32)
    ensures
        sound(steps, o, set![o], 0),
        covers(steps, o, set![o], 0),
        is_layer(steps, o, seq![o], 0),
{
    lemma_xor_twice(o, o);
    lemma_within_zero(steps, 0u32);
    assert forall|s: u32| #[trigger] near(steps, o, s, 0) implies set![o].contains(s) by {
        lemma_within_zero(steps, s ^ o);
        lemma_xor_twice(s, o);
    }
    assert forall|s: u32| #[trigger] at_depth(steps, o, s, 0) implies seq![o].contains(s) by {
        lemma_within_zero(steps, s ^ o);
        lemma_xor_twice(s, o);
        assert(seq![o][0] == o);
    }
    assert(at_depth(steps, o, seq![o][0], 0));
}

/// A neighbour `t` of a frontier state that has not been met lies at depth
/// `d + 1`; recording it keeps the bookkeeping true.
pub proof fn lemma_layer_mark(
    steps: Seq<u32>,
    o: u32,
    seen: Set<u32>,
    frontier: Seq<u32>,
    next: Seq<u32>,
    d: int,
    fi: int,
    si: int,
)
    requires
        steps.len() <= 64,
        0 <= d,
        0 <= fi < frontier.len(),
        0 <= si < steps.len(),
        covers(steps, o, seen, d),
        is_layer(steps, o, frontier, d),
        growing(steps, o, seen, next, d),
        expanded(steps, seen, frontier, fi, si),
        !seen.contains(frontier[fi] ^ steps[si]),
    ensures
        at_depth(steps, o, frontier[fi] ^ steps[si], d + 1),
        covers(steps, o, seen.insert(frontier[fi] ^ steps[si]), d),
        growing(steps, o, seen.insert(frontier[fi] ^ steps[si]), next.push(frontier[fi] ^ steps[si]), d),
        expanded(steps, seen.insert(frontier[fi] ^ steps[si]), frontier, fi, si + 1),
{
    let s = frontier[fi];
    let t = s ^ steps[si];
    let seen2 = seen.insert(t);
    let next2 = next.push(t);
    assert(at_depth(steps, o, s, d));
    lemma_within_step(steps, s ^ o, d, si);
    lemma_xor_shuffle(s, o, steps[si]);
    if near(steps, o, t, d) {
        assert(seen.contains(t));
    }
    assert(at_depth(steps, o, t, d + 1));
    assert forall|q: u32| #[trigger] seen2.contains(q) implies near(steps, o, q, d) || next2.contains(q) by {
        if q == t {
            assert(next2[next.len() as int] == t);
        } else {
            assert(seen.contains(q));
            if !near(steps, o, q, d) {
                let j = choose|j: int| 0 <= j < next.len() && next[j] == q;
                assert(next2[j] == q);
            }
        }
    }
    assert forall|j: int| 0 <= j < next2.len() implies at_depth(steps, o, #[trigger] next2[j], d + 1)
        && seen2.contains(next2[j]) by {
        if j < next.len() {
            assert(next2[j] == next[j]);
        }
    }
}

/// A neighbour already met: the expansion moves on.
pub proof fn lemma_layer_skip(steps: Seq<u32>, seen: Set<u32>, frontier: Seq<u32>, fi: int, si: int)
    requires
        0 <= fi < frontier.len(),
        0 <= si < steps.len(),
        expanded(steps, seen, frontier, fi, si),
        seen.contains(frontier[fi] ^ steps[si]),
    ensures
        expanded(steps, seen, frontier, fi, si + 1),
{
}

/// Once the whole layer at depth `d` is expanded, the states met are
/// exactly those within `d + 1` steps and `next` is the layer at depth
/// `d + 1`.
pub proof fn lemma_layer_done(
    steps: Seq<u32>,
    o: u32,
    seen: Set<u32>,
    frontier: Seq<u32>,
    next: Seq<u32>,
    d: int,
)
    requires
        steps.len() <= 64,
        0 <= d,
        sound(steps, o, seen, d + 1),
        covers(steps, o, seen, d),
        is_layer(steps, o, frontier, d),
        growing(steps, o, seen, next, d),
        expanded(steps, seen, frontier, frontier.len() as int, 0),
    ensures
        covers(steps, o, seen, d + 1),
        is_layer(steps, o, next, d + 1),
{
    assert forall|q: u32| #[trigger] near(steps, o, q, d + 1) implies seen.contains(q) by {
        if near(steps, o, q, d) {
        } else {
            let i = lemma_within_back(steps, q ^ o, d);
            let s = q ^ steps[i];
            lemma_xor_shuffle(q, o, steps[i]);
            assert(near(steps, o, s, d));
            if within(steps, s ^ o, d - 1) {
                lemma_within_step(steps, s ^ o, d - 1, i);
                lemma_xor_twice(q ^ o, steps[i]);
            }
            assert(at_depth(steps, o, s, d));
            let j = choose|j: int| 0 <= j < frontier.len() && frontier[j] == s;
            assert(seen.contains(frontier[j] ^ steps[i]));
            lemma_xor_twice(q, steps[i]);
        }
    }
    assert forall|q: u32| #[trigger] at_depth(steps, o, q, d + 1) implies next.contains(q) by {
        assert(near(steps, o, q, d + 1));
        assert(seen.contains(q));
    }
}

/// While the layer at depth `d` is expanded, every state met lies within
/// `d + 1` steps.
pub proof fn lemma_growing_sound(steps: Seq<u32>, o: u32, seen: Set<u32>, next: Seq<u32>, d: int)
    requires
        growing(steps, o, seen, next, d),
    ensures
        sound(steps, o, seen, d + 1),
{
    assert forall|q: u32| #[trigger] seen.contains(q) implies near(steps, o, q, d + 1) by {
        if near(steps, o, q, d) {
            lemma_within_mono(steps, q ^ o, d, d + 1);
        } else {
            let j = choose|j: int| 0 <= j < next.len() && next[j] == q;
            assert(at_depth(steps, o, next[j], d + 1));
        }
    }
}

/// At the start of a layer's expansion nothing beyond depth `d` is met.
pub proof fn lemma_growing_start(steps: Seq<u32>, o: u32, seen: Set<u32>, d: int)
    requires
        sound(steps, o, seen, d),
    ensures
        growing(steps, o, seen, Seq::<u32>::empty(), d),
{
}

/// Two searches, from origins `o1` and `o2`, that have met every state
/// within `a` and within `b` steps and have no state in common: the
/// origins lie more than `a + b` steps apart.
pub proof fn lemma_apart(steps: Seq<u32>, o1: u32, o2: u32, one: Set<u32>, two: Set<u32>, a: int, b: int)
    requires
        steps.len() <= 64,
        0 <= a,
        0 <= b,
        covers(steps, o1, one, a),
        covers(steps, o2, two, b),
        forall|s: u32| !(one.contains(s) && two.contains(s)),
    ensures
        !within(steps, o1 ^ o2, a + b),
{
    if within(steps, o1 ^ o2, a + b) {
        let u = lemma_within_split(steps, o1 ^ o2, a, b);
        let s = u ^ o1;
        lemma_xor_twice(u, o1);
        assert(near(steps, o1, s, a));
        lemma_xor_shuffle(u, o1, o2);
        assert(near(steps, o2, s, b));
        assert(one.contains(s) && two.contains(s));
    }
}

/// A state at depth `a` from `o1` and at depth `b` from `o2` shows that
/// `a + b` steps lead from one origin to the other.
pub proof fn lemma_meet(steps: Seq<u32>, o1: u32, o2: u32, s: u32, a: int, b: int)
    requires
        near(steps, o1, s, a),
        near(steps, o2, s, b),
    ensures
        within(steps, o1 ^ o2, a + b),
{
    lemma_within_join(steps, s ^ o1, s ^ o2, a, b);
    lemma_xor_shuffle(s, o2, o1);
}

/// Where the layer at depth `a` from `o` is empty, nothing lies `a` or
/// more steps from `o`.
pub proof fn lemma_empty_layer(steps: Seq<u32>, o: u32, t: u32, a: int)
    requires
        steps.len() <= 64,
        0 <= a,
        is_layer(steps, o, Seq::<u32>::empty(), a),
        near(steps, o, t, steps.len() as int),
    ensures
        near(steps, o, t, a - 1),
{
    if !near(steps, o, t, a - 1) {
        let w = lemma_least_exists(steps, t ^ o, steps.len() as int);
        if w < a {
            lemma_within_mono(steps, t ^ o, w, a - 1);
        }
        let u = lemma_depth_chain(steps, t ^ o, w, a);
        let s = u ^ o;
        lemma_xor_twice(u, o);
        assert(at_depth(steps, o, s, a));
        assert(Seq::<u32>::empty().contains(s));
    }
}

/// Whatever is reached within a budget has a least number of steps.
pub proof fn lemma_least_exists(steps: Seq<u32>, t: u32, k: int) -> (w: int)
    requires
        within(steps, t, k),
    ensures
        0 <= w <= k,
        is_least_weight(steps, t, w),
    decreases k,
{
    if k <= 0 {
        if k < 0 {
            let x = choose|x: u64| #[trigger] reaches(steps, t, x) && crate::bits::weight(x) <= k;
            assert(false);
        }
        0
    } else if within(steps, t, k - 1) {
        lemma_least_exists(steps, t, k - 1)
    } else {
        k
    }
}

} // verus!
