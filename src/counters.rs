//! The two shared counters: the encoder position and the number of button
//! presses, and what each decoded event adds to them.
//!
//! Each counter has a single writer, which adds the increment given here with
//! one wrapping atomic addition; the position wraps at the width of `i32` and
//! the press count at the width of `u32`.
use crate::debounce::Edge;
use crate::quadrature::Step;
use vstd::prelude::*;

verus! {

/// What a step adds to the position: clockwise counts up.
pub open spec fn step_delta(s: Step) -> int {
    match s {
        Step::NoStep => 0,
        Step::Clockwise => 1,
        Step::Counterclockwise => -1,
    }
}

/// What an edge adds to the press count: only a press counts.
pub open spec fn edge_delta(e: Option<Edge>) -> int {
    if e == Some(Edge::Rising) {
        1
    } else {
        0
    }
}

/// The `i32` that is congruent to `x` modulo 2^32.
pub open spec fn wrap_i32(x: int) -> i32 {
    let r = x % 0x1_0000_0000;
    if r > 0x7fff_ffff {
        (r - 0x1_0000_0000) as i32
    } else {
        r as i32
    }
}

/// The `u32` that is congruent to `x` modulo 2^32.
pub open spec fn wrap_u32(x: int) -> u32 {
    (x % 0x1_0000_0000) as u32
}

/// The increment that the position's writer adds for a step.
pub fn step_increment(s: Step) -> (r: i32)
    ensures
        r == step_delta(s),
{
    match s {
        Step::NoStep => 0,
        Step::Clockwise => 1,
        Step::Counterclockwise => -1,
    }
}

/// The increment that the press count's writer adds for a debouncer report.
pub fn edge_increment(e: Option<Edge>) -> (r: u32)
    ensures
        r == edge_delta(e),
{
    match e {
        Some(Edge::Rising) => 1,
        _ => 0,
    }
}

/// The position after one step.
pub fn advance_position(position: i32, s: Step) -> (r: i32)
    ensures
        r == wrap_i32(position + step_delta(s)),
{
    position.wrapping_add(step_increment(s))
}

/// The press count after one debouncer report.
pub fn advance_presses(presses: u32, e: Option<Edge>) -> (r: u32)
    ensures
        r == wrap_u32(presses + edge_delta(e)),
{
    presses.wrapping_add(edge_increment(e))
}


/// How many of `steps` are `kind`.
pub open spec fn count_steps(steps: Seq<Step>, kind: Step) -> nat
    decreases steps.len(),
{
    if steps.len() == 0 {
        0
    } else {
        count_steps(steps.drop_last(), kind) + (if steps.last() == kind { 1nat } else { 0nat })
    }
}

/// How many of `edges` report a press.
pub open spec fn count_presses(edges: Seq<Option<Edge>>) -> nat
    decreases edges.len(),
{
    if edges.len() == 0 {
        0
    } else {
        count_presses(edges.drop_last()) + (if edges.last() == Some(Edge::Rising) {
            1nat
        } else {
            0nat
        })
    }
}

/// The position after `steps`, one wrapping addition each, from `start`.
pub open spec fn position_after(start: i32, steps: Seq<Step>) -> i32
    decreases steps.len(),
{
    if steps.len() == 0 {
        start
    } else {
        wrap_i32(position_after(start, steps.drop_last()) + step_delta(steps.last()))
    }
}

/// The press count after `edges`, one wrapping addition each, from `start`.
pub open spec fn presses_after(start: u32, edges: Seq<Option<Edge>>) -> u32
    decreases edges.len(),
{
    if edges.len() == 0 {
        start
    } else {
        wrap_u32(presses_after(start, edges.drop_last()) + edge_delta(edges.last()))
    }
}

proof fn lemma_wrap_i32_add(x: int, d: int)
    ensures
        wrap_i32(wrap_i32(x) + d) == wrap_i32(x + d),
{
    let m: int = 0x1_0000_0000;
    let q = x / m;
    let c: int = if x % m > 0x7fff_ffff { 1 } else { 0 };
    assert(x == m * q + x % m) by {
        vstd::arithmetic::div_mod::lemma_fundamental_div_mod(x, m);
    }
    assert(wrap_i32(x) + d == m * (-(q + c)) + (x + d)) by (nonlinear_arith)
        requires
            wrap_i32(x) as int == x % m - c * m,
            x == m * q + x % m,
    ;
    vstd::arithmetic::div_mod::lemma_mod_multiples_vanish(-(q + c), x + d, m);
}

proof fn lemma_wrap_u32_add(x: int, d: int)
    ensures
        wrap_u32(wrap_u32(x) + d) == wrap_u32(x + d),
{
    let m: int = 0x1_0000_0000;
    let q = x / m;
    assert(x == m * q + x % m) by {
        vstd::arithmetic::div_mod::lemma_fundamental_div_mod(x, m);
    }
    assert(wrap_u32(x) + d == m * (-q) + (x + d));
    vstd::arithmetic::div_mod::lemma_mod_multiples_vanish(-q, x + d, m);
}

proof fn lemma_wrap_i32_id(x: i32)
    ensures
        wrap_i32(x as int) == x,
{
}

proof fn lemma_wrap_u32_id(x: u32)
    ensures
        wrap_u32(x as int) == x,
{
}

/// The position moves up by one for each clockwise step and down by one for
/// each counter-clockwise step, modulo the width of `i32`; a run made only of
/// no-steps leaves it where it was.
pub proof fn lemma_position_counts_steps(start: i32, steps: Seq<Step>)
    ensures
        position_after(start, steps) == wrap_i32(
            start + count_steps(steps, Step::Clockwise) - count_steps(steps, Step::Counterclockwise),
        ),
        (forall|i: int| 0 <= i < steps.len() ==> steps[i] == Step::NoStep) ==> position_after(
            start,
            steps,
        ) == start,
    decreases steps.len(),
{
    lemma_wrap_i32_id(start);
    if steps.len() > 0 {
        let prefix = steps.drop_last();
        lemma_position_counts_steps(start, prefix);
        let before = start + count_steps(prefix, Step::Clockwise) - count_steps(
            prefix,
            Step::Counterclockwise,
        );
        lemma_wrap_i32_add(before, step_delta(steps.last()));
        if forall|i: int| 0 <= i < steps.len() ==> steps[i] == Step::NoStep {
            assert(steps.last() == steps[steps.len() - 1]);
            assert forall|i: int| 0 <= i < prefix.len() implies prefix[i] == Step::NoStep by {
                assert(prefix[i] == steps[i]);
            }
        }
    }
}

/// The press count grows by exactly the number of reported presses, modulo
/// the width of `u32`: releases and silent samples add nothing.
pub proof fn lemma_presses_count_edges(start: u32, edges: Seq<Option<Edge>>)
    ensures
        presses_after(start, edges) == wrap_u32(start + count_presses(edges)),
    decreases edges.len(),
{
    lemma_wrap_u32_id(start);
    if edges.len() > 0 {
        lemma_presses_count_edges(start, edges.drop_last());
        lemma_wrap_u32_add(start + count_presses(edges.drop_last()), edge_delta(edges.last()));
    }
}

} // verus!
