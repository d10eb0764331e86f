//! Quadrature decoding of the two encoder phases.
//!
//! The two phases form a two-bit code, phase A in bit 0 and phase B in bit 1.
//! Clockwise rotation walks the codes 0, 1, 3, 2, 0, ...; counter-clockwise
//! rotation walks them the other way. Any other change (a skipped code) is
//! noise, and a code that did not change is no step.
use rotary_encoder_embedded::quadrature::QuadratureTableMode;
use crate::counters::{
    advance_position, count_steps, lemma_position_counts_steps, position_after, wrap_i32,
};
use rotary_encoder_embedded::Direction;
use vstd::prelude::*;

verus! {

/// What one sample of the two phases means, given the sample before it.
#[derive(Clone, Copy, Debug, PartialEq, Eq, Structural)]
pub enum Step {
    NoStep,
    Clockwise,
    Counterclockwise,
}

/// The code formed by the two phase levels.
pub open spec fn code_spec(a: bool, b: bool) -> u8 {
    ((if a { 1u8 } else { 0u8 }) + (if b { 2u8 } else { 0u8 })) as u8
}

/// The code that follows `c` in clockwise rotation.
pub open spec fn clockwise_next(c: u8) -> u8 {
    if c == 0 {
        1
    } else if c == 1 {
        3
    } else if c == 3 {
        2
    } else {
        0
    }
}

/// Classification of the change from code `prev` to code `curr` (both below 4).
pub open spec fn step_between(prev: u8, curr: u8) -> Step {
    if prev == curr {
        Step::NoStep
    } else if curr == clockwise_next(prev) {
        Step::Clockwise
    } else if prev == clockwise_next(curr) {
        Step::Counterclockwise
    } else {
        Step::NoStep
    }
}

/// The codes of a run of phase samples, each sample an `(a, b)` pair.
pub open spec fn codes_of(samples: Seq<(bool, bool)>) -> Seq<u8> {
    samples.map_values(|p: (bool, bool)| code_spec(p.0, p.1))
}

/// The code seen before `codes[i]`, where `prev` was seen before `codes[0]`.
pub open spec fn prior_code(prev: u8, codes: Seq<u8>, i: int) -> u8 {
    if i == 0 {
        prev
    } else {
        codes[i - 1]
    }
}

/// The steps that a run of codes makes after the code `prev`.
pub open spec fn steps_of(prev: u8, codes: Seq<u8>) -> Seq<Step> {
    Seq::new(codes.len(), |i: int| step_between(prior_code(prev, codes, i), codes[i]))
}

/// How many codes of the run differ from the code before them.
pub open spec fn code_changes(prev: u8, codes: Seq<u8>) -> nat
    decreases codes.len(),
{
    if codes.len() == 0 {
        0
    } else {
        code_changes(prev, codes.drop_last()) + (if codes.last() != prior_code(
            prev,
            codes,
            codes.len() - 1,
        ) {
            1nat
        } else {
            0nat
        })
    }
}

/// Every code of the run is the code before it, held, or its clockwise
/// successor.
pub open spec fn turns_forward(prev: u8, codes: Seq<u8>) -> bool {
    forall|i: int|
        0 <= i < codes.len() ==> #[trigger] codes[i] == prior_code(prev, codes, i) || codes[i]
            == clockwise_next(prior_code(prev, codes, i))
}

/// A code that is held makes no step; a run that only holds codes or moves
/// to the clockwise successor makes one clockwise step per change of code and
/// no counter-clockwise step, however often each code is read again.
pub proof fn lemma_forward_run(prev: u8, codes: Seq<u8>)
    requires
        prev < 4,
        forall|i: int| 0 <= i < codes.len() ==> codes[i] < 4,
        turns_forward(prev, codes),
    ensures
        forall|i: int|
            0 <= i < codes.len() && codes[i] == prior_code(prev, codes, i) ==> #[trigger] steps_of(
                prev,
                codes,
            )[i] == Step::NoStep,
        count_steps(steps_of(prev, codes), Step::Clockwise) == code_changes(prev, codes),
        count_steps(steps_of(prev, codes), Step::Counterclockwise) == 0,
    decreases codes.len(),
{
    if codes.len() > 0 {
        let n = codes.len() - 1;
        let prefix = codes.drop_last();
        assert(steps_of(prev, codes).drop_last() =~= steps_of(prev, prefix));
        assert forall|i: int| 0 <= i < prefix.len() implies #[trigger] prefix[i] == prior_code(
            prev,
            prefix,
            i,
        ) || prefix[i] == clockwise_next(prior_code(prev, prefix, i)) by {
            assert(codes[i] == prior_code(prev, codes, i) || codes[i] == clockwise_next(
                prior_code(prev, codes, i),
            ));
        }
        lemma_forward_run(prev, prefix);
        assert(codes[n] == prior_code(prev, codes, n) || codes[n] == clockwise_next(
            prior_code(prev, codes, n),
        ));
    }
}

proof fn lemma_every_code_changes(prev: u8, codes: Seq<u8>)
    requires
        forall|i: int| 0 <= i < codes.len() ==> #[trigger] codes[i] != prior_code(prev, codes, i),
    ensures
        code_changes(prev, codes) == codes.len(),
    decreases codes.len(),
{
    if codes.len() > 0 {
        let prefix = codes.drop_last();
        assert forall|i: int| 0 <= i < prefix.len() implies #[trigger] prefix[i] != prior_code(
            prev,
            prefix,
            i,
        ) by {
            assert(codes[i] != prior_code(prev, codes, i));
        }
        lemma_every_code_changes(prev, prefix);
        assert(codes.last() != prior_code(prev, codes, codes.len() - 1));
    }
}

/// The `i`-th code of clockwise turns that start at code 0: 1, 3, 2, 0, 1, ...
pub open spec fn turn_code(i: int) -> u8 {
    let r = i % 4;
    if r == 0 {
        1
    } else if r == 1 {
        3
    } else if r == 2 {
        2
    } else {
        0
    }
}

/// The codes of `k` full clockwise turns that start at code 0.
pub open spec fn full_turns(k: nat) -> Seq<u8> {
    Seq::new(4 * k, |i: int| turn_code(i))
}

/// Each full clockwise turn 0, 1, 3, 2, 0 moves the position up by exactly
/// four.
pub proof fn lemma_full_turns(start: i32, k: nat)
    ensures
        position_after(start, steps_of(0, full_turns(k))) == wrap_i32(start + 4 * k),
{
    let codes = full_turns(k);
    assert forall|i: int| 0 <= i < codes.len() implies #[trigger] codes[i] == clockwise_next(
        prior_code(0, codes, i),
    ) && codes[i] != prior_code(0, codes, i) && codes[i] < 4 by {
        if i > 0 {
            assert(codes[i - 1] == turn_code(i - 1));
        }
    }
    lemma_every_code_changes(0, codes);
    lemma_forward_run(0, codes);
    lemma_position_counts_steps(start, steps_of(0, codes));
}

/// The two-bit code of the phase levels `a` and `b`.
pub fn code_of(a: bool, b: bool) -> (r: u8)
    ensures
        r == code_spec(a, b),
        r < 4,
{
    let lo: u8 = if a { 1 } else { 0 };
    let hi: u8 = if b { 2 } else { 0 };
    lo + hi
}

#[verifier::external_type_specification]
#[verifier::external_body]
pub struct ExQuadratureTableMode(QuadratureTableMode);

/// What a `QuadratureTableMode` holds: the previous code, the running sum of
/// steps not yet reported, and the number of steps that makes a report.
pub uninterp spec fn table_mode_state(m: QuadratureTableMode) -> (u8, i8, u8);

/// Relies on rotary_encoder_embedded's `QuadratureTableMode::new`: previous
/// code 0, nothing pending, the given threshold.
#[verifier::external_body]
fn new_table_mode(threshold: u8) -> (r: QuadratureTableMode)
    ensures
        table_mode_state(r) == (0u8, 0i8, threshold),
{
    QuadratureTableMode::new(threshold)
}

/// Relies on rotary_encoder_embedded's `QuadratureTableMode::update`: the
/// code `dt | clk << 1` is looked up against the previous code in its table,
/// which holds +1 for the four clockwise changes, -1 for the four
/// counter-clockwise ones and 0 for the rest; with a threshold of 1 and nothing
/// pending, a nonzero entry is reported at once and nothing stays pending.
#[verifier::external_body]
fn update_table_mode(m: &mut QuadratureTableMode, dt: bool, clk: bool) -> (r: Step)
    requires
        table_mode_state(*old(m)).0 < 4,
        table_mode_state(*old(m)).1 == 0,
        table_mode_state(*old(m)).2 == 1,
    ensures
        table_mode_state(*final(m)) == (code_spec(dt, clk), 0i8, 1u8),
        r == step_between(table_mode_state(*old(m)).0, code_spec(dt, clk)),
{
    match m.update(dt, clk) {
        Direction::None => Step::NoStep,
        Direction::Clockwise => Step::Clockwise,
        Direction::Anticlockwise => Step::Counterclockwise,
    }
}

/// The decoder: remembers the last code it saw and classifies each new one.
pub struct QuadratureDecoder {
    mode: QuadratureTableMode,
}

impl QuadratureDecoder {
    /// The code seen last.
    pub closed spec fn last_code(&self) -> u8 {
        table_mode_state(self.mode).0
    }

    pub closed spec fn wf(&self) -> bool {
        &&& table_mode_state(self.mode).0 < 4
        &&& table_mode_state(self.mode).1 == 0
        &&& table_mode_state(self.mode).2 == 1
    }

    /// A decoder whose pins start at code 0.
    pub fn new() -> (r: Self)
        ensures
            r.wf(),
            r.last_code() == 0,
    {
        QuadratureDecoder { mode: new_table_mode(1) }
    }

    /// Classifies the phase levels `a` and `b` against the last code seen,
    /// and remembers their code whatever the result.
    pub fn update(&mut self, a: bool, b: bool) -> (r: Step)
        requires
            old(self).wf(),
        ensures
            final(self).wf(),
            final(self).last_code() == code_spec(a, b),
            r == step_between(old(self).last_code(), code_spec(a, b)),
    {
        update_table_mode(&mut self.mode, a, b)
    }

    /// Decodes a run of samples in order, starting from `position`, and
    /// returns the position that the steps lead to.
    pub fn feed(&mut self, samples: &Vec<(bool, bool)>, position: i32) -> (r: i32)
        requires
            old(self).wf(),
        ensures
            final(self).wf(),
            final(self).last_code() == prior_code(
                old(self).last_code(),
                codes_of(samples@),
                samples@.len() as int,
            ),
            r == position_after(position, steps_of(old(self).last_code(), codes_of(samples@))),
    {
        let ghost prev = self.last_code();
        let ghost codes = codes_of(samples@);
        let mut pos: i32 = position;
        let mut i: usize = 0;
        while i < samples.len()
            invariant
                self.wf(),
                i <= samples@.len(),
                codes == codes_of(samples@),
                self.last_code() == prior_code(prev, codes, i as int),
                pos == position_after(position, steps_of(prev, codes).take(i as int)),
            decreases samples@.len() - i,
        {
            let (a, b) = samples[i];
            let step = self.update(a, b);
            assert(steps_of(prev, codes).take(i + 1).drop_last() =~= steps_of(prev, codes).take(
                i as int,
            ));
            pos = advance_position(pos, step);
            i = i + 1;
        }
        assert(steps_of(prev, codes).take(i as int) =~= steps_of(prev, codes));
        pos
    }
}

} // verus!
