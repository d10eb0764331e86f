//! Debouncing of the push button.
//!
//! The button is sampled on a fixed period. The debouncer keeps the last two
//! samples of the logical "pressed" signal and the level it last confirmed,
//! and reports an edge only when both samples agree on a level that differs
//! from the confirmed one.
use crate::counters::{advance_presses, count_presses, presses_after};
use debouncr::{DebouncerStateful, Repeat2};
use vstd::prelude::*;

verus! {

/// A confirmed change of the pressed signal.
#[derive(Clone, Copy, Debug, PartialEq, Eq, Structural)]
pub enum Edge {
    /// The button became pressed.
    Rising,
    /// The button became released.
    Falling,
}

#[verifier::external_type_specification]
#[verifier::external_body]
#[verifier::reject_recursive_types(S)]
#[verifier::reject_recursive_types(M)]
pub struct ExDebouncerStateful<S, M>(DebouncerStateful<S, M>);

#[verifier::external_type_specification]
#[verifier::external_body]
pub struct ExRepeat2(Repeat2);

/// What a two-sample stateful debouncer holds: its shift register (bit 0 the
/// latest sample, bit 1 the one before) and whether the last edge it reported
/// was a rising one.
pub uninterp spec fn debounce_state(d: DebouncerStateful<u8, Repeat2>) -> (u8, bool);

/// The register after a sample, as debouncr computes it: a register that is
/// full (both bits set) and sees a pressed sample, or empty and sees a
/// released one, stays; any other shifts the sample in and keeps two bits.
pub open spec fn shifted(reg: u8, pressed: bool) -> u8 {
    if (reg == 3 && pressed) || (reg == 0 && !pressed) {
        reg
    } else {
        ((2 * reg + (if pressed { 1u8 } else { 0u8 })) % 4) as u8
    }
}

/// The edge that the register alone reports for a sample, as debouncr's
/// plain debouncer reports it: one only where
/// the register shifted and became full or empty.
pub open spec fn edge_after(reg: u8, pressed: bool) -> Option<Edge> {
    let next = shifted(reg, pressed);
    if (reg == 3 && pressed) || (reg == 0 && !pressed) {
        None
    } else if next == 3 {
        Some(Edge::Rising)
    } else if next == 0 {
        Some(Edge::Falling)
    } else {
        None
    }
}

/// The edge reported for a sample when `level` is the level last confirmed:
/// the register's edge, unless it confirms that same level again.
pub open spec fn confirmed_edge(reg: u8, level: bool, pressed: bool) -> Option<Edge> {
    let e = edge_after(reg, pressed);
    if e == Some(Edge::Rising) && !level {
        e
    } else if e == Some(Edge::Falling) && level {
        e
    } else {
        None
    }
}

/// The confirmed level after a reported edge.
pub open spec fn level_after_edge(level: bool, e: Option<Edge>) -> bool {
    match e {
        Some(Edge::Rising) => true,
        Some(Edge::Falling) => false,
        None => level,
    }
}

/// The register after a run of samples.
pub open spec fn register_after(reg: u8, samples: Seq<bool>) -> u8
    decreases samples.len(),
{
    if samples.len() == 0 {
        reg
    } else {
        shifted(register_after(reg, samples.drop_last()), samples.last())
    }
}

/// The confirmed level after a run of samples.
pub open spec fn level_after(reg: u8, level: bool, samples: Seq<bool>) -> bool
    decreases samples.len(),
{
    if samples.len() == 0 {
        level
    } else {
        let prefix = samples.drop_last();
        level_after_edge(
            level_after(reg, level, prefix),
            confirmed_edge(
                register_after(reg, prefix),
                level_after(reg, level, prefix),
                samples.last(),
            ),
        )
    }
}

/// The edges reported for a run of samples, one per sample.
pub open spec fn edges_of(reg: u8, level: bool, samples: Seq<bool>) -> Seq<Option<Edge>>
    decreases samples.len(),
{
    if samples.len() == 0 {
        Seq::empty()
    } else {
        let prefix = samples.drop_last();
        edges_of(reg, level, prefix).push(
            confirmed_edge(
                register_after(reg, prefix),
                level_after(reg, level, prefix),
                samples.last(),
            ),
        )
    }
}

proof fn lemma_presses_step(reg: u8, level: bool, samples: Seq<bool>)
    requires
        samples.len() > 0,
    ensures
        count_presses(edges_of(reg, level, samples)) == count_presses(
            edges_of(reg, level, samples.drop_last()),
        ) + (if confirmed_edge(
            register_after(reg, samples.drop_last()),
            level_after(reg, level, samples.drop_last()),
            samples.last(),
        ) == Some(Edge::Rising) {
            1nat
        } else {
            0nat
        }),
{
    let prefix = samples.drop_last();
    let e = edges_of(reg, level, prefix);
    let x = confirmed_edge(register_after(reg, prefix), level_after(reg, level, prefix), samples.last());
    assert(e.push(x).drop_last() =~= e);
}

proof fn lemma_run_concat(reg: u8, level: bool, first: Seq<bool>, second: Seq<bool>)
    ensures
        register_after(reg, first + second) == register_after(register_after(reg, first), second),
        level_after(reg, level, first + second) == level_after(
            register_after(reg, first),
            level_after(reg, level, first),
            second,
        ),
        count_presses(edges_of(reg, level, first + second)) == count_presses(
            edges_of(reg, level, first),
        ) + count_presses(
            edges_of(register_after(reg, first), level_after(reg, level, first), second),
        ),
    decreases second.len(),
{
    if second.len() > 0 {
        assert((first + second).drop_last() =~= first + second.drop_last());
        assert((first + second).last() == second.last());
        lemma_run_concat(reg, level, first, second.drop_last());
        lemma_presses_step(reg, level, first + second);
        lemma_presses_step(register_after(reg, first), level_after(reg, level, first), second);
    } else {
        assert(first + second =~= first);
        assert(edges_of(register_after(reg, first), level_after(reg, level, first), second)
            =~= Seq::<Option<Edge>>::empty());
    }
}

proof fn lemma_released_run(k: nat)
    ensures
        register_after(0, Seq::new(k, |i: int| false)) == 0,
        level_after(0, false, Seq::new(k, |i: int| false)) == false,
        count_presses(edges_of(0, false, Seq::new(k, |i: int| false))) == 0,
    decreases k,
{
    if k > 0 {
        assert(Seq::new(k, |i: int| false).drop_last() =~= Seq::new((k - 1) as nat, |i: int| false));
        lemma_released_run((k - 1) as nat);
        lemma_presses_step(0, false, Seq::new(k, |i: int| false));
    }
}

proof fn lemma_pressed_run(m: nat)
    requires
        m >= 2,
    ensures
        register_after(0, Seq::new(m, |i: int| true)) == 3,
        level_after(0, false, Seq::new(m, |i: int| true)) == true,
        count_presses(edges_of(0, false, Seq::new(m, |i: int| true))) == 1,
    decreases m,
{
    let run = Seq::new(m, |i: int| true);
    if m == 2 {
        assert(run.drop_last().drop_last() =~= Seq::<bool>::empty());
        assert(edges_of(0, false, run.drop_last().drop_last()) =~= Seq::<Option<Edge>>::empty());
        lemma_presses_step(0, false, run.drop_last());
    } else {
        assert(run.drop_last() =~= Seq::new((m - 1) as nat, |i: int| true));
        lemma_pressed_run((m - 1) as nat);
    }
    lemma_presses_step(0, false, run);
}

/// After the button has rested released, pressing it and holding it for two
/// samples or more reports exactly one press.
pub proof fn lemma_clean_press(k: nat, m: nat)
    requires
        m >= 2,
    ensures
        count_presses(
            edges_of(0, false, Seq::new(k, |i: int| false) + Seq::new(m, |i: int| true)),
        ) == 1,
{
    lemma_run_concat(0, false, Seq::new(k, |i: int| false), Seq::new(m, |i: int| true));
    lemma_released_run(k);
    lemma_pressed_run(m);
}

/// Every sample after the first differs from the sample before it.
pub open spec fn toggles_every_sample(samples: Seq<bool>) -> bool {
    forall|i: int| 0 < i < samples.len() ==> #[trigger] samples[i] != samples[i - 1]
}

/// A signal that changes on every sample reports at most one press, from any
/// state of the debouncer; only its first sample can complete one.
pub proof fn lemma_toggling_signal(reg: u8, level: bool, samples: Seq<bool>)
    requires
        reg < 4,
        toggles_every_sample(samples),
    ensures
        count_presses(edges_of(reg, level, samples)) <= 1,
        samples.len() > 0 ==> count_presses(edges_of(reg, level, samples)) == (if confirmed_edge(
            reg,
            level,
            samples[0],
        ) == Some(Edge::Rising) {
            1nat
        } else {
            0nat
        }),
        samples.len() > 0 ==> (register_after(reg, samples) % 2 == 1 <==> samples.last()),
        register_after(reg, samples) < 4,
    decreases samples.len(),
{
    if samples.len() > 0 {
        let prefix = samples.drop_last();
        assert forall|i: int| 0 < i < prefix.len() implies #[trigger] prefix[i] != prefix[i - 1] by {
            assert(samples[i] != samples[i - 1]);
        }
        lemma_toggling_signal(reg, level, prefix);
        lemma_presses_step(reg, level, samples);
        if prefix.len() == 0 {
            assert(edges_of(reg, level, prefix) =~= Seq::<Option<Edge>>::empty());
            assert(samples.last() == samples[0]);
        } else {
            assert(samples[samples.len() - 1] != samples[samples.len() - 2]);
            assert(prefix.last() == samples[samples.len() - 2]);
            assert(prefix[0] == samples[0]);
        }
    }
}

/// Relies on debouncr's `debounce_stateful_2`: the register starts full and
/// the last edge rising when the initial state is pressed, and empty and
/// falling otherwise.
#[verifier::external_body]
fn new_debouncer(initial_pressed: bool) -> (r: DebouncerStateful<u8, Repeat2>)
    ensures
        debounce_state(r) == (if initial_pressed { 3u8 } else { 0u8 }, initial_pressed),
{
    debouncr::debounce_stateful_2(initial_pressed)
}

/// Relies on debouncr's `DebouncerStateful::<u8, Repeat2>::update`: the
/// register shifts as `shifted` says, and the edge of the register is
/// reported, and remembered, only when it differs from the last one.
#[verifier::external_body]
fn update_debouncer(d: &mut DebouncerStateful<u8, Repeat2>, pressed: bool) -> (r: Option<Edge>)
    requires
        debounce_state(*old(d)).0 < 4,
    ensures
        debounce_state(*final(d)).0 == shifted(debounce_state(*old(d)).0, pressed),
        r == confirmed_edge(debounce_state(*old(d)).0, debounce_state(*old(d)).1, pressed),
        debounce_state(*final(d)).1 == level_after_edge(debounce_state(*old(d)).1, r),
{
    match d.update(pressed) {
        None => None,
        Some(debouncr::Edge::Rising) => Some(Edge::Rising),
        Some(debouncr::Edge::Falling) => Some(Edge::Falling),
    }
}

/// The button's debouncer.
pub struct ButtonDebouncer {
    inner: DebouncerStateful<u8, Repeat2>,
}

impl ButtonDebouncer {
    /// The last two samples, as a two-bit register.
    pub closed spec fn register(&self) -> u8 {
        debounce_state(self.inner).0
    }

    /// Whether the level last confirmed is pressed.
    pub closed spec fn level(&self) -> bool {
        debounce_state(self.inner).1
    }

    pub closed spec fn wf(&self) -> bool {
        self.register() < 4
    }

    /// A debouncer for a button that starts released.
    pub fn new() -> (r: Self)
        ensures
            r.wf(),
            r.register() == 0,
            r.level() == false,
    {
        ButtonDebouncer { inner: new_debouncer(false) }
    }

    /// Takes one sample of the pressed signal and reports the edge it confirms.
    pub fn update(&mut self, pressed: bool) -> (r: Option<Edge>)
        requires
            old(self).wf(),
        ensures
            final(self).wf(),
            final(self).register() == shifted(old(self).register(), pressed),
            final(self).level() == level_after_edge(old(self).level(), r),
            r == confirmed_edge(old(self).register(), old(self).level(), pressed),
    {
        update_debouncer(&mut self.inner, pressed)
    }

    /// Debounces a run of samples in order, starting from the press count
    /// `presses`, and returns the count that the reported presses lead to.
    pub fn feed(&mut self, samples: &Vec<bool>, presses: u32) -> (r: u32)
        requires
            old(self).wf(),
        ensures
            final(self).wf(),
            final(self).register() == register_after(old(self).register(), samples@),
            final(self).level() == level_after(old(self).register(), old(self).level(), samples@),
            r == presses_after(
                presses,
                edges_of(old(self).register(), old(self).level(), samples@),
            ),
    {
        let ghost reg = self.register();
        let ghost level = self.level();
        let mut count: u32 = presses;
        let mut i: usize = 0;
        while i < samples.len()
            invariant
                self.wf(),
                i <= samples@.len(),
                self.register() == register_after(reg, samples@.take(i as int)),
                self.level() == level_after(reg, level, samples@.take(i as int)),
                count == presses_after(presses, edges_of(reg, level, samples@.take(i as int))),
            decreases samples@.len() - i,
        {
            let edge = self.update(samples[i]);
            assert(samples@.take(i + 1).drop_last() =~= samples@.take(i as int));
            proof {
                let e = edges_of(reg, level, samples@.take(i as int));
                assert(edges_of(reg, level, samples@.take(i + 1)).drop_last() =~= e);
            }
            count = advance_presses(count, edge);
            i = i + 1;
        }
        assert(samples@.take(i as int) =~= samples@);
        count
    }
}

} // verus!
