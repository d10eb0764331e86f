use rotary_panel::counters::{advance_position, advance_presses, edge_increment, step_increment};
use rotary_panel::debounce::{ButtonDebouncer, Edge};
use rotary_panel::quadrature::{code_of, QuadratureDecoder, Step};
use rotary_panel::render::status_text;

fn pins(code: u8) -> (bool, bool) {
    (code & 1 == 1, code & 2 == 2)
}

fn samples_of(codes: &[u8]) -> Vec<(bool, bool)> {
    codes.iter().map(|c| pins(*c)).collect()
}

#[test]
fn code_of_pairs_phase_a_low_bit() {
    assert_eq!(code_of(false, false), 0);
    assert_eq!(code_of(true, false), 1);
    assert_eq!(code_of(false, true), 2);
    assert_eq!(code_of(true, true), 3);
}

#[test]
fn one_turn_with_repeated_reads_is_four_steps() {
    let mut decoder = QuadratureDecoder::new();
    let position = decoder.feed(&samples_of(&[0, 1, 1, 3, 3, 2, 2, 0]), 0);
    assert_eq!(position, 4);
}

#[test]
fn each_clockwise_change_is_one_step() {
    let mut decoder = QuadratureDecoder::new();
    let mut steps = Vec::new();
    for code in [1u8, 3, 2, 0] {
        let (a, b) = pins(code);
        steps.push(decoder.update(a, b));
    }
    assert_eq!(steps, vec![Step::Clockwise; 4]);
}

#[test]
fn repeated_turns_add_four_each() {
    let mut decoder = QuadratureDecoder::new();
    let mut codes = Vec::new();
    for _ in 0..3 {
        codes.extend_from_slice(&[1, 1, 1, 3, 2, 2, 0, 0]);
    }
    assert_eq!(decoder.feed(&samples_of(&codes), 10), 22);
}

#[test]
fn counterclockwise_turn_subtracts_four() {
    let mut decoder = QuadratureDecoder::new();
    assert_eq!(decoder.feed(&samples_of(&[2, 3, 1, 0]), 0), -4);
}

#[test]
fn held_code_makes_no_step() {
    let mut decoder = QuadratureDecoder::new();
    for _ in 0..5 {
        assert_eq!(decoder.update(false, false), Step::NoStep);
    }
    assert_eq!(decoder.update(true, false), Step::Clockwise);
    for _ in 0..5 {
        assert_eq!(decoder.update(true, false), Step::NoStep);
    }
}

#[test]
fn skipped_code_is_noise() {
    let mut decoder = QuadratureDecoder::new();
    assert_eq!(decoder.update(true, true), Step::NoStep);
    assert_eq!(decoder.update(false, false), Step::NoStep);
    // The code is remembered even when it made no step.
    assert_eq!(decoder.update(false, true), Step::Counterclockwise);
}

#[test]
fn noise_only_leaves_position() {
    let mut decoder = QuadratureDecoder::new();
    assert_eq!(decoder.feed(&samples_of(&[0, 3, 0, 3, 3, 0]), -7), -7);
}

#[test]
fn position_wraps_at_the_width_of_i32() {
    assert_eq!(advance_position(i32::MAX, Step::Clockwise), i32::MIN);
    assert_eq!(advance_position(i32::MIN, Step::Counterclockwise), i32::MAX);
    assert_eq!(advance_position(5, Step::NoStep), 5);
    let mut decoder = QuadratureDecoder::new();
    assert_eq!(decoder.feed(&samples_of(&[1]), i32::MAX), i32::MIN);
}

#[test]
fn increments_per_event() {
    assert_eq!(step_increment(Step::Clockwise), 1);
    assert_eq!(step_increment(Step::Counterclockwise), -1);
    assert_eq!(step_increment(Step::NoStep), 0);
    assert_eq!(edge_increment(Some(Edge::Rising)), 1);
    assert_eq!(edge_increment(Some(Edge::Falling)), 0);
    assert_eq!(edge_increment(None), 0);
}

#[test]
fn presses_wrap_at_the_width_of_u32() {
    assert_eq!(advance_presses(u32::MAX, Some(Edge::Rising)), 0);
    assert_eq!(advance_presses(3, Some(Edge::Falling)), 3);
}

#[test]
fn held_press_after_rest_counts_once() {
    // The pin is active-low: a low pin is a pressed button.
    let pin_low = [false, false, false, false, false, true, true, true, true, true];
    let mut debouncer = ButtonDebouncer::new();
    let pressed: Vec<bool> = pin_low.to_vec();
    assert_eq!(debouncer.feed(&pressed, 0), 1);
    let noise = vec![false, true, false, true, false, true];
    assert_eq!(debouncer.feed(&noise, 1), 1);
}

#[test]
fn debouncer_reports_edges_after_two_samples() {
    let mut debouncer = ButtonDebouncer::new();
    assert_eq!(debouncer.update(false), None);
    assert_eq!(debouncer.update(true), None);
    assert_eq!(debouncer.update(true), Some(Edge::Rising));
    assert_eq!(debouncer.update(true), None);
    assert_eq!(debouncer.update(false), None);
    assert_eq!(debouncer.update(false), Some(Edge::Falling));
    assert_eq!(debouncer.update(false), None);
}

#[test]
fn bounce_during_press_counts_once() {
    let mut debouncer = ButtonDebouncer::new();
    let samples = vec![true, false, true, true, false, true, true, true, false, false];
    assert_eq!(debouncer.feed(&samples, 0), 1);
}

#[test]
fn toggling_every_sample_counts_at_most_once() {
    let mut debouncer = ButtonDebouncer::new();
    let samples: Vec<bool> = (0..100).map(|i| i % 2 == 0).collect();
    assert_eq!(debouncer.feed(&samples, 0), 0);
    let mut debouncer = ButtonDebouncer::new();
    debouncer.update(true);
    let samples: Vec<bool> = (0..100).map(|i| i % 2 == 0).collect();
    assert_eq!(debouncer.feed(&samples, 0), 1);
}

#[test]
fn ten_thousand_presses_are_all_counted() {
    let mut debouncer = ButtonDebouncer::new();
    let mut samples = Vec::new();
    for _ in 0..10_000 {
        samples.extend_from_slice(&[true, true, true, false, false, false]);
    }
    assert_eq!(debouncer.feed(&samples, 0), 10_000);
}

#[test]
fn ten_thousand_steps_are_all_counted() {
    let mut decoder = QuadratureDecoder::new();
    let mut codes = Vec::new();
    for _ in 0..2_500 {
        codes.extend_from_slice(&[1, 3, 2, 0]);
    }
    assert_eq!(decoder.feed(&samples_of(&codes), 0), 10_000);
}

#[test]
fn status_text_of_zero_counters() {
    assert_eq!(status_text(0, 0), "Count: 0\nButton: 0");
}

#[test]
fn status_text_of_negative_position() {
    assert_eq!(status_text(-42, 7), "Count: -42\nButton: 7");
    assert_eq!(status_text(1905, 10), "Count: 1905\nButton: 10");
}

#[test]
fn status_text_of_extreme_values() {
    assert_eq!(
        status_text(i32::MIN, u32::MAX),
        "Count: -2147483648\nButton: 4294967295"
    );
    assert_eq!(status_text(i32::MAX, 0), "Count: 2147483647\nButton: 0");
}
