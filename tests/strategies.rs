use std::cell::Cell;

use tiny_pattern::error::PatternError;
use tiny_pattern::pattern::Pattern;
use tiny_pattern::source::{ByteSource, VecSource};

fn cursor(bytes: &[u8]) -> Pattern<VecSource> {
    Pattern::new(VecSource::new(bytes.to_vec()))
}

#[test]
fn new_cursor_has_consumed_nothing() {
    let p = cursor(&[1, 2, 3]);
    assert_eq!(p.count(), 0);
}

#[test]
fn any_returns_next_items_in_order() {
    let mut p = cursor(&[10, 20, 30, 40, 50]);
    assert_eq!(p.any::<3>().extract(), Ok([10, 20, 30]));
    assert_eq!(p.count(), 3);
}

#[test]
fn any_with_exactly_enough_items() {
    let mut p = cursor(&[7, 8]);
    assert_eq!(p.any::<2>().extract(), Ok([7, 8]));
    assert_eq!(p.count(), 2);
    assert_eq!(p.any::<1>().extract(), Err(PatternError::NotFound));
    assert_eq!(p.count(), 2);
}

#[test]
fn any_short_source_is_not_found_and_drains() {
    let mut p = cursor(&[1, 2]);
    assert_eq!(p.any::<5>().extract(), Err(PatternError::NotFound));
    assert_eq!(p.count(), 2);
}

#[test]
fn any_of_zero_items_consumes_nothing() {
    let mut p = cursor(&[1]);
    assert_eq!(p.any::<0>().extract(), Ok([]));
    assert_eq!(p.count(), 0);
}

#[test]
fn any_on_empty_source() {
    let mut p = cursor(&[]);
    assert_eq!(p.any::<1>().extract(), Err(PatternError::NotFound));
    assert_eq!(p.count(), 0);
}

#[test]
fn any_observer_sees_result_once() {
    let mut p = cursor(&[4, 5, 6]);
    let mut seen: Vec<u8> = Vec::new();
    let mut calls: u32 = 0;
    let r = p.any::<2>().extract_and(|items: &[u8]| {
        seen.extend_from_slice(items);
        calls += 1;
    });
    assert_eq!(r, Ok([4, 5]));
    assert_eq!(seen, vec![4, 5]);
    assert_eq!(calls, 1);
}

#[test]
fn any_observer_not_called_on_failure() {
    let mut p = cursor(&[4]);
    let mut calls: u32 = 0;
    let r = p.any::<2>().extract_and(|_items: &[u8]| calls += 1);
    assert_eq!(r, Err(PatternError::NotFound));
    assert_eq!(calls, 0);
}

#[test]
fn immediate_matches_expected() {
    let mut p = cursor(&[0xAA, 0x55, 0x01]);
    assert_eq!(p.immediate([0xAA, 0x55]).extract(), Ok([0xAA, 0x55]));
    assert_eq!(p.count(), 2);
}

#[test]
fn immediate_mismatch_consumes_through_mismatch() {
    let mut p = cursor(&[1, 2, 9, 4, 5]);
    assert_eq!(
        p.immediate([1, 2, 3, 4]).extract(),
        Err(PatternError::IncorrectValue)
    );
    assert_eq!(p.count(), 3);
    assert_eq!(p.any::<2>().extract(), Ok([4, 5]));
}

#[test]
fn immediate_first_item_mismatch_consumes_one() {
    let mut p = cursor(&[8, 2]);
    assert_eq!(p.immediate([1, 2]).extract(), Err(PatternError::IncorrectValue));
    assert_eq!(p.count(), 1);
}

#[test]
fn immediate_short_source_is_not_found() {
    let mut p = cursor(&[1, 2]);
    assert_eq!(p.immediate([1, 2, 3]).extract(), Err(PatternError::NotFound));
    assert_eq!(p.count(), 2);
}

#[test]
fn immediate_does_not_skip() {
    let mut p = cursor(&[0, 1, 2]);
    assert_eq!(p.immediate([1, 2]).extract(), Err(PatternError::IncorrectValue));
    assert_eq!(p.count(), 1);
}

#[test]
fn deferred_skips_to_anchor() {
    let mut p = cursor(&[3, 4, 0xAA, 0x55, 0x07, 99]);
    assert_eq!(p.deferred([0xAA, 0x55, 0x07]).extract(), Ok([0xAA, 0x55, 0x07]));
    assert_eq!(p.count(), 5);
    assert_eq!(p.any::<1>().extract(), Ok([99]));
}

#[test]
fn deferred_anchor_absent_drains_source() {
    let mut p = cursor(&[1, 2, 3, 4]);
    assert_eq!(p.deferred([9, 1]).extract(), Err(PatternError::NotFound));
    assert_eq!(p.count(), 4);
}

#[test]
fn deferred_mismatch_after_anchor_does_not_rescan() {
    let mut p = cursor(&[5, 7, 1, 7, 8]);
    assert_eq!(p.deferred([7, 8]).extract(), Err(PatternError::IncorrectValue));
    assert_eq!(p.count(), 3);
    assert_eq!(p.any::<2>().extract(), Ok([7, 8]));
}

#[test]
fn deferred_source_ends_after_anchor() {
    let mut p = cursor(&[0, 7, 8]);
    assert_eq!(p.deferred([7, 8, 9]).extract(), Err(PatternError::NotFound));
    assert_eq!(p.count(), 3);
}

#[test]
fn deferred_empty_expected_matches_at_once() {
    let mut p = cursor(&[1, 2]);
    assert_eq!(p.deferred::<0>([]).extract(), Ok([]));
    assert_eq!(p.count(), 0);
}

#[test]
fn deferred_observer_sees_match() {
    let mut p = cursor(&[0, 6, 6]);
    let mut seen: Vec<u8> = Vec::new();
    let r = p.deferred([6, 6]).extract_and(|items: &[u8]| seen.extend_from_slice(items));
    assert_eq!(r, Ok([6, 6]));
    assert_eq!(seen, vec![6, 6]);
}

#[test]
fn immediate_converted_to_deferred_keeps_expected() {
    let bytes = [1, 2, 0xAA, 0x55, 3];
    let mut p = cursor(&bytes);
    let converted = p.immediate([0xAA, 0x55]).deferred();
    assert_eq!(converted.expected, [0xAA, 0x55]);
    let mut converted = converted;
    let via_conversion = converted.extract();

    let mut q = cursor(&bytes);
    let direct = q.deferred([0xAA, 0x55]).extract();

    assert_eq!(via_conversion, direct);
    assert_eq!(via_conversion, Ok([0xAA, 0x55]));
    assert_eq!(p.count(), q.count());
    assert_eq!(p.count(), 4);
}

#[test]
fn sequential_extractions_see_contiguous_windows() {
    let mut p = cursor(&[1, 2, 3, 4, 5, 6]);
    let first = p.any::<2>().extract();
    let second = p.any::<3>().extract();
    assert_eq!(first, Ok([1, 2]));
    assert_eq!(second, Ok([3, 4, 5]));
    assert_eq!(p.count(), 5);
}

#[test]
fn get_decodes_consecutive_runs() {
    let mut p = cursor(&[1, 2, 3, 4, 5, 6]);
    let r = p.get::<3>().extract::<(u8, u8), 2>();
    assert_eq!(r, Ok(vec![(1, 2), (3, 4), (5, 6)]));
    assert_eq!(p.count(), 6);
}

#[test]
fn get_decodes_single_bytes() {
    let mut p = cursor(&[9, 8]);
    assert_eq!(p.get::<2>().extract::<u8, 1>(), Ok(vec![9, 8]));
    assert_eq!(p.count(), 2);
}

#[test]
fn get_rejected_run_reports_consumed_count() {
    let mut p = cursor(&[1, 0, 2, 1, 1]);
    let r = p.get::<4>().extract::<bool, 1>();
    assert_eq!(r, Err(PatternError::FailedDeserialize(3)));
    assert_eq!(p.count(), 3);
}

#[test]
fn get_rejected_count_includes_earlier_extractions() {
    let mut p = cursor(&[0, 0, 1, 7]);
    assert_eq!(p.any::<2>().extract(), Ok([0, 0]));
    assert_eq!(
        p.get::<2>().extract::<bool, 1>(),
        Err(PatternError::FailedDeserialize(4))
    );
}

#[test]
fn get_short_source_is_not_found() {
    let mut p = cursor(&[1, 2, 3]);
    assert_eq!(p.get::<2>().extract::<(u8, u8), 2>(), Err(PatternError::NotFound));
    assert_eq!(p.count(), 3);
}

#[test]
fn get_observer_sees_each_run() {
    let mut p = cursor(&[1, 2, 3, 4]);
    let calls = Cell::new(0u32);
    let total = Cell::new(0u32);
    let r = p.get::<2>().extract_and::<(u8, u8), 2, _>(|raw: &[u8]| {
        calls.set(calls.get() + 1);
        total.set(total.get() + raw.iter().map(|b| *b as u32).sum::<u32>());
    });
    assert_eq!(r, Ok(vec![(1, 2), (3, 4)]));
    assert_eq!(calls.get(), 2);
    assert_eq!(total.get(), 10);
}

#[test]
fn vec_source_yields_in_order() {
    let mut s = VecSource::new(vec![3, 4]);
    assert_eq!(s.remaining(), 2);
    assert_eq!(s.next_byte(), Some(3));
    assert_eq!(s.next_byte(), Some(4));
    assert_eq!(s.next_byte(), None);
    assert_eq!(s.remaining(), 0);
}

#[test]
fn cloned_cursor_reads_independently() {
    let mut p = cursor(&[1, 2, 3]);
    assert_eq!(p.any::<1>().extract(), Ok([1]));
    let mut snapshot = p.clone();
    assert_eq!(p.immediate([9]).extract(), Err(PatternError::IncorrectValue));
    assert_eq!(snapshot.any::<2>().extract(), Ok([2, 3]));
    assert_eq!(snapshot.count(), 3);
    assert_eq!(p.count(), 2);
}
