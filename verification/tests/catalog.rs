//! Catalog and timeline-arithmetic tests: snippet directories, end times,
//! and microsecond/sample conversions.

use scribble_audio::{AudioSnippetData, AudioSnippetsData, Time, TimeDiff, SAMPLE_RATE};

#[test]
fn catalog_assigns_fresh_ids_and_keeps_entries() {
    let cat = AudioSnippetsData::default();
    let a = AudioSnippetData::new(vec![1, 2, 3], Time::zero());
    let b = AudioSnippetData::new(vec![4, 5], Time::from_micros(1_000_000));
    let cat1 = cat.with_new_snippet(a);
    let cat2 = cat1.with_new_snippet(b);
    let entries = cat2.snippets();
    assert_eq!(entries.len(), 2);
    assert_eq!(entries[0].1.buf().as_slice(), &[1, 2, 3]);
    assert_eq!(entries[1].1.buf().as_slice(), &[4, 5]);
    assert_eq!(entries[0].1.start_time().micros(), 0);
    assert_eq!(entries[1].1.start_time().micros(), 1_000_000);
    // The earlier catalog value is unchanged: catalogs are immutable.
    assert_eq!(cat1.snippets().len(), 1);
    // Ids are assigned monotonically and lookups find the entries.
    let id0 = entries[0].0;
    let id1 = entries[1].0;
    assert!(cat2.contains(id0));
    assert!(cat2.contains(id1));
    assert_eq!(cat2.snippet(id1).buf().as_slice(), &[4, 5]);
    assert!(!cat1.contains(id1));
}

#[test]
fn snippet_end_time() {
    // 48000 samples at 48000 samples per second last exactly one second.
    let snip = AudioSnippetData::new(vec![0; 48000], Time::from_micros(500_000));
    assert_eq!(snip.end_time().micros(), 1_500_000);
}

#[test]
fn catalog_end_time_is_latest() {
    let cat = AudioSnippetsData::default();
    assert_eq!(cat.end_time().micros(), 0);
    let early = AudioSnippetData::new(vec![0; 48000], Time::zero());
    let late = AudioSnippetData::new(vec![0; 24000], Time::from_micros(2_000_000));
    let cat = cat.with_new_snippet(early).with_new_snippet(late);
    assert_eq!(cat.end_time().micros(), 2_500_000);
}

#[test]
fn audio_idx_rounds_towards_zero() {
    assert_eq!(TimeDiff::from_micros(1_500_000).as_audio_idx(1), 1);
    assert_eq!(TimeDiff::from_micros(-1_500_000).as_audio_idx(1), -1);
    assert_eq!(TimeDiff::from_micros(100_000).as_audio_idx(SAMPLE_RATE), 4800);
    assert_eq!(TimeDiff::from_micros(1).as_audio_idx(SAMPLE_RATE), 0);
}

#[test]
fn idx_to_micros_round_trip() {
    let d = TimeDiff::from_audio_idx(48000, SAMPLE_RATE);
    assert_eq!(d.micros(), 1_000_000);
    let d = TimeDiff::from_audio_idx(1, 3);
    assert_eq!(d.micros(), 333_333);
}

#[test]
fn time_arithmetic() {
    let a = Time::from_micros(5_000_000);
    let b = Time::from_micros(2_000_000);
    assert_eq!(a.minus(b).micros(), 3_000_000);
    assert_eq!(b.plus(TimeDiff::from_micros(500_000)).micros(), 2_500_000);
    assert_eq!(Time::zero().micros(), 0);
}
