//! Mixing-engine tests: the timeline cursor over snippet catalogs at
//! different speeds and directions.

use scribble_audio::{AudioSnippetData, AudioSnippetsData, Cursor, CursorBuffer, Speed, Time};

fn snips(entries: &[(i64, &[i16])]) -> AudioSnippetsData {
    let mut ret = AudioSnippetsData::default();
    for (secs, buf) in entries {
        let time = Time::from_micros(secs * 1_000_000);
        ret = ret.with_new_snippet(AudioSnippetData::new(buf.to_vec(), time));
    }
    ret
}

#[test]
fn speed_1() {
    let snips = snips(&[(0, &[1, 2, 3, 4, 5])]);
    // a sample rate of 1 is silly, but it lets us get the indices right
    // without any rounding issues.
    let mut c = Cursor::new(&snips, Time::zero(), 1, Speed::from_integer(1));
    let mut out = vec![0; 5];
    c.mix_to_buffer(&snips, &mut out, Speed::from_integer(1));
    assert_eq!(out, vec![1, 2, 3, 4, 5]);
}

#[test]
fn speed_1_offset() {
    let snips = snips(&[(5, &[1, 2, 3, 4, 5])]);
    let mut c = Cursor::new(&snips, Time::zero(), 1, Speed::from_integer(1));
    let mut out = vec![0; 15];
    c.mix_to_buffer(&snips, &mut out, Speed::from_integer(1));
    assert_eq!(out, vec![0, 0, 0, 0, 0, 1, 2, 3, 4, 5, 0, 0, 0, 0, 0]);
}

#[test]
fn speed_2() {
    let snips = snips(&[(0, &[1, 2, 3, 4, 5, 6])]);
    let mut c = Cursor::new(&snips, Time::zero(), 1, Speed::from_integer(2));
    let mut out = vec![0; 6];
    c.mix_to_buffer(&snips, &mut out, Speed::from_integer(2));
    assert_eq!(out, vec![1, 3, 5, 0, 0, 0]);
}

#[test]
fn speed_2_offset() {
    let snips = snips(&[(2, &[1, 2, 3, 4, 5, 6])]);
    let mut c = Cursor::new(&snips, Time::zero(), 1, Speed::from_integer(2));
    let mut out = vec![0; 6];
    c.mix_to_buffer(&snips, &mut out, Speed::from_integer(2));
    assert_eq!(out, vec![0, 1, 3, 5, 0, 0]);
}

#[test]
fn backwards_1() {
    let snips = snips(&[(2, &[1, 2, 3, 4, 5])]);
    let mut c = Cursor::new(
        &snips,
        Time::from_micros(9 * 1000000),
        1,
        Speed::from_integer(-1),
    );
    let mut out = vec![0; 10];
    c.mix_to_buffer(&snips, &mut out, Speed::from_integer(-1));
    assert_eq!(out, vec![0, 0, 5, 4, 3, 2, 1, 0, 0, 0]);
}

#[test]
fn backwards_2() {
    let snips = snips(&[(2, &[1, 2, 3, 4, 5])]);
    let mut c = Cursor::new(
        &snips,
        Time::from_micros(9 * 1000000),
        1,
        Speed::from_integer(-2),
    );
    let mut out = vec![0; 10];
    c.mix_to_buffer(&snips, &mut out, Speed::from_integer(-2));
    assert_eq!(out, vec![0, 5, 3, 1, 0, 0, 0, 0, 0, 0]);
}

#[test]
fn multiple_snippets() {
    let snips = snips(&[(0, &[1, 2, 3]), (2, &[1, 2, 3])]);
    let mut c = Cursor::new(&snips, Time::zero(), 1, Speed::from_integer(1));
    let mut out = vec![0; 10];
    c.mix_to_buffer(&snips, &mut out, Speed::from_integer(1));
    assert_eq!(out, vec![1, 2, 4, 2, 3, 0, 0, 0, 0, 0]);
}

#[test]
fn multiple_snippets_backwards() {
    let snips = snips(&[(0, &[1, 2, 3]), (2, &[1, 2, 3])]);
    let mut c = Cursor::new(
        &snips,
        Time::from_micros(10 * 1000000),
        1,
        Speed::from_integer(-1),
    );
    let mut out = vec![0; 10];
    c.mix_to_buffer(&snips, &mut out, Speed::from_integer(-1));
    assert_eq!(out, vec![0, 0, 0, 0, 0, 3, 2, 4, 2, 1]);
}

#[test]
fn non_overlapping_snippets() {
    let snips = snips(&[(0, &[1, 2, 3]), (12, &[1, 2, 3])]);
    let mut c = Cursor::new(&snips, Time::zero(), 1, Speed::from_integer(1));
    let mut out = vec![0; 10];
    c.mix_to_buffer(&snips, &mut out, Speed::from_integer(1));
    assert_eq!(out, vec![1, 2, 3, 0, 0, 0, 0, 0, 0, 0]);

    let mut out = vec![0; 10];
    c.mix_to_buffer(&snips, &mut out, Speed::from_integer(1));
    assert_eq!(out, vec![0, 0, 1, 2, 3, 0, 0, 0, 0, 0]);
}

#[test]
fn overlapping_snippets_add_raw() {
    // Overlapping snippets combine by plain addition, sample by sample.
    let snips = snips(&[(0, &[1000, 2000, 3000]), (0, &[5, 5, 5])]);
    let mut c = Cursor::new(&snips, Time::zero(), 1, Speed::from_integer(1));
    let mut out = vec![0; 4];
    c.mix_to_buffer(&snips, &mut out, Speed::from_integer(1));
    assert_eq!(out, vec![1005, 2005, 3005, 0]);
}

#[test]
fn overlapping_sum_wraps_without_clipping() {
    // The raw sum is never clamped: past the sample range it wraps in
    // two's complement, as raw 16-bit addition does.
    let snips = snips(&[(0, &[30000]), (0, &[10000])]);
    let mut c = Cursor::new(&snips, Time::zero(), 1, Speed::from_integer(1));
    let mut out = vec![0; 1];
    c.mix_to_buffer(&snips, &mut out, Speed::from_integer(1));
    assert_eq!(out, vec![(30000i16).wrapping_add(10000)]);
    assert_eq!(out, vec![-25536]);
}

#[test]
fn fractional_speed_interpolates() {
    // At speed 1/2 the engine reads fractional input indices and linearly
    // interpolates between adjacent samples. The call consumes two input
    // samples, so the read that crosses that window interpolates against
    // silence.
    let snips = snips(&[(0, &[10, 20, 30, 40])]);
    let half = Speed::new(1, 2);
    let mut c = Cursor::new(&snips, Time::zero(), 1, half);
    let mut out = vec![0; 4];
    c.mix_to_buffer(&snips, &mut out, half);
    assert_eq!(out, vec![10, 15, 20, 10]);
}

#[test]
fn cursor_finished_after_retirement() {
    // A cursor reports finished only once every snippet has both activated
    // and retired; a retired snippet is never revisited.
    let snips = snips(&[(0, &[1, 2, 3]), (6, &[4, 5])]);
    let mut c = Cursor::new(&snips, Time::zero(), 1, Speed::from_integer(1));
    assert!(!c.is_finished());
    let mut out = vec![0; 5];
    c.mix_to_buffer(&snips, &mut out, Speed::from_integer(1));
    assert_eq!(out, vec![1, 2, 3, 0, 0]);
    // The first snippet is retired, the second not yet reached.
    assert!(!c.is_finished());
    let mut out = vec![0; 5];
    c.mix_to_buffer(&snips, &mut out, Speed::from_integer(1));
    // The first snippet does not reappear even though its samples lie
    // before the new position.
    assert_eq!(out, vec![0, 4, 5, 0, 0]);
    assert!(c.is_finished());
}

#[test]
fn reverse_from_end_at_higher_rate() {
    // Reverse playback from the snippet's exact end reproduces the samples
    // in reversed order, here at two samples per second.
    let snips = snips(&[(0, &[1, 2, 3, 4])]);
    let mut c = Cursor::new(
        &snips,
        Time::from_micros(2 * 1_000_000),
        2,
        Speed::from_integer(-1),
    );
    let mut out = vec![0; 6];
    c.mix_to_buffer(&snips, &mut out, Speed::from_integer(-1));
    assert_eq!(out, vec![4, 3, 2, 1, 0, 0]);
}

#[test]
fn cursor_buffer_window_queries() {
    let snips = snips(&[(2, &[10, 20, 30])]);
    let entries = snips.snippets();
    let (id, snip) = (&entries[0].0, &entries[0].1);
    // Session starts two seconds before the snippet at one sample per
    // second: the snippet occupies session samples 2, 3 and 4.
    let cb = CursorBuffer::new(*id, snip, Time::zero(), 1);
    assert!(cb.is_active(0, 5));
    assert!(!cb.is_active(0, 2));
    // A window wholly past the snippet intersects nothing, in either
    // direction.
    assert!(!cb.is_active(7, 2));
    assert!(!cb.is_active(-1, -2));
    assert!(!cb.is_started(0, 1));
    assert!(cb.is_started(0, -1));
    assert!(cb.is_finished(5, 1));
    assert!(!cb.is_finished(3, 1));
    assert!(cb.is_finished(0, -1));

    // The window view pads with silence outside the stored range and
    // interpolates fractional indices.
    let b = cb.get_buf(&snips, 0, 5);
    assert_eq!(b.nonzero_start(), 2);
    assert_eq!(b.nonzero_end(), 5);
    assert_eq!(b.index_at(0), 0);
    assert_eq!(b.index_at(2), 10);
    assert_eq!(b.index_at(4), 30);
    assert_eq!(b.index_at(100), 0);
    assert_eq!(b.interpolated_index(5, 2), (10 + 20) / 2);
}

#[test]
fn empty_catalog_cursor_is_finished() {
    let snips = AudioSnippetsData::default();
    let mut c = Cursor::new(&snips, Time::zero(), 1, Speed::from_integer(1));
    assert!(c.is_finished());
    let mut out = vec![0; 3];
    c.mix_to_buffer(&snips, &mut out, Speed::from_integer(1));
    assert_eq!(out, vec![0, 0, 0]);
    assert!(c.is_finished());
}
