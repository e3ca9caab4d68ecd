//! Tests of the lock-guarded engine state records and the capture
//! post-processor's integer transform.

use scribble_audio::state::prepare_capture;
use scribble_audio::{
    AudioInput, AudioOutput, AudioSnippetData, AudioSnippetsData, Speed, Time, TimeDiff,
    SAMPLE_RATE,
};

#[test]
fn capture_guarded_by_stream_identity() {
    let mut input = AudioInput::default();
    input.start_recording(7);
    input.handle_input(7, &[1, 2, 3]);
    // A stale delivery for a torn-down or foreign stream is ignored.
    input.handle_input(8, &[9, 9, 9]);
    input.handle_input(7, &[4, 5]);
    let buf = input.stop_recording();
    assert_eq!(buf, vec![1, 2, 3, 4, 5]);
    // A fresh recording starts from an empty buffer.
    input.start_recording(9);
    input.handle_input(7, &[1]);
    input.handle_input(9, &[6]);
    let buf = input.stop_recording();
    assert_eq!(buf, vec![6]);
}

#[test]
fn playback_guarded_by_stream_identity() {
    let snips = AudioSnippetsData::default().with_new_snippet(AudioSnippetData::new(
        vec![1, 2, 3],
        Time::zero(),
    ));
    let mut output = AudioOutput::default();
    output.start_playing(1, snips, Time::zero(), Speed::from_integer(1));
    assert!(!output.is_finished());
    // A stale request leaves the buffer alone.
    let mut stale = vec![7, 7, 7, 7];
    output.handle_output_request(2, &mut stale);
    assert_eq!(stale, vec![7, 7, 7, 7]);
    // A matching request zeroes the buffer and mixes into it.
    let mut buf = vec![7, 7, 7, 7];
    output.handle_output_request(1, &mut buf);
    assert_eq!(buf, vec![1, 2, 3, 0]);
    assert!(output.is_finished());
    output.stop_playing();
    // Torn down: even the old identity no longer mixes.
    let mut buf = vec![7, 7];
    output.handle_output_request(1, &mut buf);
    assert_eq!(buf, vec![7, 7]);
}

#[test]
fn velocity_change_mid_session() {
    let snips = AudioSnippetsData::default().with_new_snippet(AudioSnippetData::new(
        vec![1, 2, 3, 4, 5, 6],
        Time::zero(),
    ));
    let mut output = AudioOutput::default();
    output.start_playing(3, snips, Time::zero(), Speed::from_integer(1));
    let mut buf = vec![0, 0];
    output.handle_output_request(3, &mut buf);
    assert_eq!(buf, vec![1, 2]);
    // The new speed factor takes effect on the next request without
    // interrupting the stream.
    output.set_velocity(Speed::from_integer(2));
    let mut buf = vec![0, 0];
    output.handle_output_request(3, &mut buf);
    assert_eq!(buf, vec![3, 5]);
    output.stop_playing();
    output.stop_playing();
}

#[test]
fn prepare_capture_mutes_trims_and_pads() {
    // Mute the first two samples, cut the last two, pad up to a multiple
    // of four.
    let buf = vec![1, 2, 3, 4, 5, 6, 7, 8, 9];
    let out = prepare_capture(&buf, 2, 4);
    assert_eq!(out, vec![0, 0, 3, 4, 5, 6, 7, 0]);
}

#[test]
fn prepare_capture_keeps_frame_aligned_input() {
    let buf = vec![1, 2, 3, 4, 5, 6, 7, 8, 9, 10];
    let out = prepare_capture(&buf, 2, 4);
    assert_eq!(out, vec![0, 0, 3, 4, 5, 6, 7, 8]);
}

#[test]
fn prepare_capture_rejects_short_recordings() {
    // A recording no longer than twice the truncation comes back empty.
    let buf = vec![1, 2, 3, 4];
    assert_eq!(prepare_capture(&buf, 2, 4), Vec::<i16>::new());
    let empty: Vec<i16> = Vec::new();
    assert_eq!(prepare_capture(&empty, 2, 4), Vec::<i16>::new());
}

#[test]
fn truncation_spans_a_tenth_of_a_second() {
    let trunc = TimeDiff::truncation_len().as_audio_idx(SAMPLE_RATE);
    assert_eq!(trunc, 4800);
}
