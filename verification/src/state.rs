//! The two lock-guarded state records shared between the realtime audio
//! callback and the control threads: one for input/capture, one for
//! output/playback. Each realtime delivery or request is guarded by a stream
//! identity, so stale callbacks for torn-down streams are silently ignored.
//! The capture post-processor's integer transform also lives here.

use vstd::prelude::*;

use crate::cursor::{
    ceil_div, cursor_model_wf, cursors_all_linked, spec_cursor_new, spec_input_amount,
    spec_mix_output, spec_mix_state, Cursor, CursorModel, MAX_BUFFER_LEN, MAX_POSITION,
};
use crate::snippet::{AudioSnippetsData, CatalogModel};
use crate::speed::Speed;
use crate::time::{Time, SAMPLE_RATE};

verus! {

/// The mathematical value of the capture record: the active input stream's
/// identity, if any, and the samples accumulated so far.
pub struct InputModel {
    pub id: Option<u64>,
    pub buf: Seq<i16>,
}

/// The mathematical value of the playback record: the active output
/// stream's identity, if any, the installed timeline cursor, the speed
/// factor the next buffer request reads, and the catalog snapshot.
pub struct OutputModel {
    pub id: Option<u64>,
    pub speed: Speed,
    pub cursor: CursorModel,
    pub bufs: CatalogModel,
}

/// The input/capture record: stream identity plus the growable sample
/// buffer the realtime input callback appends to.
pub struct AudioInput {
    id: Option<u64>,
    buf: Vec<i16>,
}

/// The output/playback record: stream identity, timeline cursor, speed
/// factor and catalog snapshot, installed together by `start_playing` and
/// read by each realtime buffer request.
pub struct AudioOutput {
    id: Option<u64>,
    speed: Speed,
    cursor: Cursor,
    bufs: AudioSnippetsData,
}

impl View for AudioInput {
    type V = InputModel;

    closed spec fn view(&self) -> InputModel {
        InputModel { id: self.id, buf: self.buf@ }
    }
}

impl View for AudioOutput {
    type V = OutputModel;

    closed spec fn view(&self) -> OutputModel {
        OutputModel { id: self.id, speed: self.speed, cursor: self.cursor@, bufs: self.bufs@ }
    }
}

impl Default for AudioInput {
    /// No input stream active, no samples captured.
    fn default() -> (s: AudioInput)
        ensures
            s@.id is None,
            s@.buf.len() == 0,
    {
        AudioInput { id: None, buf: Vec::new() }
    }
}

impl AudioInput {
    /// Installs a fresh input stream identity and clears the capture
    /// buffer. Starting a second stream while one is active is a
    /// caller-contract violation.
    pub fn start_recording(&mut self, stream: u64)
        requires
            old(self)@.id is None,
        ensures
            final(self)@.id == Some(stream),
            final(self)@.buf.len() == 0,
    {
        self.id = Some(stream);
        self.buf.clear();
    }

    /// The realtime input callback: appends the delivered samples to the
    /// capture buffer, but only if the delivering stream is the currently
    /// installed one; a stale delivery changes nothing.
    pub fn handle_input(&mut self, stream: u64, samples: &[i16])
        ensures
            old(self)@.id == Some(stream) ==> final(self)@ == (InputModel {
                id: old(self)@.id,
                buf: old(self)@.buf + samples@,
            }),
            old(self)@.id != Some(stream) ==> final(self)@ == old(self)@,
    {
        let matches = match &self.id {
            Some(cur) => *cur == stream,
            None => false,
        };
        if matches {
            self.buf.extend_from_slice(samples);
            proof {
                assert(self@.buf =~= old(self)@.buf + samples@);
            }
        }
    }

    /// Tears down the input stream identity and hands the accumulated
    /// buffer out. Stopping while no stream is active is a caller-contract
    /// violation.
    pub fn stop_recording(&mut self) -> (r: Vec<i16>)
        requires
            old(self)@.id is Some,
        ensures
            final(self)@.id is None,
            final(self)@.buf.len() == 0,
            r@ == old(self)@.buf,
    {
        self.id = None;
        let mut out: Vec<i16> = Vec::new();
        std::mem::swap(&mut self.buf, &mut out);
        out
    }
}

impl Default for AudioOutput {
    /// No output stream active; an idle cursor and a neutral forward speed.
    fn default() -> (s: AudioOutput)
        ensures
            s@.id is None,
            s.wf(),
    {
        AudioOutput {
            id: None,
            speed: Speed::from_integer(1),
            cursor: Cursor::default(),
            bufs: AudioSnippetsData::default(),
        }
    }
}

impl AudioOutput {
    /// While a stream is installed, the cursor is well formed and agrees
    /// with the installed catalog snapshot, and the speed is well formed,
    /// so every buffer request can mix safely.
    pub open spec fn wf(&self) -> bool {
        self@.id is Some ==> {
            &&& cursor_model_wf(self@.cursor)
            &&& cursors_all_linked(self@.cursor, self@.bufs)
            &&& self@.speed.wf()
        }
    }

    /// Updates the shared speed factor read by the next buffer request,
    /// without interrupting the stream.
    pub fn set_velocity(&mut self, vel: Speed)
        requires
            vel.wf(),
            old(self).wf(),
        ensures
            final(self)@ == (OutputModel { speed: vel, ..old(self)@ }),
            final(self).wf(),
    {
        self.speed = vel;
    }

    /// Constructs a timeline cursor over the given catalog snapshot at
    /// `time` with the given velocity and installs it, together with the
    /// snapshot and speed, under the fresh output stream identity. Starting
    /// a second stream while one is active is a caller-contract violation.
    pub fn start_playing(
        &mut self,
        stream: u64,
        data: AudioSnippetsData,
        time: Time,
        velocity: Speed,
    )
        requires
            old(self)@.id is None,
            data.wf(),
            time.wf(),
            velocity.wf(),
        ensures
            final(self)@.id == Some(stream),
            final(self)@.speed == velocity,
            final(self)@.bufs == data@,
            final(self)@.cursor == spec_cursor_new(
                data@,
                time.spec_micros(),
                SAMPLE_RATE as int,
                velocity.spec_direction(),
            ),
            final(self).wf(),
    {
        let cursor = Cursor::new(&data, time, SAMPLE_RATE, velocity);
        self.id = Some(stream);
        self.bufs = data;
        self.speed = velocity;
        self.cursor = cursor;
    }

    /// Idempotently tears down the output stream identity; the cursor,
    /// speed and snapshot stay behind for inspection.
    pub fn stop_playing(&mut self)
        requires
            old(self).wf(),
        ensures
            final(self)@ == (OutputModel { id: None, ..old(self)@ }),
            final(self).wf(),
    {
        self.id = None;
    }

    /// Whether the installed timeline cursor has played every snippet to
    /// completion, so the caller can tear the output stream down.
    pub fn is_finished(&self) -> (r: bool)
        ensures
            r == (self@.cursor.active.len() == 0 && self@.cursor.next == self@.cursor.all.len()),
    {
        self.cursor.is_finished()
    }

    /// The realtime output callback: if the requesting stream is the
    /// currently installed one, zero the buffer and mix the active snippets
    /// into it at the installed speed; a stale request changes nothing. A
    /// degenerate request — one that consumes no input samples, or would
    /// push the position out of its 64-bit headroom — leaves the buffer
    /// silent and the cursor unmoved.
    pub fn handle_output_request(&mut self, stream: u64, buf: &mut Vec<i16>)
        requires
            old(self).wf(),
            old(buf)@.len() <= MAX_BUFFER_LEN,
        ensures
            old(self)@.id != Some(stream) ==> final(self)@ == old(self)@ && final(buf)@ == old(
                buf,
            )@,
            old(self)@.id == Some(stream) ==> {
                let zeroed = Seq::new(old(buf)@.len(), |i: int| 0i16);
                let amt = spec_input_amount(
                    old(buf)@.len() as int,
                    old(self)@.speed.spec_num(),
                    old(self)@.speed.spec_den(),
                );
                if amt != 0 && -MAX_POSITION <= old(self)@.cursor.pos + amt <= MAX_POSITION {
                    &&& final(self)@ == (OutputModel {
                        cursor: spec_mix_state(
                            old(self)@.cursor,
                            old(buf)@.len() as int,
                            old(self)@.speed.spec_num(),
                            old(self)@.speed.spec_den(),
                        ),
                        ..old(self)@
                    })
                    &&& final(buf)@ == spec_mix_output(
                        old(self)@.cursor,
                        old(self)@.bufs,
                        zeroed,
                        old(self)@.speed.spec_num(),
                        old(self)@.speed.spec_den(),
                    )
                } else {
                    final(self)@ == old(self)@ && final(buf)@ == zeroed
                }
            },
            final(self).wf(),
    {
        let matches = match &self.id {
            Some(cur) => *cur == stream,
            None => false,
        };
        if !matches {
            return ;
        }
        let n = buf.len();
        let mut i: usize = 0;
        while i < n
            invariant
                n == buf@.len(),
                i <= n,
                forall|j: int| 0 <= j < i ==> buf@[j] == 0i16,
                forall|j: int| i <= j < n ==> buf@[j] == old(buf)@[j],
            decreases n - i,
        {
            buf.set(i, 0);
            i += 1;
        }
        proof {
            assert(buf@ =~= Seq::new(old(buf)@.len(), |j: int| 0i16));
        }
        let num: i64 = self.speed.num();
        let den: i64 = self.speed.den();
        proof {
            assert(-0x4_0000_0000_0000int <= (n as int) * (num as int)
                <= 0x4_0000_0000_0000int) by (nonlinear_arith)
                requires
                    0 <= n as int <= 0x4000_0000,
                    -0x10_0000 <= num as int <= 0x10_0000,
            ;
        }
        let prod: i64 = (n as i64) * num;
        proof {
            if prod < 0 {
                crate::cursor::lemma_ceil_div_neg(prod as int, den as int);
            }
            crate::cursor::lemma_ceil_div_bounds(prod as int, den as int);
        }
        let amount: i64 = if prod >= 0 {
            (prod + den - 1) / den
        } else {
            -((-prod) / den)
        };
        let safe: bool = amount != 0 && {
            let pos = self.cursor_pos();
            -MAX_POSITION <= pos + amount && pos + amount <= MAX_POSITION
        };
        if safe {
            self.cursor.mix_to_buffer(&self.bufs, buf, self.speed);
        }
    }

    fn cursor_pos(&self) -> (p: i64)
        ensures
            p == self@.cursor.pos,
    {
        self.cursor.position()
    }
}

/// The capture post-processor's integer transform. The leading
/// `trunc_samples` samples are muted (not removed, preserving alignment
/// with the timeline), the trailing `trunc_samples` are cut, a buffer left
/// no longer than twice the truncation comes back empty, and the result is
/// zero-padded up to a multiple of the denoiser's frame size.
pub open spec fn spec_prepare_capture(buf: Seq<i16>, t: int, fs: int) -> Seq<i16> {
    if buf.len() <= 2 * t {
        Seq::empty()
    } else {
        let kept = buf.len() - t;
        let padded = ceil_div(kept, fs) * fs;
        Seq::new(
            padded as nat,
            |i: int|
                if i < t {
                    0i16
                } else if i < kept {
                    buf[i]
                } else {
                    0i16
                },
        )
    }
}

/// Mutes the leading truncation, cuts the trailing truncation, and
/// zero-pads the remainder up to a whole number of denoiser frames; a
/// recording no longer than twice the truncation comes back empty.
pub fn prepare_capture(buf: &Vec<i16>, trunc_samples: usize, frame_size: usize) -> (r: Vec<i16>)
    requires
        1 <= frame_size <= 0x10_0000,
        trunc_samples <= 0x4000_0000,
        buf@.len() <= 0x4000_0000,
    ensures
        r@ == spec_prepare_capture(buf@, trunc_samples as int, frame_size as int),
{
    let len = buf.len();
    if len <= 2 * trunc_samples {
        proof {
            assert(spec_prepare_capture(buf@, trunc_samples as int, frame_size as int)
                =~= Seq::<i16>::empty());
        }
        return Vec::new();
    }
    let kept = len - trunc_samples;
    proof {
        let k = kept as int;
        let f = frame_size as int;
        vstd::arithmetic::div_mod::lemma_fundamental_div_mod(k + f - 1, f);
        vstd::arithmetic::div_mod::lemma_mod_bound(k + f - 1, f);
        vstd::arithmetic::div_mod::lemma_div_pos_is_pos(k + f - 1, f);
        let q = (k + f - 1) / f;
        assert(q * f == f * q) by (nonlinear_arith);
        assert(q * f <= k + f - 1);
        assert(q * f >= 0) by (nonlinear_arith)
            requires
                q >= 0,
                f >= 1,
        ;
        assert(ceil_div(k, f) * f == q * f);
    }
    let padded = ((kept + frame_size - 1) / frame_size) * frame_size;
    let mut r: Vec<i16> = Vec::new();
    let mut i: usize = 0;
    while i < padded
        invariant
            padded == ceil_div(kept as int, frame_size as int) * frame_size as int,
            kept == buf@.len() - trunc_samples,
            trunc_samples < kept <= buf@.len(),
            i <= padded,
            r@.len() == i,
            forall|j: int|
                0 <= j < i ==> r@[j] == (if j < trunc_samples {
                    0i16
                } else if j < kept {
                    buf@[j]
                } else {
                    0i16
                }),
        decreases padded - i,
    {
        let v: i16 = if i < trunc_samples {
            0
        } else if i < kept {
            buf[i]
        } else {
            0
        };
        r.push(v);
        i += 1;
    }
    proof {
        assert(r@ =~= spec_prepare_capture(buf@, trunc_samples as int, frame_size as int));
    }
    r
}

} // verus!
