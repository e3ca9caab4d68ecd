//! The mixing core: a direction-aware window over one snippet's samples with
//! implicit zero-padding and fractional-index interpolation (`Buf`), the
//! per-snippet cursor (`CursorBuffer`), and the timeline cursor (`Cursor`)
//! that mixes every active snippet into an output buffer per call.

use vstd::prelude::*;

use crate::snippet::{
    find_snippet, snippet_wf, AudioSnippetData, AudioSnippetId, AudioSnippetsData, CatalogModel,
    SnippetModel, MAX_SNIPPET_LEN,
};
use crate::speed::{Speed, MAX_SPEED_TERM};
use crate::time::{spec_audio_idx, trunc_div, Time, MAX_SAMPLE_RATE};

verus! {

/// Bound on the magnitude of the timeline cursor's sample position.
pub const MAX_POSITION: i64 = 0x1000_0000_0000_0000;

/// Bound on the magnitude of a per-snippet cursor's start offset.
pub const MAX_CURSOR_START: i64 = 0x80_0000_0000_0000;

/// Bound on the magnitude of one requested window, in input samples.
pub const MAX_WINDOW: i64 = 0x8_0000_0000_0000;

/// Largest accepted output buffer length, in samples.
pub const MAX_BUFFER_LEN: u64 = 0x4000_0000;

/// Ceiling division for a positive divisor.
pub open spec fn ceil_div(a: int, b: int) -> int {
    (a + b - 1) / b
}

/// Two's-complement wrap of a sum of two 16-bit samples back into 16 bits:
/// the "raw addition" by which overlapping snippets combine.
pub open spec fn wrap_i16(x: int) -> int {
    if x > 0x7fff {
        x - 0x10000
    } else if x < -0x8000 {
        x + 0x10000
    } else {
        x
    }
}

/// The mathematical value of a sample buffer view: the stored samples, the
/// signed window's length, where the stored samples begin inside the window,
/// and the playback direction.
pub struct BufModel {
    pub inner: Seq<i16>,
    pub offset: int,
    pub len: int,
    pub direction: int,
}

/// A read-only, direction-aware window over one snippet's samples. Indexing
/// is signed — index 0 is the current playback position and the index's sign
/// must match the direction — and any index outside the snippet's stored
/// range yields silence, never a fault.
pub struct Buf<'a> {
    inner: &'a [i16],
    offset: i64,
    len: i64,
    direction: i64,
}

impl<'a> View for Buf<'a> {
    type V = BufModel;

    closed spec fn view(&self) -> BufModel {
        BufModel {
            inner: self.inner@,
            offset: self.offset as int,
            len: self.len as int,
            direction: self.direction as int,
        }
    }
}

/// A well-formed view: a unit direction, and stored samples that lie inside
/// the bounded window.
pub open spec fn buf_wf(b: BufModel) -> bool {
    &&& b.direction == 1 || b.direction == -1
    &&& 0 <= b.offset
    &&& 0 <= b.len <= MAX_WINDOW
    &&& b.offset + b.inner.len() <= b.len
}

/// The sample at signed window index `idx`: the stored sample where the
/// window has one, silence everywhere else.
pub open spec fn buf_sample(b: BufModel, idx: int) -> i16 {
    let actual = if b.direction > 0 {
        idx
    } else {
        b.len + idx - 1
    };
    if b.offset <= actual < b.offset + b.inner.len() {
        b.inner[actual - b.offset]
    } else {
        0i16
    }
}

/// Linear interpolation at the fractional window index `p / q`: the two
/// adjacent integer samples, weighted by the fractional part, rounded
/// towards zero.
pub open spec fn buf_interp(b: BufModel, p: int, q: int) -> int {
    let i0 = p / q;
    let r = p % q;
    let s0 = buf_sample(b, i0) as int;
    let s1 = if r == 0 {
        s0
    } else {
        buf_sample(b, i0 + 1) as int
    };
    trunc_div(s0 * (q - r) + s1 * r, q)
}

impl<'a> Buf<'a> {
    /// The first window index backed by a stored sample.
    pub fn nonzero_start(&self) -> (r: i64)
        ensures
            r == self@.offset,
    {
        self.offset
    }

    /// One past the last window index backed by a stored sample.
    pub fn nonzero_end(&self) -> (r: i64)
        requires
            buf_wf(self@),
        ensures
            r == self@.offset + self@.inner.len(),
    {
        self.offset + self.inner.len() as i64
    }

    /// The sample at signed window index `idx`. The index's sign must match
    /// the view's direction; out-of-range indices yield silence.
    pub fn index_at(&self, idx: i64) -> (s: i16)
        requires
            buf_wf(self@),
            self@.direction > 0 ==> 0 <= idx,
            self@.direction < 0 ==> idx <= 0,
            -0x10_0000_0000_0000 <= idx <= 0x10_0000_0000_0000,
        ensures
            s == buf_sample(self@, idx as int),
    {
        let actual: i64 = if self.direction > 0 {
            idx
        } else {
            self.len + idx - 1
        };
        if actual < self.offset {
            0
        } else {
            let off: i64 = actual - self.offset;
            if off < self.inner.len() as i64 {
                self.inner[off as usize]
            } else {
                0
            }
        }
    }

    /// Interpolates at the fractional window index `p / q`. The sign of `p`
    /// must match the view's direction.
    pub fn interpolated_index(&self, p: i64, q: i64) -> (s: i16)
        requires
            buf_wf(self@),
            1 <= q <= MAX_SPEED_TERM,
            self@.direction > 0 ==> 0 <= p,
            self@.direction < 0 ==> p <= 0,
            -0x8_0000_0000_0000 <= p <= 0x8_0000_0000_0000,
        ensures
            s as int == buf_interp(self@, p as int, q as int),
    {
        let i0: i64 = if p >= 0 {
            p / q
        } else {
            -((-p + q - 1) / q)
        };
        proof {
            lemma_floor_div(p as int, q as int);
            vstd::arithmetic::div_mod::lemma_fundamental_div_mod(p as int, q as int);
            vstd::arithmetic::div_mod::lemma_mod_bound(p as int, q as int);
            assert(i0 as int == p as int / q as int);
            assert((i0 as int) * (q as int) == p as int - (p as int) % (q as int)) by {
                assert((i0 as int) * (q as int) == (q as int) * ((p as int) / (q as int)))
                    by (nonlinear_arith)
                    requires
                        i0 as int == (p as int) / (q as int),
                ;
            }
        }
        let r: i64 = p - i0 * q;
        let s0: i16 = self.index_at(i0);
        let s1: i16 = if r == 0 {
            s0
        } else {
            self.index_at(i0 + 1)
        };
        proof {
            lemma_interp_total_bounds(s0 as int, s1 as int, q as int, r as int);
        }
        let total: i64 = (s0 as i64) * (q - r) + (s1 as i64) * r;
        let v: i64 = if total >= 0 {
            total / q
        } else {
            -((-total) / q)
        };
        proof {
            lemma_trunc_div_between(s0 as int, s1 as int, q as int, r as int);
        }
        v as i16
    }
}

/// Floor division expressed with divisions of nonnegative numbers: the
/// shape the executable code uses.
proof fn lemma_floor_div(p: int, q: int)
    requires
        q >= 1,
    ensures
        p < 0 ==> -((-p + q - 1) / q) == p / q,
{
    if p < 0 {
        let m = -p + q - 1;
        vstd::arithmetic::div_mod::lemma_fundamental_div_mod(m, q);
        let a = m / q;
        let b = m % q;
        vstd::arithmetic::div_mod::lemma_mod_bound(m, q);
        assert(m == q * a + b);
        // p == -a*q + (q - 1 - b), and 0 <= q - 1 - b < q, so -a == p / q.
        assert(q * a + b == -((-a) * q) + b) by (nonlinear_arith);
        assert(p == (-a) * q + (q - 1 - b));
        vstd::arithmetic::div_mod::lemma_fundamental_div_mod_converse(p, q, -a, q - 1 - b);
    }
}

/// The interpolation numerator stays within `q` times the sample range.
proof fn lemma_interp_total_bounds(s0: int, s1: int, q: int, r: int)
    requires
        1 <= q,
        0 <= r < q,
        -0x8000 <= s0 <= 0x7fff,
        -0x8000 <= s1 <= 0x7fff,
    ensures
        -0x8000 * q <= s0 * (q - r) + s1 * r <= 0x7fff * q,
        -0x8000 * q <= s0 * (q - r) <= 0x7fff * q,
        -0x8000 * q <= s1 * r <= 0x7fff * q,
{
    assert((-0x8000 * q <= s0 * (q - r) + s1 * r <= 0x7fff * q) && (-0x8000 * q <= s0 * (q - r)
        <= 0x7fff * q) && (-0x8000 * q <= s1 * r <= 0x7fff * q)) by (nonlinear_arith)
        requires
            1 <= q,
            0 <= r < q,
            -0x8000 <= s0 <= 0x7fff,
            -0x8000 <= s1 <= 0x7fff,
    ;
}

/// A per-snippet cursor: the snippet's position relative to the session's
/// time origin. `start` is the sample index within the snippet that
/// corresponds to session-relative position 0; `len` is the snippet's sample
/// count. The snippet occupies session positions `[-start, len - start)`.
#[derive(Clone, Copy, PartialEq, Eq, Structural, Debug)]
pub struct CursorBuffer {
    pub id: u64,
    pub start: i64,
    pub len: i64,
}

/// A well-formed per-snippet cursor is bounded.
pub open spec fn cursor_wf(c: CursorBuffer) -> bool {
    &&& -MAX_CURSOR_START <= c.start <= MAX_CURSOR_START
    &&& 0 <= c.len <= MAX_SNIPPET_LEN
}

/// A cursor agrees with a catalog: its id is present there and its length is
/// that snippet's sample count.
pub open spec fn cursor_linked(c: CursorBuffer, cat: CatalogModel) -> bool {
    &&& cursor_wf(c)
    &&& find_snippet(cat.entries, c.id) is Some
    &&& find_snippet(cat.entries, c.id)->Some_0.samples.len() == c.len
}

/// The samples of the snippet stored under `id`.
pub open spec fn samples_of(cat: CatalogModel, id: u64) -> Seq<i16> {
    find_snippet(cat.entries, id)->Some_0.samples
}

/// Whether the window's leading edge has reached the snippet: going
/// forward, the window's end has passed the snippet's first sample; going
/// backward, it has passed the snippet's last.
pub open spec fn spec_window_reached(c: CursorBuffer, from: int, amount: int) -> bool {
    if amount > 0 {
        c.start + from + amount > 0
    } else {
        c.start + from + amount < c.len
    }
}

/// Whether the window already lies entirely beyond the snippet for its
/// direction: going forward, the window starts at or after the snippet's
/// end; going backward, at or before its start.
pub open spec fn spec_window_passed(c: CursorBuffer, from: int, amount: int) -> bool {
    if amount > 0 {
        c.start + from >= c.len
    } else {
        c.start + from <= 0
    }
}

/// Whether the half-open window `[from, from + amount)` (`amount` may be
/// negative) intersects the snippet's valid sample range
/// `[-start, len - start)`: the window has reached the snippet and has not
/// wholly passed it. For a snippet with no samples, whose range is a single
/// point, this means the window strictly straddles that point.
pub open spec fn spec_is_active(c: CursorBuffer, from: int, amount: int) -> bool {
    spec_window_reached(c, from, amount) && !spec_window_passed(c, from, amount)
}

/// Whether the session position `idx` has moved entirely past the snippet's
/// range in the given direction.
pub open spec fn spec_is_finished(c: CursorBuffer, idx: int, direction: int) -> bool {
    if direction >= 0 {
        c.start + idx >= c.len
    } else {
        c.start + idx < 0
    }
}

/// Whether the session position `idx` has reached the snippet's range in the
/// given direction (the dual of not-yet-reached).
pub open spec fn spec_is_started(c: CursorBuffer, idx: int, direction: int) -> bool {
    if direction >= 0 {
        c.start + idx >= 0
    } else {
        c.start + idx < c.len
    }
}

/// The sample buffer view that a cursor yields for the signed window
/// `[from, from + amount)`, clipped to the snippet's stored sample range so
/// that silence-padding at both ends is implicit.
pub open spec fn spec_window(samples: Seq<i16>, start: int, from: int, amount: int) -> BufModel {
    let w_start = if amount > 0 {
        start + from
    } else {
        start + from + amount
    };
    let w_end = if amount > 0 {
        start + from + amount
    } else {
        start + from
    };
    let bl = samples.len() as int;
    let lenw = if amount >= 0 {
        amount
    } else {
        -amount
    };
    let lo = if w_start < 0 {
        0
    } else if w_start > bl {
        bl
    } else {
        w_start
    };
    let hi = if w_end < lo {
        lo
    } else if w_end > bl {
        bl
    } else {
        w_end
    };
    let off0 = if w_start < 0 {
        -w_start
    } else {
        0
    };
    BufModel {
        inner: samples.subrange(lo, hi),
        offset: if off0 > lenw {
            lenw
        } else {
            off0
        },
        len: lenw,
        direction: if amount > 0 {
            1
        } else {
            -1
        },
    }
}

impl CursorBuffer {
    /// Builds the cursor for `snip` as seen from session start time `time`:
    /// `start` is the session-to-snippet offset converted to whole samples.
    pub fn new(id: AudioSnippetId, snip: &AudioSnippetData, time: Time, sample_rate: u32) -> (c:
        CursorBuffer)
        requires
            snip.wf(),
            time.wf(),
            1 <= sample_rate <= MAX_SAMPLE_RATE,
        ensures
            c.id == id.spec_id(),
            c.start == spec_audio_idx(
                time.spec_micros() - snip@.start_us,
                sample_rate as int,
            ),
            c.len == snip@.samples.len(),
            cursor_wf(c),
    {
        let d = time.minus(snip.start_time());
        proof {
            lemma_audio_idx_magnitude(d.spec_micros(), sample_rate as int);
        }
        let start = d.as_audio_idx(sample_rate);
        let len = snip.buf().len() as i64;
        CursorBuffer { id: id.raw(), start, len }
    }

    /// Whether the window `[from, from + amount)` intersects this snippet's
    /// valid sample range: it has reached the snippet and has not wholly
    /// passed it.
    pub fn is_active(&self, from: i64, amount: i64) -> (r: bool)
        requires
            cursor_wf(*self),
            -MAX_POSITION <= from <= MAX_POSITION,
            -MAX_WINDOW <= amount <= MAX_WINDOW,
        ensures
            r == spec_is_active(*self, from as int, amount as int),
    {
        if amount > 0 {
            self.start + from + amount > 0 && self.start + from < self.len
        } else {
            self.start + from + amount < self.len && self.start + from > 0
        }
    }

    /// Whether session position `idx` has moved entirely past this snippet's
    /// range in the given direction.
    pub fn is_finished(&self, idx: i64, direction: i64) -> (r: bool)
        requires
            cursor_wf(*self),
            -MAX_POSITION <= idx <= MAX_POSITION,
        ensures
            r == spec_is_finished(*self, idx as int, direction as int),
    {
        if direction >= 0 {
            self.start + idx >= self.len
        } else {
            self.start + idx < 0
        }
    }

    /// Whether session position `idx` has reached this snippet's range in
    /// the given direction.
    pub fn is_started(&self, idx: i64, direction: i64) -> (r: bool)
        requires
            cursor_wf(*self),
            -MAX_POSITION <= idx <= MAX_POSITION,
        ensures
            r == spec_is_started(*self, idx as int, direction as int),
    {
        if direction >= 0 {
            self.start + idx >= 0
        } else {
            self.start + idx < self.len
        }
    }

    /// The sample buffer view for the window `[from, from + amount)`,
    /// clipped to the snippet's stored range, with the offset, length and
    /// direction that make silence-padding at both ends implicit.
    pub fn get_buf<'a>(&self, data: &'a AudioSnippetsData, from: i64, amount: i64) -> (b: Buf<'a>)
        requires
            cursor_linked(*self, data@),
            amount != 0,
            -MAX_WINDOW <= amount <= MAX_WINDOW,
            -MAX_POSITION <= from <= MAX_POSITION,
        ensures
            b@ == spec_window(samples_of(data@, self.id), self.start as int, from as int,
            amount as int),
            buf_wf(b@),
    {
        let snip = data.snippet_by_value(self.id);
        let samples: &[i16] = snip.buf().as_slice();
        let bl: i64 = samples.len() as i64;
        let (w_start, w_end): (i64, i64) = if amount > 0 {
            (self.start + from, self.start + from + amount)
        } else {
            (self.start + from + amount, self.start + from)
        };
        let lenw: i64 = if amount >= 0 {
            amount
        } else {
            -amount
        };
        let lo: i64 = if w_start < 0 {
            0
        } else if w_start > bl {
            bl
        } else {
            w_start
        };
        let hi: i64 = if w_end < lo {
            lo
        } else if w_end > bl {
            bl
        } else {
            w_end
        };
        let inner: &[i16] = vstd::slice::slice_subrange(samples, lo as usize, hi as usize);
        let off0: i64 = if w_start < 0 {
            -w_start
        } else {
            0
        };
        let offset: i64 = if off0 > lenw {
            lenw
        } else {
            off0
        };
        let direction: i64 = if amount > 0 {
            1
        } else {
            -1
        };
        Buf { inner, offset, len: lenw, direction }
    }
}

/// Converting a bounded duration to samples cannot grow its magnitude,
/// because the sample rate is at most one sample per microsecond.
pub proof fn lemma_audio_idx_magnitude(us: int, rate: int)
    requires
        1 <= rate <= 1_000_000,
    ensures
        us >= 0 ==> 0 <= spec_audio_idx(us, rate) <= us,
        us < 0 ==> us <= spec_audio_idx(us, rate) <= 0,
{
    if us >= 0 {
        assert(us * rate <= us * 1_000_000) by (nonlinear_arith)
            requires
                us >= 0,
                rate <= 1_000_000,
        ;
        assert(us * rate >= 0) by (nonlinear_arith)
            requires
                us >= 0,
                rate >= 1,
        ;
        vstd::arithmetic::div_mod::lemma_div_is_ordered(us * rate, us * 1_000_000, 1_000_000);
        vstd::arithmetic::div_mod::lemma_div_pos_is_pos(us * rate, 1_000_000);
        vstd::arithmetic::div_mod::lemma_div_multiples_vanish(us, 1_000_000);
    } else {
        assert((-us) * rate <= (-us) * 1_000_000) by (nonlinear_arith)
            requires
                us < 0,
                rate <= 1_000_000,
        ;
        assert((-us) * rate >= 0 && (-us) * rate == -(us * rate)) by (nonlinear_arith)
            requires
                us < 0,
                rate >= 1,
        ;
        vstd::arithmetic::div_mod::lemma_div_is_ordered((-us) * rate, (-us) * 1_000_000, 1_000_000);
        vstd::arithmetic::div_mod::lemma_div_pos_is_pos((-us) * rate, 1_000_000);
        vstd::arithmetic::div_mod::lemma_div_multiples_vanish(-us, 1_000_000);
    }
}

/// The mathematical value of a timeline cursor: the current signed sample
/// position relative to construction time, every per-snippet cursor in the
/// activation order fixed at construction, the index of the next
/// not-yet-considered cursor, and the subset currently active.
pub struct CursorModel {
    pub pos: int,
    pub all: Seq<CursorBuffer>,
    pub next: int,
    pub active: Seq<CursorBuffer>,
}

/// A well-formed timeline cursor: bounded position and per-snippet cursors,
/// a next index inside the list, pairwise-distinct snippet ids, and an
/// active set drawn from the already-considered prefix, itself free of
/// duplicate ids. Construction establishes all of this and mixing preserves
/// it, which is what makes retirement permanent: once a considered cursor
/// has left the active set, no sweep can bring its id back.
pub open spec fn cursor_model_wf(m: CursorModel) -> bool {
    &&& -MAX_POSITION <= m.pos <= MAX_POSITION
    &&& 0 <= m.next <= m.all.len()
    &&& forall|i: int| 0 <= i < m.all.len() ==> cursor_wf(#[trigger] m.all[i])
    &&& forall|i: int| 0 <= i < m.active.len() ==> cursor_wf(#[trigger] m.active[i])
    &&& forall|a: int, b: int| 0 <= a < b < m.all.len() ==> m.all[a].id != m.all[b].id
    &&& forall|k: int|
        #![trigger m.active[k]]
        0 <= k < m.active.len() ==> exists|w: int| 0 <= w < m.next && m.all[w] == m.active[k]
    &&& forall|a: int, b: int| 0 <= a < b < m.active.len() ==> m.active[a].id != m.active[b].id
}

/// Every per-snippet cursor, considered or active, agrees with the catalog.
pub open spec fn cursors_all_linked(m: CursorModel, cat: CatalogModel) -> bool {
    &&& forall|i: int| 0 <= i < m.all.len() ==> cursor_linked(#[trigger] m.all[i], cat)
    &&& forall|i: int| 0 <= i < m.active.len() ==> cursor_linked(#[trigger] m.active[i], cat)
}

/// The sort key fixing the activation order: scanning the sorted list, cursors
/// become relevant in non-decreasing time order for the chosen direction.
/// Forward: decreasing start offset; backward: ascending `start - len`.
pub open spec fn cursor_key(c: CursorBuffer, dir: int) -> int {
    if dir >= 0 {
        -(c.start as int)
    } else {
        c.start - c.len
    }
}

/// The strict order used for sorting: by key, with ties broken by id, so the
/// sorted order is unique.
pub open spec fn cursor_before(a: CursorBuffer, b: CursorBuffer, dir: int) -> bool {
    cursor_key(a, dir) < cursor_key(b, dir) || (cursor_key(a, dir) == cursor_key(b, dir)
        && a.id < b.id)
}

/// Inserts `c` into `s` in front of the first element it precedes.
pub open spec fn insert_sorted(s: Seq<CursorBuffer>, c: CursorBuffer, dir: int) -> Seq<
    CursorBuffer,
>
    decreases s.len(),
{
    if s.len() == 0 {
        seq![c]
    } else if cursor_before(c, s[0], dir) {
        seq![c] + s
    } else {
        seq![s[0]] + insert_sorted(s.drop_first(), c, dir)
    }
}

/// Insertion sort by `cursor_before`.
pub open spec fn sort_cursors(s: Seq<CursorBuffer>, dir: int) -> Seq<CursorBuffer>
    decreases s.len(),
{
    if s.len() == 0 {
        Seq::empty()
    } else {
        insert_sorted(sort_cursors(s.drop_last(), dir), s.last(), dir)
    }
}

/// One per-snippet cursor per catalog entry, in catalog (id) order, for a
/// session starting at `t_us` microseconds.
pub open spec fn cursors_of(cat: CatalogModel, t_us: int, rate: int) -> Seq<CursorBuffer> {
    cat.entries.map(
        |i: int, e: (u64, SnippetModel)| CursorBuffer {
            id: e.0,
            start: spec_audio_idx(t_us - e.1.start_us, rate) as i64,
            len: e.1.samples.len() as i64,
        },
    )
}

/// The index of the first cursor at or after `from` that has not started at
/// position 0 (the whole length if every one has).
pub open spec fn first_not_started(all: Seq<CursorBuffer>, from: int, dir: int) -> int
    decreases all.len() - from,
{
    if from < 0 || from >= all.len() {
        from
    } else if spec_is_started(all[from], 0, dir) {
        first_not_started(all, from + 1, dir)
    } else {
        from
    }
}

/// Where the activation sweep stops: the index of the first cursor at or
/// after `from` that is not active for the window `[pos, pos + amount)`.
pub open spec fn sweep_next(all: Seq<CursorBuffer>, from: int, pos: int, amount: int) -> int
    decreases all.len() - from,
{
    if from < 0 || from >= all.len() {
        from
    } else if spec_is_active(all[from], pos, amount) {
        sweep_next(all, from + 1, pos, amount)
    } else {
        from
    }
}

/// The timeline cursor produced at construction: position 0, cursors sorted
/// into the direction's activation order, the already-started prefix scanned,
/// and the started-but-unfinished cursors seeding the active set.
pub open spec fn spec_cursor_new(cat: CatalogModel, t_us: int, rate: int, dir: int) -> CursorModel {
    let all = sort_cursors(cursors_of(cat, t_us, rate), dir);
    let next = first_not_started(all, 0, dir);
    CursorModel {
        pos: 0,
        all,
        next,
        active: all.take(next).filter(|c: CursorBuffer| !spec_is_finished(c, 0, dir)),
    }
}

/// The signed number of input samples one mixing call consumes for an output
/// buffer of `n` samples at speed `num / den`.
pub open spec fn spec_input_amount(n: int, num: int, den: int) -> int {
    ceil_div(n * num, den)
}

/// The cursors that one mixing call mixes: the previously active set plus
/// the cursors the activation sweep reaches.
pub open spec fn spec_mixed_list(m: CursorModel, amount: int) -> Seq<CursorBuffer> {
    m.active + m.all.subrange(m.next, sweep_next(m.all, m.next, m.pos, amount))
}

/// The timeline cursor state after one mixing call over an output buffer of
/// `n` samples at speed `num / den`: the sweep advances `next`, the position
/// advances by the input amount, and cursors finished at the new position
/// for the call's direction are retired, permanently.
pub open spec fn spec_mix_state(m: CursorModel, n: int, num: int, den: int) -> CursorModel {
    let amount = spec_input_amount(n, num, den);
    let dir: int = if num >= 0 {
        1
    } else {
        -1
    };
    let next2 = sweep_next(m.all, m.next, m.pos, amount);
    let mixed = m.active + m.all.subrange(m.next, next2);
    CursorModel {
        pos: m.pos + amount,
        all: m.all,
        next: next2,
        active: mixed.filter(|c: CursorBuffer| !spec_is_finished(c, m.pos + amount, dir)),
    }
}

/// One cursor's contribution to output index `i`: the interpolated sample at
/// fractional input index `i * num / den` of its window.
pub open spec fn cursor_contribution(
    c: CursorBuffer,
    cat: CatalogModel,
    pos: int,
    amount: int,
    i: int,
    num: int,
    den: int,
) -> int {
    buf_interp(spec_window(samples_of(cat, c.id), c.start as int, pos, amount), i * num, den)
}

/// Output sample `i` after adding the contributions of the cursors `cs`, in
/// order, to the prior sample `base` — each addition a two's-complement wrap,
/// never a clip.
pub open spec fn mixed_sample(
    cs: Seq<CursorBuffer>,
    cat: CatalogModel,
    pos: int,
    amount: int,
    base: int,
    i: int,
    num: int,
    den: int,
) -> int
    decreases cs.len(),
{
    if cs.len() == 0 {
        base
    } else {
        mixed_sample(
            cs.drop_first(),
            cat,
            pos,
            amount,
            wrap_i16(base + cursor_contribution(cs[0], cat, pos, amount, i, num, den)),
            i,
            num,
            den,
        )
    }
}

/// The output buffer after one mixing call: every active cursor's
/// contribution added into every sample.
pub open spec fn spec_mix_output(
    m: CursorModel,
    cat: CatalogModel,
    out: Seq<i16>,
    num: int,
    den: int,
) -> Seq<i16> {
    let amount = spec_input_amount(out.len() as int, num, den);
    let mixed = spec_mixed_list(m, amount);
    Seq::new(
        out.len(),
        |i: int| mixed_sample(mixed, cat, m.pos, amount, out[i] as int, i, num, den) as i16,
    )
}

/// Truncating division of the interpolation numerator lands between the two
/// interpolated samples, so the result fits a 16-bit sample.
proof fn lemma_trunc_div_between(s0: int, s1: int, q: int, r: int)
    requires
        1 <= q,
        0 <= r < q,
        -0x8000 <= s0 <= 0x7fff,
        -0x8000 <= s1 <= 0x7fff,
    ensures
        -0x8000 <= trunc_div(s0 * (q - r) + s1 * r, q) <= 0x7fff,
{
    let total = s0 * (q - r) + s1 * r;
    lemma_interp_total_bounds(s0, s1, q, r);
    if total >= 0 {
        vstd::arithmetic::div_mod::lemma_div_is_ordered(total, 0x7fff * q, q);
        vstd::arithmetic::div_mod::lemma_div_pos_is_pos(total, q);
        vstd::arithmetic::div_mod::lemma_div_multiples_vanish(0x7fff, q);
    } else {
        vstd::arithmetic::div_mod::lemma_div_is_ordered(-total, 0x8000 * q, q);
        vstd::arithmetic::div_mod::lemma_div_pos_is_pos(-total, q);
        vstd::arithmetic::div_mod::lemma_div_multiples_vanish(0x8000, q);
    }
}

/// An interpolated sample always fits 16 bits, whatever the window.
pub proof fn lemma_buf_interp_range(b: BufModel, p: int, q: int)
    requires
        q >= 1,
    ensures
        -0x8000 <= buf_interp(b, p, q) <= 0x7fff,
{
    vstd::arithmetic::div_mod::lemma_mod_bound(p, q);
    let r = p % q;
    let s0 = buf_sample(b, p / q) as int;
    let s1 = if r == 0 {
        s0
    } else {
        buf_sample(b, p / q + 1) as int
    };
    lemma_trunc_div_between(s0, s1, q, r);
}

/// A mixed sample always fits 16 bits when the prior sample does.
pub proof fn lemma_mixed_sample_range(
    cs: Seq<CursorBuffer>,
    cat: CatalogModel,
    pos: int,
    amount: int,
    base: int,
    i: int,
    num: int,
    den: int,
)
    requires
        den >= 1,
        -0x8000 <= base <= 0x7fff,
    ensures
        -0x8000 <= mixed_sample(cs, cat, pos, amount, base, i, num, den) <= 0x7fff,
    decreases cs.len(),
{
    if cs.len() > 0 {
        lemma_buf_interp_range(
            spec_window(samples_of(cat, cs[0].id), cs[0].start as int, pos, amount),
            i * num,
            den,
        );
        lemma_mixed_sample_range(
            cs.drop_first(),
            cat,
            pos,
            amount,
            wrap_i16(base + cursor_contribution(cs[0], cat, pos, amount, i, num, den)),
            i,
            num,
            den,
        );
    }
}

/// Adding one cursor at the end of a mix is one more wrapped addition.
pub proof fn lemma_mixed_sample_push(
    cs: Seq<CursorBuffer>,
    c: CursorBuffer,
    cat: CatalogModel,
    pos: int,
    amount: int,
    base: int,
    i: int,
    num: int,
    den: int,
)
    ensures
        mixed_sample(cs.push(c), cat, pos, amount, base, i, num, den) == wrap_i16(
            mixed_sample(cs, cat, pos, amount, base, i, num, den) + cursor_contribution(
                c,
                cat,
                pos,
                amount,
                i,
                num,
                den,
            ),
        ),
    decreases cs.len(),
{
    if cs.len() == 0 {
        let acc = wrap_i16(base + cursor_contribution(c, cat, pos, amount, i, num, den));
        assert(cs.push(c)[0] == c);
        assert(cs.push(c).drop_first() =~= Seq::<CursorBuffer>::empty());
        assert(mixed_sample(cs.push(c), cat, pos, amount, base, i, num, den) == mixed_sample(
            Seq::<CursorBuffer>::empty(),
            cat,
            pos,
            amount,
            acc,
            i,
            num,
            den,
        ));
        assert(mixed_sample(Seq::<CursorBuffer>::empty(), cat, pos, amount, acc, i, num, den)
            == acc);
        assert(mixed_sample(cs, cat, pos, amount, base, i, num, den) == base);
    } else {
        let acc = wrap_i16(base + cursor_contribution(cs[0], cat, pos, amount, i, num, den));
        assert(cs.push(c)[0] == cs[0]);
        assert(cs.push(c).drop_first() =~= cs.drop_first().push(c));
        assert(mixed_sample(cs.push(c), cat, pos, amount, base, i, num, den) == mixed_sample(
            cs.drop_first().push(c),
            cat,
            pos,
            amount,
            acc,
            i,
            num,
            den,
        ));
        lemma_mixed_sample_push(cs.drop_first(), c, cat, pos, amount, acc, i, num, den);
        assert(mixed_sample(cs, cat, pos, amount, base, i, num, den) == mixed_sample(
            cs.drop_first(),
            cat,
            pos,
            amount,
            acc,
            i,
            num,
            den,
        ));
    }
}

/// Filtering one more element extends the filtered sequence by that element
/// exactly when it satisfies the predicate.
pub proof fn lemma_filter_take_step(s: Seq<CursorBuffer>, pred: spec_fn(CursorBuffer) -> bool, k: int)
    requires
        0 <= k < s.len(),
    ensures
        s.take(k + 1).filter(pred) == if pred(s[k]) {
            s.take(k).filter(pred).push(s[k])
        } else {
            s.take(k).filter(pred)
        },
{
    reveal_with_fuel(Seq::filter, 2);
    assert(s.take(k + 1).drop_last() =~= s.take(k));
    assert(s.take(k + 1).last() == s[k]);
    if pred(s[k]) {
        assert(s.take(k + 1).filter(pred) =~= s.take(k).filter(pred).push(s[k]));
    }
}

/// A scan that stops at the first element that has not started computes
/// `first_not_started`.
proof fn lemma_first_not_started_scan(all: Seq<CursorBuffer>, from: int, k: int, dir: int)
    requires
        0 <= from <= k <= all.len(),
        forall|j: int| from <= j < k ==> spec_is_started(#[trigger] all[j], 0, dir),
        k == all.len() || !spec_is_started(all[k], 0, dir),
    ensures
        first_not_started(all, from, dir) == k,
    decreases k - from,
{
    if from < k {
        lemma_first_not_started_scan(all, from + 1, k, dir);
    }
}

/// A scan that stops at the first inactive cursor computes `sweep_next`.
proof fn lemma_sweep_next_scan(all: Seq<CursorBuffer>, from: int, k: int, pos: int, amount: int)
    requires
        0 <= from <= k <= all.len(),
        forall|j: int| from <= j < k ==> spec_is_active(#[trigger] all[j], pos, amount),
        k == all.len() || !spec_is_active(all[k], pos, amount),
    ensures
        sweep_next(all, from, pos, amount) == k,
    decreases k - from,
{
    if from < k {
        lemma_sweep_next_scan(all, from + 1, k, pos, amount);
    }
}

/// Inserting at the first position whose element the new one precedes is
/// what `insert_sorted` does.
proof fn lemma_insert_sorted_at(s: Seq<CursorBuffer>, c: CursorBuffer, dir: int, j: int)
    requires
        0 <= j <= s.len(),
        forall|jj: int| 0 <= jj < j ==> !cursor_before(c, #[trigger] s[jj], dir),
        j < s.len() ==> cursor_before(c, s[j], dir),
    ensures
        insert_sorted(s, c, dir) == s.insert(j, c),
    decreases s.len(),
{
    if s.len() == 0 {
        assert(insert_sorted(s, c, dir) =~= s.insert(0, c));
    } else if cursor_before(c, s[0], dir) {
        assert(j == 0);
        assert(insert_sorted(s, c, dir) =~= s.insert(0, c));
    } else {
        assert(j >= 1);
        lemma_insert_sorted_at(s.drop_first(), c, dir, j - 1);
        assert(seq![s[0]] + s.drop_first().insert(j - 1, c) =~= s.insert(j, c));
    }
}

/// The executable form of ceiling division agrees with `ceil_div` on
/// negative numerators.
pub proof fn lemma_ceil_div_neg(a: int, b: int)
    requires
        a < 0,
        b >= 1,
    ensures
        -((-a) / b) == ceil_div(a, b),
{
    let t = -a;
    vstd::arithmetic::div_mod::lemma_fundamental_div_mod(t, b);
    let x = t / b;
    let y = t % b;
    vstd::arithmetic::div_mod::lemma_mod_bound(t, b);
    assert(t == b * x + y);
    assert(a + b - 1 == (-x) * b + (b - 1 - y)) by (nonlinear_arith)
        requires
            t == b * x + y,
            t == -a,
    ;
    vstd::arithmetic::div_mod::lemma_fundamental_div_mod_converse(a + b - 1, b, -x, b - 1 - y);
}

/// Bounds on ceiling division: the magnitude never exceeds the numerator's
/// magnitude plus one.
pub proof fn lemma_ceil_div_bounds(a: int, b: int)
    requires
        b >= 1,
    ensures
        a >= 0 ==> 0 <= ceil_div(a, b) <= a,
        a < 0 ==> a <= ceil_div(a, b) <= 0,
{
    if a == 0 {
        vstd::arithmetic::div_mod::lemma_basic_div(b - 1, b);
        assert(ceil_div(0, b) == (b - 1) / b);
        assert(ceil_div(a, b) == 0);
    } else if a > 0 {
        assert(a + b - 1 <= a * b) by (nonlinear_arith)
            requires
                a >= 1,
                b >= 1,
        ;
        vstd::arithmetic::div_mod::lemma_div_is_ordered(a + b - 1, a * b, b);
        vstd::arithmetic::div_mod::lemma_div_multiples_vanish(a, b);
        vstd::arithmetic::div_mod::lemma_div_pos_is_pos(a + b - 1, b);
        assert((a * b) / b == a) by {
            assert(a * b == b * a) by (nonlinear_arith);
        }
        assert(0 <= ceil_div(a, b) <= a);
    } else {
        lemma_ceil_div_neg(a, b);
        vstd::arithmetic::div_mod::lemma_div_pos_is_pos(-a, b);
        assert(-a <= (-a) * b) by (nonlinear_arith)
            requires
                a < 0,
                b >= 1,
        ;
        vstd::arithmetic::div_mod::lemma_div_is_ordered(-a, (-a) * b, b);
        vstd::arithmetic::div_mod::lemma_div_multiples_vanish(-a, b);
    }
}

/// Inserting into a sequence adds exactly that element to its contents.
pub proof fn lemma_insert_sorted_multiset(s: Seq<CursorBuffer>, c: CursorBuffer, dir: int)
    ensures
        insert_sorted(s, c, dir).to_multiset() =~= s.to_multiset().insert(c),
    decreases s.len(),
{
    broadcast use vstd::seq_lib::group_to_multiset_ensures;

    if s.len() == 0 {
        assert(seq![c] =~= Seq::<CursorBuffer>::empty().push(c));
    } else if cursor_before(c, s[0], dir) {
        vstd::seq_lib::lemma_multiset_commutative(seq![c], s);
        assert(seq![c] =~= Seq::<CursorBuffer>::empty().push(c));
    } else {
        lemma_insert_sorted_multiset(s.drop_first(), c, dir);
        vstd::seq_lib::lemma_multiset_commutative(
            seq![s[0]],
            insert_sorted(s.drop_first(), c, dir),
        );
        vstd::seq_lib::lemma_multiset_commutative(seq![s[0]], s.drop_first());
        assert(seq![s[0]] =~= Seq::<CursorBuffer>::empty().push(s[0]));
        assert(seq![s[0]] + s.drop_first() =~= s);
    }
}

/// Sorting preserves the cursors: the sorted list holds exactly the cursors
/// it was given.
pub proof fn lemma_sort_cursors_multiset(s: Seq<CursorBuffer>, dir: int)
    ensures
        sort_cursors(s, dir).to_multiset() =~= s.to_multiset(),
    decreases s.len(),
{
    broadcast use vstd::seq_lib::group_to_multiset_ensures;

    if s.len() > 0 {
        lemma_sort_cursors_multiset(s.drop_last(), dir);
        lemma_insert_sorted_multiset(
            sort_cursors(s.drop_last(), dir),
            s.last(),
            dir,
        );
        assert(s.drop_last().push(s.last()) =~= s);
    }
}

/// Construction assigns each snippet one cursor, so over a well-formed
/// catalog — whose ids are unique — the timeline cursor's list carries
/// pairwise-distinct ids: the hypothesis under which retirement is
/// permanent.
pub proof fn lemma_cursor_new_distinct_ids(cat: CatalogModel, t_us: int, rate: int, dir: int)
    requires
        crate::snippet::catalog_wf(cat),
    ensures
        ({
            let m = spec_cursor_new(cat, t_us, rate, dir);
            forall|a: int, b: int|
                0 <= a < b < m.all.len() ==> m.all[a].id != m.all[b].id
        }),
{
    broadcast use vstd::seq_lib::group_to_multiset_ensures;

    let base = cursors_of(cat, t_us, rate);
    let all = sort_cursors(base, dir);
    let m = spec_cursor_new(cat, t_us, rate, dir);
    assert(m.all == all);
    lemma_sort_cursors_multiset(base, dir);
    assert(base.no_duplicates()) by {
        assert forall|a: int, b: int| 0 <= a < b < base.len() implies base[a] != base[b] by {
            assert(base[a].id == cat.entries[a].0);
            assert(base[b].id == cat.entries[b].0);
        }
    }
    base.lemma_multiset_has_no_duplicates();
    assert forall|x: CursorBuffer| all.to_multiset().contains(x) implies all.to_multiset().count(
        x,
    ) == 1 by {
        assert(base.to_multiset().contains(x));
    }
    all.lemma_multiset_has_no_duplicates_conv();
    assert forall|a: int, b: int| 0 <= a < b < all.len() implies all[a].id != all[b].id by {
        if all[a].id == all[b].id {
            assert(all.contains(all[a]));
            assert(all.contains(all[b]));
            assert(all.to_multiset().count(all[a]) > 0);
            assert(all.to_multiset().count(all[b]) > 0);
            assert(base.to_multiset().count(all[a]) > 0);
            assert(base.to_multiset().count(all[b]) > 0);
            assert(base.contains(all[a]));
            assert(base.contains(all[b]));
            let k1 = choose|k: int| 0 <= k < base.len() && base[k] == all[a];
            let k2 = choose|k: int| 0 <= k < base.len() && base[k] == all[b];
            assert(base[k1].id == cat.entries[k1].0);
            assert(base[k2].id == cat.entries[k2].0);
            assert(k1 == k2);
            assert(all[a] == all[b]);
        }
    }
}

/// Filtering keeps a duplicate-free sequence duplicate-free.
proof fn lemma_filter_no_duplicates(s: Seq<CursorBuffer>, pred: spec_fn(CursorBuffer) -> bool)
    requires
        s.no_duplicates(),
    ensures
        s.filter(pred).no_duplicates(),
    decreases s.len(),
{
    reveal_with_fuel(Seq::filter, 2);
    if s.len() != 0 {
        let rest = s.drop_last();
        assert(rest.no_duplicates()) by {
            assert forall|a: int, b: int|
                0 <= a < rest.len() && 0 <= b < rest.len() && a != b implies rest[a] != rest[b] by {
                assert(rest[a] == s[a]);
                assert(rest[b] == s[b]);
            }
        }
        lemma_filter_no_duplicates(rest, pred);
        if pred(s.last()) {
            assert(s.filter(pred) == rest.filter(pred).push(s.last()));
            assert(!rest.filter(pred).contains(s.last())) by {
                if rest.filter(pred).contains(s.last()) {
                    rest.lemma_filter_contains_rev(pred, s.last());
                    let w = choose|w: int| 0 <= w < rest.len() && rest[w] == s.last();
                    assert(s[w] == s[s.len() - 1]);
                }
            }
            let out = rest.filter(pred).push(s.last());
            assert forall|a: int, b: int|
                0 <= a < out.len() && 0 <= b < out.len() && a != b implies out[a] != out[b] by {
                if a < out.len() - 1 && b < out.len() - 1 {
                    assert(out[a] == rest.filter(pred)[a]);
                    assert(out[b] == rest.filter(pred)[b]);
                } else if a == out.len() - 1 {
                    assert(out[b] == rest.filter(pred)[b]);
                    assert(rest.filter(pred).contains(rest.filter(pred)[b]));
                } else {
                    assert(out[a] == rest.filter(pred)[a]);
                    assert(rest.filter(pred).contains(rest.filter(pred)[a]));
                }
            }
        } else {
            assert(s.filter(pred) == rest.filter(pred));
        }
    }
}

/// The timeline cursor: owns every per-snippet cursor, advances a global
/// sample position, and mixes all currently-active snippets into an output
/// buffer per call.
pub struct Cursor {
    cur_idx: i64,
    all_cursors: Vec<CursorBuffer>,
    next_cursor: usize,
    active_cursors: Vec<CursorBuffer>,
}

impl View for Cursor {
    type V = CursorModel;

    closed spec fn view(&self) -> CursorModel {
        CursorModel {
            pos: self.cur_idx as int,
            all: self.all_cursors@,
            next: self.next_cursor as int,
            active: self.active_cursors@,
        }
    }
}

impl Default for Cursor {
    /// A cursor over no snippets: immediately finished.
    fn default() -> (c: Cursor)
        ensures
            c@.pos == 0,
            c@.all.len() == 0,
            c@.next == 0,
            c@.active.len() == 0,
            cursor_model_wf(c@),
    {
        Cursor { cur_idx: 0, all_cursors: Vec::new(), next_cursor: 0, active_cursors: Vec::new() }
    }
}

/// Whether `a` sorts strictly before `b` for the given direction.
fn cursor_before_exec(a: &CursorBuffer, b: &CursorBuffer, direction: i64) -> (r: bool)
    requires
        cursor_wf(*a),
        cursor_wf(*b),
    ensures
        r == cursor_before(*a, *b, direction as int),
{
    let ka: i64 = if direction >= 0 {
        -a.start
    } else {
        a.start - a.len
    };
    let kb: i64 = if direction >= 0 {
        -b.start
    } else {
        b.start - b.len
    };
    ka < kb || (ka == kb && a.id < b.id)
}

impl Cursor {
    pub open spec fn wf(&self) -> bool {
        cursor_model_wf(self@)
    }

    /// Builds the timeline cursor for a session over `snippets` starting at
    /// `time`, fixing the activation order for the direction of `velocity`.
    pub fn new(snippets: &AudioSnippetsData, time: Time, sample_rate: u32, velocity: Speed) -> (c:
        Cursor)
        requires
            snippets.wf(),
            time.wf(),
            1 <= sample_rate <= MAX_SAMPLE_RATE,
            velocity.wf(),
        ensures
            c@ == spec_cursor_new(
                snippets@,
                time.spec_micros(),
                sample_rate as int,
                velocity.spec_direction(),
            ),
            c.wf(),
            cursors_all_linked(c@, snippets@),
    {
        let direction: i64 = velocity.direction();
        let ghost cat = snippets@;
        let ghost base_spec = cursors_of(cat, time.spec_micros(), sample_rate as int);
        let entries = snippets.snippets();
        let n = entries.len();

        let mut base: Vec<CursorBuffer> = Vec::new();
        let mut k: usize = 0;
        while k < n
            invariant
                n == entries.len(),
                k <= n,
                snippets.wf(),
                time.wf(),
                1 <= sample_rate <= MAX_SAMPLE_RATE,
                entries@.len() == cat.entries.len(),
                forall|i: int|
                    0 <= i < n ==> (#[trigger] entries@[i]).0.spec_id() == cat.entries[i].0
                        && entries@[i].1@ == cat.entries[i].1,
                cat == snippets@,
                base_spec == cursors_of(cat, time.spec_micros(), sample_rate as int),
                base@.len() == k,
                forall|i: int| 0 <= i < k ==> base@[i] == base_spec[i],
                forall|i: int| 0 <= i < k ==> cursor_linked(#[trigger] base@[i], cat),
            decreases n - k,
        {
            let e = &entries[k];
            proof {
                assert(snippet_wf(cat.entries[k as int].1));
                crate::snippet::lemma_find_snippet_present(cat.entries, k as int);
            }
            let cb = CursorBuffer::new(e.0, &e.1, time, sample_rate);
            base.push(cb);
            k += 1;
        }
        proof {
            assert(base@ =~= base_spec);
        }

        let ghost sorted_spec = sort_cursors(base_spec, direction as int);
        let mut sorted: Vec<CursorBuffer> = Vec::new();
        let mut k: usize = 0;
        while k < n
            invariant
                n == base@.len(),
                k <= n,
                base@ == base_spec,
                forall|i: int| 0 <= i < n ==> cursor_linked(#[trigger] base@[i], cat),
                sorted@ == sort_cursors(base_spec.take(k as int), direction as int),
                sorted@.len() == k,
                forall|i: int| 0 <= i < k ==> cursor_linked(#[trigger] sorted@[i], cat),
            decreases n - k,
        {
            let c = base[k];
            let m = sorted.len();
            let mut j: usize = 0;
            while j < m && !cursor_before_exec(&c, &sorted[j], direction)
                invariant
                    m == sorted@.len(),
                    j <= m,
                    cursor_wf(c),
                    forall|i: int| 0 <= i < m ==> cursor_wf(#[trigger] sorted@[i]),
                    forall|jj: int|
                        0 <= jj < j ==> !cursor_before(c, #[trigger] sorted@[jj], direction as int),
                decreases m - j,
            {
                j += 1;
            }
            let ghost pre = sorted@;
            proof {
                lemma_insert_sorted_at(pre, c, direction as int, j as int);
                assert(base_spec.take(k as int + 1).drop_last() =~= base_spec.take(k as int));
                assert(base_spec.take(k as int + 1).last() == base_spec[k as int]);
            }
            sorted.insert(j, c);
            proof {
                assert forall|i: int| 0 <= i < sorted@.len() implies cursor_linked(
                    #[trigger] sorted@[i],
                    cat,
                ) by {
                    if i < j {
                        assert(sorted@[i] == pre[i]);
                    } else if i > j {
                        assert(sorted@[i] == pre[i - 1]);
                    }
                }
            }
            k += 1;
        }
        proof {
            assert(base_spec.take(n as int) =~= base_spec);
            assert(sorted@ == sorted_spec);
        }

        let n_all = sorted.len();
        let mut next_cursor: usize = 0;
        while next_cursor < n_all && sorted[next_cursor].is_started(0, direction)
            invariant
                n_all == sorted@.len(),
                next_cursor <= n_all,
                forall|i: int| 0 <= i < n_all ==> cursor_wf(#[trigger] sorted@[i]),
                forall|i: int|
                    0 <= i < next_cursor ==> spec_is_started(
                        #[trigger] sorted@[i],
                        0,
                        direction as int,
                    ),
            decreases n_all - next_cursor,
        {
            next_cursor += 1;
        }
        proof {
            lemma_first_not_started_scan(sorted@, 0, next_cursor as int, direction as int);
        }

        let ghost pred = |c: CursorBuffer| !spec_is_finished(c, 0, direction as int);
        let mut active: Vec<CursorBuffer> = Vec::new();
        let mut k: usize = 0;
        proof {
            reveal_with_fuel(Seq::filter, 2);
            assert(sorted@.take(0) =~= Seq::<CursorBuffer>::empty());
            assert(active@ == sorted@.take(0).filter(pred));
        }
        while k < next_cursor
            invariant
                next_cursor <= sorted@.len(),
                k <= next_cursor,
                forall|i: int| 0 <= i < sorted@.len() ==> cursor_wf(#[trigger] sorted@[i]),
                forall|i: int| 0 <= i < sorted@.len() ==> cursor_linked(#[trigger] sorted@[i], cat),
                pred == (|c: CursorBuffer| !spec_is_finished(c, 0, direction as int)),
                active@ == sorted@.take(k as int).filter(pred),
            decreases next_cursor - k,
        {
            let c = sorted[k];
            proof {
                lemma_filter_take_step(sorted@, pred, k as int);
            }
            if !c.is_finished(0, direction) {
                active.push(c);
            }
            k += 1;
        }

        let c = Cursor { cur_idx: 0, all_cursors: sorted, next_cursor, active_cursors: active };
        proof {
            assert forall|i: int| 0 <= i < c@.active.len() implies cursor_linked(
                #[trigger] c@.active[i],
                cat,
            ) by {
                let s = sorted_spec.take(next_cursor as int);
                assert(s.filter(pred)[i] == c@.active[i]);
                assert(s.filter(pred).contains(c@.active[i]));
                s.lemma_filter_contains_rev(pred, c@.active[i]);
                let w = choose|w: int| 0 <= w < s.len() && s[w] == c@.active[i];
                assert(cursor_linked(sorted_spec[w], cat));
            }
            // Ids are pairwise distinct: the sort only rearranges the one
            // cursor per catalog entry, and the catalog's ids are unique.
            lemma_cursor_new_distinct_ids(
                cat,
                time.spec_micros(),
                sample_rate as int,
                direction as int,
            );
            assert(c@.all == spec_cursor_new(
                cat,
                time.spec_micros(),
                sample_rate as int,
                direction as int,
            ).all);
            // The seeded active set comes from the considered prefix and
            // inherits its freedom from duplicate ids.
            let s = sorted_spec.take(next_cursor as int);
            assert forall|k: int|
                #![trigger c@.active[k]]
                0 <= k < c@.active.len() implies exists|w: int|
                0 <= w < c@.next && c@.all[w] == c@.active[k] by {
                assert(s.filter(pred)[k] == c@.active[k]);
                assert(s.filter(pred).contains(c@.active[k]));
                s.lemma_filter_contains_rev(pred, c@.active[k]);
                let w = choose|w: int| 0 <= w < s.len() && s[w] == c@.active[k];
                assert(0 <= w < c@.next && c@.all[w] == c@.active[k]);
            }
            assert(s.no_duplicates()) by {
                assert forall|a: int, b: int|
                    0 <= a < s.len() && 0 <= b < s.len() && a != b implies s[a] != s[b] by {
                    assert(s[a] == c@.all[a]);
                    assert(s[b] == c@.all[b]);
                }
            }
            lemma_filter_no_duplicates(s, pred);
            assert forall|a: int, b: int|
                0 <= a < b < c@.active.len() implies c@.active[a].id != c@.active[b].id by {
                if c@.active[a].id == c@.active[b].id {
                    let w1 = choose|w: int| 0 <= w < c@.next && c@.all[w] == c@.active[a];
                    let w2 = choose|w: int| 0 <= w < c@.next && c@.all[w] == c@.active[b];
                    assert(c@.all[w1].id == c@.all[w2].id);
                    assert(w1 == w2);
                    assert(c@.active[a] == c@.active[b]);
                    assert(s.filter(pred)[a] == s.filter(pred)[b]);
                }
            }
        }
        c
    }

    /// Mixes every snippet audible in the window this call consumes into
    /// `buf`, then advances the position and retires the cursors finished
    /// for this call's direction. The caller is responsible for
    /// zero-initializing `buf`: the engine only adds contributions, so
    /// overlapping snippets sum sample by sample.
    #[verifier::loop_isolation(false)]
    #[verifier::rlimit(60)]
    pub fn mix_to_buffer(&mut self, data: &AudioSnippetsData, buf: &mut Vec<i16>, speed: Speed)
        requires
            old(self).wf(),
            cursors_all_linked(old(self)@, data@),
            speed.wf(),
            old(buf)@.len() <= MAX_BUFFER_LEN,
            spec_input_amount(old(buf)@.len() as int, speed.spec_num(), speed.spec_den()) != 0,
            -MAX_POSITION <= old(self)@.pos + spec_input_amount(
                old(buf)@.len() as int,
                speed.spec_num(),
                speed.spec_den(),
            ) <= MAX_POSITION,
        ensures
            final(self)@ == spec_mix_state(
                old(self)@,
                old(buf)@.len() as int,
                speed.spec_num(),
                speed.spec_den(),
            ),
            final(buf)@ == spec_mix_output(
                old(self)@,
                data@,
                old(buf)@,
                speed.spec_num(),
                speed.spec_den(),
            ),
            final(self).wf(),
            cursors_all_linked(final(self)@, data@),
    {
        let ghost m0 = self@;
        let ghost cat = data@;
        let ghost numg = speed.spec_num();
        let ghost deng = speed.spec_den();
        let n: usize = buf.len();
        let num: i64 = speed.num();
        let den: i64 = speed.den();
        let direction: i64 = speed.direction();

        proof {
            assert(-0x4_0000_0000_0000int <= (n as int) * (num as int)
                <= 0x4_0000_0000_0000int) by (nonlinear_arith)
                requires
                    0 <= n as int <= 0x4000_0000,
                    -0x10_0000 <= num as int <= 0x10_0000,
            ;
        }
        let prod: i64 = (n as i64) * num;
        proof {
            if prod < 0 {
                lemma_ceil_div_neg(prod as int, den as int);
            }
            lemma_ceil_div_bounds(prod as int, den as int);
        }
        let amount: i64 = if prod >= 0 {
            (prod + den - 1) / den
        } else {
            -((-prod) / den)
        };
        let ghost amt = amount as int;
        proof {
            assert(amt == spec_input_amount(n as int, numg, deng));
            assert(amt != 0);
            assert(-MAX_WINDOW <= amount <= MAX_WINDOW);
            if num >= 0 {
                assert((n as int) * (num as int) >= 0) by (nonlinear_arith)
                    requires
                        0 <= n as int,
                        0 <= num as int,
                ;
                assert(amt > 0);
            } else {
                assert((n as int) * (num as int) <= 0) by (nonlinear_arith)
                    requires
                        0 <= n as int,
                        (num as int) < 0,
                ;
                assert(amt < 0);
            }
        }

        // Activation sweep: move every cursor whose window has become
        // audible into the active set, stopping at the first that has not.
        while self.next_cursor < self.all_cursors.len() && self.all_cursors[self.next_cursor]
            .is_active(self.cur_idx, amount)
            invariant
                m0.next <= self@.next <= m0.all.len(),
                self@.all == m0.all,
                self@.pos == m0.pos,
                forall|jj: int|
                    m0.next <= jj < self@.next ==> spec_is_active(
                        #[trigger] m0.all[jj],
                        m0.pos,
                        amt,
                    ),
                self@.active == m0.active + m0.all.subrange(m0.next, self@.next),
            decreases self@.all.len() - self@.next,
        {
            let c = self.all_cursors[self.next_cursor];
            let ghost pre_next = self@.next;
            self.active_cursors.push(c);
            self.next_cursor += 1;
            proof {
                assert(m0.all.subrange(m0.next, pre_next + 1) =~= m0.all.subrange(
                    m0.next,
                    pre_next,
                ).push(c));
                assert(self@.active =~= m0.active + m0.all.subrange(m0.next, self@.next));
            }
        }
        proof {
            lemma_sweep_next_scan(m0.all, m0.next, self@.next, m0.pos, amt);
        }
        let ghost mixed = self@.active;
        let ghost next2 = self@.next;
        proof {
            assert(mixed == spec_mixed_list(m0, amt));
            assert forall|i: int| 0 <= i < mixed.len() implies cursor_linked(
                #[trigger] mixed[i],
                cat,
            ) by {
                if i >= m0.active.len() {
                    assert(mixed[i] == m0.all[m0.next + (i - m0.active.len())]);
                }
            }
        }

        // Mix every active cursor's window into the output, one cursor at a
        // time, accumulating into the caller's buffer.
        let pos_now: i64 = self.cur_idx;
        let n_active: usize = self.active_cursors.len();
        let mut ci: usize = 0;
        while ci < n_active
            invariant
                ci <= n_active,
                n_active == mixed.len(),
                self@.active == mixed,
                self@.all == m0.all,
                self@.pos == m0.pos,
                self@.next == next2,
                buf@.len() == n,
                forall|ii: int|
                    0 <= ii < n ==> (#[trigger] buf@[ii]) as int == mixed_sample(
                        mixed.take(ci as int),
                        cat,
                        m0.pos,
                        amt,
                        old(buf)@[ii] as int,
                        ii,
                        numg,
                        deng,
                    ),
            decreases n_active - ci,
        {
            let c = self.active_cursors[ci];
            let in_buf = c.get_buf(data, pos_now, amount);
            let mut i: usize = 0;
            while i < n
                invariant
                    i <= n,
                    ci < n_active,
                    c == mixed[ci as int],
                    in_buf@ == spec_window(
                        samples_of(cat, c.id),
                        c.start as int,
                        m0.pos,
                        amt,
                    ),
                    buf_wf(in_buf@),
                    buf@.len() == n,
                    forall|ii: int|
                        0 <= ii < i ==> (#[trigger] buf@[ii]) as int == mixed_sample(
                            mixed.take(ci as int + 1),
                            cat,
                            m0.pos,
                            amt,
                            old(buf)@[ii] as int,
                            ii,
                            numg,
                            deng,
                        ),
                    forall|ii: int|
                        i <= ii < n ==> (#[trigger] buf@[ii]) as int == mixed_sample(
                            mixed.take(ci as int),
                            cat,
                            m0.pos,
                            amt,
                            old(buf)@[ii] as int,
                            ii,
                            numg,
                            deng,
                        ),
                decreases n - i,
            {
                proof {
                    assert(-0x8_0000_0000_0000int <= (i as int) * (num as int)
                        <= 0x8_0000_0000_0000int) by (nonlinear_arith)
                        requires
                            0 <= i as int <= 0x4000_0000,
                            -0x10_0000 <= num as int <= 0x10_0000,
                    ;
                    if num >= 0 {
                        assert((i as int) * (num as int) >= 0) by (nonlinear_arith)
                            requires
                                0 <= i as int,
                                0 <= num as int,
                        ;
                    } else {
                        assert((i as int) * (num as int) <= 0) by (nonlinear_arith)
                            requires
                                0 <= i as int,
                                (num as int) < 0,
                        ;
                    }
                }
                let p: i64 = (i as i64) * num;
                let v: i16 = in_buf.interpolated_index(p, den);
                let cur: i16 = buf[i];
                proof {
                    assert(v as int == cursor_contribution(c, cat, m0.pos, amt, i as int, numg,
                    deng));
                    assert(mixed.take(ci as int + 1) =~= mixed.take(ci as int).push(c));
                    lemma_mixed_sample_push(
                        mixed.take(ci as int),
                        c,
                        cat,
                        m0.pos,
                        amt,
                        old(buf)@[i as int] as int,
                        i as int,
                        numg,
                        deng,
                    );
                }
                buf.set(i, cur.wrapping_add(v));
                i += 1;
            }
            ci += 1;
        }
        proof {
            assert(mixed.take(n_active as int) =~= mixed);
        }

        // Advance the position by the input amount consumed.
        self.cur_idx = self.cur_idx + amount;

        // Retirement: drop every cursor now finished for this direction.
        let new_pos: i64 = self.cur_idx;
        let ghost keep = |c: CursorBuffer| !spec_is_finished(c, m0.pos + amt, direction as int);
        let mut retained: Vec<CursorBuffer> = Vec::new();
        let mut k: usize = 0;
        proof {
            reveal_with_fuel(Seq::filter, 2);
            assert(mixed.take(0) =~= Seq::<CursorBuffer>::empty());
            assert(retained@ == mixed.take(0).filter(keep));
        }
        while k < n_active
            invariant
                k <= n_active,
                self@.active == mixed,
                self@.all == m0.all,
                self@.next == next2,
                self@.pos == m0.pos + amt,
                retained@ == mixed.take(k as int).filter(keep),
            decreases n_active - k,
        {
            let c = self.active_cursors[k];
            proof {
                lemma_filter_take_step(mixed, keep, k as int);
            }
            if !c.is_finished(new_pos, direction) {
                retained.push(c);
            }
            k += 1;
        }
        self.active_cursors = retained;

        proof {
            assert(mixed.take(n_active as int) =~= mixed);
            assert(self@.active == mixed.filter(keep));
            let m2 = spec_mix_state(m0, n as int, numg, deng);
            assert(keep == (|c: CursorBuffer| !spec_is_finished(
                c,
                m0.pos + amt,
                if numg >= 0 {
                    1int
                } else {
                    -1int
                },
            )));
            assert(self@ == m2);
            let outspec = spec_mix_output(m0, cat, old(buf)@, numg, deng);
            assert forall|ii: int| 0 <= ii < n implies buf@[ii] == outspec[ii] by {
                lemma_mixed_sample_range(
                    mixed,
                    cat,
                    m0.pos,
                    amt,
                    old(buf)@[ii] as int,
                    ii,
                    numg,
                    deng,
                );
            }
            assert(buf@ =~= outspec);
            assert forall|i: int| 0 <= i < self@.active.len() implies cursor_linked(
                #[trigger] self@.active[i],
                cat,
            ) by {
                assert(mixed.filter(keep)[i] == self@.active[i]);
                assert(mixed.filter(keep).contains(self@.active[i]));
                mixed.lemma_filter_contains_rev(keep, self@.active[i]);
                let w = choose|w: int| 0 <= w < mixed.len() && mixed[w] == self@.active[i];
                assert(cursor_linked(mixed[w], cat));
            }
            // Every mixed cursor comes from the considered prefix: the
            // previously active ones by the old invariant, the newly swept
            // ones from the indices the sweep just passed.
            assert forall|v: int|
                0 <= v < mixed.len() implies exists|w: int|
                0 <= w < next2 && m0.all[w] == #[trigger] mixed[v] by {
                if v < m0.active.len() {
                    assert(mixed[v] == m0.active[v]);
                    let w = choose|w: int| 0 <= w < m0.next && m0.all[w] == m0.active[v];
                    assert(0 <= w < next2 && m0.all[w] == mixed[v]);
                } else {
                    let j = m0.next + (v - m0.active.len());
                    assert(mixed[v] == m0.all[j]);
                    assert(0 <= j < next2 && m0.all[j] == mixed[v]);
                }
            }
            assert forall|k: int|
                #![trigger self@.active[k]]
                0 <= k < self@.active.len() implies exists|w: int|
                0 <= w < self@.next && self@.all[w] == self@.active[k] by {
                assert(mixed.filter(keep)[k] == self@.active[k]);
                assert(mixed.filter(keep).contains(self@.active[k]));
                mixed.lemma_filter_contains_rev(keep, self@.active[k]);
                let v = choose|v: int| 0 <= v < mixed.len() && mixed[v] == self@.active[k];
                let w = choose|w: int| 0 <= w < next2 && m0.all[w] == mixed[v];
                assert(0 <= w < self@.next && self@.all[w] == self@.active[k]);
            }
            // The mixed list repeats no cursor, so neither does the
            // retained active set, and its ids stay pairwise distinct.
            assert(mixed.no_duplicates()) by {
                assert forall|a: int, b: int|
                    0 <= a < mixed.len() && 0 <= b < mixed.len() && a != b implies mixed[a]
                    != mixed[b] by {
                    if mixed[a] == mixed[b] {
                        let wa = choose|w: int| 0 <= w < next2 && m0.all[w] == mixed[a];
                        let wb = choose|w: int| 0 <= w < next2 && m0.all[w] == mixed[b];
                        if a < m0.active.len() && b < m0.active.len() {
                            assert(m0.active[a].id == m0.active[b].id);
                        } else if a >= m0.active.len() && b >= m0.active.len() {
                            let ja = m0.next + (a - m0.active.len());
                            let jb = m0.next + (b - m0.active.len());
                            assert(m0.all[ja] == m0.all[jb]);
                            assert(m0.all[ja].id == m0.all[jb].id);
                        } else if a < m0.active.len() {
                            let jb = m0.next + (b - m0.active.len());
                            let wa2 = choose|w: int|
                                0 <= w < m0.next && m0.all[w] == m0.active[a];
                            assert(m0.all[wa2] == m0.all[jb]);
                            assert(m0.all[wa2].id == m0.all[jb].id);
                        } else {
                            let ja = m0.next + (a - m0.active.len());
                            let wb2 = choose|w: int|
                                0 <= w < m0.next && m0.all[w] == m0.active[b];
                            assert(m0.all[wb2] == m0.all[ja]);
                            assert(m0.all[wb2].id == m0.all[ja].id);
                        }
                    }
                }
            }
            lemma_filter_no_duplicates(mixed, keep);
            assert forall|a: int, b: int|
                0 <= a < b < self@.active.len() implies self@.active[a].id
                != self@.active[b].id by {
                if self@.active[a].id == self@.active[b].id {
                    let w1 = choose|w: int| 0 <= w < self@.next && self@.all[w] == self@.active[a];
                    let w2 = choose|w: int| 0 <= w < self@.next && self@.all[w] == self@.active[b];
                    assert(self@.all[w1].id == self@.all[w2].id);
                    assert(w1 == w2);
                    assert(self@.active[a] == self@.active[b]);
                    assert(mixed.filter(keep)[a] == mixed.filter(keep)[b]);
                }
            }
            assert(-MAX_POSITION <= self@.pos <= MAX_POSITION);
            assert(0 <= self@.next <= self@.all.len());
            assert(forall|i: int| 0 <= i < self@.all.len() ==> cursor_wf(#[trigger] self@.all[i]));
            assert(forall|i: int|
                0 <= i < self@.active.len() ==> cursor_wf(#[trigger] self@.active[i]));
            assert(forall|a: int, b: int|
                0 <= a < b < self@.all.len() ==> self@.all[a].id != self@.all[b].id);
            assert(forall|k: int|
                #![trigger self@.active[k]]
                0 <= k < self@.active.len() ==> exists|w: int|
                    0 <= w < self@.next && self@.all[w] == self@.active[k]);
            assert(forall|a: int, b: int|
                0 <= a < b < self@.active.len() ==> self@.active[a].id != self@.active[b].id);
            assert(cursor_model_wf(self@));
        }
    }

    /// The current signed sample position relative to construction time.
    pub fn position(&self) -> (p: i64)
        ensures
            p == self@.pos,
    {
        self.cur_idx
    }

    /// True once every snippet has both activated and retired: the active
    /// set is empty and the sweep has considered every cursor.
    pub fn is_finished(&self) -> (r: bool)
        ensures
            r == (self@.active.len() == 0 && self@.next == self@.all.len()),
    {
        self.active_cursors.is_empty() && self.next_cursor == self.all_cursors.len()
    }
}

} // verus!
