//! Laws of the mixing engine, proved over the specification functions that
//! the executable contracts are stated with: what one mixing call produces
//! for a single snippet at any offset and whole-number speed, forwards and
//! backwards, how overlapping snippets combine, and that retirement is
//! permanent.

use vstd::prelude::*;

use crate::cursor::{
    buf_sample, cursor_contribution, lemma_audio_idx_magnitude, lemma_buf_interp_range,
    mixed_sample, samples_of, spec_cursor_new, spec_input_amount, spec_is_finished,
    lemma_insert_sorted_multiset, spec_mix_output, spec_mix_state, spec_mixed_list, spec_window,
    sweep_next, wrap_i16, BufModel, CursorBuffer, CursorModel, MAX_BUFFER_LEN,
};
use crate::snippet::{snippet_wf, CatalogModel, SnippetModel};
use crate::speed::MAX_SPEED_TERM;
use crate::time::{spec_audio_idx, MAX_SAMPLE_RATE, MAX_TIME_MICROS};

verus! {

/// A silent output buffer of `n` samples, as a caller zero-initializes it.
pub open spec fn silence(n: int) -> Seq<i16> {
    Seq::new(n as nat, |i: int| 0i16)
}

/// The representative of `x` modulo 2^16 in the signed 16-bit sample range:
/// what repeated two's-complement wrapping of in-range additions computes.
pub open spec fn norm16(x: int) -> int {
    ((x + 0x8000) % 0x10000) - 0x8000
}

/// The plain mathematical sum of the contributions of the cursors `cs` to
/// output index `i` — raw addition, no wrapping, no clipping.
pub open spec fn sum_contributions(
    cs: Seq<CursorBuffer>,
    cat: CatalogModel,
    pos: int,
    amount: int,
    i: int,
    num: int,
    den: int,
) -> int
    decreases cs.len(),
{
    if cs.len() == 0 {
        0
    } else {
        cursor_contribution(cs[0], cat, pos, amount, i, num, den) + sum_contributions(
            cs.drop_first(),
            cat,
            pos,
            amount,
            i,
            num,
            den,
        )
    }
}

/// The one-snippet catalog used by the single-snippet laws.
pub open spec fn singleton_catalog(id: u64, sm: SnippetModel) -> CatalogModel {
    CatalogModel { last_id: id as int, entries: seq![(id, sm)] }
}

/// `norm16` always lands in the signed 16-bit range.
proof fn lemma_norm16_range(x: int)
    ensures
        -0x8000 <= norm16(x) <= 0x7fff,
{
    vstd::arithmetic::div_mod::lemma_mod_bound(x + 0x8000, 0x10000);
}

/// `norm16` is the identity on the signed 16-bit range.
proof fn lemma_norm16_id(x: int)
    requires
        -0x8000 <= x <= 0x7fff,
    ensures
        norm16(x) == x,
{
    vstd::arithmetic::div_mod::lemma_small_mod((x + 0x8000) as nat, 0x10000);
}

/// One two's-complement wrap of a sum of two in-range values is reduction
/// modulo 2^16.
proof fn lemma_wrap_is_norm16(x: int)
    requires
        -0x18000 <= x <= 0x17fff,
    ensures
        wrap_i16(x) == norm16(x),
{
    if x > 0x7fff {
        vstd::arithmetic::div_mod::lemma_mod_sub_multiples_vanish(x + 0x8000, 0x10000);
        vstd::arithmetic::div_mod::lemma_small_mod((x + 0x8000 - 0x10000) as nat, 0x10000);
    } else if x < -0x8000 {
        vstd::arithmetic::div_mod::lemma_mod_add_multiples_vanish(x + 0x8000, 0x10000);
        vstd::arithmetic::div_mod::lemma_small_mod((x + 0x8000 + 0x10000) as nat, 0x10000);
    } else {
        lemma_norm16_id(x);
    }
}

/// Reducing, adding, and reducing again is the same as reducing the whole
/// sum once.
proof fn lemma_norm16_congruence(y: int, s: int)
    ensures
        norm16(norm16(y) + s) == norm16(y + s),
{
    vstd::arithmetic::div_mod::lemma_fundamental_div_mod(y + 0x8000, 0x10000);
    let k = (y + 0x8000) / 0x10000;
    assert(norm16(y) + s == (y + s) - 0x10000 * k);
    vstd::arithmetic::div_mod::lemma_mod_multiples_vanish(-k, (y + s) + 0x8000, 0x10000);
    assert(0x10000 * (-k) + ((y + s) + 0x8000) == (norm16(y) + s) + 0x8000);
}

/// The mixing fold is the plain sum of every cursor's contribution, reduced
/// modulo 2^16 — raw addition, never clipping.
pub proof fn lemma_mixed_sample_is_sum(
    cs: Seq<CursorBuffer>,
    cat: CatalogModel,
    pos: int,
    amount: int,
    base: int,
    i: int,
    num: int,
    den: int,
)
    requires
        den >= 1,
        -0x8000 <= base <= 0x7fff,
    ensures
        mixed_sample(cs, cat, pos, amount, base, i, num, den) == norm16(
            base + sum_contributions(cs, cat, pos, amount, i, num, den),
        ),
    decreases cs.len(),
{
    if cs.len() == 0 {
        lemma_norm16_id(base);
    } else {
        let c0 = cursor_contribution(cs[0], cat, pos, amount, i, num, den);
        lemma_buf_interp_range(
            spec_window(samples_of(cat, cs[0].id), cs[0].start as int, pos, amount),
            i * num,
            den,
        );
        lemma_wrap_is_norm16(base + c0);
        lemma_norm16_range(base + c0);
        lemma_mixed_sample_is_sum(
            cs.drop_first(),
            cat,
            pos,
            amount,
            norm16(base + c0),
            i,
            num,
            den,
        );
        lemma_norm16_congruence(base + c0, sum_contributions(
            cs.drop_first(),
            cat,
            pos,
            amount,
            i,
            num,
            den,
        ));
    }
}

/// Overlapping snippets combine by raw addition, sample by sample: each
/// output sample of one mixing call is the prior sample plus the plain sum
/// of every mixed cursor's contribution, reduced modulo 2^16; whenever that
/// raw sum already fits the 16-bit sample range — the no-clipping guarantee
/// — the output sample is exactly the raw sum.
pub proof fn lemma_mix_output_adds(
    m: CursorModel,
    cat: CatalogModel,
    out: Seq<i16>,
    num: int,
    den: int,
    i: int,
)
    requires
        den >= 1,
        0 <= i < out.len(),
    ensures
        ({
            let amt = spec_input_amount(out.len() as int, num, den);
            let cs = spec_mixed_list(m, amt);
            let total = out[i] + sum_contributions(cs, cat, m.pos, amt, i, num, den);
            &&& spec_mix_output(m, cat, out, num, den)[i] as int == norm16(total)
            &&& (-0x8000 <= total <= 0x7fff ==> spec_mix_output(m, cat, out, num, den)[i] as int
                == total)
        }),
{
    let amt = spec_input_amount(out.len() as int, num, den);
    let cs = spec_mixed_list(m, amt);
    let total = out[i] as int + sum_contributions(cs, cat, m.pos, amt, i, num, den);
    lemma_mixed_sample_is_sum(cs, cat, m.pos, amt, out[i] as int, i, num, den);
    lemma_norm16_range(total);
    if -0x8000 <= total <= 0x7fff {
        lemma_norm16_id(total);
    }
}

/// Division and remainder by one.
proof fn lemma_div_by_one(x: int)
    ensures
        x / 1 == x,
        x % 1 == 0,
{
    vstd::arithmetic::div_mod::lemma_fundamental_div_mod_converse(x, 1, x, 0);
}

/// At a whole-number index, interpolation is exact lookup.
proof fn lemma_interp_unit(b: BufModel, p: int)
    ensures
        crate::cursor::buf_interp(b, p, 1) == buf_sample(b, p) as int,
{
    lemma_div_by_one(p);
    let s0 = buf_sample(b, p) as int;
    assert(crate::time::trunc_div(s0 * 1, 1) == s0) by {
        if s0 >= 0 {
            lemma_div_by_one(s0);
        } else {
            lemma_div_by_one(-s0);
        }
    }
}

/// A filter of a one-element sequence.
proof fn lemma_filter_singleton(c: CursorBuffer, pred: spec_fn(CursorBuffer) -> bool)
    ensures
        seq![c].filter(pred) == if pred(c) {
            seq![c]
        } else {
            Seq::<CursorBuffer>::empty()
        },
{
    reveal_with_fuel(Seq::filter, 2);
    assert(seq![c].drop_last() =~= Seq::<CursorBuffer>::empty());
    assert(seq![c].last() == c);
    if pred(c) {
        assert(Seq::<CursorBuffer>::empty().filter(pred).push(c) =~= seq![c]);
    }
}

/// What construction yields over a one-snippet catalog: a single
/// per-snippet cursor whose start offset is the session-to-snippet offset
/// in samples, scanned and seeded according to the direction.
proof fn lemma_singleton_new(id: u64, sm: SnippetModel, t_us: int, rate: int, dir: int)
    requires
        1 <= rate <= MAX_SAMPLE_RATE as int,
        snippet_wf(sm),
        -MAX_TIME_MICROS <= t_us <= MAX_TIME_MICROS,
        dir == 1 || dir == -1,
    ensures
        ({
            let cat = singleton_catalog(id, sm);
            let st = spec_audio_idx(t_us - sm.start_us, rate);
            let c0 = CursorBuffer { id, start: st as i64, len: sm.samples.len() as i64 };
            let m = spec_cursor_new(cat, t_us, rate, dir);
            &&& m.pos == 0
            &&& m.all == seq![c0]
            &&& c0.start as int == st
            &&& c0.len as int == sm.samples.len()
            &&& m.next == (if crate::cursor::spec_is_started(c0, 0, dir) {
                1int
            } else {
                0
            })
            &&& m.active == (if 0 <= st < sm.samples.len() {
                seq![c0]
            } else {
                Seq::<CursorBuffer>::empty()
            })
        }),
{
    let cat = singleton_catalog(id, sm);
    let st = spec_audio_idx(t_us - sm.start_us, rate);
    lemma_audio_idx_magnitude(t_us - sm.start_us, rate);
    let c0 = CursorBuffer { id, start: st as i64, len: sm.samples.len() as i64 };
    let base = crate::cursor::cursors_of(cat, t_us, rate);
    assert(base =~= seq![c0]);
    let all = crate::cursor::sort_cursors(base, dir);
    assert(base.drop_last() =~= Seq::<CursorBuffer>::empty());
    assert(crate::cursor::sort_cursors(Seq::<CursorBuffer>::empty(), dir) =~= Seq::<
        CursorBuffer,
    >::empty());
    assert(all == crate::cursor::insert_sorted(Seq::<CursorBuffer>::empty(), c0, dir));
    assert(all =~= seq![c0]);
    let pred = |c: CursorBuffer| !spec_is_finished(c, 0, dir);
    let next = crate::cursor::first_not_started(all, 0, dir);
    if crate::cursor::spec_is_started(c0, 0, dir) {
        assert(next == crate::cursor::first_not_started(all, 1, dir));
        assert(next == 1);
        assert(all.take(1) =~= seq![c0]);
        lemma_filter_singleton(c0, pred);
        if dir == 1 {
            assert(pred(c0) == (st < sm.samples.len()));
            assert(crate::cursor::spec_is_started(c0, 0, dir) == (st >= 0));
        } else {
            assert(pred(c0) == (st >= 0));
            assert(crate::cursor::spec_is_started(c0, 0, dir) == (st < sm.samples.len()));
        }
    } else {
        assert(next == 0);
        assert(all.take(0) =~= Seq::<CursorBuffer>::empty());
        reveal_with_fuel(Seq::filter, 1);
        assert(all.take(0).filter(pred) =~= Seq::<CursorBuffer>::empty());
    }
}

/// Evaluates the mixing fold for a one-cursor list over a silent prior
/// sample: the output is that cursor's window sample at the input index.
proof fn lemma_singleton_fold(
    c0: CursorBuffer,
    cat: CatalogModel,
    pos: int,
    amount: int,
    i: int,
    num: int,
    den: int,
)
    requires
        den >= 1,
    ensures
        mixed_sample(seq![c0], cat, pos, amount, 0, i, num, den) == cursor_contribution(
            c0,
            cat,
            pos,
            amount,
            i,
            num,
            den,
        ),
{
    let c_value = cursor_contribution(c0, cat, pos, amount, i, num, den);
    lemma_buf_interp_range(
        spec_window(samples_of(cat, c0.id), c0.start as int, pos, amount),
        i * num,
        den,
    );
    assert(seq![c0].drop_first() =~= Seq::<CursorBuffer>::empty());
    assert(mixed_sample(seq![c0], cat, pos, amount, 0, i, num, den) == mixed_sample(
        Seq::<CursorBuffer>::empty(),
        cat,
        pos,
        amount,
        wrap_i16(0 + c_value),
        i,
        num,
        den,
    ));
    assert(wrap_i16(c_value) == c_value);
}

/// A single snippet played forward at whole-number speed `g` from a session
/// that starts at or before it: output sample `i` reads input index `g*i`,
/// so the snippet's samples appear decimated by `g`, beginning exactly at
/// the output index where the input index reaches the snippet's start
/// offset, with silence everywhere else. With `g == 1` and a zero offset
/// this is the snippet played back verbatim; with an offset `k` the output
/// is silent before `k` and the first sample lands exactly at `k`; with
/// `g == 2` every other input sample is dropped and the audible span
/// halves.
#[verifier::rlimit(50)]
pub proof fn lemma_single_snippet_forward(
    id: u64,
    sm: SnippetModel,
    t_us: int,
    rate: int,
    n: int,
    g: int,
)
    requires
        1 <= rate <= MAX_SAMPLE_RATE as int,
        snippet_wf(sm),
        -MAX_TIME_MICROS <= t_us <= MAX_TIME_MICROS,
        spec_audio_idx(t_us - sm.start_us, rate) <= 0,
        1 <= g <= MAX_SPEED_TERM,
        1 <= n <= MAX_BUFFER_LEN,
    ensures
        ({
            let cat = singleton_catalog(id, sm);
            let m = spec_cursor_new(cat, t_us, rate, 1);
            let out = spec_mix_output(m, cat, silence(n), g, 1);
            let k = -spec_audio_idx(t_us - sm.start_us, rate);
            &&& out.len() == n
            &&& forall|i: int|
                0 <= i < n ==> out[i] as int == (if g * i >= k && g * i - k < sm.samples.len() {
                    sm.samples[g * i - k] as int
                } else {
                    0
                })
        }),
{
    let cat = singleton_catalog(id, sm);
    let st = spec_audio_idx(t_us - sm.start_us, rate);
    let k = -st;
    let bl = sm.samples.len() as int;
    let c0 = CursorBuffer { id, start: st as i64, len: sm.samples.len() as i64 };
    lemma_singleton_new(id, sm, t_us, rate, 1);
    let m = spec_cursor_new(cat, t_us, rate, 1);
    let amt = spec_input_amount(n, g, 1);
    assert(amt == n * g) by {
        lemma_div_by_one(n * g + 1 - 1);
    }
    assert(1 <= n * g <= 0x4_0000_0000_0000) by (nonlinear_arith)
        requires
            1 <= n <= MAX_BUFFER_LEN,
            1 <= g <= MAX_SPEED_TERM,
    ;
    let samples = samples_of(cat, id);
    assert(samples == sm.samples);
    let out = spec_mix_output(m, cat, silence(n), g, 1);
    assert(out.len() == n);

    // Which cursors this call mixes: the one cursor when its window is
    // audible, none otherwise.
    let mixed = spec_mixed_list(m, amt);
    if st == 0 {
        // Seeded active at construction (the snippet starts with the
        // session); the sweep has nothing left to consider.
        assert(m.next == 1);
        assert(sweep_next(m.all, 1, 0, amt) == 1);
        assert(m.all.subrange(1, 1) =~= Seq::<CursorBuffer>::empty());
        if bl >= 1 {
            assert(mixed =~= seq![c0]);
        } else {
            assert(mixed =~= Seq::<CursorBuffer>::empty());
        }
    } else {
        assert(m.next == 0);
        assert(m.active =~= Seq::<CursorBuffer>::empty());
        if n * g > k {
            assert(crate::cursor::spec_is_active(c0, 0, amt));
            assert(sweep_next(m.all, 0, 0, amt) == sweep_next(m.all, 1, 0, amt));
            assert(sweep_next(m.all, 1, 0, amt) == 1);
            assert(m.all.subrange(0, 1) =~= seq![c0]);
            assert(mixed =~= seq![c0]);
        } else {
            assert(!crate::cursor::spec_is_active(c0, 0, amt));
            assert(sweep_next(m.all, 0, 0, amt) == 0);
            assert(m.all.subrange(0, 0) =~= Seq::<CursorBuffer>::empty());
            assert(mixed =~= Seq::<CursorBuffer>::empty());
        }
    }

    assert forall|i: int| 0 <= i < n implies out[i] as int == (if g * i >= k && g * i - k < bl {
        sm.samples[g * i - k] as int
    } else {
        0
    }) by {
        assert(silence(n)[i] == 0i16);
        assert(0 <= g * i <= g * (n - 1)) by (nonlinear_arith)
            requires
                0 <= i <= n - 1,
                g >= 1,
        ;
        assert(g * (n - 1) < n * g) by (nonlinear_arith)
            requires
                g >= 1,
                n >= 1,
        ;
        let x = g * i;
        assert(silence(n).len() == n);
        assert(spec_input_amount(silence(n).len() as int, g, 1) == amt);
        assert(out[i] == mixed_sample(mixed, cat, 0, amt, silence(n)[i] as int, i, g, 1) as i16);
        if mixed.len() == 0 {
            assert(out[i] as int == mixed_sample(mixed, cat, 0, amt, 0, i, g, 1));
            // The window was never audible, and indeed no requested input
            // index reaches the snippet.
            assert(x < k || x - k >= bl);
        } else {
            assert(mixed == seq![c0]);
            lemma_singleton_fold(c0, cat, 0, amt, i, g, 1);
            let b = spec_window(samples, st, 0, amt);
            lemma_interp_unit(b, x);
            lemma_buf_interp_range(b, x, 1);
            assert(mixed_sample(mixed, cat, 0, amt, 0, i, g, 1) == cursor_contribution(
                c0,
                cat,
                0,
                amt,
                i,
                g,
                1,
            ));
            assert(-0x8000 <= mixed_sample(mixed, cat, 0, amt, 0, i, g, 1) <= 0x7fff);
            assert(out[i] as int == mixed_sample(mixed, cat, 0, amt, 0, i, g, 1));
            assert(samples_of(cat, c0.id) == samples);
            assert(c0.start as int == st);
            assert(i * g == x) by (nonlinear_arith)
                requires
                    x == g * i,
            ;
            assert(spec_window(samples_of(cat, c0.id), c0.start as int, 0, amt) == b);
            assert(cursor_contribution(c0, cat, 0, amt, i, g, 1) == crate::cursor::buf_interp(
                b,
                x,
                1,
            ));
            assert(out[i] as int == buf_sample(b, x) as int);
            // Window geometry: it begins at the (nonpositive) start offset,
            // is `n*g` long, and is clipped to the stored samples.
            assert(b.direction == 1);
            assert(b.offset == if k > n * g {
                n * g
            } else {
                k
            });
            assert(b.inner =~= samples.subrange(
                0,
                if n * g - k < 0 {
                    0
                } else if n * g - k > bl {
                    bl
                } else {
                    n * g - k
                },
            ));
            if x >= k && x - k < bl {
                assert(b.inner[x - k] == sm.samples[x - k]);
            }
        }
    }
}

/// A single snippet played in reverse (speed -1) from its own end
/// reproduces its samples in exactly reversed order: output sample `i` is
/// the snippet's sample `len - 1 - i` while the snippet lasts, and silence
/// after. The session must start exactly at the snippet's end in samples —
/// where the sample rate does not divide the end time evenly, the rounded
/// end time falls short of the last sample and the reproduction would skip
/// it, so such inputs are excluded.
#[verifier::rlimit(50)]
pub proof fn lemma_single_snippet_reverse_from_end(
    id: u64,
    sm: SnippetModel,
    t_us: int,
    rate: int,
    n: int,
)
    requires
        1 <= rate <= MAX_SAMPLE_RATE as int,
        snippet_wf(sm),
        -MAX_TIME_MICROS <= t_us <= MAX_TIME_MICROS,
        spec_audio_idx(t_us - sm.start_us, rate) == sm.samples.len(),
        1 <= n <= MAX_BUFFER_LEN,
    ensures
        ({
            let cat = singleton_catalog(id, sm);
            let m = spec_cursor_new(cat, t_us, rate, -1);
            let out = spec_mix_output(m, cat, silence(n), -1, 1);
            &&& out.len() == n
            &&& forall|i: int|
                0 <= i < n ==> out[i] as int == (if i < sm.samples.len() {
                    sm.samples[sm.samples.len() - 1 - i] as int
                } else {
                    0
                })
        }),
{
    let cat = singleton_catalog(id, sm);
    let st = spec_audio_idx(t_us - sm.start_us, rate);
    let bl = sm.samples.len() as int;
    let c0 = CursorBuffer { id, start: st as i64, len: sm.samples.len() as i64 };
    lemma_singleton_new(id, sm, t_us, rate, -1);
    let m = spec_cursor_new(cat, t_us, rate, -1);
    let amt = spec_input_amount(n, -1, 1);
    assert(amt == -n) by {
        lemma_div_by_one(n * -1 + 1 - 1);
        assert(n * -1 == -n) by (nonlinear_arith);
    }
    let samples = samples_of(cat, id);
    assert(samples == sm.samples);
    let out = spec_mix_output(m, cat, silence(n), -1, 1);
    assert(out.len() == n);

    // Not started for reverse (the session sits exactly at the snippet's
    // end), so the sweep activates the one cursor now: its window
    // `[bl - n, bl)` still overlaps the samples. A snippet with no samples
    // is the exception: the window's near edge sits exactly on its empty
    // range rather than straddling it, so the cursor is never activated,
    // and the output is silence either way.
    assert(!crate::cursor::spec_is_started(c0, 0, -1));
    assert(m.next == 0);
    assert(m.active =~= Seq::<CursorBuffer>::empty());
    let mixed = spec_mixed_list(m, amt);
    if bl == 0 {
        assert(!crate::cursor::spec_is_active(c0, 0, amt));
        assert(sweep_next(m.all, 0, 0, amt) == 0);
        assert(m.all.subrange(0, 0) =~= Seq::<CursorBuffer>::empty());
        assert(mixed =~= Seq::<CursorBuffer>::empty());
    } else {
        assert(crate::cursor::spec_is_active(c0, 0, amt));
        assert(sweep_next(m.all, 0, 0, amt) == sweep_next(m.all, 1, 0, amt));
        assert(sweep_next(m.all, 1, 0, amt) == 1);
        assert(m.all.subrange(0, 1) =~= seq![c0]);
        assert(mixed =~= seq![c0]);
    }

    assert forall|i: int| 0 <= i < n implies out[i] as int == (if i < bl {
        sm.samples[bl - 1 - i] as int
    } else {
        0
    }) by {
        assert(silence(n)[i] == 0i16);
        assert(silence(n).len() == n);
        assert(spec_input_amount(silence(n).len() as int, -1, 1) == amt);
        assert(out[i] == mixed_sample(mixed, cat, 0, amt, silence(n)[i] as int, i, -1, 1) as i16);
        let x = i * -1;
        assert(x == -i) by (nonlinear_arith)
            requires
                x == i * -1,
        ;
        if bl == 0 {
            assert(out[i] as int == mixed_sample(mixed, cat, 0, amt, 0, i, -1, 1));
            assert(out[i] as int == 0);
        } else {
        assert(mixed == seq![c0]);
        lemma_singleton_fold(c0, cat, 0, amt, i, -1, 1);
        let b = spec_window(samples, st, 0, amt);
        lemma_interp_unit(b, x);
        lemma_buf_interp_range(b, x, 1);
        assert(out[i] as int == mixed_sample(mixed, cat, 0, amt, 0, i, -1, 1));
        assert(cursor_contribution(c0, cat, 0, amt, i, -1, 1) == crate::cursor::buf_interp(
            b,
            x,
            1,
        ));
        assert(out[i] as int == buf_sample(b, x) as int);
        // Window geometry for the reverse read: the window is the `n`
        // samples ending at the snippet's end, and window index `-i` reads
        // the sample `bl - 1 - i`.
        assert(b.direction == -1);
        assert(b.len == n);
        assert(b.offset == if n - bl > 0 {
            if n - bl > n {
                n
            } else {
                n - bl
            }
        } else {
            0
        });
        let lo = if bl - n < 0 {
            0
        } else {
            bl - n
        };
        assert(b.inner =~= samples.subrange(lo, bl));
        if i < bl {
            assert(b.inner[n - 1 - i - b.offset] == sm.samples[bl - 1 - i]);
        }
        }
    }
}

/// The activation sweep only moves forward through the sorted list, and
/// never beyond its end.
pub proof fn lemma_sweep_next_bounds(all: Seq<CursorBuffer>, from: int, pos: int, amount: int)
    requires
        0 <= from <= all.len(),
    ensures
        from <= sweep_next(all, from, pos, amount) <= all.len(),
    decreases all.len() - from,
{
    if from < all.len() && crate::cursor::spec_is_active(all[from], pos, amount) {
        lemma_sweep_next_bounds(all, from + 1, pos, amount);
    }
}

/// No inversion: nowhere does a later cursor sort strictly before an
/// earlier one.
pub open spec fn cursors_ordered(s: Seq<CursorBuffer>, dir: int) -> bool {
    forall|i: int, j: int|
        0 <= i < j < s.len() ==> !crate::cursor::cursor_before(#[trigger] s[j], #[trigger] s[i], dir)
}

/// Insertion keeps the list free of inversions.
proof fn lemma_insert_sorted_ordered(s: Seq<CursorBuffer>, c: CursorBuffer, dir: int)
    requires
        cursors_ordered(s, dir),
    ensures
        cursors_ordered(crate::cursor::insert_sorted(s, c, dir), dir),
    decreases s.len(),
{
    broadcast use vstd::seq_lib::group_to_multiset_ensures;

    let out = crate::cursor::insert_sorted(s, c, dir);
    if s.len() == 0 {
    } else if crate::cursor::cursor_before(c, s[0], dir) {
        assert forall|i: int, j: int| 0 <= i < j < out.len() implies !crate::cursor::cursor_before(
            out[j],
            out[i],
            dir,
        ) by {
            if i == 0 {
                assert(out[j] == s[j - 1]);
            } else {
                assert(out[i] == s[i - 1]);
                assert(out[j] == s[j - 1]);
            }
        }
    } else {
        let rest = crate::cursor::insert_sorted(s.drop_first(), c, dir);
        assert forall|a: int, b: int|
            0 <= a < b < s.drop_first().len() implies !crate::cursor::cursor_before(
            s.drop_first()[b],
            s.drop_first()[a],
            dir,
        ) by {
            assert(s.drop_first()[a] == s[a + 1]);
            assert(s.drop_first()[b] == s[b + 1]);
        }
        lemma_insert_sorted_ordered(s.drop_first(), c, dir);
        lemma_insert_sorted_multiset(s.drop_first(), c, dir);
        // Every element after the head is either the new cursor or one of
        // the tail's, and neither sorts before the head.
        assert forall|i: int, j: int| 0 <= i < j < out.len() implies !crate::cursor::cursor_before(
            out[j],
            out[i],
            dir,
        ) by {
            if i == 0 {
                assert(out[j] == rest[j - 1]);
                assert(rest.contains(rest[j - 1]));
                assert(rest.to_multiset().count(rest[j - 1]) > 0);
                if rest[j - 1] != c {
                    assert(s.drop_first().to_multiset().count(rest[j - 1]) > 0);
                    assert(s.drop_first().contains(rest[j - 1]));
                    let w = choose|w: int|
                        0 <= w < s.drop_first().len() && s.drop_first()[w] == rest[j - 1];
                    assert(s.drop_first()[w] == s[w + 1]);
                    assert(!crate::cursor::cursor_before(s[w + 1], s[0], dir));
                }
            } else {
                assert(out[i] == rest[i - 1]);
                assert(out[j] == rest[j - 1]);
            }
        }
    }
}

/// The construction-time sort leaves the cursor list free of inversions in
/// the direction's activation order.
pub proof fn lemma_sort_cursors_ordered(s: Seq<CursorBuffer>, dir: int)
    ensures
        cursors_ordered(crate::cursor::sort_cursors(s, dir), dir),
    decreases s.len(),
{
    if s.len() > 0 {
        lemma_sort_cursors_ordered(s.drop_last(), dir);
        lemma_insert_sorted_ordered(
            crate::cursor::sort_cursors(s.drop_last(), dir),
            s.last(),
            dir,
        );
    }
}

/// The sweep stops at the end of the list or at an inactive cursor.
proof fn lemma_sweep_next_stop(all: Seq<CursorBuffer>, from: int, pos: int, amount: int)
    requires
        0 <= from <= all.len(),
    ensures
        sweep_next(all, from, pos, amount) == all.len() || !crate::cursor::spec_is_active(
            all[sweep_next(all, from, pos, amount)],
            pos,
            amount,
        ),
    decreases all.len() - from,
{
    if from < all.len() && crate::cursor::spec_is_active(all[from], pos, amount) {
        lemma_sweep_next_stop(all, from + 1, pos, amount);
    }
}

/// Stopping the activation sweep at the first inactive cursor misses
/// nothing, so long as the stop is a cursor whose window has not yet been
/// reached: in a list free of inversions for the window's direction, no
/// cursor after such a stop is active for that window, which is what lets
/// the engine stay correct incrementally across repeated fixed-size buffer
/// calls. (A stop at a reached-but-wholly-passed cursor — one the position
/// jumped over entirely, possible only for a snippet with no samples or
/// after a mid-session direction change — carries no such guarantee; that
/// is the fixed-direction sort's known limitation.)
pub proof fn lemma_sweep_complete(
    all: Seq<CursorBuffer>,
    from: int,
    pos: int,
    amount: int,
    dir: int,
)
    requires
        0 <= from <= all.len(),
        cursors_ordered(all, dir),
        amount > 0 ==> dir == 1,
        amount <= 0 ==> dir == -1,
    ensures
        ({
            let j = sweep_next(all, from, pos, amount);
            (j == all.len() || !crate::cursor::spec_window_reached(all[j], pos, amount))
                ==> forall|k: int|
                j <= k < all.len() ==> !crate::cursor::spec_is_active(
                    #[trigger] all[k],
                    pos,
                    amount,
                )
        }),
{
    lemma_sweep_next_bounds(all, from, pos, amount);
    lemma_sweep_next_stop(all, from, pos, amount);
    let j = sweep_next(all, from, pos, amount);
    if j == all.len() || !crate::cursor::spec_window_reached(all[j], pos, amount) {
        assert forall|k: int| j <= k < all.len() implies !crate::cursor::spec_is_active(
            #[trigger] all[k],
            pos,
            amount,
        ) by {
            if k > j {
                assert(!crate::cursor::cursor_before(all[k], all[j], dir));
            }
        }
    }
}

/// Retirement is permanent. In a well-formed timeline cursor — which every
/// constructed cursor is, and every mixing call keeps — if a snippet's
/// cursor has been considered (it sits before the next-cursor index) and is
/// no longer in the active set, then after any further mixing call it is
/// still not in the active set: the sweep only draws cursors from at or
/// after the next-cursor index, and ids are unique. Moreover no cursor
/// finished for the call's direction survives in the new active set, and
/// the next-cursor index only grows.
pub proof fn lemma_retirement_permanent(
    m: CursorModel,
    n: int,
    num: int,
    den: int,
    x: u64,
)
    requires
        crate::cursor::cursor_model_wf(m),
        exists|w: int| 0 <= w < m.next && m.all[w].id == x,
        forall|k: int| 0 <= k < m.active.len() ==> m.active[k].id != x,
    ensures
        ({
            let m2 = spec_mix_state(m, n, num, den);
            let dir: int = if num >= 0 {
                1
            } else {
                -1
            };
            &&& forall|k: int| 0 <= k < m2.active.len() ==> m2.active[k].id != x
            &&& m.next <= m2.next <= m.all.len()
            &&& forall|k: int|
                0 <= k < m2.active.len() ==> !spec_is_finished(m2.active[k], m2.pos, dir)
        }),
{
    let amt = spec_input_amount(n, num, den);
    let dir: int = if num >= 0 {
        1int
    } else {
        -1int
    };
    let m2 = spec_mix_state(m, n, num, den);
    lemma_sweep_next_bounds(m.all, m.next, m.pos, amt);
    let next2 = sweep_next(m.all, m.next, m.pos, amt);
    let mixed = m.active + m.all.subrange(m.next, next2);
    let keep = |c: CursorBuffer| !spec_is_finished(c, m.pos + amt, dir);
    let w = choose|w: int| 0 <= w < m.next && m.all[w].id == x;
    assert forall|k: int| 0 <= k < m2.active.len() implies m2.active[k].id != x
        && !spec_is_finished(m2.active[k], m2.pos, dir) by {
        mixed.lemma_filter_pred(keep, k);
        assert(mixed.filter(keep).contains(mixed.filter(keep)[k]));
        mixed.lemma_filter_contains_rev(keep, mixed.filter(keep)[k]);
        let v = choose|v: int| 0 <= v < mixed.len() && mixed[v] == m2.active[k];
        if v >= m.active.len() {
            let j = m.next + (v - m.active.len());
            assert(mixed[v] == m.all[j]);
            assert(m.all[j].id != x) by {
                if m.all[j].id == x {
                    assert(m.all[w].id == m.all[j].id);
                }
            }
        }
    }
}

} // verus!
