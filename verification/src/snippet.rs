//! Snippets — immutable recorded clips of samples with a timeline start
//! time — and the catalog: an immutable directory of snippets keyed by
//! monotonically-assigned ids. Adding a snippet produces a new catalog value
//! that shares the sample buffers of all previous entries.

use std::sync::Arc;
use vstd::prelude::*;

use crate::time::{spec_idx_micros, Time, TimeDiff, SAMPLE_RATE};

verus! {

/// Largest accepted sample count of one snippet.
pub const MAX_SNIPPET_LEN: u64 = 0x80_0000_0000;

/// Largest accepted magnitude of a snippet's start time, in microseconds,
/// leaving headroom so that every end time stays well-formed.
pub const MAX_SNIPPET_START_MICROS: i64 = 0x10_0000_0000_0000;

/// An opaque handle to one snippet in a catalog: a monotonically increasing
/// integer, unique for the lifetime of a catalog lineage and never reused.
#[derive(Clone, Copy, PartialEq, Eq, Structural, Debug)]
pub struct AudioSnippetId(u64);

/// The mathematical value of one snippet: its samples and its start time
/// in microseconds.
pub struct SnippetModel {
    pub samples: Seq<i16>,
    pub start_us: int,
}

/// The mathematical value of a catalog: the last assigned id and the
/// directory entries in ascending id order.
pub struct CatalogModel {
    pub last_id: int,
    pub entries: Seq<(u64, SnippetModel)>,
}

/// One immutable recorded clip: an owned sequence of 16-bit signed samples
/// plus a start time relative to the global time origin. The samples sit
/// behind a shared handle so that catalog updates never copy them.
pub struct AudioSnippetData {
    buf: Arc<Vec<i16>>,
    start_time: Time,
}

/// The immutable directory of snippets: an ordered mapping from id to
/// snippet plus the last assigned id.
pub struct AudioSnippetsData {
    last_id: u64,
    entries: Vec<(AudioSnippetId, AudioSnippetData)>,
}

impl AudioSnippetId {
    pub closed spec fn spec_id(self) -> u64 {
        self.0
    }

    /// The raw id value.
    pub fn raw(self) -> (r: u64)
        ensures
            r == self.spec_id(),
    {
        self.0
    }
}

impl View for AudioSnippetData {
    type V = SnippetModel;

    closed spec fn view(&self) -> SnippetModel {
        SnippetModel { samples: self.buf@, start_us: self.start_time.spec_micros() }
    }
}

impl View for AudioSnippetsData {
    type V = CatalogModel;

    closed spec fn view(&self) -> CatalogModel {
        CatalogModel {
            last_id: self.last_id as int,
            entries: self.entries@.map(
                |i: int, e: (AudioSnippetId, AudioSnippetData)| (e.0.spec_id(), e.1@),
            ),
        }
    }
}

/// A well-formed snippet is bounded: its sample count and start time leave
/// headroom for 64-bit sample-index arithmetic.
pub open spec fn snippet_wf(m: SnippetModel) -> bool {
    &&& m.samples.len() <= MAX_SNIPPET_LEN
    &&& -MAX_SNIPPET_START_MICROS <= m.start_us <= MAX_SNIPPET_START_MICROS
}

/// The end time of a snippet, in microseconds: its start time plus the
/// duration of its samples at the engine's fixed sample rate.
pub open spec fn spec_end_time(m: SnippetModel) -> int {
    m.start_us + spec_idx_micros(m.samples.len() as int, SAMPLE_RATE as int)
}

/// Looks an id up in a directory entry sequence.
pub open spec fn find_snippet(entries: Seq<(u64, SnippetModel)>, id: u64) -> Option<SnippetModel>
    decreases entries.len(),
{
    if entries.len() == 0 {
        None
    } else if entries[0].0 == id {
        Some(entries[0].1)
    } else {
        find_snippet(entries.drop_first(), id)
    }
}

/// The largest end time over a directory entry sequence, or the time origin
/// for an empty one.
pub open spec fn entries_end_time(entries: Seq<(u64, SnippetModel)>) -> int
    decreases entries.len(),
{
    if entries.len() == 0 {
        0
    } else if entries.len() == 1 {
        spec_end_time(entries[0].1)
    } else {
        let rest = entries_end_time(entries.drop_last());
        if spec_end_time(entries.last().1) >= rest {
            spec_end_time(entries.last().1)
        } else {
            rest
        }
    }
}

/// A well-formed catalog: ids are strictly ascending (so unique), positive,
/// and no larger than the last assigned id, and every snippet is bounded.
pub open spec fn catalog_wf(c: CatalogModel) -> bool {
    &&& forall|i: int, j: int|
        0 <= i < j < c.entries.len() ==> c.entries[i].0 < c.entries[j].0
    &&& forall|i: int|
        0 <= i < c.entries.len() ==> 1 <= #[trigger] c.entries[i].0 <= c.last_id
    &&& forall|i: int| 0 <= i < c.entries.len() ==> snippet_wf(#[trigger] c.entries[i].1)
    &&& 0 <= c.last_id <= u64::MAX
}

/// In a directory with strictly ascending ids, looking up the id of any
/// entry finds exactly that entry.
pub proof fn lemma_find_snippet_present(entries: Seq<(u64, SnippetModel)>, i: int)
    requires
        0 <= i < entries.len(),
        forall|a: int, b: int| 0 <= a < b < entries.len() ==> entries[a].0 < entries[b].0,
    ensures
        find_snippet(entries, entries[i].0) == Some(entries[i].1),
    decreases i,
{
    if i > 0 {
        assert(entries[0].0 < entries[i].0);
        let rest = entries.drop_first();
        assert forall|a: int, b: int| 0 <= a < b < rest.len() implies rest[a].0 < rest[b].0 by {
            assert(rest[a] == entries[a + 1]);
            assert(rest[b] == entries[b + 1]);
        }
        assert(rest[i - 1] == entries[i]);
        lemma_find_snippet_present(rest, i - 1);
    }
}

/// Relies on `Arc::clone`: the returned handle refers to the same sample
/// vector, so the samples are shared, never copied.
#[verifier::external_body]
fn share_buf(buf: &Arc<Vec<i16>>) -> (r: Arc<Vec<i16>>)
    ensures
        r@ == buf@,
{
    Arc::clone(buf)
}

impl AudioSnippetData {
    pub open spec fn wf(&self) -> bool {
        snippet_wf(self@)
    }

    pub fn new(buf: Vec<i16>, start_time: Time) -> (s: AudioSnippetData)
        requires
            buf@.len() <= MAX_SNIPPET_LEN,
            -MAX_SNIPPET_START_MICROS <= start_time.spec_micros() <= MAX_SNIPPET_START_MICROS,
        ensures
            s@.samples == buf@,
            s@.start_us == start_time.spec_micros(),
            s.wf(),
    {
        AudioSnippetData { buf: Arc::new(buf), start_time }
    }

    /// The snippet's samples.
    pub fn buf(&self) -> (r: &Vec<i16>)
        ensures
            r@ == self@.samples,
    {
        &*self.buf
    }

    pub fn start_time(&self) -> (t: Time)
        ensures
            t.spec_micros() == self@.start_us,
    {
        self.start_time
    }

    /// The snippet's end time: its start time plus the duration of its
    /// samples at the engine's fixed sample rate.
    pub fn end_time(&self) -> (t: Time)
        requires
            self.wf(),
        ensures
            t.spec_micros() == spec_end_time(self@),
    {
        let idx: i64 = self.buf.len() as i64;
        let length: TimeDiff = TimeDiff::from_audio_idx(idx, SAMPLE_RATE);
        self.start_time.plus(length)
    }
}

impl Default for AudioSnippetsData {
    /// The empty catalog: no entries, no id assigned yet.
    fn default() -> (c: AudioSnippetsData)
        ensures
            c@.last_id == 0,
            c@.entries.len() == 0,
            catalog_wf(c@),
    {
        AudioSnippetsData { last_id: 0, entries: Vec::new() }
    }
}

impl AudioSnippetsData {
    pub open spec fn wf(&self) -> bool {
        catalog_wf(self@)
    }

    /// A new catalog that shares every entry of `self` and holds `snip`
    /// under the freshly assigned id `last_id + 1`. Ids are never reused:
    /// the id counter only grows, even when snippets are dropped from a
    /// later lineage.
    pub fn with_new_snippet(&self, snip: AudioSnippetData) -> (c: AudioSnippetsData)
        requires
            self.wf(),
            snip.wf(),
            self@.last_id < u64::MAX,
        ensures
            c@.last_id == self@.last_id + 1,
            c@.entries == self@.entries.push(((self@.last_id + 1) as u64, snip@)),
            c.wf(),
    {
        let new_id = AudioSnippetId(self.last_id + 1);
        let mut entries: Vec<(AudioSnippetId, AudioSnippetData)> = Vec::new();
        let n = self.entries.len();
        let mut k: usize = 0;
        proof {
            assert(self@.entries.skip(0) =~= self@.entries);
        }
        while k < n
            invariant
                n == self.entries.len(),
                k <= n,
                entries@.len() == k,
                forall|i: int|
                    0 <= i < k ==> (#[trigger] entries@[i]).0 == self.entries@[i].0
                        && entries@[i].1@ == self.entries@[i].1@,
            decreases n - k,
        {
            let e = &self.entries[k];
            let copy = AudioSnippetData { buf: share_buf(&e.1.buf), start_time: e.1.start_time };
            entries.push((e.0, copy));
            k += 1;
        }
        entries.push((new_id, snip));
        let c = AudioSnippetsData { last_id: self.last_id + 1, entries };
        proof {
            assert(c@.entries =~= self@.entries.push(((self@.last_id + 1) as u64, snip@)));
        }
        c
    }

    /// The snippet stored under `id`. Ids must originate from this catalog
    /// lineage: looking up an absent id is a caller-contract violation.
    pub fn snippet(&self, id: AudioSnippetId) -> (r: &AudioSnippetData)
        requires
            find_snippet(self@.entries, id.spec_id()) is Some,
        ensures
            r@ == find_snippet(self@.entries, id.spec_id())->Some_0,
    {
        let n = self.entries.len();
        let mut k: usize = 0;
        proof {
            assert(self@.entries.skip(0) =~= self@.entries);
        }
        while k < n
            invariant
                n == self.entries.len(),
                k <= n,
                find_snippet(self@.entries.skip(k as int), id.spec_id()) == find_snippet(
                    self@.entries,
                    id.spec_id(),
                ),
            decreases n - k,
        {
            let e = &self.entries[k];
            proof {
                assert(self@.entries.skip(k as int)[0] == self@.entries[k as int]);
                assert(self@.entries.skip(k as int).drop_first() =~= self@.entries.skip(
                    k as int + 1,
                ));
            }
            if e.0 == id {
                return &e.1;
            }
            k += 1;
        }
        proof {
            assert(self@.entries.skip(n as int) =~= Seq::<(u64, SnippetModel)>::empty());
            assert(false);
        }
        &self.entries[0].1
    }

    /// The snippet stored under the raw id value `id`, for the mixing core's
    /// lookups. Like `snippet`, the id must be present.
    pub(crate) fn snippet_by_value(&self, id: u64) -> (r: &AudioSnippetData)
        requires
            find_snippet(self@.entries, id) is Some,
        ensures
            r@ == find_snippet(self@.entries, id)->Some_0,
    {
        let n = self.entries.len();
        let mut k: usize = 0;
        proof {
            assert(self@.entries.skip(0) =~= self@.entries);
        }
        while k < n
            invariant
                n == self.entries.len(),
                k <= n,
                find_snippet(self@.entries.skip(k as int), id) == find_snippet(
                    self@.entries,
                    id,
                ),
            decreases n - k,
        {
            let e = &self.entries[k];
            proof {
                assert(self@.entries.skip(k as int)[0] == self@.entries[k as int]);
                assert(self@.entries.skip(k as int).drop_first() =~= self@.entries.skip(
                    k as int + 1,
                ));
            }
            if e.0.raw() == id {
                return &e.1;
            }
            k += 1;
        }
        proof {
            assert(self@.entries.skip(n as int) =~= Seq::<(u64, SnippetModel)>::empty());
            assert(false);
        }
        &self.entries[0].1
    }

    /// Whether `id` is present in this catalog.
    pub fn contains(&self, id: AudioSnippetId) -> (r: bool)
        ensures
            r == (find_snippet(self@.entries, id.spec_id()) is Some),
    {
        let n = self.entries.len();
        let mut k: usize = 0;
        proof {
            assert(self@.entries.skip(0) =~= self@.entries);
        }
        while k < n
            invariant
                n == self.entries.len(),
                k <= n,
                find_snippet(self@.entries.skip(k as int), id.spec_id()) == find_snippet(
                    self@.entries,
                    id.spec_id(),
                ),
            decreases n - k,
        {
            let e = &self.entries[k];
            proof {
                assert(self@.entries.skip(k as int)[0] == self@.entries[k as int]);
                assert(self@.entries.skip(k as int).drop_first() =~= self@.entries.skip(
                    k as int + 1,
                ));
            }
            if e.0 == id {
                return true;
            }
            k += 1;
        }
        proof {
            assert(self@.entries.skip(n as int) =~= Seq::<(u64, SnippetModel)>::empty());
        }
        false
    }

    /// The directory entries, in ascending id order.
    pub fn snippets(&self) -> (r: &Vec<(AudioSnippetId, AudioSnippetData)>)
        ensures
            r@.len() == self@.entries.len(),
            forall|i: int|
                0 <= i < r@.len() ==> (#[trigger] r@[i]).0.spec_id() == self@.entries[i].0
                    && r@[i].1@ == self@.entries[i].1,
    {
        &self.entries
    }

    /// The largest end time over all snippets, or the time origin for an
    /// empty catalog.
    pub fn end_time(&self) -> (t: Time)
        requires
            self.wf(),
        ensures
            t.spec_micros() == entries_end_time(self@.entries),
    {
        let n = self.entries.len();
        if n == 0 {
            return Time::zero();
        }
        proof {
            assert(self@.entries[0].1 == self.entries@[0].1@);
        }
        let mut best: Time = self.entries[0].1.end_time();
        let mut k: usize = 1;
        while k < n
            invariant
                n == self.entries.len(),
                self.wf(),
                1 <= k <= n,
                best.spec_micros() == entries_end_time(self@.entries.take(k as int)),
            decreases n - k,
        {
            proof {
                assert(self@.entries[k as int].1 == self.entries@[k as int].1@);
            }
            let e = self.entries[k].1.end_time();
            proof {
                assert(self@.entries.take(k as int + 1).drop_last() =~= self@.entries.take(
                    k as int,
                ));
                assert(self@.entries.take(k as int + 1).last() == self@.entries[k as int]);
            }
            if e.micros() > best.micros() {
                best = e;
            }
            k += 1;
        }
        proof {
            assert(self@.entries.take(n as int) =~= self@.entries);
        }
        best
    }
}

} // verus!
