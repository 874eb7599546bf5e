//! Deciding whether a run is reading warm (page-cached) or cold data, from samples of
//! page-cache residency, and remembering the inode ranges recently hinted to the kernel
//! so that they are not sampled.
use vstd::prelude::*;

verus! {

/// Still deciding; callers treat it like `COLD`.
pub const UNKNOWN: u8 = 0;
pub const COLD: u8 = 1;
pub const WARM: u8 = 2;

/// Decisions are made per window of this many samples.
pub const WINDOW: u32 = 32;
/// Hits out of a window needed to become warm.
pub const ENTER_WARM: u32 = 31;
/// Hits out of a window needed to stay warm.
pub const LEAVE_WARM: u32 = 26;

/// The first samples are taken at every opportunity.
pub const EAGER_SAMPLES: u32 = 64;
/// After them, one opportunity in this many (per thread) is sampled.
pub const SAMPLE_EVERY: u32 = 4;

/// How much of a file's head is looked at when sampling the data temperature.
pub const HEAD_SAMPLE_BYTES: u64 = 64 * 1024;

/// A sampled range is a hit when at least 3/4 of its pages are in the page cache.
pub fn is_hit(cached: u32, total: u32) -> (r: bool)
    ensures
        r == (4 * cached as int >= 3 * total as int),
{
    (cached as u64) * 4 >= (total as u64) * 3
}

/// The state of a temperature: `UNKNOWN`, `COLD` or `WARM`; the hits counted so far in
/// the current window; and the number of samples seen (which wraps around).
pub struct TempState {
    pub state: u8,
    pub hits: u32,
    pub seen: u32,
}

/// The threshold of hits a window needs to end warm, from the state it began in.
pub open spec fn hits_needed(state: u8) -> u32 {
    if state == WARM {
        LEAVE_WARM
    } else {
        ENTER_WARM
    }
}

/// One sample fed to a temperature. The sample that fills a window decides: the state
/// becomes `WARM` when the window's hits reach `hits_needed` of the state before, `COLD`
/// otherwise, and the hit count starts over; any other sample only counts.
pub open spec fn observe_spec(t: TempState, hit: bool) -> TempState {
    let hits = t.hits + if hit {
        1int
    } else {
        0int
    };
    let seen = if t.seen == u32::MAX {
        0
    } else {
        (t.seen + 1) as u32
    };
    if t.seen % WINDOW == WINDOW - 1 {
        TempState {
            state: if hits >= hits_needed(t.state) {
                WARM
            } else {
                COLD
            },
            hits: 0,
            seen,
        }
    } else {
        TempState { state: t.state, hits: hits as u32, seen }
    }
}

/// Samples fed one after the other.
pub open spec fn observe_all(t: TempState, samples: Seq<bool>) -> TempState
    decreases samples.len(),
{
    if samples.len() == 0 {
        t
    } else {
        observe_spec(observe_all(t, samples.drop_last()), samples.last())
    }
}

/// How many samples are hits.
pub open spec fn hit_count(samples: Seq<bool>) -> nat
    decreases samples.len(),
{
    if samples.len() == 0 {
        0
    } else {
        hit_count(samples.drop_last()) + if samples.last() {
            1nat
        } else {
            0nat
        }
    }
}

/// A temperature: whether data is being found in the page cache.
pub struct Temperature {
    state: u8,
    hits: u32,
    seen: u32,
    id: usize,
}

impl View for Temperature {
    type V = TempState;

    closed spec fn view(&self) -> TempState {
        TempState { state: self.state, hits: self.hits, seen: self.seen }
    }
}

impl Temperature {
    /// The index of this temperature's per-thread tick counter.
    pub closed spec fn id_spec(&self) -> usize {
        self.id
    }

    #[verifier::type_invariant]
    spec fn inv(&self) -> bool {
        self.state <= WARM && self.hits <= self.seen % WINDOW
    }

    /// A new temperature, still deciding.
    pub fn new(id: usize) -> (r: Self)
        ensures
            r@ == (TempState { state: UNKNOWN, hits: 0, seen: 0 }),
            r.id_spec() == id,
    {
        Temperature { state: UNKNOWN, hits: 0, seen: 0, id }
    }

    /// The index of this temperature's per-thread tick counter.
    pub fn id(&self) -> (r: usize)
        ensures
            r == self.id_spec(),
    {
        self.id
    }

    /// Still deciding: callers treat this like cold, but may want to retry a failed
    /// sample.
    pub fn is_unknown(&self) -> (r: bool)
        ensures
            r == (self@.state == UNKNOWN),
    {
        self.state == UNKNOWN
    }

    pub fn is_warm(&self) -> (r: bool)
        ensures
            r == (self@.state == WARM),
    {
        self.state == WARM
    }

    /// Should the caller spend a sample on this opportunity? Always, for the first
    /// `EAGER_SAMPLES` samples; after that, once every `SAMPLE_EVERY` calls, counted on
    /// the calling thread's own `tick`.
    pub fn want_sample(&self, tick: &mut u32) -> (r: bool)
        ensures
            self@.seen < EAGER_SAMPLES ==> r && *final(tick) == *old(tick),
            self@.seen >= EAGER_SAMPLES ==> *final(tick) == (if *old(tick) == u32::MAX {
                0
            } else {
                (*old(tick) + 1) as u32
            }) && r == (*final(tick) % SAMPLE_EVERY == 0),
    {
        if self.seen < EAGER_SAMPLES {
            return true;
        }
        let n = tick.wrapping_add(1);
        *tick = n;
        n % SAMPLE_EVERY == 0
    }

    /// Feed one sample (`true`: the sampled range was cached).
    pub fn observe(&mut self, hit: bool)
        ensures
            final(self)@ == observe_spec(old(self)@, hit),
            final(self).id_spec() == old(self).id_spec(),
    {
        proof {
            use_type_invariant(&*self);
        }
        let add: u32 = if hit {
            1
        } else {
            0
        };
        let hits = self.hits + add;
        let closes = self.seen % WINDOW == WINDOW - 1;
        let need = if self.state == WARM {
            LEAVE_WARM
        } else {
            ENTER_WARM
        };
        let seen = self.seen.wrapping_add(1);
        if closes {
            let state = if hits >= need {
                WARM
            } else {
                COLD
            };
            *self = Temperature { state, hits: 0, seen, id: self.id };
        } else {
            assert(seen % WINDOW == self.seen % WINDOW + 1);
            *self = Temperature { state: self.state, hits, seen, id: self.id };
        }
    }
}

/// Within a window, samples only count; the sample that fills the window decides.
proof fn lemma_window_prefix(t: TempState, samples: Seq<bool>)
    requires
        t.seen % WINDOW == 0,
        t.hits == 0,
        samples.len() < WINDOW,
    ensures
        observe_all(t, samples) == (TempState {
            state: t.state,
            hits: hit_count(samples) as u32,
            seen: (t.seen + samples.len()) as u32,
        }),
        hit_count(samples) <= samples.len(),
    decreases samples.len(),
{
    if samples.len() > 0 {
        lemma_window_prefix(t, samples.drop_last());
        assert((t.seen + samples.len() - 1) % (WINDOW as int) == samples.len() - 1) by (nonlinear_arith)
            requires
                (t.seen as int) % (WINDOW as int) == 0,
                1 <= samples.len() < WINDOW,
        ;
    }
}

/// A whole window decides by its own hits: starting a window in any state, the
/// temperature ends it warm exactly when the window's hits reach `hits_needed` of the
/// state it started in (31 to become warm, 26 to stay warm), cold otherwise.
pub proof fn lemma_window_decides(t: TempState, samples: Seq<bool>)
    requires
        t.seen % WINDOW == 0,
        t.hits == 0,
        samples.len() == WINDOW,
    ensures
        observe_all(t, samples).state == if hit_count(samples) >= hits_needed(t.state) {
            WARM
        } else {
            COLD
        },
        observe_all(t, samples).hits == 0,
{
    let p = samples.drop_last();
    lemma_window_prefix(t, p);
    assert((t.seen + WINDOW - 1) % (WINDOW as int) == WINDOW - 1) by (nonlinear_arith)
        requires
            (t.seen as int) % (WINDOW as int) == 0,
    ;
}

/// A window of nothing but hits ends warm, whatever the state before.
pub proof fn lemma_all_hits_warm(t: TempState, samples: Seq<bool>)
    requires
        t.seen % WINDOW == 0,
        t.hits == 0,
        samples.len() == WINDOW,
        forall|k: int| 0 <= k < samples.len() ==> samples[k],
    ensures
        observe_all(t, samples).state == WARM,
{
    lemma_hit_count_all(samples);
    lemma_window_decides(t, samples);
}

/// A window with fewer hits than `LEAVE_WARM` ends cold, whatever the state before.
pub proof fn lemma_few_hits_cold(t: TempState, samples: Seq<bool>)
    requires
        t.seen % WINDOW == 0,
        t.hits == 0,
        samples.len() == WINDOW,
        hit_count(samples) < LEAVE_WARM,
    ensures
        observe_all(t, samples).state == COLD,
{
    lemma_window_decides(t, samples);
}

/// Feeding two batches of samples one after the other is feeding them all.
proof fn lemma_observe_all_split(t: TempState, a: Seq<bool>, b: Seq<bool>)
    ensures
        observe_all(t, a + b) == observe_all(observe_all(t, a), b),
    decreases b.len(),
{
    if b.len() == 0 {
        assert(a + b =~= a);
    } else {
        lemma_observe_all_split(t, a, b.drop_last());
        assert((a + b).drop_last() =~= a + b.drop_last());
        assert((a + b).last() == b.last());
    }
}

/// Once decided, a temperature never goes back to `UNKNOWN`, whatever it is fed.
pub proof fn lemma_decided_stays_decided(t: TempState, samples: Seq<bool>)
    requires
        t.state != UNKNOWN,
    ensures
        observe_all(t, samples).state != UNKNOWN,
    decreases samples.len(),
{
    if samples.len() > 0 {
        lemma_decided_stays_decided(t, samples.drop_last());
    }
}

/// A new temperature is decided once a whole window of samples has been fed to it, and
/// stays decided after.
pub proof fn lemma_first_window_decides(samples: Seq<bool>)
    requires
        samples.len() >= WINDOW,
    ensures
        observe_all(TempState { state: UNKNOWN, hits: 0, seen: 0 }, samples).state != UNKNOWN,
{
    let t = TempState { state: UNKNOWN, hits: 0, seen: 0 };
    let first = samples.take(WINDOW as int);
    let rest = samples.skip(WINDOW as int);
    assert(samples =~= first + rest);
    lemma_observe_all_split(t, first, rest);
    lemma_window_decides(t, first);
    lemma_decided_stays_decided(observe_all(t, first), rest);
}

proof fn lemma_hit_count_all(samples: Seq<bool>)
    requires
        forall|k: int| 0 <= k < samples.len() ==> samples[k],
    ensures
        hit_count(samples) == samples.len(),
    decreases samples.len(),
{
    if samples.len() > 0 {
        lemma_hit_count_all(samples.drop_last());
    }
}


/// How many recent inode-block hints are remembered.
pub const RING: usize = 64;
/// Ranges are remembered in pages of `1 << RANGE_PAGE` bytes.
pub const RANGE_PAGE: u64 = 12;
/// The low bits of an entry that hold its page count.
pub const LEN_BITS: u64 = 24;
/// `(1 << LEN_BITS) - 1`: the largest page count an entry holds.
pub const LEN_MASK: u64 = 0x00FF_FFFF;

/// The last `RING` inode-block ranges hinted to the kernel (pages asked for count as
/// cached while still in flight, so sampling them would measure ourselves), each packed
/// as `first page << LEN_BITS | page count`, 0 for an empty slot; and the count of
/// hints noted, whose remainder modulo `RING` is the next slot to overwrite.
pub struct HintRing {
    hints: Vec<u64>,
    next: usize,
}

/// The entry noted for `len` bytes from `offset`: its first page, and its page count
/// capped at `LEN_MASK`.
pub open spec fn hint_entry(offset: u64, len: u64) -> u64 {
    let first = offset >> RANGE_PAGE;
    let pages = ((((offset + len - 1) as u64) >> RANGE_PAGE) - first + 1) as u64;
    (first << LEN_BITS) | if pages < LEN_MASK {
        pages
    } else {
        LEN_MASK
    }
}

/// An entry covers a query from page `first` to page `last` when it is not empty and
/// its pages meet them.
pub open spec fn entry_covers(e: u64, first: u64, last: u64) -> bool {
    e != 0 && (e >> LEN_BITS) <= last && first < (e >> LEN_BITS) + (e & LEN_MASK)
}

/// Some remembered entry covers the pages of `len` bytes from `offset`.
pub open spec fn hinted_spec(hints: Seq<u64>, offset: u64, len: u64) -> bool {
    len > 0 && exists|k: int|
        0 <= k < hints.len() && entry_covers(
            #[trigger] hints[k],
            offset >> RANGE_PAGE,
            ((offset + len - 1) as u64) >> RANGE_PAGE,
        )
}

/// One note on a ring's entries and count (see `note_inode_hint`): a non-empty range's
/// entry goes in the slot the count names, and the count goes up by one, wrapping.
pub open spec fn note_step(st: (Seq<u64>, usize), note: (u64, u64)) -> (Seq<u64>, usize) {
    if note.1 == 0 {
        st
    } else {
        (
            st.0.update(st.1 as int % RING as int, hint_entry(note.0, note.1)),
            if st.1 == usize::MAX {
                0
            } else {
                (st.1 + 1) as usize
            },
        )
    }
}

/// Several notes, one after the other.
pub open spec fn notes_after(st: (Seq<u64>, usize), notes: Seq<(u64, u64)>) -> (Seq<u64>, usize)
    decreases notes.len(),
{
    if notes.len() == 0 {
        st
    } else {
        note_step(notes_after(st, notes.drop_last()), notes.last())
    }
}

impl HintRing {
    pub closed spec fn hints(&self) -> Seq<u64> {
        self.hints@
    }

    pub closed spec fn next(&self) -> usize {
        self.next
    }

    /// The ring has its `RING` slots.
    pub closed spec fn wf(&self) -> bool {
        self.hints@.len() == RING
    }

    /// An empty ring.
    pub fn new() -> (r: Self)
        ensures
            r.wf(),
            r.hints() == Seq::new(RING as nat, |k: int| 0u64),
            r.next() == 0,
    {
        let mut hints: Vec<u64> = Vec::new();
        let mut k: usize = 0;
        while k < RING
            invariant
                k <= RING,
                hints@ == Seq::new(k as nat, |i: int| 0u64),
            decreases RING - k,
        {
            hints.push(0);
            k = k + 1;
        }
        HintRing { hints, next: 0 }
    }
}

/// Remember that the `len` bytes from `offset` were hinted: the entry goes in the next
/// slot, over the oldest. Nothing is noted for an empty range.
pub fn note_inode_hint(ring: &mut HintRing, offset: u64, len: u64)
    requires
        old(ring).wf(),
        len == 0 || offset as int + len as int <= u64::MAX,
    ensures
        final(ring).wf(),
        (final(ring).hints(), final(ring).next()) == note_step(
            (old(ring).hints(), old(ring).next()),
            (offset, len),
        ),
        len == 0 ==> final(ring).hints() == old(ring).hints() && final(ring).next() == old(ring).next(),
        len > 0 ==> final(ring).hints() == old(ring).hints().update(
            old(ring).next() as int % RING as int,
            hint_entry(offset, len),
        ) && final(ring).next() == (if old(ring).next() == usize::MAX {
            0
        } else {
            (old(ring).next() + 1) as usize
        }),
{
    if len == 0 {
        return ;
    }
    let first = offset >> RANGE_PAGE;
    let last = (offset + len - 1) >> RANGE_PAGE;
    assert(first <= last && last < 0xFFFF_FFFF_FFFF_FFFFu64) by (bit_vector)
        requires
            first == offset >> 12u64,
            last == ((offset + len - 1) as u64) >> 12u64,
            offset as int + len as int <= u64::MAX,
            len > 0,
    ;
    let span = last - first + 1;
    let pages = if span < LEN_MASK {
        span
    } else {
        LEN_MASK
    };
    let slot = ring.next % RING;
    ring.next = ring.next.wrapping_add(1);
    ring.hints.set(slot, (first << LEN_BITS) | pages);
}

/// Were any of the pages of the `len` bytes from `offset` hinted recently?
pub fn recently_hinted(ring: &HintRing, offset: u64, len: u64) -> (r: bool)
    requires
        ring.wf(),
        len == 0 || offset as int + len as int <= u64::MAX,
    ensures
        r == hinted_spec(ring.hints(), offset, len),
{
    if len == 0 {
        return false;
    }
    let first = offset >> RANGE_PAGE;
    let last = (offset + len - 1) >> RANGE_PAGE;
    let mut k: usize = 0;
    while k < ring.hints.len()
        invariant
            k <= ring.hints@.len(),
            len > 0,
            first == offset >> RANGE_PAGE,
            last == ((offset + len - 1) as u64) >> RANGE_PAGE,
            forall|i: int| 0 <= i < k ==> !entry_covers(#[trigger] ring.hints@[i], first, last),
        decreases ring.hints@.len() - k,
    {
        let e = ring.hints[k];
        if e != 0 {
            let f = e >> LEN_BITS;
            let pages = e & LEN_MASK;
            assert(f < 0x100_0000_0000 && pages <= LEN_MASK) by (bit_vector)
                requires
                    f == e >> 24u64,
                    pages == e & 0x00FF_FFFFu64,
            ;
            if f <= last && first < f + pages {
                assert(entry_covers(ring.hints@[k as int], first, last));
                return true;
            }
        }
        k = k + 1;
    }
    false
}

/// A range just noted is reported as hinted, as long as its entry holds it exactly: its
/// first page fits the entry's upper 40 bits and its page count its lower 24 bits.
pub proof fn lemma_noted_range_is_hinted(hints: Seq<u64>, slot: int, offset: u64, len: u64)
    requires
        0 <= slot < hints.len(),
        len > 0,
        offset as int + len as int <= u64::MAX,
        offset < 0x10_0000_0000_0000,
        (((offset + len - 1) as u64) >> RANGE_PAGE) - (offset >> RANGE_PAGE) + 1 <= LEN_MASK,
    ensures
        hinted_spec(hints.update(slot, hint_entry(offset, len)), offset, len),
{
    let first = offset >> RANGE_PAGE;
    let last = ((offset + len - 1) as u64) >> RANGE_PAGE;
    let pages = (last - first + 1) as u64;
    assert(first <= last) by (bit_vector)
        requires
            first == offset >> 12u64,
            last == ((offset + len - 1) as u64) >> 12u64,
            offset as int + len as int <= u64::MAX,
            len > 0,
    ;
    let e = hint_entry(offset, len);
    assert(e == (first << 24u64) | pages);
    assert(e >> 24u64 == first && e & 0x00FF_FFFFu64 == pages && e != 0) by (bit_vector)
        requires
            e == (first << 24u64) | pages,
            first == offset >> 12u64,
            offset < 0x10_0000_0000_0000u64,
            1 <= pages <= 0x00FF_FFFFu64,
    ;
    assert(entry_covers(hints.update(slot, e)[slot], first, last));
}

/// The slot the count names after `w` writes since `slot` was written.
pub open spec fn slot_after(slot: int, w: int) -> int {
    (slot + 1 + w) % RING as int
}

/// One write moves the slot the count names one on, wrapping included.
proof fn lemma_count_step(n: usize, slot: int, k: int)
    requires
        0 <= slot < RING,
        0 <= k,
        n as int % RING as int == slot_after(slot, k),
    ensures
        (if n == usize::MAX {
            0
        } else {
            (n + 1) as usize
        }) as int % RING as int == slot_after(slot, k + 1),
{
    assert(usize::MAX as int % 64 == 63);
    if n == usize::MAX {
        assert((slot + 1 + k + 1) % RING as int == 0);
    }
}

/// Later notes leave a slot alone while fewer than `RING` of them have written since it
/// was written: the count then names a slot other than it.
proof fn lemma_later_notes_keep_slot(st: (Seq<u64>, usize), later: Seq<(u64, u64)>, slot: int, w: int)
    requires
        st.0.len() == RING,
        0 <= slot < RING,
        0 <= w,
        w + later.len() < RING,
        st.1 as int % RING as int == slot_after(slot, w),
    ensures
        notes_after(st, later).0.len() == RING,
        notes_after(st, later).0[slot] == st.0[slot],
        exists|c: int|
            0 <= c <= later.len() && notes_after(st, later).1 as int % RING as int == #[trigger] slot_after(
                slot,
                w + c,
            ),
    decreases later.len(),
{
    if later.len() > 0 {
        let prev = later.drop_last();
        lemma_later_notes_keep_slot(st, prev, slot, w);
        let mid = notes_after(st, prev);
        let c = choose|c: int|
            0 <= c <= prev.len() && mid.1 as int % RING as int == #[trigger] slot_after(slot, w + c);
        let note = later.last();
        if note.1 != 0 {
            assert(mid.1 as int % RING as int != slot);
            lemma_count_step(mid.1, slot, w + c);
            assert(notes_after(st, later).1 as int % RING as int == slot_after(slot, w + (c + 1)));
        } else {
            assert(notes_after(st, later).1 as int % RING as int == slot_after(slot, w + c));
        }
    }
}

/// A noted range stays recently hinted through up to `RING - 1` later notes: any range
/// that shares a page with it is then reported as hinted, as long as the entry holds the
/// noted range exactly (its first page fits the entry's upper 40 bits and its page
/// count its lower 24 bits).
pub proof fn lemma_hint_survives_later_notes(
    hints: Seq<u64>,
    next: usize,
    offset: u64,
    len: u64,
    later: Seq<(u64, u64)>,
    offset2: u64,
    len2: u64,
)
    requires
        hints.len() == RING,
        len > 0,
        offset as int + len as int <= u64::MAX,
        offset < 0x10_0000_0000_0000,
        (((offset + len - 1) as u64) >> RANGE_PAGE) - (offset >> RANGE_PAGE) + 1 <= LEN_MASK,
        later.len() < RING,
        len2 > 0,
        offset2 as int + len2 as int <= u64::MAX,
        offset2 >> RANGE_PAGE <= ((offset + len - 1) as u64) >> RANGE_PAGE,
        offset >> RANGE_PAGE <= ((offset2 + len2 - 1) as u64) >> RANGE_PAGE,
    ensures
        hinted_spec(notes_after(note_step((hints, next), (offset, len)), later).0, offset2, len2),
{
    let slot = next as int % RING as int;
    let st = note_step((hints, next), (offset, len));
    assert(usize::MAX as int % 64 == 63);
    lemma_later_notes_keep_slot(st, later, slot, 0);
    let fin = notes_after(st, later).0;
    let first = offset >> RANGE_PAGE;
    let last = ((offset + len - 1) as u64) >> RANGE_PAGE;
    let first2 = offset2 >> RANGE_PAGE;
    let last2 = ((offset2 + len2 - 1) as u64) >> RANGE_PAGE;
    let pages = (last - first + 1) as u64;
    assert(first <= last) by (bit_vector)
        requires
            first == offset >> 12u64,
            last == ((offset + len - 1) as u64) >> 12u64,
            offset as int + len as int <= u64::MAX,
            len > 0,
    ;
    let e = hint_entry(offset, len);
    assert(e == (first << 24u64) | pages);
    assert(e >> 24u64 == first && e & 0x00FF_FFFFu64 == pages && e != 0) by (bit_vector)
        requires
            e == (first << 24u64) | pages,
            first == offset >> 12u64,
            offset < 0x10_0000_0000_0000u64,
            1 <= pages <= 0x00FF_FFFFu64,
    ;
    assert(fin[slot] == e);
    assert(entry_covers(fin[slot], first2, last2));
}

/// How a failed residency probe (the `cachestat` call) failed, as far as the probe
/// cares: the call is not implemented, not supported, does not take the descriptor, or is
/// not permitted; or it failed some other way.
#[derive(Clone, Copy, PartialEq, Eq, Structural, Debug)]
pub enum ProbeFailure {
    NotImplemented,
    NotSupported,
    BadDescriptor,
    NotPermitted,
    Other,
}

/// Whether the residency probe is off for good after one call (`failure` is `None` when
/// the call succeeded): it stays off once off, and a failure that shows the call cannot
/// work here turns it off; a success or any other failure leaves it as it was.
pub open spec fn probe_off_after_spec(off: bool, failure: Option<ProbeFailure>) -> bool {
    off || match failure {
        Some(f) => f != ProbeFailure::Other,
        None => false,
    }
}

/// The probe's off switch after one call (see `probe_off_after_spec`).
pub fn probe_off_after(off: bool, failure: Option<ProbeFailure>) -> (r: bool)
    ensures
        r == probe_off_after_spec(off, failure),
{
    match failure {
        Some(ProbeFailure::Other) | None => off,
        Some(_) => true,
    }
}

/// How many of the pages of `len` bytes from `off` (pages of `1 << shift` bytes) are
/// cached, capped at the total, and the total, from what the kernel reported as cached
/// (`None` when it could not say).
pub fn residency_of(off: u64, len: u64, shift: u32, nr_cache: Option<u64>) -> (r: Option<(u32, u32)>)
    requires
        len == 0 || off as int + len as int <= u64::MAX,
        shift < 64,
    ensures
        len == 0 ==> r is None,
        len > 0 ==> match nr_cache {
            None => r is None,
            Some(cached) => {
                let total = ((((off + len - 1) as u64) >> shift) - (off >> shift) + 1) as u64;
                r == Some(
                    (
                        (if cached < total {
                            cached
                        } else {
                            total
                        }) as u32,
                        total as u32,
                    ),
                )
            },
        },
{
    if len == 0 {
        return None;
    }
    match nr_cache {
        None => None,
        Some(cached) => {
            let hi = (off + len - 1) >> shift;
            let lo = off >> shift;
            assert(lo <= hi && hi < 0xFFFF_FFFF_FFFF_FFFFu64) by (bit_vector)
                requires
                    lo == off >> shift,
                    hi == ((off + len - 1) as u64) >> shift,
                    off as int + len as int <= u64::MAX,
                    len > 0,
            ;
            let total = hi - lo + 1;
            let c = if cached < total {
                cached
            } else {
                total
            };
            Some((#[verifier::truncate] (c as u32), #[verifier::truncate] (total as u32)))
        },
    }
}

/// The page-size shift from the page size the system reports: its number of trailing
/// zero bits, or 12 (4 KiB pages) when the report is not positive.
pub fn page_shift_of(page_size: i64) -> (r: u32)
    ensures
        page_size > 0 ==> r == vstd::std_specs::bits::u64_trailing_zeros(page_size as u64),
        page_size <= 0 ==> r == 12,
{
    if page_size > 0 {
        (page_size as u64).trailing_zeros()
    } else {
        12
    }
}

} // verus!
