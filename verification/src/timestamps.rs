//! Segmentation of a stream of per-window speech decisions into speech
//! segments, as the Silero VAD speech-timestamp post-processing does it:
//! onset/offset hysteresis, minimum speech and silence durations, forced
//! splits of over-long segments, then speech padding.
//!
//! Positions are sample indices of the 16 kHz audio. The model produces one
//! probability per window of [`WINDOW_SIZE_SAMPLES`] samples; the caller turns
//! each probability into a [`Frame`] (the two threshold comparisons the
//! algorithm makes), and everything after that is exact integer logic.
use vstd::prelude::*;

verus! {

/// Samples per model window at 16 kHz.
pub const WINDOW_SIZE_SAMPLES: usize = 512;

/// The two threshold decisions taken on one window's speech probability.
#[derive(Clone, Copy, Debug)]
pub struct Frame {
    /// `prob >= threshold`.
    pub speech: bool,
    /// `prob < neg_threshold`.
    pub silence: bool,
}

/// Integer parameters of the segmentation (durations in milliseconds at 16 kHz).
#[derive(Clone, Copy, Debug)]
pub struct TimestampParams {
    /// Minimum duration counted as speech.
    pub min_speech_duration_ms: u32,
    /// Minimum silence required to close an utterance.
    pub min_silence_duration_ms: u32,
    /// Padding added before/after each segment.
    pub speech_pad_ms: u32,
    /// Silence required to be a split candidate when a segment hits the maximum.
    pub min_silence_at_max_speech: u32,
    /// Split an over-long segment at the longest candidate silence.
    pub use_max_possible_silence: bool,
    /// A segment of `d` samples is over the maximum duration iff
    /// `d > max_speech_samples`; `None` means there is no maximum.
    pub max_speech_samples: Option<i128>,
}

/// Number of samples in `ms` milliseconds at 16 kHz.
pub open spec fn ms_to_samples(ms: u32) -> int {
    16 * ms
}

/// `a - b`, or 0 when `b > a` (as `usize::saturating_sub`).
pub open spec fn sat_sub(a: int, b: int) -> int {
    if a >= b {
        a - b
    } else {
        0
    }
}

pub open spec fn min_int(a: int, b: int) -> int {
    if a <= b {
        a
    } else {
        b
    }
}

/// A duration of `d` samples is over the maximum segment duration.
pub open spec fn exceeds(d: int, max: Option<i128>) -> bool {
    match max {
        Some(m) => d > m,
        None => false,
    }
}

/// Number of windows that cover `len` samples (the last one zero-padded).
pub open spec fn window_count(len: int) -> int {
    (len + 511) / 512
}

/// The state of the segmentation scan between two windows.
pub struct Scan {
    pub triggered: bool,
    pub current_start: int,
    pub has_current_start: bool,
    /// Start of the pending silence; 0 means "no pending silence".
    pub temp_end: int,
    pub prev_end: int,
    pub next_start: int,
    /// Split candidates: (silence start, silence length).
    pub possible_ends: Seq<(int, int)>,
    /// Closed segments: (start, end).
    pub speeches: Seq<(int, int)>,
}

pub open spec fn initial_scan() -> Scan {
    Scan {
        triggered: false,
        current_start: 0,
        has_current_start: false,
        temp_end: 0,
        prev_end: 0,
        next_start: 0,
        possible_ends: Seq::empty(),
        speeches: Seq::empty(),
    }
}

/// Index of the last element whose second component is maximal.
pub open spec fn last_max_index(s: Seq<(int, int)>) -> int
    decreases s.len(),
{
    if s.len() <= 1 {
        0
    } else {
        let j = last_max_index(s.drop_last());
        if s.last().1 >= s[j].1 {
            s.len() - 1
        } else {
            j
        }
    }
}

/// Speech resumes while a silence is pending: remember the silence as a split candidate.
pub open spec fn scan_resume(s: Scan, cur: int, f: Frame, p: TimestampParams) -> Scan {
    if f.speech && s.temp_end != 0 {
        let sil = sat_sub(cur, s.temp_end);
        Scan {
            possible_ends: if sil > ms_to_samples(p.min_silence_at_max_speech) {
                s.possible_ends.push((s.temp_end, sil))
            } else {
                s.possible_ends
            },
            temp_end: 0,
            next_start: if s.next_start < s.prev_end {
                cur
            } else {
                s.next_start
            },
            ..s
        }
    } else {
        s
    }
}

/// The segment in progress is over the maximum duration: close it.
pub open spec fn scan_split(s: Scan, cur: int, p: TimestampParams) -> Scan {
    if p.use_max_possible_silence && s.possible_ends.len() > 0 {
        let best = s.possible_ends[last_max_index(s.possible_ends)];
        let ns = best.0 + best.1;
        let sp = s.speeches.push((s.current_start, best.0));
        let again = ns < best.0 + cur;
        Scan {
            triggered: again,
            current_start: if again {
                ns
            } else {
                s.current_start
            },
            has_current_start: again,
            temp_end: 0,
            prev_end: 0,
            next_start: 0,
            possible_ends: Seq::empty(),
            speeches: sp,
        }
    } else if s.prev_end != 0 {
        let sp = s.speeches.push((s.current_start, s.prev_end));
        let stop = s.next_start < s.prev_end;
        Scan {
            triggered: if stop {
                false
            } else {
                s.triggered
            },
            current_start: if stop {
                s.current_start
            } else {
                s.next_start
            },
            has_current_start: !stop,
            temp_end: 0,
            prev_end: 0,
            next_start: 0,
            possible_ends: Seq::empty(),
            speeches: sp,
        }
    } else {
        Scan {
            triggered: false,
            current_start: s.current_start,
            has_current_start: false,
            temp_end: 0,
            prev_end: 0,
            next_start: 0,
            possible_ends: Seq::empty(),
            speeches: s.speeches.push((s.current_start, cur)),
        }
    }
}

/// A silent window while triggered: extend the pending silence, and close the
/// segment once the silence is long enough.
pub open spec fn scan_offset(s: Scan, cur: int, p: TimestampParams) -> Scan {
    let te = if s.temp_end == 0 {
        cur
    } else {
        s.temp_end
    };
    let sil = sat_sub(cur, te);
    let pe = if !p.use_max_possible_silence && sil > ms_to_samples(p.min_silence_at_max_speech) {
        te
    } else {
        s.prev_end
    };
    if sil < ms_to_samples(p.min_silence_duration_ms) {
        Scan { temp_end: te, prev_end: pe, ..s }
    } else {
        Scan {
            triggered: false,
            current_start: s.current_start,
            has_current_start: false,
            temp_end: 0,
            prev_end: 0,
            next_start: 0,
            possible_ends: Seq::empty(),
            speeches: if s.has_current_start && sat_sub(te, s.current_start) > ms_to_samples(
                p.min_speech_duration_ms,
            ) {
                s.speeches.push((s.current_start, te))
            } else {
                s.speeches
            },
        }
    }
}

/// One window of the scan, at sample position `cur`.
pub open spec fn scan_step(s: Scan, cur: int, f: Frame, p: TimestampParams) -> Scan {
    let s1 = scan_resume(s, cur, f, p);
    if f.speech && !s1.triggered {
        Scan { triggered: true, current_start: cur, has_current_start: true, ..s1 }
    } else if s1.triggered && s1.has_current_start && exceeds(
        sat_sub(cur, s1.current_start),
        p.max_speech_samples,
    ) {
        scan_split(s1, cur, p)
    } else if f.silence && s1.triggered {
        scan_offset(s1, cur, p)
    } else {
        s1
    }
}

/// The scan over windows `i..` of `frames`, from state `s`.
pub open spec fn scan_from(s: Scan, frames: Seq<Frame>, i: int, p: TimestampParams) -> Scan
    decreases frames.len() - i,
{
    if i < 0 || i >= frames.len() {
        s
    } else {
        scan_from(scan_step(s, 512 * i, frames[i], p), frames, i + 1, p)
    }
}

/// Segments found by the scan, including one left open at the end of the audio.
pub open spec fn raw_speeches(frames: Seq<Frame>, audio_len: int, p: TimestampParams) -> Seq<
    (int, int),
> {
    let s = scan_from(initial_scan(), frames, 0, p);
    if s.has_current_start && sat_sub(audio_len, s.current_start) > ms_to_samples(
        p.min_speech_duration_ms,
    ) {
        s.speeches.push((s.current_start, audio_len))
    } else {
        s.speeches
    }
}

/// Padding of segment `i`: widen its start (first segment only) and its end, and
/// narrow the start of the next segment, splitting a short gap in two.
pub open spec fn pad_step(segs: Seq<(int, int)>, i: int, pad: int, len: int) -> Seq<(int, int)> {
    let s1 = if i == 0 {
        segs.update(0, (sat_sub(segs[0].0, pad), segs[0].1))
    } else {
        segs
    };
    if i != s1.len() - 1 {
        let silence = sat_sub(s1[i + 1].0, s1[i].1);
        let adj = if silence < 2 * pad {
            silence / 2
        } else {
            pad
        };
        s1.update(i, (s1[i].0, min_int(s1[i].1 + adj, len))).update(
            i + 1,
            (sat_sub(s1[i + 1].0, adj), s1[i + 1].1),
        )
    } else {
        s1.update(i, (s1[i].0, min_int(s1[i].1 + pad, len)))
    }
}

pub open spec fn pad_from(segs: Seq<(int, int)>, i: int, pad: int, len: int) -> Seq<(int, int)>
    decreases segs.len() - i,
{
    if i < 0 || i >= segs.len() {
        segs
    } else {
        pad_from(pad_step(segs, i, pad, len), i + 1, pad, len)
    }
}

/// The segments with `end > start`, in order.
pub open spec fn nonempty(segs: Seq<(int, int)>) -> Seq<(int, int)>
    decreases segs.len(),
{
    if segs.len() == 0 {
        Seq::empty()
    } else {
        let rest = nonempty(segs.drop_last());
        if segs.last().1 > segs.last().0 {
            rest.push(segs.last())
        } else {
            rest
        }
    }
}

/// The speech segments of audio of `audio_len` samples whose windows gave `frames`.
pub open spec fn speech_segments_spec(frames: Seq<Frame>, audio_len: int, p: TimestampParams) -> Seq<
    (int, int),
> {
    nonempty(pad_from(raw_speeches(frames, audio_len, p), 0, ms_to_samples(p.speech_pad_ms), audio_len))
}

/// The pairs of `v` as mathematical integers.
pub open spec fn pairs(v: Seq<(usize, usize)>) -> Seq<(int, int)> {
    Seq::new(v.len(), |i: int| (v[i].0 as int, v[i].1 as int))
}

/// The audio is small enough that the sum of two sample positions fits in a
/// `usize` (true of any buffer of samples of two bytes or more that fits in
/// memory).
pub open spec fn fits_in_memory(audio_len: int) -> bool {
    audio_len <= usize::MAX / 2
}

/// Whether audio of `audio_len` samples can be segmented (see [`fits_in_memory`]).
pub fn fits_in_memory_exec(audio_len: usize) -> (b: bool)
    ensures
        b == fits_in_memory(audio_len as int),
{
    audio_len <= usize::MAX / 2
}

/// Number of 512-sample windows covering `len` samples (see [`window_count`]).
pub fn num_windows(len: usize) -> (n: usize)
    ensures
        n == window_count(len as int),
{
    if len == 0 {
        0
    } else {
        (len - 1) / WINDOW_SIZE_SAMPLES + 1
    }
}

/// Every position held by the scan lies in `[0, bound]`.
pub open spec fn scan_bounded(s: Scan, bound: int) -> bool {
    &&& 0 <= s.current_start <= bound
    &&& 0 <= s.temp_end <= bound
    &&& 0 <= s.prev_end <= bound
    &&& 0 <= s.next_start <= bound
    &&& forall|k: int|
        0 <= k < s.possible_ends.len() ==> 0 <= (#[trigger] s.possible_ends[k]).0 && 0
            <= s.possible_ends[k].1 && s.possible_ends[k].0 + s.possible_ends[k].1 <= bound
    &&& forall|k: int|
        0 <= k < s.speeches.len() ==> 0 <= (#[trigger] s.speeches[k]).0 <= bound && 0
            <= s.speeches[k].1 <= bound
}

pub proof fn lemma_last_max_index_in_range(s: Seq<(int, int)>)
    requires
        s.len() > 0,
    ensures
        0 <= last_max_index(s) < s.len(),
    decreases s.len(),
{
    if s.len() > 1 {
        lemma_last_max_index_in_range(s.drop_last());
    }
}

/// [`last_max_index`] picks an element whose second component is maximal.
pub proof fn lemma_last_max_index_is_max(s: Seq<(int, int)>)
    requires
        s.len() > 0,
    ensures
        0 <= last_max_index(s) < s.len(),
        forall|j: int| 0 <= j < s.len() ==> (#[trigger] s[j]).1 <= s[last_max_index(s)].1,
    decreases s.len(),
{
    lemma_last_max_index_in_range(s);
    if s.len() > 1 {
        let d = s.drop_last();
        lemma_last_max_index_is_max(d);
        assert forall|j: int| 0 <= j < s.len() implies (#[trigger] s[j]).1 <= s[last_max_index(
            s,
        )].1 by {
            if j < s.len() - 1 {
                assert(s[j] == d[j]);
            }
            assert(s[last_max_index(d)] == d[last_max_index(d)]);
        }
    }
}

proof fn lemma_scan_bounded_step(s: Scan, cur: int, f: Frame, p: TimestampParams, bound: int)
    requires
        scan_bounded(s, bound),
        0 <= cur <= bound,
    ensures
        scan_bounded(scan_step(s, cur, f, p), bound),
{
    let s1 = scan_resume(s, cur, f, p);
    assert(scan_bounded(s1, bound));
    if f.speech && !s1.triggered {
    } else if s1.triggered && s1.has_current_start && exceeds(
        sat_sub(cur, s1.current_start),
        p.max_speech_samples,
    ) {
        if p.use_max_possible_silence && s1.possible_ends.len() > 0 {
            lemma_last_max_index_in_range(s1.possible_ends);
        }
        let r = scan_split(s1, cur, p);
        assert(scan_bounded(r, bound));
    } else if f.silence && s1.triggered {
        let r = scan_offset(s1, cur, p);
        assert(scan_bounded(r, bound));
    }
}

/// The executable scan state; its view is a [`Scan`].
pub struct ScanState {
    triggered: bool,
    current_start: usize,
    has_current_start: bool,
    temp_end: usize,
    prev_end: usize,
    next_start: usize,
    possible_ends: Vec<(usize, usize)>,
    speeches: Vec<(usize, usize)>,
}

impl View for ScanState {
    type V = Scan;

    closed spec fn view(&self) -> Scan {
        Scan {
            triggered: self.triggered,
            current_start: self.current_start as int,
            has_current_start: self.has_current_start,
            temp_end: self.temp_end as int,
            prev_end: self.prev_end as int,
            next_start: self.next_start as int,
            possible_ends: pairs(self.possible_ends@),
            speeches: pairs(self.speeches@),
        }
    }
}

pub proof fn lemma_pairs_push(v: Seq<(usize, usize)>, x: (usize, usize))
    ensures
        pairs(v.push(x)) == pairs(v).push((x.0 as int, x.1 as int)),
{
    assert(pairs(v.push(x)) =~= pairs(v).push((x.0 as int, x.1 as int)));
}

pub proof fn lemma_pairs_empty()
    ensures
        pairs(Seq::<(usize, usize)>::empty()) == Seq::<(int, int)>::empty(),
{
    assert(pairs(Seq::<(usize, usize)>::empty()) =~= Seq::<(int, int)>::empty());
}

/// The element of `v` that `Iterator::max_by_key` on the second component picks:
/// the last one among those with the largest second component.
pub fn last_max(v: &Vec<(usize, usize)>) -> (r: (usize, usize))
    requires
        v.len() > 0,
    ensures
        (r.0 as int, r.1 as int) == pairs(v@)[last_max_index(pairs(v@))],
{
    let mut best: usize = 0;
    let mut i: usize = 1;
    while i < v.len()
        invariant
            1 <= i <= v.len(),
            best < i,
            best as int == last_max_index(pairs(v@).take(i as int)),
        decreases v.len() - i,
    {
        proof {
            let t = pairs(v@).take(i as int + 1);
            assert(t.drop_last() =~= pairs(v@).take(i as int));
            assert(t.last() == pairs(v@)[i as int]);
            assert(t[best as int] == pairs(v@)[best as int]);
        }
        if v[i].1 >= v[best].1 {
            best = i;
        }
        i = i + 1;
    }
    assert(pairs(v@).take(v.len() as int) =~= pairs(v@));
    v[best]
}

impl ScanState {
    fn new() -> (s: ScanState)
        ensures
            s@ == initial_scan(),
    {
        let s = ScanState {
            triggered: false,
            current_start: 0,
            has_current_start: false,
            temp_end: 0,
            prev_end: 0,
            next_start: 0,
            possible_ends: Vec::new(),
            speeches: Vec::new(),
        };
        proof {
            lemma_pairs_empty();
        }
        s
    }

    fn clear_pending(&mut self)
        ensures
            final(self)@ == (Scan {
                temp_end: 0,
                prev_end: 0,
                next_start: 0,
                possible_ends: Seq::empty(),
                ..old(self)@
            }),
    {
        self.temp_end = 0;
        self.prev_end = 0;
        self.next_start = 0;
        self.possible_ends = Vec::new();
        proof {
            lemma_pairs_empty();
        }
    }

    fn push_speech(&mut self, seg: (usize, usize))
        ensures
            final(self)@ == (Scan {
                speeches: old(self)@.speeches.push((seg.0 as int, seg.1 as int)),
                ..old(self)@
            }),
    {
        proof {
            lemma_pairs_push(self.speeches@, seg);
        }
        self.speeches.push(seg);
    }

    fn resume(&mut self, cur: usize, f: Frame, p: &TimestampParams)
        requires
            scan_bounded(old(self)@, cur as int),
        ensures
            final(self)@ == scan_resume(old(self)@, cur as int, f, *p),
    {
        if f.speech && self.temp_end != 0 {
            let sil = cur - self.temp_end;
            if (sil as u64) > 16 * (p.min_silence_at_max_speech as u64) {
                proof {
                    lemma_pairs_push(self.possible_ends@, (self.temp_end, sil));
                }
                self.possible_ends.push((self.temp_end, sil));
            }
            self.temp_end = 0;
            if self.next_start < self.prev_end {
                self.next_start = cur;
            }
        }
    }

    fn split(&mut self, cur: usize, p: &TimestampParams)
        requires
            scan_bounded(old(self)@, cur as int),
            cur <= usize::MAX / 2,
        ensures
            final(self)@ == scan_split(old(self)@, cur as int, *p),
    {
        if p.use_max_possible_silence && self.possible_ends.len() > 0 {
            proof {
                lemma_last_max_index_in_range(pairs(self.possible_ends@));
            }
            let best = last_max(&self.possible_ends);
            let start = self.current_start;
            self.push_speech((start, best.0));
            let ns = best.0 + best.1;
            if ns < best.0 + cur {
                self.current_start = ns;
                self.has_current_start = true;
                self.triggered = true;
            } else {
                self.has_current_start = false;
                self.triggered = false;
            }
            self.clear_pending();
        } else if self.prev_end != 0 {
            let start = self.current_start;
            let end = self.prev_end;
            self.push_speech((start, end));
            self.has_current_start = false;
            if self.next_start < self.prev_end {
                self.triggered = false;
            } else {
                self.current_start = self.next_start;
                self.has_current_start = true;
            }
            self.clear_pending();
        } else {
            let start = self.current_start;
            self.push_speech((start, cur));
            self.has_current_start = false;
            self.triggered = false;
            self.clear_pending();
        }
    }

    fn offset(&mut self, cur: usize, p: &TimestampParams)
        requires
            scan_bounded(old(self)@, cur as int),
        ensures
            final(self)@ == scan_offset(old(self)@, cur as int, *p),
    {
        if self.temp_end == 0 {
            self.temp_end = cur;
        }
        let sil = cur - self.temp_end;
        if !p.use_max_possible_silence && (sil as u64) > 16 * (p.min_silence_at_max_speech as u64) {
            self.prev_end = self.temp_end;
        }
        if (sil as u64) < 16 * (p.min_silence_duration_ms as u64) {
            return ;
        }
        let end = self.temp_end;
        if self.has_current_start && end >= self.current_start && ((end - self.current_start) as u64)
            > 16 * (p.min_speech_duration_ms as u64) {
            let start = self.current_start;
            self.push_speech((start, end));
        }
        self.triggered = false;
        self.has_current_start = false;
        self.clear_pending();
    }

    fn step(&mut self, cur: usize, f: Frame, p: &TimestampParams)
        requires
            scan_bounded(old(self)@, cur as int),
            cur <= usize::MAX / 2,
        ensures
            final(self)@ == scan_step(old(self)@, cur as int, f, *p),
    {
        self.resume(cur, f, p);
        if f.speech && !self.triggered {
            self.triggered = true;
            self.current_start = cur;
            self.has_current_start = true;
            return ;
        }
        let over = match p.max_speech_samples {
            Some(m) => {
                let d = if cur >= self.current_start {
                    cur - self.current_start
                } else {
                    0
                };
                (d as i128) > m
            },
            None => false,
        };
        if self.triggered && self.has_current_start && over {
            self.split(cur, p);
        } else if f.silence && self.triggered {
            self.offset(cur, p);
        }
    }
}

/// The raw segments (before padding) of the windows `frames`.
fn scan_frames(frames: &[Frame], audio_len: usize, p: &TimestampParams) -> (r: Vec<(usize, usize)>)
    requires
        frames.len() == window_count(audio_len as int),
        fits_in_memory(audio_len as int),
    ensures
        pairs(r@) == raw_speeches(frames@, audio_len as int, *p),
        forall|k: int| 0 <= k < r.len() ==> #[trigger] r[k].1 <= audio_len,
{
    let mut st = ScanState::new();
    let mut i: usize = 0;
    let n = frames.len();
    while i < n
        invariant
            n == frames.len(),
            n == window_count(audio_len as int),
            fits_in_memory(audio_len as int),
            0 <= i <= n,
            scan_from(st@, frames@, i as int, *p) == scan_from(initial_scan(), frames@, 0, *p),
            i == 0 ==> st@ == initial_scan(),
            i > 0 ==> scan_bounded(st@, 512 * (i - 1)),
        decreases n - i,
    {
        let cur = 512 * i;
        proof {
            if i == 0 {
                assert(scan_bounded(st@, 0));
            }
            assert(scan_bounded(st@, cur as int));
            lemma_scan_bounded_step(st@, cur as int, frames@[i as int], *p, cur as int);
        }
        st.step(cur, frames[i], p);
        i = i + 1;
    }
    let ghost fin = st@;
    proof {
        if n > 0 {
            assert(512 * (n - 1) < audio_len);
        }
        assert(scan_bounded(fin, audio_len as int));
    }
    if st.has_current_start && audio_len >= st.current_start && ((audio_len - st.current_start)
        as u64) > 16 * (p.min_speech_duration_ms as u64) {
        let start = st.current_start;
        st.push_speech((start, audio_len));
    }
    proof {
        assert forall|k: int| 0 <= k < st.speeches.len() implies #[trigger] st.speeches@[k].1
            <= audio_len by {
            assert(st@.speeches[k] == (st.speeches@[k].0 as int, st.speeches@[k].1 as int));
            if k < fin.speeches.len() {
                assert(st@.speeches[k] == fin.speeches[k]);
                assert(fin.speeches[k].1 <= audio_len);
            } else {
                assert(st@.speeches.len() == st.speeches@.len());
                assert(st@.speeches != fin.speeches);
                assert(st@.speeches == fin.speeches.push((st@.speeches[k].0, audio_len as int)));
                assert(st@.speeches[k].1 == audio_len);
            }
        }
    }
    st.speeches
}

proof fn lemma_pairs_update(v: Seq<(usize, usize)>, i: int, x: (usize, usize))
    requires
        0 <= i < v.len(),
    ensures
        pairs(v.update(i, x)) == pairs(v).update(i, (x.0 as int, x.1 as int)),
{
    assert(pairs(v.update(i, x)) =~= pairs(v).update(i, (x.0 as int, x.1 as int)));
}

/// Pads the raw segments in place (see [`pad_step`]).
fn pad_segments(segs: &mut Vec<(usize, usize)>, pad: u64, len: usize)
    requires
        forall|k: int| 0 <= k < old(segs).len() ==> #[trigger] old(segs)[k].1 <= len,
    ensures
        pairs(final(segs)@) == pad_from(pairs(old(segs)@), 0, pad as int, len as int),
        final(segs).len() == old(segs).len(),
{
    let n = segs.len();
    let mut i: usize = 0;
    let wide_pad = pad as u128;
    while i < n
        invariant
            n == segs.len(),
            0 <= i <= n,
            wide_pad == pad,
            forall|k: int| 0 <= k < segs.len() ==> #[trigger] segs[k].1 <= len,
            pad_from(pairs(segs@), i as int, pad as int, len as int) == pad_from(
                pairs(old(segs)@),
                0,
                pad as int,
                len as int,
            ),
        decreases n - i,
    {
        let ghost before = pairs(segs@);
        if i == 0 {
            let (s0, e0) = segs[0];
            let ns = if (s0 as u128) >= wide_pad {
                s0 - (pad as usize)
            } else {
                0
            };
            proof {
                lemma_pairs_update(segs@, 0, (ns, e0));
            }
            segs.set(0, (ns, e0));
        }
        let ghost mid = pairs(segs@);
        assert(mid == if i == 0 {
            before.update(0, (sat_sub(before[0].0, pad as int), before[0].1))
        } else {
            before
        });
        if i != n - 1 {
            let (si, ei) = segs[i];
            let (sn, en) = segs[i + 1];
            let silence = if sn >= ei {
                sn - ei
            } else {
                0
            };
            let adj: usize = if (silence as u128) < 2 * wide_pad {
                silence / 2
            } else {
                pad as usize
            };
            let ne = if ei + adj <= len {
                ei + adj
            } else {
                len
            };
            let nsn = if sn >= adj {
                sn - adj
            } else {
                0
            };
            proof {
                lemma_pairs_update(segs@, i as int, (si, ne));
                lemma_pairs_update(segs@.update(i as int, (si, ne)), i + 1, (nsn, en));
            }
            segs.set(i, (si, ne));
            segs.set(i + 1, (nsn, en));
        } else {
            let (si, ei) = segs[i];
            let ne = if (ei as u128) + wide_pad <= (len as u128) {
                ei + (pad as usize)
            } else {
                len
            };
            proof {
                lemma_pairs_update(segs@, i as int, (si, ne));
            }
            segs.set(i, (si, ne));
        }
        assert(pairs(segs@) == pad_step(before, i as int, pad as int, len as int));
        i = i + 1;
    }
}

/// The segments of `segs` with `end > start`, in order.
fn keep_nonempty(segs: &Vec<(usize, usize)>) -> (r: Vec<(usize, usize)>)
    ensures
        pairs(r@) == nonempty(pairs(segs@)),
{
    let mut r: Vec<(usize, usize)> = Vec::new();
    let mut i: usize = 0;
    proof {
        lemma_pairs_empty();
        assert(pairs(segs@).take(0) =~= Seq::<(int, int)>::empty());
    }
    while i < segs.len()
        invariant
            0 <= i <= segs.len(),
            pairs(r@) == nonempty(pairs(segs@).take(i as int)),
        decreases segs.len() - i,
    {
        proof {
            let t = pairs(segs@).take(i as int + 1);
            assert(t.drop_last() =~= pairs(segs@).take(i as int));
            assert(t.last() == pairs(segs@)[i as int]);
        }
        let (s, e) = segs[i];
        if e > s {
            proof {
                lemma_pairs_push(r@, (s, e));
            }
            r.push((s, e));
        }
        i = i + 1;
    }
    assert(pairs(segs@).take(segs.len() as int) =~= pairs(segs@));
    r
}

/// The speech segments, as `(start, end)` sample positions with `start < end`,
/// of audio of `audio_len` samples whose consecutive 512-sample windows gave `frames`.
pub fn speech_segments(frames: &[Frame], audio_len: usize, p: &TimestampParams) -> (r: Vec<
    (usize, usize),
>)
    requires
        frames.len() == window_count(audio_len as int),
        fits_in_memory(audio_len as int),
    ensures
        pairs(r@) == speech_segments_spec(frames@, audio_len as int, *p),
        ordered_segments(pairs(r@), audio_len as int),
        p.max_speech_samples is None ==> all_longer(
            pairs(r@),
            ms_to_samples(p.min_speech_duration_ms),
        ),
        p.max_speech_samples matches Some(m) ==> all_at_most(
            pairs(r@),
            max_raw_len(m as int) + 2 * ms_to_samples(p.speech_pad_ms),
        ),
{
    proof {
        lemma_speech_segments_ordered(frames@, audio_len as int, *p);
        match p.max_speech_samples {
            Some(m) => lemma_speech_segments_max_speech(frames@, audio_len as int, *p, m),
            None => lemma_speech_segments_min_speech(frames@, audio_len as int, *p),
        }
    }
    let mut segs = scan_frames(frames, audio_len, p);
    let pad = 16 * (p.speech_pad_ms as u64);
    pad_segments(&mut segs, pad, audio_len);
    keep_nonempty(&segs)
}

/// `segs` are in order, do not overlap, and lie in `[0, bound]`.
pub open spec fn chain(segs: Seq<(int, int)>, bound: int) -> bool {
    &&& forall|i: int| 0 <= i < segs.len() ==> 0 <= (#[trigger] segs[i]).0 <= segs[i].1 <= bound
    &&& forall|i: int, j: int|
        0 <= i < j < segs.len() ==> (#[trigger] segs[i]).1 <= (#[trigger] segs[j]).0
}

/// `segs` are non-empty, in order, do not overlap, and lie in `[0, len]`.
pub open spec fn ordered_segments(segs: Seq<(int, int)>, len: int) -> bool {
    &&& forall|i: int| 0 <= i < segs.len() ==> 0 <= (#[trigger] segs[i]).0 < segs[i].1 <= len
    &&& forall|i: int, j: int|
        0 <= i < j < segs.len() ==> (#[trigger] segs[i]).1 <= (#[trigger] segs[j]).0
}

/// What holds of every state the scan reaches, with `bound` the last position seen.
pub open spec fn scan_inv(s: Scan, bound: int) -> bool {
    &&& scan_bounded(s, bound)
    &&& s.has_current_start == s.triggered
    &&& chain(s.speeches, bound)
    &&& !s.triggered ==> s.temp_end == 0 && s.prev_end == 0 && s.possible_ends.len() == 0
    &&& s.triggered ==> {
        &&& forall|k: int|
            0 <= k < s.speeches.len() ==> (#[trigger] s.speeches[k]).1 <= s.current_start
        &&& s.temp_end != 0 ==> s.current_start <= s.temp_end
        &&& s.prev_end != 0 ==> s.current_start <= s.prev_end
        &&& forall|k: int|
            0 <= k < s.possible_ends.len() ==> s.current_start <= (#[trigger] s.possible_ends[k]).0
    }
}

pub proof fn lemma_chain_push(segs: Seq<(int, int)>, x: (int, int), bound: int)
    requires
        chain(segs, bound),
        0 <= x.0 <= x.1 <= bound,
        forall|k: int| 0 <= k < segs.len() ==> (#[trigger] segs[k]).1 <= x.0,
    ensures
        chain(segs.push(x), bound),
{
    let t = segs.push(x);
    assert forall|i: int, j: int| 0 <= i < j < t.len() implies (#[trigger] t[i]).1 <= (
    #[trigger] t[j]).0 by {
        if j == segs.len() {
            assert(t[i] == segs[i]);
        } else {
            assert(t[i] == segs[i] && t[j] == segs[j]);
        }
    }
}

proof fn lemma_chain_weaken(segs: Seq<(int, int)>, b1: int, b2: int)
    requires
        chain(segs, b1),
        b1 <= b2,
    ensures
        chain(segs, b2),
{
}

proof fn lemma_scan_inv_step(s: Scan, cur: int, f: Frame, p: TimestampParams, bound: int)
    requires
        scan_inv(s, bound),
        0 <= bound <= cur,
    ensures
        scan_inv(scan_step(s, cur, f, p), cur),
{
    lemma_chain_weaken(s.speeches, bound, cur);
    let s1 = scan_resume(s, cur, f, p);
    assert(scan_inv(s1, cur)) by {
        if f.speech && s.temp_end != 0 {
            assert forall|k: int| 0 <= k < s1.possible_ends.len() implies s1.current_start <= (
            #[trigger] s1.possible_ends[k]).0 by {
                if k < s.possible_ends.len() {
                    assert(s1.possible_ends[k] == s.possible_ends[k]);
                }
            }
            assert forall|k: int| 0 <= k < s1.possible_ends.len() implies 0 <= (
            #[trigger] s1.possible_ends[k]).0 && 0 <= s1.possible_ends[k].1
                && s1.possible_ends[k].0 + s1.possible_ends[k].1 <= cur by {
                if k < s.possible_ends.len() {
                    assert(s1.possible_ends[k] == s.possible_ends[k]);
                }
            }
        }
    }
    lemma_scan_bounded_step(s, cur, f, p, cur);
    if f.speech && !s1.triggered {
    } else if s1.triggered && s1.has_current_start && exceeds(
        sat_sub(cur, s1.current_start),
        p.max_speech_samples,
    ) {
        let r = scan_split(s1, cur, p);
        if p.use_max_possible_silence && s1.possible_ends.len() > 0 {
            lemma_last_max_index_in_range(s1.possible_ends);
            let best = s1.possible_ends[last_max_index(s1.possible_ends)];
            lemma_chain_push(s1.speeches, (s1.current_start, best.0), cur);
            assert forall|k: int| 0 <= k < r.speeches.len() implies (
            #[trigger] r.speeches[k]).1 <= best.0 + best.1 by {
                if k < s1.speeches.len() {
                    assert(r.speeches[k] == s1.speeches[k]);
                }
            }
        } else if s1.prev_end != 0 {
            lemma_chain_push(s1.speeches, (s1.current_start, s1.prev_end), cur);
            assert forall|k: int| 0 <= k < r.speeches.len() implies (
            #[trigger] r.speeches[k]).1 <= s1.prev_end by {
                if k < s1.speeches.len() {
                    assert(r.speeches[k] == s1.speeches[k]);
                }
            }
        } else {
            lemma_chain_push(s1.speeches, (s1.current_start, cur), cur);
        }
    } else if f.silence && s1.triggered {
        let r = scan_offset(s1, cur, p);
        let te = if s1.temp_end == 0 {
            cur
        } else {
            s1.temp_end
        };
        if r.speeches.len() > s1.speeches.len() {
            lemma_chain_push(s1.speeches, (s1.current_start, te), cur);
        }
    }
}

proof fn lemma_scan_from_inv(s: Scan, frames: Seq<Frame>, i: int, p: TimestampParams)
    requires
        0 <= i <= frames.len(),
        i == 0 ==> s == initial_scan(),
        i > 0 ==> scan_inv(s, 512 * (i - 1)),
    ensures
        frames.len() > 0 ==> scan_inv(scan_from(s, frames, i, p), 512 * (frames.len() - 1)),
        frames.len() == 0 ==> scan_from(s, frames, i, p) == initial_scan(),
    decreases frames.len() - i,
{
    if i < frames.len() {
        let bound = if i == 0 {
            0
        } else {
            512 * (i - 1)
        };
        if i == 0 {
            assert(chain(s.speeches, 0));
            assert(scan_inv(s, 0));
        }
        lemma_scan_inv_step(s, 512 * i, frames[i], p, bound);
        lemma_scan_from_inv(scan_step(s, 512 * i, frames[i], p), frames, i + 1, p);
    }
}

proof fn lemma_raw_speeches_chain(frames: Seq<Frame>, audio_len: int, p: TimestampParams)
    requires
        frames.len() == window_count(audio_len),
        audio_len >= 0,
    ensures
        chain(raw_speeches(frames, audio_len, p), audio_len),
{
    lemma_scan_from_inv(initial_scan(), frames, 0, p);
    let s = scan_from(initial_scan(), frames, 0, p);
    if frames.len() > 0 {
        assert(512 * (frames.len() - 1) < audio_len);
        lemma_chain_weaken(s.speeches, 512 * (frames.len() - 1), audio_len);
        if s.has_current_start && sat_sub(audio_len, s.current_start) > ms_to_samples(
            p.min_speech_duration_ms,
        ) {
            lemma_chain_push(s.speeches, (s.current_start, audio_len), audio_len);
        }
    } else {
        assert(chain(s.speeches, audio_len));
    }
}

proof fn lemma_pad_step_chain(segs: Seq<(int, int)>, i: int, pad: int, len: int)
    requires
        chain(segs, len),
        0 <= i < segs.len(),
        pad >= 0,
    ensures
        chain(pad_step(segs, i, pad, len), len),
        pad_step(segs, i, pad, len).len() == segs.len(),
{
    let s1 = if i == 0 {
        segs.update(0, (sat_sub(segs[0].0, pad), segs[0].1))
    } else {
        segs
    };
    assert(chain(s1, len)) by {
        if i == 0 {
            assert forall|a: int, b: int| 0 <= a < b < s1.len() implies (#[trigger] s1[a]).1 <= (
            #[trigger] s1[b]).0 by {
                assert(segs[a].1 <= segs[b].0);
            }
        }
    }
    let r = pad_step(segs, i, pad, len);
    if i != s1.len() - 1 {
        let silence = sat_sub(s1[i + 1].0, s1[i].1);
        let adj = if silence < 2 * pad {
            silence / 2
        } else {
            pad
        };
        let ne = min_int(s1[i].1 + adj, len);
        let nsn = sat_sub(s1[i + 1].0, adj);
        assert(s1[i].1 <= s1[i + 1].0);
        assert(ne <= nsn);
        assert forall|a: int| 0 <= a < r.len() implies 0 <= (#[trigger] r[a]).0 <= r[a].1 <= len by {
            if a != i && a != i + 1 {
                assert(r[a] == s1[a]);
            }
        }
        assert forall|a: int, b: int| 0 <= a < b < r.len() implies (#[trigger] r[a]).1 <= (
        #[trigger] r[b]).0 by {
            assert(s1[a].1 <= s1[b].0 || a == b);
            if a == i {
                if b != i + 1 {
                    assert(s1[i + 1].1 <= s1[b].0);
                }
            } else if a == i + 1 {
            } else if b == i {
            } else if b == i + 1 {
                assert(s1[a].1 <= s1[i].0);
            }
        }
    } else {
        assert forall|a: int, b: int| 0 <= a < b < r.len() implies (#[trigger] r[a]).1 <= (
        #[trigger] r[b]).0 by {
            assert(s1[a].1 <= s1[b].0);
        }
    }
}

proof fn lemma_pad_from_chain(segs: Seq<(int, int)>, i: int, pad: int, len: int)
    requires
        chain(segs, len),
        0 <= i,
        pad >= 0,
    ensures
        chain(pad_from(segs, i, pad, len), len),
    decreases segs.len() - i,
{
    if i < segs.len() {
        lemma_pad_step_chain(segs, i, pad, len);
        lemma_pad_from_chain(pad_step(segs, i, pad, len), i + 1, pad, len);
    }
}

proof fn lemma_nonempty_ordered(segs: Seq<(int, int)>, len: int)
    requires
        chain(segs, len),
    ensures
        ordered_segments(nonempty(segs), len),
        forall|i: int|
            0 <= i < nonempty(segs).len() ==> exists|k: int|
                0 <= k < segs.len() && #[trigger] nonempty(segs)[i] == segs[k],
    decreases segs.len(),
{
    if segs.len() > 0 {
        let d = segs.drop_last();
        assert(chain(d, len)) by {
            assert forall|a: int, b: int| 0 <= a < b < d.len() implies (#[trigger] d[a]).1 <= (
            #[trigger] d[b]).0 by {
                assert(segs[a].1 <= segs[b].0);
            }
        }
        lemma_nonempty_ordered(d, len);
        let rest = nonempty(d);
        let out = nonempty(segs);
        let x = segs.last();
        assert forall|i: int| 0 <= i < out.len() implies exists|k: int|
            0 <= k < segs.len() && #[trigger] out[i] == segs[k] by {
            if i < rest.len() {
                assert(out[i] == rest[i]);
                let k = choose|k: int| 0 <= k < d.len() && #[trigger] rest[i] == d[k];
                assert(segs[k] == d[k]);
            } else {
                assert(out[i] == segs[segs.len() - 1]);
            }
        }
        if x.1 > x.0 {
            assert forall|i: int, j: int| 0 <= i < j < out.len() implies (#[trigger] out[i]).1 <= (
            #[trigger] out[j]).0 by {
                if j == rest.len() {
                    let k = choose|k: int| 0 <= k < d.len() && #[trigger] rest[i] == d[k];
                    assert(out[i] == segs[k]);
                    assert(segs[k].1 <= segs[segs.len() - 1].0);
                } else {
                    assert(out[i] == rest[i] && out[j] == rest[j]);
                }
            }
            assert forall|i: int| 0 <= i < out.len() implies 0 <= (#[trigger] out[i]).0 < out[i].1
                <= len by {
                if i < rest.len() {
                    assert(out[i] == rest[i]);
                }
            }
        }
    }
}

/// Every segment returned by [`speech_segments`] is non-empty, lies within the
/// audio, and the segments come in order without overlapping.
pub proof fn lemma_speech_segments_ordered(frames: Seq<Frame>, audio_len: int, p: TimestampParams)
    requires
        frames.len() == window_count(audio_len),
        audio_len >= 0,
    ensures
        ordered_segments(speech_segments_spec(frames, audio_len, p), audio_len),
{
    lemma_raw_speeches_chain(frames, audio_len, p);
    lemma_pad_from_chain(raw_speeches(frames, audio_len, p), 0, ms_to_samples(p.speech_pad_ms), audio_len);
    lemma_nonempty_ordered(
        pad_from(raw_speeches(frames, audio_len, p), 0, ms_to_samples(p.speech_pad_ms), audio_len),
        audio_len,
    );
}

/// Every segment of `segs` is longer than `lo` samples.
pub open spec fn all_longer(segs: Seq<(int, int)>, lo: int) -> bool {
    forall|k: int| 0 <= k < segs.len() ==> (#[trigger] segs[k]).1 - segs[k].0 > lo
}

/// How long a segment can get before padding when the maximum is `m` samples:
/// the check runs once per window, so a segment may run up to one window past
/// the maximum before it is split.
pub open spec fn max_raw_len(m: int) -> int {
    (if m > 0 {
        m
    } else {
        0
    }) + 512
}

/// Every segment of `segs` is at most `hi` samples long.
pub open spec fn all_at_most(segs: Seq<(int, int)>, hi: int) -> bool {
    forall|k: int| 0 <= k < segs.len() ==> (#[trigger] segs[k]).1 - segs[k].0 <= hi
}

proof fn lemma_scan_long_step(s: Scan, cur: int, f: Frame, p: TimestampParams)
    requires
        p.max_speech_samples is None,
        all_longer(s.speeches, ms_to_samples(p.min_speech_duration_ms)),
    ensures
        all_longer(scan_step(s, cur, f, p).speeches, ms_to_samples(p.min_speech_duration_ms)),
{
    let s1 = scan_resume(s, cur, f, p);
    let r = scan_step(s, cur, f, p);
    assert(s1.speeches == s.speeches);
    if !(f.speech && !s1.triggered) && f.silence && s1.triggered {
        let te = if s1.temp_end == 0 {
            cur
        } else {
            s1.temp_end
        };
        assert forall|k: int| 0 <= k < r.speeches.len() implies (#[trigger] r.speeches[k]).1
            - r.speeches[k].0 > ms_to_samples(p.min_speech_duration_ms) by {
            if k < s1.speeches.len() {
                assert(r.speeches[k] == s1.speeches[k]);
            }
        }
    }
}

proof fn lemma_scan_long_from(s: Scan, frames: Seq<Frame>, i: int, p: TimestampParams)
    requires
        0 <= i,
        p.max_speech_samples is None,
        all_longer(s.speeches, ms_to_samples(p.min_speech_duration_ms)),
    ensures
        all_longer(scan_from(s, frames, i, p).speeches, ms_to_samples(p.min_speech_duration_ms)),
    decreases frames.len() - i,
{
    if i < frames.len() {
        lemma_scan_long_step(s, 512 * i, frames[i], p);
        lemma_scan_long_from(scan_step(s, 512 * i, frames[i], p), frames, i + 1, p);
    }
}

proof fn lemma_pad_from_lengths(segs: Seq<(int, int)>, i: int, pad: int, len: int, lo: int)
    requires
        chain(segs, len),
        all_longer(segs, lo),
        0 <= i,
        pad >= 0,
    ensures
        all_longer(pad_from(segs, i, pad, len), lo),
    decreases segs.len() - i,
{
    if i < segs.len() {
        lemma_pad_step_chain(segs, i, pad, len);
        let r = pad_step(segs, i, pad, len);
        let s1 = if i == 0 {
            segs.update(0, (sat_sub(segs[0].0, pad), segs[0].1))
        } else {
            segs
        };
        assert forall|k: int| 0 <= k < r.len() implies (#[trigger] r[k]).1 - r[k].0 > lo by {
            assert(segs[k].1 - segs[k].0 > lo);
            assert(segs[k].1 <= len);
            if i + 1 < segs.len() {
                assert(s1[i].1 <= s1[i + 1].0) by {
                    assert(segs[i].1 <= segs[i + 1].0);
                }
            }
        }
        lemma_pad_from_lengths(r, i + 1, pad, len, lo);
    }
}

/// With no maximum duration, every segment is longer than the minimum speech
/// duration (segments that are not are discarded).
pub proof fn lemma_speech_segments_min_speech(frames: Seq<Frame>, audio_len: int, p: TimestampParams)
    requires
        frames.len() == window_count(audio_len),
        audio_len >= 0,
        p.max_speech_samples is None,
    ensures
        all_longer(speech_segments_spec(frames, audio_len, p), ms_to_samples(p.min_speech_duration_ms)),
{
    let lo = ms_to_samples(p.min_speech_duration_ms);
    let pad = ms_to_samples(p.speech_pad_ms);
    lemma_scan_long_from(initial_scan(), frames, 0, p);
    let s = scan_from(initial_scan(), frames, 0, p);
    let raw = raw_speeches(frames, audio_len, p);
    assert(all_longer(raw, lo)) by {
        assert forall|k: int| 0 <= k < raw.len() implies (#[trigger] raw[k]).1 - raw[k].0 > lo by {
            if k < s.speeches.len() {
                assert(raw[k] == s.speeches[k]);
            }
        }
    }
    lemma_raw_speeches_chain(frames, audio_len, p);
    lemma_pad_from_lengths(raw, 0, pad, audio_len, lo);
    lemma_pad_from_chain(raw, 0, pad, audio_len);
    let padded = pad_from(raw, 0, pad, audio_len);
    lemma_nonempty_ordered(padded, audio_len);
    let out = nonempty(padded);
    assert forall|i: int| 0 <= i < out.len() implies (#[trigger] out[i]).1 - out[i].0 > lo by {
        let k = choose|k: int| 0 <= k < padded.len() && #[trigger] out[i] == padded[k];
        assert(padded[k].1 - padded[k].0 > lo);
    }
}

/// With a maximum of `m` samples, `bound` being the last position seen: the
/// open segment is at most the maximum long so far, a carried restart point
/// lies at least one window after its start, every split candidate ends at
/// least one window after its silence began, and every closed segment is at
/// most [`max_raw_len`] long.
pub open spec fn scan_cap_inv(s: Scan, bound: int, m: int) -> bool {
    &&& s.triggered ==> bound - s.current_start <= max_raw_len(m) - 512
    &&& s.triggered ==> s.next_start == 0 || s.next_start >= s.current_start + 512
    &&& !s.triggered ==> s.next_start == 0
    &&& forall|k: int| 0 <= k < s.possible_ends.len() ==> (#[trigger] s.possible_ends[k]).1 >= 512
    &&& all_at_most(s.speeches, max_raw_len(m))
}

proof fn lemma_scan_cap_step(s: Scan, cur: int, f: Frame, p: TimestampParams, bound: int, m: i128)
    requires
        p.max_speech_samples == Some(m),
        scan_inv(s, bound),
        scan_cap_inv(s, bound, m as int),
        0 <= bound <= cur,
        s.triggered ==> cur == bound + 512,
    ensures
        scan_cap_inv(scan_step(s, cur, f, p), cur, m as int),
{
    let hi = max_raw_len(m as int);
    let s1 = scan_resume(s, cur, f, p);
    assert(s1.speeches == s.speeches && s1.triggered == s.triggered && s1.current_start
        == s.current_start && s1.prev_end == s.prev_end && s1.has_current_start
        == s.has_current_start);
    assert(scan_cap_inv(s1, bound, m as int) && (s1.triggered ==> forall|k: int|
        0 <= k < s1.possible_ends.len() ==> s1.current_start <= (#[trigger] s1.possible_ends[k]).0
            && s1.possible_ends[k].0 + s1.possible_ends[k].1 <= cur)) by {
        if f.speech && s.temp_end != 0 {
            assert forall|k: int| 0 <= k < s1.possible_ends.len() implies (
            #[trigger] s1.possible_ends[k]).1 >= 512 && s1.current_start <= s1.possible_ends[k].0
                && s1.possible_ends[k].0 + s1.possible_ends[k].1 <= cur by {
                if k < s.possible_ends.len() {
                    assert(s1.possible_ends[k] == s.possible_ends[k]);
                }
            }
        }
    }
    if f.speech && !s1.triggered {
    } else if s1.triggered && s1.has_current_start && exceeds(
        sat_sub(cur, s1.current_start),
        p.max_speech_samples,
    ) {
        let r = scan_split(s1, cur, p);
        if p.use_max_possible_silence && s1.possible_ends.len() > 0 {
            lemma_last_max_index_in_range(s1.possible_ends);
            let best = s1.possible_ends[last_max_index(s1.possible_ends)];
            assert(best.0 - s1.current_start <= hi);
        }
        assert forall|k: int| 0 <= k < r.speeches.len() implies (#[trigger] r.speeches[k]).1
            - r.speeches[k].0 <= hi by {
            if k < s1.speeches.len() {
                assert(r.speeches[k] == s1.speeches[k]);
            }
        }
    } else if f.silence && s1.triggered {
        let r = scan_offset(s1, cur, p);
        assert forall|k: int| 0 <= k < r.speeches.len() implies (#[trigger] r.speeches[k]).1
            - r.speeches[k].0 <= hi by {
            if k < s1.speeches.len() {
                assert(r.speeches[k] == s1.speeches[k]);
            }
        }
    }
}

proof fn lemma_scan_cap_from(s: Scan, frames: Seq<Frame>, i: int, p: TimestampParams, m: i128)
    requires
        0 <= i <= frames.len(),
        p.max_speech_samples == Some(m),
        i == 0 ==> s == initial_scan(),
        i > 0 ==> scan_inv(s, 512 * (i - 1)) && scan_cap_inv(s, 512 * (i - 1), m as int),
    ensures
        frames.len() > 0 ==> scan_cap_inv(
            scan_from(s, frames, i, p),
            512 * (frames.len() - 1),
            m as int,
        ),
    decreases frames.len() - i,
{
    if i < frames.len() {
        let bound = if i == 0 {
            0
        } else {
            512 * (i - 1)
        };
        if i == 0 {
            assert(chain(s.speeches, 0));
            assert(scan_inv(s, 0));
            assert(scan_cap_inv(s, 0, m as int));
        }
        lemma_scan_inv_step(s, 512 * i, frames[i], p, bound);
        lemma_scan_cap_step(s, 512 * i, frames[i], p, bound, m);
        lemma_scan_cap_from(scan_step(s, 512 * i, frames[i], p), frames, i + 1, p, m);
    }
}

/// Padding from segment `i` on: segments before `i` have grown by at most two
/// pads, segment `i` by at most one (its start may have moved back), and the
/// later ones not at all; after padding, every segment has grown by at most
/// two pads.
proof fn lemma_pad_from_at_most(segs: Seq<(int, int)>, i: int, pad: int, len: int, hi: int)
    requires
        0 <= i,
        pad >= 0,
        forall|k: int| 0 <= k < segs.len() && k < i ==> (#[trigger] segs[k]).1 - segs[k].0 <= hi + 2
            * pad,
        0 < i < segs.len() ==> segs[i].1 - segs[i].0 <= hi + pad,
        i == 0 < segs.len() ==> segs[0].1 - segs[0].0 <= hi,
        forall|k: int| i < k < segs.len() ==> (#[trigger] segs[k]).1 - segs[k].0 <= hi,
    ensures
        all_at_most(pad_from(segs, i, pad, len), hi + 2 * pad),
    decreases segs.len() - i,
{
    if i < segs.len() {
        let s1 = if i == 0 {
            segs.update(0, (sat_sub(segs[0].0, pad), segs[0].1))
        } else {
            segs
        };
        assert(s1[i].1 - s1[i].0 <= hi + pad);
        let r = pad_step(segs, i, pad, len);
        if i != s1.len() - 1 {
            let silence = sat_sub(s1[i + 1].0, s1[i].1);
            let adj = if silence < 2 * pad {
                silence / 2
            } else {
                pad
            };
            assert(0 <= adj <= pad);
            assert(r[i + 1].1 - r[i + 1].0 <= hi + pad) by {
                assert(s1[i + 1] == segs[i + 1]);
            }
        }
        assert forall|k: int| 0 <= k < r.len() && k < i + 1 implies (#[trigger] r[k]).1 - r[k].0
            <= hi + 2 * pad by {
            if k < i {
                assert(r[k] == segs[k]);
            }
        }
        assert forall|k: int| i + 1 < k < r.len() implies (#[trigger] r[k]).1 - r[k].0 <= hi by {
            assert(r[k] == segs[k]);
        }
        lemma_pad_from_at_most(r, i + 1, pad, len, hi);
    }
}

/// With a maximum of `m` samples, every segment is at most
/// [`max_raw_len`]`(m)` plus two pads long: an over-long segment is split
/// within a window of passing the maximum, and padding adds at most a pad at
/// each end.
pub proof fn lemma_speech_segments_max_speech(
    frames: Seq<Frame>,
    audio_len: int,
    p: TimestampParams,
    m: i128,
)
    requires
        frames.len() == window_count(audio_len),
        audio_len >= 0,
        p.max_speech_samples == Some(m),
    ensures
        all_at_most(
            speech_segments_spec(frames, audio_len, p),
            max_raw_len(m as int) + 2 * ms_to_samples(p.speech_pad_ms),
        ),
{
    let hi = max_raw_len(m as int);
    let pad = ms_to_samples(p.speech_pad_ms);
    lemma_scan_cap_from(initial_scan(), frames, 0, p, m);
    lemma_scan_from_inv(initial_scan(), frames, 0, p);
    lemma_raw_speeches_chain(frames, audio_len, p);
    let s = scan_from(initial_scan(), frames, 0, p);
    let raw = raw_speeches(frames, audio_len, p);
    if frames.len() > 0 {
        assert(audio_len <= 512 * frames.len());
    } else {
        assert(s == initial_scan());
    }
    assert(all_at_most(raw, hi)) by {
        assert forall|k: int| 0 <= k < raw.len() implies (#[trigger] raw[k]).1 - raw[k].0 <= hi by {
            if k < s.speeches.len() {
                assert(raw[k] == s.speeches[k]);
            }
        }
    }
    lemma_pad_from_at_most(raw, 0, pad, audio_len, hi);
    lemma_pad_from_chain(raw, 0, pad, audio_len);
    let padded = pad_from(raw, 0, pad, audio_len);
    lemma_nonempty_ordered(padded, audio_len);
    let out = nonempty(padded);
    assert forall|i: int| 0 <= i < out.len() implies (#[trigger] out[i]).1 - out[i].0 <= hi + 2
        * pad by {
        let k = choose|k: int| 0 <= k < padded.len() && #[trigger] out[i] == padded[k];
        assert(padded[k].1 - padded[k].0 <= hi + 2 * pad);
    }
}

/// A force-split that picks among split candidates closes the segment at the
/// start of a candidate whose silence is the longest (no candidate has a
/// longer one), and restarts the segment where that silence ends when the
/// restart lies before the current window plus the silence's start.
pub proof fn lemma_scan_split_at_longest_silence(s: Scan, cur: int, p: TimestampParams)
    requires
        p.use_max_possible_silence,
        s.possible_ends.len() > 0,
    ensures
        exists|k: int|
            0 <= k < s.possible_ends.len() && scan_split(s, cur, p).speeches == s.speeches.push(
                (s.current_start, (#[trigger] s.possible_ends[k]).0),
            ) && (forall|j: int|
                0 <= j < s.possible_ends.len() ==> (#[trigger] s.possible_ends[j]).1
                    <= s.possible_ends[k].1) && (scan_split(s, cur, p).triggered ==> scan_split(
                s,
                cur,
                p,
            ).current_start == s.possible_ends[k].0 + s.possible_ends[k].1),
{
    lemma_last_max_index_is_max(s.possible_ends);
    let k = last_max_index(s.possible_ends);
    assert(s.possible_ends[k] == s.possible_ends[last_max_index(s.possible_ends)]);
}

/// The start a raw segment `k` gets from padding: moved back by the pad (not
/// below 0), or by half the gap to the previous segment when that gap is
/// shorter than two pads.
spec fn want_start(segs: Seq<(int, int)>, k: int, pad: int) -> int {
    if k > 0 && segs[k].0 - segs[k - 1].1 < 2 * pad {
        segs[k].0 - (segs[k].0 - segs[k - 1].1) / 2
    } else if segs[k].0 >= pad {
        segs[k].0 - pad
    } else {
        0
    }
}

/// The end a raw segment `k` gets from padding: moved forward by the pad (not
/// past `len`), or by half the gap to the next segment when that gap is
/// shorter than two pads.
spec fn want_end(segs: Seq<(int, int)>, k: int, pad: int, len: int) -> int {
    if k + 1 < segs.len() && segs[k + 1].0 - segs[k].1 < 2 * pad {
        segs[k].1 + (segs[k + 1].0 - segs[k].1) / 2
    } else if segs[k].1 + pad <= len {
        segs[k].1 + pad
    } else {
        len
    }
}

proof fn lemma_pad_from_closed(cur: Seq<(int, int)>, raw: Seq<(int, int)>, i: int, pad: int, len: int)
    requires
        chain(raw, len),
        pad >= 0,
        cur.len() == raw.len(),
        0 <= i <= raw.len(),
        forall|k: int| 0 <= k < i ==> #[trigger] cur[k] == (want_start(raw, k, pad), want_end(raw, k, pad, len)),
        i < raw.len() ==> cur[i].1 == raw[i].1,
        0 < i < raw.len() ==> cur[i].0 == want_start(raw, i, pad),
        i == 0 < raw.len() ==> cur[0].0 == raw[0].0,
        forall|k: int| i < k < raw.len() ==> #[trigger] cur[k] == raw[k],
    ensures
        pad_from(cur, i, pad, len).len() == raw.len(),
        forall|k: int|
            0 <= k < raw.len() ==> #[trigger] pad_from(cur, i, pad, len)[k] == (
                want_start(raw, k, pad),
                want_end(raw, k, pad, len),
            ),
    decreases raw.len() - i,
{
    if i < raw.len() {
        let n = raw.len();
        let s1 = if i == 0 {
            cur.update(0, (sat_sub(cur[0].0, pad), cur[0].1))
        } else {
            cur
        };
        assert(s1[i].0 == want_start(raw, i, pad));
        assert(s1[i].1 == raw[i].1);
        let r = pad_step(cur, i, pad, len);
        if i != n - 1 {
            assert(s1[i + 1] == raw[i + 1]);
            assert(raw[i].1 <= raw[i + 1].0 <= len);
        }
        assert(r[i] == (want_start(raw, i, pad), want_end(raw, i, pad, len)));
        assert forall|k: int| 0 <= k < i + 1 implies #[trigger] r[k] == (
            want_start(raw, k, pad),
            want_end(raw, k, pad, len),
        ) by {
            if k < i {
                assert(r[k] == cur[k]);
            }
        }
        assert forall|k: int| i + 1 < k < n implies #[trigger] r[k] == raw[k] by {
            assert(r[k] == cur[k]);
        }
        lemma_pad_from_closed(r, raw, i + 1, pad, len);
    }
}

/// Padding widens both ends of every segment. For raw segments in order and
/// within `[0, len]`, padded segment `k`:
/// - starts a pad earlier (not below 0), unless the gap from the previous
///   segment is shorter than two pads, in which case it starts half that gap
///   earlier;
/// - ends a pad later (not past `len`), unless the gap to the next segment is
///   shorter than two pads, in which case it ends half that gap later.
pub proof fn lemma_padding_widens_both_ends(raw: Seq<(int, int)>, pad: int, len: int)
    requires
        chain(raw, len),
        pad >= 0,
    ensures
        pad_from(raw, 0, pad, len).len() == raw.len(),
        forall|k: int|
            0 <= k < raw.len() ==> {
                let out = #[trigger] pad_from(raw, 0, pad, len)[k];
                &&& (k == 0 || raw[k].0 - raw[k - 1].1 >= 2 * pad) ==> out.0 == (if raw[k].0 >= pad {
                    raw[k].0 - pad
                } else {
                    0
                })
                &&& (k > 0 && raw[k].0 - raw[k - 1].1 < 2 * pad) ==> out.0 == raw[k].0 - (raw[k].0
                    - raw[k - 1].1) / 2
                &&& (k == raw.len() - 1 || raw[k + 1].0 - raw[k].1 >= 2 * pad) ==> out.1 == (if raw[k].1
                    + pad <= len {
                    raw[k].1 + pad
                } else {
                    len
                })
                &&& (k < raw.len() - 1 && raw[k + 1].0 - raw[k].1 < 2 * pad) ==> out.1 == raw[k].1 + (
                raw[k + 1].0 - raw[k].1) / 2
            },
{
    lemma_pad_from_closed(raw, raw, 0, pad, len);
}

} // verus!
