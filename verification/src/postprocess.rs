//! File-level post-processing of the streaming detector: turns the per-window
//! speech decisions of a whole recording into padded speech segments
//! (onset/offset hysteresis, min-speech filtering, max-segment splitting and
//! speech padding), as the detector's `predict_wav` does.
//!
//! Positions are sample indices of the 16 kHz audio; the caller divides them by
//! the sample rate to get seconds.
use vstd::prelude::*;
use crate::timestamps::{
    Frame, all_at_most, all_longer, chain, fits_in_memory, last_max, last_max_index,
    lemma_chain_push, lemma_last_max_index_in_range, lemma_last_max_index_is_max, lemma_pairs_empty, lemma_pairs_push, max_raw_len,
    ordered_segments, pairs, window_count,
};

verus! {

/// Integer parameters of the post-processing (durations in ms at 16 kHz).
#[derive(Clone, Copy, Debug)]
pub struct SegmentConfig {
    /// Segments not longer than this are discarded.
    pub min_speech_duration_ms: u32,
    /// Silence required to close a segment.
    pub min_silence_duration_ms: u32,
    /// Padding added to the start and end of every segment.
    pub speech_pad_ms: u32,
    /// Silence that makes a split candidate when a segment reaches the maximum.
    pub min_silence_at_max_speech_ms: u32,
    /// A segment of `d` samples is over the maximum iff `d > max_speech_samples`;
    /// `None` means no maximum.
    pub max_speech_samples: Option<i64>,
}

pub open spec fn samples(ms: u32) -> int {
    16 * ms
}

pub open spec fn over_max(d: int, max: Option<i64>) -> bool {
    match max {
        Some(m) => d > m,
        None => false,
    }
}

/// The state of the scan between two windows.
pub struct VadScan {
    pub triggered: bool,
    pub current_start: int,
    pub temp_end: int,
    pub temp_end_set: bool,
    pub prev_end: int,
    pub next_start: int,
    pub possible_ends: Seq<(int, int)>,
    pub speeches: Seq<(int, int)>,
}

pub open spec fn initial_vad_scan() -> VadScan {
    VadScan {
        triggered: false,
        current_start: 0,
        temp_end: 0,
        temp_end_set: false,
        prev_end: 0,
        next_start: 0,
        possible_ends: Seq::empty(),
        speeches: Seq::empty(),
    }
}

/// Forgets the pending silence, the split candidates and the carried positions.
pub open spec fn vad_cleared(s: VadScan) -> VadScan {
    VadScan {
        temp_end_set: false,
        prev_end: 0,
        next_start: 0,
        possible_ends: Seq::empty(),
        ..s
    }
}

pub open spec fn vad_resume(s: VadScan, cur: int, f: Frame, c: SegmentConfig) -> VadScan {
    if f.speech && s.temp_end_set {
        let sil = cur - s.temp_end;
        VadScan {
            possible_ends: if sil > samples(c.min_silence_at_max_speech_ms) {
                s.possible_ends.push((s.temp_end, sil))
            } else {
                s.possible_ends
            },
            temp_end_set: false,
            next_start: if s.next_start < s.prev_end {
                cur
            } else {
                s.next_start
            },
            ..s
        }
    } else {
        s
    }
}

pub open spec fn vad_split(s: VadScan, cur: int) -> VadScan {
    if s.possible_ends.len() > 0 {
        let best = s.possible_ends[last_max_index(s.possible_ends)];
        let ns = best.0 + best.1;
        let again = ns < best.0 + cur;
        vad_cleared(
            VadScan {
                speeches: s.speeches.push((s.current_start, best.0)),
                current_start: if again {
                    ns
                } else {
                    s.current_start
                },
                triggered: again,
                ..s
            },
        )
    } else if s.prev_end != 0 {
        let stop = s.next_start < s.prev_end;
        vad_cleared(
            VadScan {
                speeches: s.speeches.push((s.current_start, s.prev_end)),
                triggered: !stop,
                current_start: if stop {
                    s.current_start
                } else {
                    s.next_start
                },
                ..s
            },
        )
    } else {
        vad_cleared(
            VadScan {
                speeches: s.speeches.push((s.current_start, cur)),
                triggered: false,
                ..s
            },
        )
    }
}

pub open spec fn vad_offset(s: VadScan, cur: int, c: SegmentConfig) -> VadScan {
    let te = if s.temp_end_set {
        s.temp_end
    } else {
        cur
    };
    let sil = cur - te;
    let pe = if sil > samples(c.min_silence_at_max_speech_ms) {
        te
    } else {
        s.prev_end
    };
    if sil < samples(c.min_silence_duration_ms) {
        VadScan { temp_end: te, temp_end_set: true, prev_end: pe, ..s }
    } else {
        vad_cleared(
            VadScan {
                temp_end: te,
                triggered: false,
                speeches: if te - s.current_start > samples(c.min_speech_duration_ms) {
                    s.speeches.push((s.current_start, te))
                } else {
                    s.speeches
                },
                ..s
            },
        )
    }
}

pub open spec fn vad_step(s: VadScan, cur: int, f: Frame, c: SegmentConfig) -> VadScan {
    let s1 = vad_resume(s, cur, f, c);
    if f.speech && !s1.triggered {
        VadScan { triggered: true, current_start: cur, ..s1 }
    } else if s1.triggered && over_max(cur - s1.current_start, c.max_speech_samples) {
        vad_split(s1, cur)
    } else if f.silence && s1.triggered {
        vad_offset(s1, cur, c)
    } else {
        s1
    }
}

pub open spec fn vad_scan_from(s: VadScan, frames: Seq<Frame>, i: int, c: SegmentConfig) -> VadScan
    decreases frames.len() - i,
{
    if i < 0 || i >= frames.len() {
        s
    } else {
        vad_scan_from(vad_step(s, 512 * i, frames[i], c), frames, i + 1, c)
    }
}

/// Segments closed by the scan, plus the one still open at the end of the audio.
pub open spec fn vad_raw(frames: Seq<Frame>, audio_len: int, c: SegmentConfig) -> Seq<(int, int)> {
    let s = vad_scan_from(initial_vad_scan(), frames, 0, c);
    if s.triggered && audio_len - s.current_start > samples(c.min_speech_duration_ms) {
        s.speeches.push((s.current_start, audio_len))
    } else {
        s.speeches
    }
}

/// Segment `i` once padded: its start moved back by the pad (not below 0),
/// or by half the gap to the previous segment when that gap is shorter than
/// two pads; its end moved forward by the pad (not past the audio), or by half
/// the gap to the next segment when that gap is shorter than two pads.
pub open spec fn padded(segs: Seq<(int, int)>, i: int, pad: int, len: int) -> (int, int) {
    let start = if i > 0 && segs[i].0 - segs[i - 1].1 < 2 * pad {
        segs[i].0 - (segs[i].0 - segs[i - 1].1) / 2
    } else if segs[i].0 - pad >= 0 {
        segs[i].0 - pad
    } else {
        0
    };
    let end = if i + 1 < segs.len() && segs[i + 1].0 - segs[i].1 < 2 * pad {
        segs[i].1 + (segs[i + 1].0 - segs[i].1) / 2
    } else if segs[i].1 + pad <= len {
        segs[i].1 + pad
    } else {
        len
    };
    (start, end)
}

/// The padded segments, in sample positions.
pub open spec fn apply_vad_config_spec(frames: Seq<Frame>, audio_len: int, c: SegmentConfig) -> Seq<
    (int, int),
> {
    let raw = vad_raw(frames, audio_len, c);
    Seq::new(raw.len(), |i: int| padded(raw, i, samples(c.speech_pad_ms), audio_len))
}

pub open spec fn vad_bounded(s: VadScan, bound: int) -> bool {
    &&& 0 <= s.current_start <= bound
    &&& 0 <= s.temp_end <= bound
    &&& 0 <= s.prev_end <= bound
    &&& 0 <= s.next_start <= bound
    &&& forall|k: int|
        0 <= k < s.possible_ends.len() ==> 0 <= (#[trigger] s.possible_ends[k]).0 && 0
            <= s.possible_ends[k].1 && s.possible_ends[k].0 + s.possible_ends[k].1 <= bound
    &&& forall|k: int|
        0 <= k < s.speeches.len() ==> 0 <= (#[trigger] s.speeches[k]).0 <= bound && 0
            <= s.speeches[k].1 <= bound
}

/// What holds of every state the scan reaches, `bound` being the last position seen.
pub open spec fn vad_inv(s: VadScan, bound: int) -> bool {
    &&& vad_bounded(s, bound)
    &&& chain(s.speeches, bound)
    &&& forall|k: int| 0 <= k < s.speeches.len() ==> (#[trigger] s.speeches[k]).0 < s.speeches[k].1
    &&& !s.triggered ==> !s.temp_end_set && s.prev_end == 0 && s.possible_ends.len() == 0
    &&& s.triggered ==> {
        &&& forall|k: int|
            0 <= k < s.speeches.len() ==> (#[trigger] s.speeches[k]).1 <= s.current_start
        &&& s.temp_end_set ==> s.current_start < s.temp_end
        &&& s.prev_end != 0 ==> s.current_start < s.prev_end
        &&& forall|k: int|
            0 <= k < s.possible_ends.len() ==> s.current_start < (#[trigger] s.possible_ends[k]).0
    }
}

proof fn lemma_vad_inv_step(s: VadScan, cur: int, f: Frame, c: SegmentConfig, bound: int)
    requires
        vad_inv(s, bound),
        0 <= bound <= cur,
        s.triggered ==> bound < cur,
    ensures
        vad_inv(vad_step(s, cur, f, c), cur),
{
    let s1 = vad_resume(s, cur, f, c);
    assert(vad_inv(s1, cur)) by {
        if f.speech && s.temp_end_set {
            assert forall|k: int| 0 <= k < s1.possible_ends.len() implies s1.current_start < (
            #[trigger] s1.possible_ends[k]).0 by {
                if k < s.possible_ends.len() {
                    assert(s1.possible_ends[k] == s.possible_ends[k]);
                }
            }
            assert forall|k: int| 0 <= k < s1.possible_ends.len() implies 0 <= (
            #[trigger] s1.possible_ends[k]).0 && 0 <= s1.possible_ends[k].1
                && s1.possible_ends[k].0 + s1.possible_ends[k].1 <= cur by {
                if k < s.possible_ends.len() {
                    assert(s1.possible_ends[k] == s.possible_ends[k]);
                }
            }
        }
    }
    if f.speech && !s1.triggered {
    } else if s1.triggered && over_max(cur - s1.current_start, c.max_speech_samples) {
        let r = vad_split(s1, cur);
        if s1.possible_ends.len() > 0 {
            lemma_last_max_index_in_range(s1.possible_ends);
            let best = s1.possible_ends[last_max_index(s1.possible_ends)];
            lemma_chain_push(s1.speeches, (s1.current_start, best.0), cur);
            assert forall|k: int| 0 <= k < r.speeches.len() implies (
            #[trigger] r.speeches[k]).1 <= best.0 + best.1 by {
                if k < s1.speeches.len() {
                    assert(r.speeches[k] == s1.speeches[k]);
                }
            }
        } else if s1.prev_end != 0 {
            lemma_chain_push(s1.speeches, (s1.current_start, s1.prev_end), cur);
            assert forall|k: int| 0 <= k < r.speeches.len() implies (
            #[trigger] r.speeches[k]).1 <= s1.prev_end by {
                if k < s1.speeches.len() {
                    assert(r.speeches[k] == s1.speeches[k]);
                }
            }
        } else {
            lemma_chain_push(s1.speeches, (s1.current_start, cur), cur);
        }
    } else if f.silence && s1.triggered {
        let r = vad_offset(s1, cur, c);
        let te = if s1.temp_end_set {
            s1.temp_end
        } else {
            cur
        };
        if r.speeches.len() > s1.speeches.len() {
            lemma_chain_push(s1.speeches, (s1.current_start, te), cur);
        }
    }
}

proof fn lemma_vad_scan_from_inv(s: VadScan, frames: Seq<Frame>, i: int, c: SegmentConfig)
    requires
        0 <= i <= frames.len(),
        i == 0 ==> s == initial_vad_scan(),
        i > 0 ==> vad_inv(s, 512 * (i - 1)),
    ensures
        frames.len() > 0 ==> vad_inv(vad_scan_from(s, frames, i, c), 512 * (frames.len() - 1)),
        frames.len() == 0 ==> vad_scan_from(s, frames, i, c) == initial_vad_scan(),
    decreases frames.len() - i,
{
    if i < frames.len() {
        let bound = if i == 0 {
            0
        } else {
            512 * (i - 1)
        };
        if i == 0 {
            assert(chain(s.speeches, 0));
            assert(vad_inv(s, 0));
        }
        lemma_vad_inv_step(s, 512 * i, frames[i], c, bound);
        lemma_vad_scan_from_inv(vad_step(s, 512 * i, frames[i], c), frames, i + 1, c);
    }
}

proof fn lemma_vad_raw_chain(frames: Seq<Frame>, audio_len: int, c: SegmentConfig)
    requires
        frames.len() == window_count(audio_len),
        audio_len >= 0,
    ensures
        chain(vad_raw(frames, audio_len, c), audio_len),
        forall|k: int|
            0 <= k < vad_raw(frames, audio_len, c).len() ==> (#[trigger] vad_raw(
                frames,
                audio_len,
                c,
            )[k]).0 < vad_raw(frames, audio_len, c)[k].1,
{
    lemma_vad_scan_from_inv(initial_vad_scan(), frames, 0, c);
    let s = vad_scan_from(initial_vad_scan(), frames, 0, c);
    if frames.len() > 0 {
        assert(512 * (frames.len() - 1) < audio_len);
        assert(chain(s.speeches, audio_len));
        if s.triggered && audio_len - s.current_start > samples(c.min_speech_duration_ms) {
            lemma_chain_push(s.speeches, (s.current_start, audio_len), audio_len);
        }
    } else {
        assert(chain(s.speeches, audio_len));
    }
}

/// The padded segments are non-empty, lie within the audio, and come in order
/// without overlapping: a gap shorter than two pads is split evenly between the
/// two segments around it.
pub proof fn lemma_apply_vad_config_ordered(frames: Seq<Frame>, audio_len: int, c: SegmentConfig)
    requires
        frames.len() == window_count(audio_len),
        audio_len >= 0,
    ensures
        ordered_segments(apply_vad_config_spec(frames, audio_len, c), audio_len),
{
    lemma_vad_raw_chain(frames, audio_len, c);
    let raw = vad_raw(frames, audio_len, c);
    let pad = samples(c.speech_pad_ms);
    let out = apply_vad_config_spec(frames, audio_len, c);
    assert forall|i: int| 0 <= i < out.len() implies 0 <= (#[trigger] out[i]).0 < out[i].1
        <= audio_len && out[i].0 <= raw[i].0 && raw[i].1 <= out[i].1 && (i > 0 ==> raw[i - 1].1
        <= out[i].0) && (i + 1 < raw.len() ==> out[i].1 <= raw[i + 1].0) by {
        assert(out[i] == padded(raw, i, pad, audio_len));
        assert(raw[i].0 < raw[i].1 <= audio_len);
        if i > 0 {
            assert(raw[i - 1].1 <= raw[i].0);
        }
        if i + 1 < raw.len() {
            assert(raw[i].1 <= raw[i + 1].0);
            assert(raw[i + 1].0 <= audio_len);
        }
    }
    assert forall|i: int, j: int| 0 <= i < j < out.len() implies (#[trigger] out[i]).1 <= (
    #[trigger] out[j]).0 by {
        assert(out[i] == padded(raw, i, pad, audio_len));
        assert(out[j] == padded(raw, j, pad, audio_len));
        assert(raw[i].1 <= raw[i + 1].0);
        if j == i + 1 {
        } else {
            assert(raw[i + 1].0 < raw[i + 1].1);
            assert(raw[i + 1].1 <= raw[j - 1].1) by {
                if i + 1 < j - 1 {
                    assert(raw[i + 1].1 <= raw[j - 1].0);
                    assert(raw[j - 1].0 < raw[j - 1].1);
                }
            }
            assert(raw[j - 1].1 <= out[j].0);
        }
    }
}


proof fn lemma_vad_long_step(s: VadScan, cur: int, f: Frame, c: SegmentConfig)
    requires
        c.max_speech_samples is None,
        all_longer(s.speeches, samples(c.min_speech_duration_ms)),
    ensures
        all_longer(vad_step(s, cur, f, c).speeches, samples(c.min_speech_duration_ms)),
{
    let s1 = vad_resume(s, cur, f, c);
    let r = vad_step(s, cur, f, c);
    assert(s1.speeches == s.speeches);
    assert(!over_max(cur - s1.current_start, c.max_speech_samples));
    if !(f.speech && !s1.triggered) && f.silence && s1.triggered {
        assert forall|k: int| 0 <= k < r.speeches.len() implies (#[trigger] r.speeches[k]).1
            - r.speeches[k].0 > samples(c.min_speech_duration_ms) by {
            if k < s1.speeches.len() {
                assert(r.speeches[k] == s1.speeches[k]);
            }
        }
    }
}

proof fn lemma_vad_long_from(s: VadScan, frames: Seq<Frame>, i: int, c: SegmentConfig)
    requires
        0 <= i,
        c.max_speech_samples is None,
        all_longer(s.speeches, samples(c.min_speech_duration_ms)),
    ensures
        all_longer(vad_scan_from(s, frames, i, c).speeches, samples(c.min_speech_duration_ms)),
    decreases frames.len() - i,
{
    if i < frames.len() {
        lemma_vad_long_step(s, 512 * i, frames[i], c);
        lemma_vad_long_from(vad_step(s, 512 * i, frames[i], c), frames, i + 1, c);
    }
}

/// With no maximum duration, every padded segment is longer than the minimum
/// speech duration: shorter segments are discarded, and padding only widens.
pub proof fn lemma_apply_vad_config_min_speech(frames: Seq<Frame>, audio_len: int, c: SegmentConfig)
    requires
        frames.len() == window_count(audio_len),
        audio_len >= 0,
        c.max_speech_samples is None,
    ensures
        all_longer(apply_vad_config_spec(frames, audio_len, c), samples(c.min_speech_duration_ms)),
{
    let lo = samples(c.min_speech_duration_ms);
    let pad = samples(c.speech_pad_ms);
    lemma_vad_long_from(initial_vad_scan(), frames, 0, c);
    lemma_vad_raw_chain(frames, audio_len, c);
    let s = vad_scan_from(initial_vad_scan(), frames, 0, c);
    let raw = vad_raw(frames, audio_len, c);
    assert(all_longer(raw, lo)) by {
        assert forall|k: int| 0 <= k < raw.len() implies (#[trigger] raw[k]).1 - raw[k].0 > lo by {
            if k < s.speeches.len() {
                assert(raw[k] == s.speeches[k]);
            }
        }
    }
    let out = apply_vad_config_spec(frames, audio_len, c);
    assert forall|i: int| 0 <= i < out.len() implies (#[trigger] out[i]).1 - out[i].0 > lo by {
        assert(out[i] == padded(raw, i, pad, audio_len));
        assert(raw[i].1 - raw[i].0 > lo);
        assert(raw[i].1 <= audio_len);
        if i + 1 < raw.len() {
            assert(raw[i].1 <= raw[i + 1].0);
        }
    }
}

/// With a maximum of `m` samples, `bound` being the last position seen: the
/// open segment is at most the maximum long so far, a carried restart point
/// lies at least one window after its start, every split candidate ends at
/// least one window after its silence began, and every closed segment is at
/// most [`max_raw_len`] long.
pub open spec fn vad_cap_inv(s: VadScan, bound: int, m: i64) -> bool {
    &&& s.triggered ==> bound - s.current_start <= max_raw_len(m as int) - 512
    &&& s.triggered ==> s.next_start == 0 || s.next_start >= s.current_start + 512
    &&& !s.triggered ==> s.next_start == 0
    &&& forall|k: int| 0 <= k < s.possible_ends.len() ==> (#[trigger] s.possible_ends[k]).1 >= 512
    &&& all_at_most(s.speeches, max_raw_len(m as int))
}

proof fn lemma_vad_cap_step(s: VadScan, cur: int, f: Frame, c: SegmentConfig, bound: int, m: i64)
    requires
        c.max_speech_samples == Some(m),
        vad_inv(s, bound),
        vad_cap_inv(s, bound, m),
        0 <= bound <= cur,
        s.triggered ==> cur == bound + 512,
    ensures
        vad_cap_inv(vad_step(s, cur, f, c), cur, m),
{
    let hi = max_raw_len(m as int);
    let s1 = vad_resume(s, cur, f, c);
    assert(s1.speeches == s.speeches && s1.triggered == s.triggered && s1.current_start
        == s.current_start && s1.prev_end == s.prev_end);
    assert(vad_cap_inv(s1, bound, m) && (s1.triggered ==> forall|k: int|
        0 <= k < s1.possible_ends.len() ==> s1.current_start <= (#[trigger] s1.possible_ends[k]).0
            && s1.possible_ends[k].0 + s1.possible_ends[k].1 <= cur)) by {
        if f.speech && s.temp_end_set {
            assert forall|k: int| 0 <= k < s1.possible_ends.len() implies (
            #[trigger] s1.possible_ends[k]).1 >= 512 && s1.current_start <= s1.possible_ends[k].0
                && s1.possible_ends[k].0 + s1.possible_ends[k].1 <= cur by {
                if k < s.possible_ends.len() {
                    assert(s1.possible_ends[k] == s.possible_ends[k]);
                }
            }
        }
    }
    if f.speech && !s1.triggered {
    } else if s1.triggered && over_max(cur - s1.current_start, c.max_speech_samples) {
        let r = vad_split(s1, cur);
        if s1.possible_ends.len() > 0 {
            lemma_last_max_index_in_range(s1.possible_ends);
            let best = s1.possible_ends[last_max_index(s1.possible_ends)];
            assert(best.0 - s1.current_start <= hi);
            assert forall|k: int| 0 <= k < r.speeches.len() implies (#[trigger] r.speeches[k]).1
                - r.speeches[k].0 <= hi by {
                if k < s1.speeches.len() {
                    assert(r.speeches[k] == s1.speeches[k]);
                }
            }
        } else if s1.prev_end != 0 {
            assert forall|k: int| 0 <= k < r.speeches.len() implies (#[trigger] r.speeches[k]).1
                - r.speeches[k].0 <= hi by {
                if k < s1.speeches.len() {
                    assert(r.speeches[k] == s1.speeches[k]);
                }
            }
        } else {
            assert forall|k: int| 0 <= k < r.speeches.len() implies (#[trigger] r.speeches[k]).1
                - r.speeches[k].0 <= hi by {
                if k < s1.speeches.len() {
                    assert(r.speeches[k] == s1.speeches[k]);
                }
            }
        }
    } else if f.silence && s1.triggered {
        let r = vad_offset(s1, cur, c);
        assert forall|k: int| 0 <= k < r.speeches.len() implies (#[trigger] r.speeches[k]).1
            - r.speeches[k].0 <= hi by {
            if k < s1.speeches.len() {
                assert(r.speeches[k] == s1.speeches[k]);
            }
        }
    }
}

proof fn lemma_vad_cap_from(s: VadScan, frames: Seq<Frame>, i: int, c: SegmentConfig, m: i64)
    requires
        0 <= i <= frames.len(),
        c.max_speech_samples == Some(m),
        i == 0 ==> s == initial_vad_scan(),
        i > 0 ==> vad_inv(s, 512 * (i - 1)) && vad_cap_inv(s, 512 * (i - 1), m),
    ensures
        frames.len() > 0 ==> vad_cap_inv(
            vad_scan_from(s, frames, i, c),
            512 * (frames.len() - 1),
            m,
        ),
    decreases frames.len() - i,
{
    if i < frames.len() {
        let bound = if i == 0 {
            0
        } else {
            512 * (i - 1)
        };
        if i == 0 {
            assert(chain(s.speeches, 0));
            assert(vad_inv(s, 0));
            assert(vad_cap_inv(s, 0, m));
        }
        lemma_vad_inv_step(s, 512 * i, frames[i], c, bound);
        lemma_vad_cap_step(s, 512 * i, frames[i], c, bound, m);
        lemma_vad_cap_from(vad_step(s, 512 * i, frames[i], c), frames, i + 1, c, m);
    }
}

/// With a maximum of `m` samples, every padded segment is at most
/// [`max_raw_len`]`(m)` plus two pads long: an over-long segment is split
/// within a window of passing the maximum, and padding adds at most a pad at
/// each end.
pub proof fn lemma_apply_vad_config_max_speech(
    frames: Seq<Frame>,
    audio_len: int,
    c: SegmentConfig,
    m: i64,
)
    requires
        frames.len() == window_count(audio_len),
        audio_len >= 0,
        c.max_speech_samples == Some(m),
    ensures
        all_at_most(
            apply_vad_config_spec(frames, audio_len, c),
            max_raw_len(m as int) + 2 * samples(c.speech_pad_ms),
        ),
{
    let hi = max_raw_len(m as int);
    let pad = samples(c.speech_pad_ms);
    lemma_vad_cap_from(initial_vad_scan(), frames, 0, c, m);
    lemma_vad_scan_from_inv(initial_vad_scan(), frames, 0, c);
    lemma_vad_raw_chain(frames, audio_len, c);
    let s = vad_scan_from(initial_vad_scan(), frames, 0, c);
    let raw = vad_raw(frames, audio_len, c);
    if frames.len() > 0 {
        assert(audio_len <= 512 * frames.len());
    } else {
        assert(s == initial_vad_scan());
    }
    assert(all_at_most(raw, hi)) by {
        assert forall|k: int| 0 <= k < raw.len() implies (#[trigger] raw[k]).1 - raw[k].0 <= hi by {
            if k < s.speeches.len() {
                assert(raw[k] == s.speeches[k]);
            }
        }
    }
    let out = apply_vad_config_spec(frames, audio_len, c);
    assert forall|i: int| 0 <= i < out.len() implies (#[trigger] out[i]).1 - out[i].0 <= hi + 2
        * pad by {
        assert(out[i] == padded(raw, i, pad, audio_len));
        assert(raw[i].1 - raw[i].0 <= hi);
        if i + 1 < raw.len() {
            assert(raw[i].1 <= raw[i + 1].0);
        }
    }
}

/// A force-split with split candidates closes the segment at the start of a
/// candidate whose silence is the longest (no candidate has a longer one), and
/// when the segment goes on it restarts where that silence ends.
pub proof fn lemma_split_at_longest_silence(s: VadScan, cur: int)
    requires
        s.possible_ends.len() > 0,
    ensures
        exists|k: int|
            0 <= k < s.possible_ends.len() && vad_split(s, cur).speeches == s.speeches.push(
                (s.current_start, (#[trigger] s.possible_ends[k]).0),
            ) && (forall|j: int|
                0 <= j < s.possible_ends.len() ==> (#[trigger] s.possible_ends[j]).1
                    <= s.possible_ends[k].1) && (vad_split(s, cur).triggered ==> vad_split(
                s,
                cur,
            ).current_start == s.possible_ends[k].0 + s.possible_ends[k].1),
{
    lemma_last_max_index_is_max(s.possible_ends);
    let k = last_max_index(s.possible_ends);
    assert(s.possible_ends[k] == s.possible_ends[last_max_index(s.possible_ends)]);
}

/// Padding widens both ends of every segment the scan found. Padded segment
/// `k` of the result:
/// - starts a pad before its raw start (not below 0), unless the gap from the
///   previous raw segment is shorter than two pads, in which case it starts
///   half that gap earlier;
/// - ends a pad after its raw end (not past the audio), unless the gap to the
///   next raw segment is shorter than two pads, in which case it ends half
///   that gap later.
pub proof fn lemma_padding_widens_both_ends(frames: Seq<Frame>, audio_len: int, c: SegmentConfig)
    requires
        frames.len() == window_count(audio_len),
        audio_len >= 0,
    ensures
        ({
            let raw = vad_raw(frames, audio_len, c);
            let out = apply_vad_config_spec(frames, audio_len, c);
            let pad = samples(c.speech_pad_ms);
            &&& out.len() == raw.len()
            &&& forall|k: int|
                0 <= k < raw.len() ==> {
                    &&& (k == 0 || raw[k].0 - raw[k - 1].1 >= 2 * pad) ==> (#[trigger] out[k]).0 == (
                    if raw[k].0 >= pad {
                        raw[k].0 - pad
                    } else {
                        0
                    })
                    &&& (k > 0 && raw[k].0 - raw[k - 1].1 < 2 * pad) ==> out[k].0 == raw[k].0 - (
                    raw[k].0 - raw[k - 1].1) / 2
                    &&& (k == raw.len() - 1 || raw[k + 1].0 - raw[k].1 >= 2 * pad) ==> out[k].1 == (
                    if raw[k].1 + pad <= audio_len {
                        raw[k].1 + pad
                    } else {
                        audio_len
                    })
                    &&& (k < raw.len() - 1 && raw[k + 1].0 - raw[k].1 < 2 * pad) ==> out[k].1
                        == raw[k].1 + (raw[k + 1].0 - raw[k].1) / 2
                }
        }),
{
    let raw = vad_raw(frames, audio_len, c);
    let out = apply_vad_config_spec(frames, audio_len, c);
    let pad = samples(c.speech_pad_ms);
    assert forall|k: int| 0 <= k < raw.len() implies #[trigger] out[k] == padded(
        raw,
        k,
        pad,
        audio_len,
    ) by {}
}

/// The executable scan state; its view is a [`VadScan`].
pub struct VadScanState {
    triggered: bool,
    current_start: usize,
    temp_end: usize,
    temp_end_set: bool,
    prev_end: usize,
    next_start: usize,
    possible_ends: Vec<(usize, usize)>,
    speeches: Vec<(usize, usize)>,
}

impl View for VadScanState {
    type V = VadScan;

    closed spec fn view(&self) -> VadScan {
        VadScan {
            triggered: self.triggered,
            current_start: self.current_start as int,
            temp_end: self.temp_end as int,
            temp_end_set: self.temp_end_set,
            prev_end: self.prev_end as int,
            next_start: self.next_start as int,
            possible_ends: pairs(self.possible_ends@),
            speeches: pairs(self.speeches@),
        }
    }
}

impl VadScanState {
    fn new() -> (s: VadScanState)
        ensures
            s@ == initial_vad_scan(),
    {
        let s = VadScanState {
            triggered: false,
            current_start: 0,
            temp_end: 0,
            temp_end_set: false,
            prev_end: 0,
            next_start: 0,
            possible_ends: Vec::new(),
            speeches: Vec::new(),
        };
        proof {
            lemma_pairs_empty();
        }
        s
    }

    fn clear(&mut self)
        ensures
            final(self)@ == vad_cleared(old(self)@),
    {
        self.temp_end_set = false;
        self.prev_end = 0;
        self.next_start = 0;
        self.possible_ends = Vec::new();
        proof {
            lemma_pairs_empty();
        }
    }

    fn push_speech(&mut self, seg: (usize, usize))
        ensures
            final(self)@ == (VadScan {
                speeches: old(self)@.speeches.push((seg.0 as int, seg.1 as int)),
                ..old(self)@
            }),
    {
        proof {
            lemma_pairs_push(self.speeches@, seg);
        }
        self.speeches.push(seg);
    }

    fn step(&mut self, cur: usize, f: Frame, c: &SegmentConfig)
        requires
            vad_bounded(old(self)@, cur as int),
            cur <= usize::MAX / 2,
        ensures
            final(self)@ == vad_step(old(self)@, cur as int, f, *c),
    {
        // speech resumes while a silence is pending
        if f.speech && self.temp_end_set {
            let sil = cur - self.temp_end;
            if (sil as u64) > 16 * (c.min_silence_at_max_speech_ms as u64) {
                proof {
                    lemma_pairs_push(self.possible_ends@, (self.temp_end, sil));
                }
                self.possible_ends.push((self.temp_end, sil));
            }
            self.temp_end_set = false;
            if self.next_start < self.prev_end {
                self.next_start = cur;
            }
        }
        // onset
        if f.speech && !self.triggered {
            self.triggered = true;
            self.current_start = cur;
            return ;
        }
        let over = match c.max_speech_samples {
            Some(m) => (cur as i128) - (self.current_start as i128) > (m as i128),
            None => false,
        };
        if self.triggered && over {
            // force-split
            if self.possible_ends.len() > 0 {
                proof {
                    lemma_last_max_index_in_range(pairs(self.possible_ends@));
                }
                let best = last_max(&self.possible_ends);
                let start = self.current_start;
                self.push_speech((start, best.0));
                let ns = best.0 + best.1;
                if ns < best.0 + cur {
                    self.current_start = ns;
                    self.triggered = true;
                } else {
                    self.triggered = false;
                }
                self.clear();
            } else if self.prev_end != 0 {
                let start = self.current_start;
                let end = self.prev_end;
                self.push_speech((start, end));
                if self.next_start < self.prev_end {
                    self.triggered = false;
                } else {
                    self.current_start = self.next_start;
                }
                self.clear();
            } else {
                let start = self.current_start;
                self.push_speech((start, cur));
                self.triggered = false;
                self.clear();
            }
            return ;
        }
        // offset
        if f.silence && self.triggered {
            if !self.temp_end_set {
                self.temp_end = cur;
                self.temp_end_set = true;
            }
            let sil = cur - self.temp_end;
            if (sil as u64) > 16 * (c.min_silence_at_max_speech_ms as u64) {
                self.prev_end = self.temp_end;
            }
            if (sil as u64) < 16 * (c.min_silence_duration_ms as u64) {
                return ;
            }
            if (self.temp_end as i128) - (self.current_start as i128) > 16 * (
            c.min_speech_duration_ms as i128) {
                let start = self.current_start;
                let end = self.temp_end;
                self.push_speech((start, end));
            }
            self.triggered = false;
            self.clear();
        }
    }
}

/// Post-processes the per-window decisions `frames` of audio of `audio_len`
/// samples into padded speech segments `(start, end)`, in samples.
pub fn apply_vad_config(frames: &[Frame], audio_len: usize, c: &SegmentConfig) -> (r: Vec<
    (usize, usize),
>)
    requires
        frames.len() == window_count(audio_len as int),
        fits_in_memory(audio_len as int),
    ensures
        pairs(r@) == apply_vad_config_spec(frames@, audio_len as int, *c),
        ordered_segments(pairs(r@), audio_len as int),
        c.max_speech_samples is None ==> all_longer(
            pairs(r@),
            samples(c.min_speech_duration_ms),
        ),
        c.max_speech_samples matches Some(m) ==> all_at_most(
            pairs(r@),
            max_raw_len(m as int) + 2 * samples(c.speech_pad_ms),
        ),
{
    proof {
        lemma_apply_vad_config_ordered(frames@, audio_len as int, *c);
        match c.max_speech_samples {
            Some(m) => lemma_apply_vad_config_max_speech(frames@, audio_len as int, *c, m),
            None => lemma_apply_vad_config_min_speech(frames@, audio_len as int, *c),
        }
    }
    let mut st = VadScanState::new();
    let n = frames.len();
    let mut i: usize = 0;
    while i < n
        invariant
            n == frames.len(),
            n == window_count(audio_len as int),
            fits_in_memory(audio_len as int),
            0 <= i <= n,
            vad_scan_from(st@, frames@, i as int, *c) == vad_scan_from(
                initial_vad_scan(),
                frames@,
                0,
                *c,
            ),
            i == 0 ==> st@ == initial_vad_scan(),
            i > 0 ==> vad_inv(st@, 512 * (i - 1)),
        decreases n - i,
    {
        let cur = 512 * i;
        proof {
            if i == 0 {
                assert(chain(st@.speeches, 0));
                assert(vad_inv(st@, 0));
            }
            lemma_vad_inv_step(st@, cur as int, frames@[i as int], *c, if i == 0 {
                0
            } else {
                512 * (i - 1)
            });
        }
        st.step(cur, frames[i], c);
        i = i + 1;
    }
    proof {
        lemma_vad_raw_chain(frames@, audio_len as int, *c);
        lemma_vad_scan_from_inv(initial_vad_scan(), frames@, 0, *c);
        if n > 0 {
            assert(512 * (n - 1) < audio_len);
        }
    }
    if st.triggered && (audio_len as i128) - (st.current_start as i128) > 16 * (
    c.min_speech_duration_ms as i128) {
        let start = st.current_start;
        st.push_speech((start, audio_len));
    }
    let raw = st.speeches;
    let ghost graw = pairs(raw@);
    assert(graw == vad_raw(frames@, audio_len as int, *c));
    assert(chain(graw, audio_len as int));
    let pad = 16 * (c.speech_pad_ms as u128);
    let mut out: Vec<(usize, usize)> = Vec::new();
    let mut k: usize = 0;
    proof {
        lemma_pairs_empty();
    }
    while k < raw.len()
        invariant
            0 <= k <= raw.len(),
            graw == pairs(raw@),
            chain(graw, audio_len as int),
            pad == 16 * c.speech_pad_ms,
            fits_in_memory(audio_len as int),
            pairs(out@) == Seq::new(
                k as nat,
                |j: int| padded(graw, j, 16 * c.speech_pad_ms, audio_len as int),
            ),
        decreases raw.len() - k,
    {
        let (s, e) = raw[k];
        assert(graw[k as int] == (s as int, e as int));
        let near = if k > 0 {
            assert(graw[k - 1].1 <= graw[k as int].0);
            assert(graw[k - 1] == (raw[k as int - 1].0 as int, raw[k as int - 1].1 as int));
            ((s - raw[k - 1].1) as u128) < 2 * pad
        } else {
            false
        };
        let start = if near {
            s - (s - raw[k - 1].1) / 2
        } else if (s as u128) >= pad {
            s - (pad as usize)
        } else {
            0
        };
        let close = if k + 1 < raw.len() {
            assert(graw[k as int].1 <= graw[k + 1].0);
            assert(graw[k + 1] == (raw[k as int + 1].0 as int, raw[k as int + 1].1 as int));
            ((raw[k + 1].0 - e) as u128) < 2 * pad
        } else {
            false
        };
        let end = if close {
            e + (raw[k + 1].0 - e) / 2
        } else if (e as u128) + pad <= (audio_len as u128) {
            e + (pad as usize)
        } else {
            audio_len
        };
        proof {
            if k > 0 {
                assert(graw[k - 1].1 <= graw[k as int].0);
                assert(graw[k - 1] == (raw[k as int - 1].0 as int, raw[k as int - 1].1 as int));
            }
            if k + 1 < raw.len() {
                assert(graw[k as int].1 <= graw[k + 1].0);
                assert(graw[k + 1] == (raw[k as int + 1].0 as int, raw[k as int + 1].1 as int));
            }
            lemma_pairs_push(out@, (start, end));
            assert(pairs(out@.push((start, end))) =~= Seq::new(
                (k + 1) as nat,
                |j: int| padded(graw, j, 16 * c.speech_pad_ms, audio_len as int),
            ));
        }
        out.push((start, end));
        k = k + 1;
    }
    out
}

} // verus!
