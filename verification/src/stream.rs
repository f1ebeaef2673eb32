//! Decisions of the streaming speech iterator: it consumes one chunk at a time
//! and reports where speech starts and where it ends, with padding.
//!
//! The caller runs the model on each chunk and hands over the two threshold
//! decisions taken on its speech probability; this module keeps the state and
//! chooses the event.
use vstd::prelude::*;
use crate::error::{SileroError, make_error};

verus! {

/// A speech boundary, as a sample position.
#[derive(Clone, Copy, Debug, PartialEq, Eq, Structural)]
pub enum StreamEvent {
    /// Speech started at this sample.
    Start(usize),
    /// Speech ended at this sample.
    End(usize),
}

/// The iterator's state: whether speech is in progress, where the pending
/// silence began, and how many samples were consumed.
pub struct IteratorState {
    triggered: bool,
    temp_end: Option<usize>,
    current_sample: usize,
    min_silence_samples: u64,
    speech_pad_samples: u64,
}

/// The mathematical content of an [`IteratorState`].
pub struct StreamView {
    pub triggered: bool,
    pub temp_end: Option<int>,
    pub current_sample: int,
    pub min_silence_samples: int,
    pub speech_pad_samples: int,
}

impl View for IteratorState {
    type V = StreamView;

    closed spec fn view(&self) -> StreamView {
        StreamView {
            triggered: self.triggered,
            temp_end: match self.temp_end {
                Some(t) => Some(t as int),
                None => None,
            },
            current_sample: self.current_sample as int,
            min_silence_samples: self.min_silence_samples as int,
            speech_pad_samples: self.speech_pad_samples as int,
        }
    }
}

/// The state right after a reset.
pub open spec fn stream_reset(s: StreamView) -> StreamView {
    StreamView { triggered: false, temp_end: None, current_sample: 0, ..s }
}

/// `x`, or 0 when negative.
pub open spec fn clamp0(x: int) -> int {
    if x < 0 {
        0
    } else {
        x
    }
}

/// The state after a non-empty chunk of `len` samples whose probability was
/// `speech` (reached the threshold) and `silence` (below the negative threshold).
pub open spec fn stream_next(s: StreamView, len: int, speech: bool, silence: bool) -> StreamView {
    let cur = s.current_sample + len;
    let s1 = StreamView {
        temp_end: if speech {
            None
        } else {
            s.temp_end
        },
        current_sample: cur,
        ..s
    };
    if speech && !s.triggered {
        StreamView { triggered: true, ..s1 }
    } else if silence && s1.triggered {
        let te = match s1.temp_end {
            Some(t) => t,
            None => cur,
        };
        if cur - te < s.min_silence_samples {
            StreamView { temp_end: Some(te), ..s1 }
        } else {
            StreamView { triggered: false, temp_end: None, ..s1 }
        }
    } else {
        s1
    }
}

/// The event reported for that chunk, as (is it a start, sample position).
pub open spec fn stream_event(s: StreamView, len: int, speech: bool, silence: bool) -> Option<
    (bool, int),
> {
    let cur = s.current_sample + len;
    let te0 = if speech {
        None
    } else {
        s.temp_end
    };
    if speech && !s.triggered {
        Some((true, clamp0(cur - s.speech_pad_samples - len)))
    } else if silence && s.triggered {
        let te = match te0 {
            Some(t) => t,
            None => cur,
        };
        if cur - te < s.min_silence_samples {
            None
        } else {
            Some((false, clamp0(te + s.speech_pad_samples - len)))
        }
    } else {
        None
    }
}

/// An event as a pair (is it a start, position).
pub open spec fn event_view(e: Option<StreamEvent>) -> Option<(bool, int)> {
    match e {
        Some(StreamEvent::Start(p)) => Some((true, p as int)),
        Some(StreamEvent::End(p)) => Some((false, p as int)),
        None => None,
    }
}

/// The state is consistent: a pending silence only while speech is in progress,
/// and never after the last consumed sample.
pub open spec fn stream_wf(s: StreamView) -> bool {
    &&& s.temp_end is Some ==> s.triggered
    &&& match s.temp_end {
        Some(t) => 0 <= t <= s.current_sample,
        None => true,
    }
    &&& 0 <= s.current_sample
}

/// The chunk can be consumed without the sample counter, padded, overflowing.
pub open spec fn stream_accepts(s: StreamView, len: int) -> bool {
    s.current_sample + len + s.speech_pad_samples <= isize::MAX
}

impl IteratorState {
    pub closed spec fn wf(&self) -> bool {
        stream_wf(self@)
    }

    /// A fresh iterator state; only 16 kHz audio is supported.
    pub fn new(sampling_rate: u32, min_silence_duration_ms: u32, speech_pad_ms: u32) -> (r: Result<
        IteratorState,
        SileroError,
    >)
        ensures
            sampling_rate == 16000 <==> r is Ok,
            r matches Ok(s) ==> s.wf() && s@ == (StreamView {
                triggered: false,
                temp_end: None,
                current_sample: 0,
                min_silence_samples: 16 * min_silence_duration_ms,
                speech_pad_samples: 16 * speech_pad_ms,
            }),
            r matches Err(e) ==> e.text() == "VADIterator only supports 16000 Hz sampling rate"@,
    {
        if sampling_rate != 16000 {
            return Err(
                make_error(String::from_str("VADIterator only supports 16000 Hz sampling rate")),
            );
        }
        let mut s = IteratorState {
            triggered: true,
            temp_end: None,
            current_sample: 0,
            min_silence_samples: 0,
            speech_pad_samples: 0,
        };
        s.reset_states(min_silence_duration_ms, speech_pad_ms);
        Ok(s)
    }

    /// Forgets any speech in progress and restarts the sample count.
    pub fn reset_states(&mut self, min_silence_duration_ms: u32, speech_pad_ms: u32)
        ensures
            final(self).wf(),
            final(self)@ == stream_reset(
                StreamView {
                    min_silence_samples: 16 * min_silence_duration_ms,
                    speech_pad_samples: 16 * speech_pad_ms,
                    ..old(self)@
                },
            ),
    {
        self.triggered = false;
        self.temp_end = None;
        self.current_sample = 0;
        self.min_silence_samples = 16 * (min_silence_duration_ms as u64);
        self.speech_pad_samples = 16 * (speech_pad_ms as u64);
    }

    /// Whether a chunk of `len` samples can be consumed (see [`stream_accepts`]).
    pub fn accepts(&self, len: usize) -> (b: bool)
        ensures
            b == stream_accepts(self@, len as int),
    {
        let room = isize::MAX as usize;
        self.current_sample <= room && len <= room - self.current_sample && self.speech_pad_samples
            <= (room - self.current_sample - len) as u64
    }

    /// Number of samples consumed since the last reset.
    pub fn current_sample(&self) -> (n: usize)
        ensures
            n == self@.current_sample,
    {
        self.current_sample
    }

    /// Whether speech is in progress.
    pub fn triggered(&self) -> (b: bool)
        ensures
            b == self@.triggered,
    {
        self.triggered
    }

    /// Consumes a chunk of `len` samples: an empty chunk changes nothing;
    /// otherwise the state advances and the start or end of speech, if any, is
    /// reported.
    pub fn process_chunk(&mut self, len: usize, speech: bool, silence: bool) -> (e: Option<
        StreamEvent,
    >)
        requires
            old(self).wf(),
            len > 0 ==> stream_accepts(old(self)@, len as int),
        ensures
            final(self).wf(),
            len == 0 ==> e is None && final(self)@ == old(self)@,
            len > 0 ==> final(self)@ == stream_next(old(self)@, len as int, speech, silence)
                && event_view(e) == stream_event(old(self)@, len as int, speech, silence),
    {
        if len == 0 {
            return None;
        }
        self.current_sample = self.current_sample + len;
        let pad = self.speech_pad_samples as usize;
        if speech {
            if self.temp_end.is_some() {
                self.temp_end = None;
            }
            if !self.triggered {
                self.triggered = true;
                let start = if self.current_sample >= pad + len {
                    self.current_sample - pad - len
                } else {
                    0
                };
                return Some(StreamEvent::Start(start));
            }
        }
        if silence && self.triggered {
            if self.temp_end.is_none() {
                self.temp_end = Some(self.current_sample);
            }
            let te = match self.temp_end {
                Some(t) => t,
                None => self.current_sample,
            };
            let silence_duration = self.current_sample - te;
            if (silence_duration as u64) < self.min_silence_samples {
                return None;
            }
            let end = if te + pad >= len {
                te + pad - len
            } else {
                0
            };
            self.temp_end = None;
            self.triggered = false;
            return Some(StreamEvent::End(end));
        }
        None
    }
}

/// The events of a run over chunks `(len, speech, silence)` from state `s`.
pub open spec fn stream_events(s: StreamView, chunks: Seq<(int, bool, bool)>) -> Seq<(bool, int)>
    decreases chunks.len(),
{
    if chunks.len() == 0 {
        Seq::empty()
    } else {
        let c = chunks[0];
        let (s2, ev) = if c.0 == 0 {
            (s, None)
        } else {
            (stream_next(s, c.0, c.1, c.2), stream_event(s, c.0, c.1, c.2))
        };
        let rest = stream_events(s2, chunks.drop_first());
        match ev {
            Some(x) => seq![x].add(rest),
            None => rest,
        }
    }
}

/// The state after a run over `chunks` from state `s`.
pub open spec fn stream_after(s: StreamView, chunks: Seq<(int, bool, bool)>) -> StreamView
    decreases chunks.len(),
{
    if chunks.len() == 0 {
        s
    } else {
        let c = chunks[0];
        let s2 = if c.0 == 0 {
            s
        } else {
            stream_next(s, c.0, c.1, c.2)
        };
        stream_after(s2, chunks.drop_first())
    }
}

/// Starts and ends alternate: from a state without speech in progress (such as
/// a reset one), the reported events are Start, End, Start, End, ... and the
/// run ends with speech in progress exactly when the last event was a Start.
pub proof fn lemma_events_alternate(s: StreamView, chunks: Seq<(int, bool, bool)>)
    ensures
        ({
            let ev = stream_events(s, chunks);
            &&& forall|i: int|
                0 <= i < ev.len() ==> (#[trigger] ev[i]).0 == (if s.triggered {
                    i % 2 == 1
                } else {
                    i % 2 == 0
                })
            &&& stream_after(s, chunks).triggered == (if ev.len() % 2 == 0 {
                s.triggered
            } else {
                !s.triggered
            })
        }),
    decreases chunks.len(),
{
    if chunks.len() > 0 {
        let c = chunks[0];
        let (s2, e) = if c.0 == 0 {
            (s, None)
        } else {
            (stream_next(s, c.0, c.1, c.2), stream_event(s, c.0, c.1, c.2))
        };
        lemma_events_alternate(s2, chunks.drop_first());
        let rest = stream_events(s2, chunks.drop_first());
        let ev = stream_events(s, chunks);
        match e {
            Some(x) => {
                assert(x.0 == !s.triggered && s2.triggered == !s.triggered);
                assert forall|i: int| 0 <= i < ev.len() implies (#[trigger] ev[i]).0 == (
                if s.triggered {
                    i % 2 == 1
                } else {
                    i % 2 == 0
                }) by {
                    if i > 0 {
                        assert(ev[i] == rest[i - 1]);
                    }
                }
            },
            None => {
                assert(s2.triggered == s.triggered);
                assert(ev == rest);
            },
        }
    }
}

/// A reset forgets the stream: from any two states reset with the same
/// parameters, every run of chunks reports the same events and ends in the
/// same state.
pub proof fn lemma_reset_forgets(s: StreamView, t: StreamView, chunks: Seq<(int, bool, bool)>)
    requires
        s.min_silence_samples == t.min_silence_samples,
        s.speech_pad_samples == t.speech_pad_samples,
    ensures
        stream_events(stream_reset(s), chunks) == stream_events(stream_reset(t), chunks),
        stream_after(stream_reset(s), chunks) == stream_after(stream_reset(t), chunks),
{
    assert(stream_reset(s) == stream_reset(t));
}

/// From a fresh or reset iterator, the reported events are Start, End, Start,
/// End, ...: the `i`-th event is a Start exactly when `i` is even.
pub proof fn lemma_events_alternate_after_reset(s: StreamView, chunks: Seq<(int, bool, bool)>)
    ensures
        forall|i: int|
            0 <= i < stream_events(stream_reset(s), chunks).len() ==> (#[trigger] stream_events(
                stream_reset(s),
                chunks,
            )[i]).0 == (i % 2 == 0),
{
    lemma_events_alternate(stream_reset(s), chunks);
}

/// What a non-empty chunk of `len` samples does, in terms of the state before
/// it:
/// - speech (that is not also silence) clears a pending silence, and when no
///   speech was in progress it starts speech and reports a Start one pad and
///   one chunk before the new sample count (not below 0);
/// - a chunk that is neither speech nor silence reports nothing and keeps both
///   the speech flag and the pending silence;
/// - a silent chunk while speech is in progress keeps the pending silence, or
///   starts one at the new sample count; once that silence has lasted the
///   minimum silence, speech stops and an End is reported one pad after the
///   silence began, less the chunk (not below 0);
/// - a silent chunk without speech in progress changes neither.
pub proof fn lemma_chunk_effect(s: StreamView, len: int, speech: bool, silence: bool)
    requires
        len > 0,
    ensures
        ({
            let n = stream_next(s, len, speech, silence);
            let e = stream_event(s, len, speech, silence);
            let cur = s.current_sample + len;
            let te = match s.temp_end {
                Some(t) => t,
                None => cur,
            };
            &&& n.current_sample == cur
            &&& speech && !silence ==> n.temp_end is None
            &&& speech && !s.triggered ==> n.triggered && e == Some(
                (true, if cur - s.speech_pad_samples - len >= 0 {
                    cur - s.speech_pad_samples - len
                } else {
                    0
                }),
            )
            &&& speech && !silence && s.triggered ==> n.triggered && e is None
            &&& !speech && !silence ==> n.temp_end == s.temp_end && n.triggered == s.triggered
                && e is None
            &&& !speech && silence && s.triggered && cur - te < s.min_silence_samples ==> n.temp_end
                == Some(te) && n.triggered && e is None
            &&& !speech && silence && s.triggered && cur - te >= s.min_silence_samples ==> n.temp_end
                is None && !n.triggered && e == Some(
                (false, if te + s.speech_pad_samples - len >= 0 {
                    te + s.speech_pad_samples - len
                } else {
                    0
                }),
            )
            &&& !speech && silence && !s.triggered ==> n.temp_end == s.temp_end && !n.triggered
                && e is None
        }),
{
}

} // verus!
