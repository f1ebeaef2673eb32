//! Moving audio samples around: windows for the model, the streaming context,
//! decimation to 16 kHz, and cutting speech segments in or out of a recording.
//!
//! These functions never look at a sample's value, so they are generic over
//! the sample type.
use vstd::prelude::*;
use crate::error::{SileroError, make_error};

verus! {

/// Model sample rate.
pub const MODEL_RATE: u32 = 16000;

/// `a` appended with `src[lo..hi]`.
pub fn append_range<T: Copy>(out: &mut Vec<T>, src: &[T], lo: usize, hi: usize)
    requires
        lo <= hi <= src.len(),
    ensures
        final(out)@ == old(out)@ + src@.subrange(lo as int, hi as int),
{
    let mut i = lo;
    while i < hi
        invariant
            lo <= i <= hi <= src.len(),
            out@ == old(out)@ + src@.subrange(lo as int, i as int),
        decreases hi - i,
    {
        out.push(src[i]);
        proof {
            assert(src@.subrange(lo as int, i + 1) =~= src@.subrange(lo as int, i as int).push(
                src@[i as int],
            ));
        }
        i = i + 1;
    }
}

pub open spec fn msg_rate_zero() -> Seq<char> {
    "Sampling rate must be greater than zero"@
}

pub open spec fn msg_rate_unsupported() -> Seq<char> {
    "Currently custom silero VAD model only supports 16000 (or multiply of 16000) sample rate"@
}

/// The decimation step that brings `rate` to 16 kHz: 1 for 16 kHz, `rate / 16000`
/// for a larger multiple of 16 kHz; any other rate is refused.
pub fn step_for_rate(rate: u32) -> (r: Result<usize, SileroError>)
    ensures
        rate == 0 ==> (r matches Err(e) && e.text() == msg_rate_zero()),
        rate == 16000 ==> r == Ok::<usize, SileroError>(1),
        rate > 16000 && rate % 16000 == 0 ==> (r matches Ok(s) && s == rate / 16000),
        rate != 0 && rate != 16000 && !(rate > 16000 && rate % 16000 == 0) ==> (r matches Err(e)
            && e.text() == msg_rate_unsupported()),
{
    if rate == 0 {
        return Err(make_error(String::from_str("Sampling rate must be greater than zero")));
    }
    if rate > MODEL_RATE && rate % MODEL_RATE == 0 {
        return Ok((rate / MODEL_RATE) as usize);
    }
    if rate != MODEL_RATE {
        return Err(
            make_error(
                String::from_str(
                    "Currently custom silero VAD model only supports 16000 (or multiply of 16000) sample rate",
                ),
            ),
        );
    }
    Ok(1)
}

/// Number of samples kept when taking every `step`-th of `len` samples.
pub open spec fn decimated_len(len: int, step: int) -> int {
    if len <= 0 {
        0
    } else {
        (len - 1) / step + 1
    }
}

/// Every `step`-th sample, starting with the first (as `step_by`).
pub open spec fn decimated<T>(audio: Seq<T>, step: int) -> Seq<T> {
    Seq::new(decimated_len(audio.len() as int, step) as nat, |i: int| audio[i * step])
}

/// Every `step`-th sample of `audio`, starting with the first.
pub fn downsample<T: Copy>(audio: &[T], step: usize) -> (r: Vec<T>)
    requires
        step > 0,
    ensures
        r@ == decimated(audio@, step as int),
{
    let n = audio.len();
    let cnt: usize = if n == 0 {
        0
    } else {
        (n - 1) / step + 1
    };
    let mut r: Vec<T> = Vec::new();
    let mut k: usize = 0;
    while k < cnt
        invariant
            step > 0,
            n == audio.len(),
            cnt == decimated_len(n as int, step as int),
            k <= cnt,
            r@ =~= Seq::new(k as nat, |j: int| audio@[j * step]),
        decreases cnt - k,
    {
        proof {
            assert(k * step <= n - 1) by (nonlinear_arith)
                requires
                    step > 0,
                    n >= 1,
                    k <= (n - 1) / (step as int),
            ;
        }
        r.push(audio[k * step]);
        k = k + 1;
    }
    r
}

/// The `size` samples of `audio` from `start`, padded with `zero` past the end.
pub open spec fn window_spec<T>(audio: Seq<T>, start: int, size: int, zero: T) -> Seq<T> {
    Seq::new(
        size as nat,
        |k: int|
            if start + k < audio.len() {
                audio[start + k]
            } else {
                zero
            },
    )
}

/// The `size` samples of `audio` from `start`, padded with `zero` past the end.
pub fn window<T: Copy>(audio: &[T], start: usize, size: usize, zero: T) -> (r: Vec<T>)
    requires
        start + size <= usize::MAX,
    ensures
        r@ == window_spec(audio@, start as int, size as int, zero),
{
    let mut r: Vec<T> = Vec::new();
    let mut k: usize = 0;
    while k < size
        invariant
            0 <= k <= size,
            start + size <= usize::MAX,
            r@ =~= Seq::new(
                k as nat,
                |j: int|
                    if start + j < audio.len() {
                        audio@[start + j]
                    } else {
                        zero
                    },
            ),
        decreases size - k,
    {
        if start + k < audio.len() {
            r.push(audio[start + k]);
        } else {
            r.push(zero);
        }
        k = k + 1;
    }
    r
}

/// `context` followed by `chunk`.
pub fn with_context<T: Copy>(context: &[T], chunk: &[T]) -> (r: Vec<T>)
    ensures
        r@ == context@ + chunk@,
{
    let mut r: Vec<T> = Vec::new();
    append_range(&mut r, context, 0, context.len());
    append_range(&mut r, chunk, 0, chunk.len());
    assert(context@.subrange(0, context@.len() as int) =~= context@);
    assert(chunk@.subrange(0, chunk@.len() as int) =~= chunk@);
    r
}

/// The last `n` samples of `chunk`.
pub fn last_samples<T: Copy>(chunk: &[T], n: usize) -> (r: Vec<T>)
    requires
        n <= chunk.len(),
    ensures
        r@ == chunk@.subrange(chunk.len() - n, chunk.len() as int),
{
    let mut r: Vec<T> = Vec::new();
    append_range(&mut r, chunk, chunk.len() - n, chunk.len());
    r
}

pub open spec fn msg_rate_missing() -> Seq<char> {
    "sampling_rate must be provided when seconds is true"@
}

pub open spec fn min_nat(a: int, b: int) -> int {
    if a <= b {
        a
    } else {
        b
    }
}

/// The samples of one span `(start, end)`: empty when `end <= start`, otherwise
/// the span clipped to the recording.
pub open spec fn span_samples<T>(span: (int, int), wav: Seq<T>) -> Seq<T> {
    let s = min_nat(span.0, wav.len() as int);
    let e = min_nat(span.1, wav.len() as int);
    if span.1 <= span.0 || s >= e {
        Seq::empty()
    } else {
        wav.subrange(s, e)
    }
}

/// The samples of all spans, in order.
pub open spec fn collected<T>(spans: Seq<(usize, usize)>, wav: Seq<T>) -> Seq<T>
    decreases spans.len(),
{
    if spans.len() == 0 {
        Seq::empty()
    } else {
        collected(spans.drop_last(), wav) + span_samples(
            (spans.last().0 as int, spans.last().1 as int),
            wav,
        )
    }
}

/// The state after skipping spans: (cursor, kept samples).
pub open spec fn dropped_state<T>(spans: Seq<(usize, usize)>, wav: Seq<T>) -> (int, Seq<T>)
    decreases spans.len(),
{
    if spans.len() == 0 {
        (0, Seq::empty())
    } else {
        let (cursor, kept) = dropped_state(spans.drop_last(), wav);
        let s = min_nat(spans.last().0 as int, wav.len() as int);
        let e = min_nat(spans.last().1 as int, wav.len() as int);
        (
            if cursor >= e {
                cursor
            } else {
                e
            },
            if s > cursor {
                kept + wav.subrange(cursor, s)
            } else {
                kept
            },
        )
    }
}

/// The samples outside all spans, in order.
pub open spec fn dropped<T>(spans: Seq<(usize, usize)>, wav: Seq<T>) -> Seq<T> {
    if spans.len() == 0 {
        wav
    } else {
        let (cursor, kept) = dropped_state(spans, wav);
        if cursor < wav.len() {
            kept + wav.subrange(cursor, wav.len() as int)
        } else {
            kept
        }
    }
}

proof fn lemma_dropped_cursor<T>(spans: Seq<(usize, usize)>, wav: Seq<T>)
    ensures
        0 <= dropped_state(spans, wav).0 <= wav.len(),
    decreases spans.len(),
{
    if spans.len() > 0 {
        lemma_dropped_cursor(spans.drop_last(), wav);
    }
}

/// Concatenates the samples of the speech spans `(start, end)` (sample
/// indices) of `wav`; a span with `end <= start` is skipped, others are
/// clipped to the recording. When timestamps are in seconds a sampling rate is
/// required.
pub fn collect_chunks<T: Copy>(
    spans: &[(usize, usize)],
    wav: &[T],
    seconds: bool,
    sampling_rate: Option<u32>,
) -> (r: Result<Vec<T>, SileroError>)
    ensures
        seconds && sampling_rate is None ==> (r matches Err(e) && e.text() == msg_rate_missing()),
        !(seconds && sampling_rate is None) ==> (r matches Ok(v) && v@ == collected(spans@, wav@)),
{
    if seconds && sampling_rate.is_none() {
        return Err(
            make_error(String::from_str("sampling_rate must be provided when seconds is true")),
        );
    }
    let mut out: Vec<T> = Vec::new();
    let mut i: usize = 0;
    while i < spans.len()
        invariant
            0 <= i <= spans.len(),
            out@ == collected(spans@.take(i as int), wav@),
        decreases spans.len() - i,
    {
        proof {
            assert(spans@.take(i + 1).drop_last() =~= spans@.take(i as int));
            assert(spans@.take(i + 1).last() == spans@[i as int]);
        }
        let (s0, e0) = spans[i];
        if e0 > s0 {
            let s = if s0 < wav.len() {
                s0
            } else {
                wav.len()
            };
            let e = if e0 < wav.len() {
                e0
            } else {
                wav.len()
            };
            if s < e {
                append_range(&mut out, wav, s, e);
            }
        }
        proof {
            let sp = span_samples((s0 as int, e0 as int), wav@);
            assert(out@ =~= collected(spans@.take(i as int), wav@) + sp);
        }
        i = i + 1;
    }
    assert(spans@.take(spans.len() as int) =~= spans@);
    Ok(out)
}

/// Removes the speech spans `(start, end)` (sample indices, clipped to the
/// recording) from `wav` and keeps the rest, in order. When timestamps are in
/// seconds a sampling rate is required.
pub fn drop_chunks<T: Copy>(
    spans: &[(usize, usize)],
    wav: &[T],
    seconds: bool,
    sampling_rate: Option<u32>,
) -> (r: Result<Vec<T>, SileroError>)
    ensures
        seconds && sampling_rate is None ==> (r matches Err(e) && e.text() == msg_rate_missing()),
        !(seconds && sampling_rate is None) ==> (r matches Ok(v) && v@ == dropped(spans@, wav@)),
        !(seconds && sampling_rate is None) && spans_sorted(spans@, wav@.len() as int) ==> (r matches Ok(v) && v@
            == uncovered(spans@, wav@)),
{
    proof {
        if spans_sorted(spans@, wav@.len() as int) {
            lemma_drop_removes_covered(spans@, wav@);
        }
    }
    if seconds && sampling_rate.is_none() {
        return Err(
            make_error(String::from_str("sampling_rate must be provided when seconds is true")),
        );
    }
    if spans.len() == 0 {
        let mut all: Vec<T> = Vec::new();
        append_range(&mut all, wav, 0, wav.len());
        assert(wav@.subrange(0, wav@.len() as int) =~= wav@);
        return Ok(all);
    }
    let mut out: Vec<T> = Vec::new();
    let mut cursor: usize = 0;
    let mut i: usize = 0;
    while i < spans.len()
        invariant
            0 <= i <= spans.len(),
            cursor as int == dropped_state(spans@.take(i as int), wav@).0,
            out@ == dropped_state(spans@.take(i as int), wav@).1,
            cursor <= wav.len(),
        decreases spans.len() - i,
    {
        proof {
            assert(spans@.take(i + 1).drop_last() =~= spans@.take(i as int));
            assert(spans@.take(i + 1).last() == spans@[i as int]);
        }
        let (s0, e0) = spans[i];
        let s = if s0 < wav.len() {
            s0
        } else {
            wav.len()
        };
        let e = if e0 < wav.len() {
            e0
        } else {
            wav.len()
        };
        if s > cursor {
            append_range(&mut out, wav, cursor, s);
        }
        if e > cursor {
            cursor = e;
        }
        i = i + 1;
    }
    assert(spans@.take(spans.len() as int) =~= spans@);
    if cursor < wav.len() {
        append_range(&mut out, wav, cursor, wav.len());
    }
    Ok(out)
}

/// Position `p` clipped to a recording of `len` samples.
pub open spec fn clip(p: usize, len: int) -> int {
    min_nat(p as int, len)
}

/// Once clipped to a recording of `len` samples, each span has
/// `start <= end`, and the spans come in order without overlapping.
pub open spec fn spans_disjoint(spans: Seq<(usize, usize)>, len: int) -> bool {
    &&& forall|i: int| 0 <= i < spans.len() ==> clip((#[trigger] spans[i]).0, len) <= clip(spans[i].1, len)
    &&& forall|i: int, j: int|
        0 <= i < j < spans.len() ==> clip((#[trigger] spans[i]).1, len) <= clip((#[trigger] spans[j]).0, len)
}

proof fn lemma_partition_prefix<T>(spans: Seq<(usize, usize)>, wav: Seq<T>, k: int)
    requires
        spans_disjoint(spans, wav.len() as int),
        0 <= k <= spans.len(),
    ensures
        dropped_state(spans.take(k), wav).0 == (if k == 0 {
            0
        } else {
            min_nat(spans[k - 1].1 as int, wav.len() as int)
        }),
        dropped_state(spans.take(k), wav).1.len() + collected(spans.take(k), wav).len()
            == dropped_state(spans.take(k), wav).0,
    decreases k,
{
    if k > 0 {
        lemma_partition_prefix(spans, wav, k - 1);
        let t = spans.take(k);
        assert(t.drop_last() =~= spans.take(k - 1));
        assert(t.last() == spans[k - 1]);
        assert(clip(spans[k - 1].0, wav.len() as int) <= clip(spans[k - 1].1, wav.len() as int));
        if k > 1 {
            assert(clip(spans[k - 2].1, wav.len() as int) <= clip(spans[k - 1].0, wav.len() as int));
        }
    }
}

/// Cutting speech spans that are disjoint once clipped out of a recording and
/// keeping them partition it: the samples kept by [`collect_chunks`] and by
/// [`drop_chunks`] add up to the whole recording.
pub proof fn lemma_collect_drop_partition<T>(spans: Seq<(usize, usize)>, wav: Seq<T>)
    requires
        spans_disjoint(spans, wav.len() as int),
    ensures
        collected(spans, wav).len() + dropped(spans, wav).len() == wav.len(),
{
    lemma_partition_prefix(spans, wav, spans.len() as int);
    assert(spans.take(spans.len() as int) =~= spans);
    if spans.len() == 0 {
        assert(collected(spans, wav).len() == 0);
    }
}

/// Sample `k` lies in one of the spans `[start, end)`.
pub open spec fn covered(spans: Seq<(usize, usize)>, k: int) -> bool {
    exists|i: int| 0 <= i < spans.len() && spans[i].0 <= k < #[trigger] spans[i].1
}

/// The samples among the first `n` of `wav` that no span covers, in order.
pub open spec fn uncovered_prefix<T>(spans: Seq<(usize, usize)>, wav: Seq<T>, n: int) -> Seq<T>
    decreases n,
{
    if n <= 0 {
        Seq::empty()
    } else {
        uncovered_prefix(spans, wav, n - 1) + if covered(spans, n - 1) {
            Seq::empty()
        } else {
            seq![wav[n - 1]]
        }
    }
}

/// The samples of `wav` that no span covers, in order.
pub open spec fn uncovered<T>(spans: Seq<(usize, usize)>, wav: Seq<T>) -> Seq<T> {
    uncovered_prefix(spans, wav, wav.len() as int)
}

/// Once clipped to a recording of `len` samples, each span has
/// `start <= end`, and the spans are sorted by start.
pub open spec fn spans_sorted(spans: Seq<(usize, usize)>, len: int) -> bool {
    &&& forall|i: int| 0 <= i < spans.len() ==> clip((#[trigger] spans[i]).0, len) <= clip(spans[i].1, len)
    &&& forall|i: int, j: int|
        0 <= i < j < spans.len() ==> clip((#[trigger] spans[i]).0, len) <= clip((#[trigger] spans[j]).0, len)
}

proof fn lemma_uncovered_run<T>(spans: Seq<(usize, usize)>, wav: Seq<T>, a: int, b: int)
    requires
        0 <= a <= b <= wav.len(),
        forall|j: int| a <= j < b ==> !covered(spans, j),
    ensures
        uncovered_prefix(spans, wav, b) == uncovered_prefix(spans, wav, a) + wav.subrange(a, b),
    decreases b - a,
{
    if a < b {
        lemma_uncovered_run(spans, wav, a, b - 1);
        assert(!covered(spans, b - 1));
        assert(wav.subrange(a, b) =~= wav.subrange(a, b - 1).push(wav[b - 1]));
        assert(uncovered_prefix(spans, wav, b) =~= uncovered_prefix(spans, wav, a) + wav.subrange(
            a,
            b,
        ));
    } else {
        assert(wav.subrange(a, b) =~= Seq::<T>::empty());
        assert(uncovered_prefix(spans, wav, a) + wav.subrange(a, b) =~= uncovered_prefix(
            spans,
            wav,
            a,
        ));
    }
}

proof fn lemma_covered_run<T>(spans: Seq<(usize, usize)>, wav: Seq<T>, a: int, b: int)
    requires
        0 <= a <= b,
        forall|j: int| a <= j < b ==> covered(spans, j),
    ensures
        uncovered_prefix(spans, wav, b) == uncovered_prefix(spans, wav, a),
    decreases b - a,
{
    if a < b {
        lemma_covered_run(spans, wav, a, b - 1);
        assert(covered(spans, b - 1));
        assert(uncovered_prefix(spans, wav, b) =~= uncovered_prefix(spans, wav, b - 1));
    }
}

proof fn lemma_dropped_prefix<T>(spans: Seq<(usize, usize)>, wav: Seq<T>, k: int)
    requires
        spans_sorted(spans, wav.len() as int),
        0 <= k <= spans.len(),
    ensures
        ({
            let (c, kept) = dropped_state(spans.take(k), wav);
            &&& 0 <= c <= wav.len()
            &&& kept == uncovered_prefix(spans, wav, c)
            &&& forall|i: int| 0 <= i < k ==> min_nat(#[trigger] spans[i].1 as int, wav.len() as int) <= c
        }),
    decreases k,
{
    let len = wav.len() as int;
    if k > 0 {
        lemma_dropped_prefix(spans, wav, k - 1);
        let t = spans.take(k);
        assert(t.drop_last() =~= spans.take(k - 1));
        assert(t.last() == spans[k - 1]);
        let (c, kept) = dropped_state(spans.take(k - 1), wav);
        let x = spans[k - 1];
        let s = min_nat(x.0 as int, len);
        let e = min_nat(x.1 as int, len);
        assert(clip(x.0, len) <= clip(x.1, len));
        if s > c {
            assert forall|j: int| c <= j < s implies !covered(spans, j) by {
                if covered(spans, j) {
                    let i = choose|i: int| 0 <= i < spans.len() && spans[i].0 <= j < #[trigger] spans[i].1;
                    if i < k - 1 {
                        assert(min_nat(spans[i].1 as int, len) <= c);
                    } else if i > k - 1 {
                        assert(clip(spans[k - 1].0, len) <= clip(spans[i].0, len));
                    }
                }
            }
            lemma_uncovered_run(spans, wav, c, s);
        }
        let c1 = if s > c {
            s
        } else {
            c
        };
        if e > c1 {
            assert forall|j: int| c1 <= j < e implies covered(spans, j) by {
                assert(spans[k - 1].0 <= j < spans[k - 1].1);
            }
            lemma_covered_run(spans, wav, c1, e);
        }
    }
}

/// Dropping spans sorted by start once clipped removes exactly the samples that some span
/// covers and keeps the others, in order.
pub proof fn lemma_drop_removes_covered<T>(spans: Seq<(usize, usize)>, wav: Seq<T>)
    requires
        spans_sorted(spans, wav.len() as int),
    ensures
        dropped(spans, wav) == uncovered(spans, wav),
{
    let len = wav.len() as int;
    if spans.len() == 0 {
        assert forall|j: int| 0 <= j < len implies !covered(spans, j) by {}
        lemma_uncovered_run(spans, wav, 0, len);
        assert(wav.subrange(0, len) =~= wav);
        assert(uncovered_prefix(spans, wav, 0) + wav =~= wav);
    } else {
        lemma_dropped_prefix(spans, wav, spans.len() as int);
        assert(spans.take(spans.len() as int) =~= spans);
        let (c, kept) = dropped_state(spans, wav);
        if c < len {
            assert forall|j: int| c <= j < len implies !covered(spans, j) by {
                if covered(spans, j) {
                    let i = choose|i: int| 0 <= i < spans.len() && spans[i].0 <= j < #[trigger] spans[i].1;
                    assert(min_nat(spans[i].1 as int, len) <= c);
                }
            }
            lemma_uncovered_run(spans, wav, c, len);
        }
    }
}

} // verus!
