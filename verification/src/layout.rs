//! Index arithmetic of the model's tensor operators, on row-major
//! `[batch, channels, seq]` buffers: reflect padding, 1-D convolution
//! geometry, splitting STFT channels into real and imaginary halves.
//!
//! Reflect padding and the STFT split only move elements, so they are generic
//! over the element type; the convolution helpers say which input element each
//! kernel tap reads.
use vstd::prelude::*;

verus! {

/// Source position of padded position `t` of a sequence of `seq_len`
/// elements reflected on the right.
pub open spec fn reflect_index(t: int, seq_len: int) -> int {
    if t < seq_len {
        t
    } else {
        2 * seq_len - 2 - t
    }
}

/// The flat source index of flat index `idx` of the padded buffer.
pub open spec fn reflect_source(idx: int, channels: int, seq_len: int, pad: int) -> int {
    let ns = seq_len + pad;
    (idx / (channels * ns)) * (channels * seq_len) + ((idx / ns) % channels) * seq_len
        + reflect_index(idx % ns, seq_len)
}

/// The `[batch, channels, seq_len]` buffer `data`, reflect-padded on the right
/// by `pad` along the last axis.
pub open spec fn reflect_pad_spec<T>(
    data: Seq<T>,
    batch: int,
    channels: int,
    seq_len: int,
    pad: int,
) -> Seq<T> {
    Seq::new(
        (batch * channels * (seq_len + pad)) as nat,
        |idx: int| data[reflect_source(idx, channels, seq_len, pad)],
    )
}

/// The reflection stays inside the sequence: at most `seq_len - 1` elements
/// are padded (none when the sequence is empty), the buffer holds the input,
/// and the padded size fits in memory.
pub open spec fn reflect_pad_ok(len: int, batch: int, channels: int, seq_len: int, pad: int) -> bool {
    &&& pad == 0 || pad < seq_len
    &&& batch * channels * seq_len <= len
    &&& seq_len + pad <= usize::MAX
    &&& batch * channels <= usize::MAX
    &&& batch * channels * (seq_len + pad) <= usize::MAX
}

proof fn lemma_reflect_source_in_range(idx: int, batch: int, channels: int, seq_len: int, pad: int)
    requires
        0 <= idx < batch * channels * (seq_len + pad),
        batch >= 0,
        channels >= 0,
        seq_len >= 0,
        pad >= 0,
        pad == 0 || pad < seq_len,
    ensures
        0 <= reflect_source(idx, channels, seq_len, pad) < batch * channels * seq_len,
{
    let ns = seq_len + pad;
    assert(channels > 0 && ns > 0 && batch > 0 && channels * ns > 0) by (nonlinear_arith)
        requires
            0 <= idx < batch * channels * ns,
            batch >= 0,
            channels >= 0,
            ns >= 0,
    ;
    let b = idx / (channels * ns);
    let c = (idx / ns) % channels;
    let t = idx % ns;
    let rt = reflect_index(t, seq_len);
    assert(0 <= b < batch) by (nonlinear_arith)
        requires
            0 <= idx < batch * channels * ns,
            channels * ns > 0,
            b == idx / (channels * ns),
    ;
    assert(0 <= c < channels) by (nonlinear_arith)
        requires
            channels > 0,
            ns > 0,
            idx >= 0,
            c == (idx / ns) % channels,
    ;
    assert(0 <= t < ns) by (nonlinear_arith)
        requires
            ns > 0,
            t == idx % ns,
    ;
    assert(0 <= rt < seq_len);
    assert(0 <= b * (channels * seq_len) + c * seq_len + rt < batch * channels * seq_len) by (
    nonlinear_arith)
        requires
            0 <= b < batch,
            0 <= c < channels,
            0 <= rt < seq_len,
    ;
}

/// The `[batch, channels, seq_len]` buffer `data` reflect-padded on the right
/// by `pad` along the last axis, as a `[batch, channels, seq_len + pad]` buffer.
pub fn reflect_pad_1d<T: Copy>(
    data: &[T],
    batch: usize,
    channels: usize,
    seq_len: usize,
    pad: usize,
) -> (r: Vec<T>)
    requires
        reflect_pad_ok(data.len() as int, batch as int, channels as int, seq_len as int, pad as int),
    ensures
        r@ == reflect_pad_spec(data@, batch as int, channels as int, seq_len as int, pad as int),
{
    let ns = seq_len + pad;
    proof {
        assert(batch * channels * ns <= usize::MAX);
        assert(channels * ns <= batch * channels * ns || batch == 0) by (nonlinear_arith)
            requires
                batch >= 0,
                channels * ns >= 0,
        ;
    }
    let total = batch * channels * ns;
    let mut r: Vec<T> = Vec::new();
    let mut idx: usize = 0;
    while idx < total
        invariant
            reflect_pad_ok(data.len() as int, batch as int, channels as int, seq_len as int, pad as int),
            ns == seq_len + pad,
            total == batch * channels * ns,
            0 <= idx <= total,
            r@ =~= Seq::new(
                idx as nat,
                |j: int| data@[reflect_source(j, channels as int, seq_len as int, pad as int)],
            ),
        decreases total - idx,
    {
        proof {
            lemma_reflect_source_in_range(idx as int, batch as int, channels as int, seq_len as int, pad as int);
            assert(channels * ns > 0 && ns > 0) by (nonlinear_arith)
                requires
                    0 <= idx < batch * channels * ns,
            ;
            assert(channels * ns <= total) by (nonlinear_arith)
                requires
                    total == batch * channels * ns,
                    idx < total,
                    channels * ns > 0,
            ;
            assert(channels * seq_len <= channels * ns) by (nonlinear_arith)
                requires
                    seq_len <= ns,
                    channels >= 0,
            ;
            let bb = idx as int / (channels as int * ns as int);
            let cc = (idx as int / ns as int) % (channels as int);
            let tt = idx as int % ns as int;
            assert(0 <= bb < batch && 0 <= cc < channels && 0 <= tt < ns) by (nonlinear_arith)
                requires
                    0 <= idx < batch * channels * ns,
                    channels * ns > 0,
                    ns > 0,
                    bb == idx as int / (channels as int * ns as int),
                    cc == (idx as int / ns as int) % (channels as int),
                    tt == idx as int % ns as int,
            ;
            assert(bb * (channels * seq_len) <= batch * channels * seq_len && cc * seq_len <= channels
                * seq_len) by (nonlinear_arith)
                requires
                    0 <= bb < batch,
                    0 <= cc < channels,
                    seq_len >= 0,
            ;
        }
        let b = idx / (channels * ns);
        let c = (idx / ns) % channels;
        let t = idx % ns;
        let rt = if t < seq_len {
            t
        } else {
            seq_len - 2 - (t - seq_len)
        };
        let src = b * (channels * seq_len) + c * seq_len + rt;
        r.push(data[src]);
        idx = idx + 1;
    }
    r
}

/// Writes the reflect-padded buffer (see [`reflect_pad_1d`]) into `out`, which
/// must have exactly its size.
pub fn reflect_pad_1d_into<T: Copy>(
    data: &[T],
    batch: usize,
    channels: usize,
    seq_len: usize,
    pad: usize,
    out: &mut [T],
)
    requires
        reflect_pad_ok(data.len() as int, batch as int, channels as int, seq_len as int, pad as int),
        old(out).len() == batch * channels * (seq_len + pad),
    ensures
        final(out)@ == reflect_pad_spec(data@, batch as int, channels as int, seq_len as int, pad as int),
{
    let ns = seq_len + pad;
    let total = out.len();
    let mut idx: usize = 0;
    while idx < total
        invariant
            reflect_pad_ok(data.len() as int, batch as int, channels as int, seq_len as int, pad as int),
            ns == seq_len + pad,
            total == batch * channels * ns,
            out.len() == total,
            0 <= idx <= total,
            forall|j: int|
                0 <= j < idx ==> #[trigger] out@[j] == data@[reflect_source(
                    j,
                    channels as int,
                    seq_len as int,
                    pad as int,
                )],
        decreases total - idx,
    {
        proof {
            lemma_reflect_source_in_range(idx as int, batch as int, channels as int, seq_len as int, pad as int);
            assert(channels * ns > 0 && ns > 0) by (nonlinear_arith)
                requires
                    0 <= idx < batch * channels * ns,
            ;
            assert(channels * ns <= total) by (nonlinear_arith)
                requires
                    total == batch * channels * ns,
                    idx < total,
                    channels * ns > 0,
            ;
            assert(channels * seq_len <= channels * ns) by (nonlinear_arith)
                requires
                    seq_len <= ns,
                    channels >= 0,
            ;
            let bb = idx as int / (channels as int * ns as int);
            let cc = (idx as int / ns as int) % (channels as int);
            let tt = idx as int % ns as int;
            assert(0 <= bb < batch && 0 <= cc < channels && 0 <= tt < ns) by (nonlinear_arith)
                requires
                    0 <= idx < batch * channels * ns,
                    channels * ns > 0,
                    ns > 0,
                    bb == idx as int / (channels as int * ns as int),
                    cc == (idx as int / ns as int) % (channels as int),
                    tt == idx as int % ns as int,
            ;
            assert(bb * (channels * seq_len) <= batch * channels * seq_len && cc * seq_len <= channels
                * seq_len) by (nonlinear_arith)
                requires
                    0 <= bb < batch,
                    0 <= cc < channels,
                    seq_len >= 0,
            ;
        }
        let b = idx / (channels * ns);
        let c = (idx / ns) % channels;
        let t = idx % ns;
        let rt = if t < seq_len {
            t
        } else {
            seq_len - 2 - (t - seq_len)
        };
        let src = b * (channels * seq_len) + c * seq_len + rt;
        out[idx] = data[src];
        idx = idx + 1;
    }
    assert(out@ =~= reflect_pad_spec(data@, batch as int, channels as int, seq_len as int, pad as int));
}

/// Output length of a 1-D convolution.
pub open spec fn conv_out_len_spec(seq_len: int, kernel: int, stride: int, padding: int) -> int {
    (seq_len + 2 * padding - kernel) / stride + 1
}

/// Output length of a 1-D convolution with `kernel` taps, `stride` and
/// zero `padding` on both sides, over `seq_len` inputs.
pub fn conv1d_out_len(seq_len: usize, kernel: usize, stride: usize, padding: usize) -> (n: usize)
    requires
        stride > 0,
        seq_len + 2 * padding <= usize::MAX,
        kernel <= seq_len + 2 * padding,
        conv_out_len_spec(seq_len as int, kernel as int, stride as int, padding as int) <= usize::MAX,
    ensures
        n == conv_out_len_spec(seq_len as int, kernel as int, stride as int, padding as int),
{
    (seq_len + 2 * padding - kernel) / stride + 1
}

/// The input position read by tap `k` of output `t`, if it is not padding.
pub open spec fn tap_spec(t: int, k: int, stride: int, padding: int, seq_len: int) -> Option<int> {
    let p = t * stride - padding + k;
    if 0 <= p < seq_len {
        Some(p)
    } else {
        None
    }
}

/// The start of the input window of output `t`, if the whole window lies in
/// the input (no padding is read).
pub open spec fn window_spec(t: int, stride: int, padding: int, kernel: int, seq_len: int) -> Option<
    int,
> {
    let s = t * stride - padding;
    if s >= 0 && s + kernel <= seq_len {
        Some(s)
    } else {
        None
    }
}

/// The positions involved fit in an `isize`.
pub open spec fn taps_fit(t: int, stride: int, padding: int, kernel: int, seq_len: int) -> bool {
    t * stride + kernel <= isize::MAX && padding <= isize::MAX && seq_len <= isize::MAX
}

/// The input position read by tap `k` of output `t`, or `None` when the tap
/// falls on the zero padding.
pub fn conv_tap(t: usize, k: usize, stride: usize, padding: usize, seq_len: usize) -> (r: Option<
    usize,
>)
    requires
        taps_fit(t as int, stride as int, padding as int, k as int, seq_len as int),
    ensures
        r matches Some(p) ==> tap_spec(t as int, k as int, stride as int, padding as int, seq_len as int)
            == Some(p as int),
        r is None ==> tap_spec(t as int, k as int, stride as int, padding as int, seq_len as int) is None,
{
    let base = t * stride + k;
    if base >= padding && base - padding < seq_len {
        Some(base - padding)
    } else {
        None
    }
}

/// The start of the input window of output `t` when no tap falls on padding.
pub fn conv_window(t: usize, stride: usize, padding: usize, kernel: usize, seq_len: usize) -> (r:
    Option<usize>)
    requires
        taps_fit(t as int, stride as int, padding as int, kernel as int, seq_len as int),
    ensures
        r matches Some(s) ==> window_spec(
            t as int,
            stride as int,
            padding as int,
            kernel as int,
            seq_len as int,
        ) == Some(s as int),
        r is None ==> window_spec(t as int, stride as int, padding as int, kernel as int, seq_len as int) is None,
{
    let base = t * stride;
    if base >= padding && base - padding + kernel <= seq_len {
        Some(base - padding)
    } else {
        None
    }
}

/// The contiguous fast path of the convolution reads exactly what the
/// tap-by-tap path reads: when the window of output `t` lies in the input,
/// tap `k` reads window position `k`.
pub proof fn lemma_window_matches_taps(
    t: int,
    k: int,
    stride: int,
    padding: int,
    kernel: int,
    seq_len: int,
)
    requires
        0 <= k < kernel,
        window_spec(t, stride, padding, kernel, seq_len) is Some,
    ensures
        tap_spec(t, k, stride, padding, seq_len) == Some(
            window_spec(t, stride, padding, kernel, seq_len).unwrap() + k,
        ),
{
}

/// Flat index of `(b, c, t)` in a `[_, channels, seq_len]` buffer.
pub open spec fn flat3(b: int, c: int, t: int, channels: int, seq_len: int) -> int {
    b * (channels * seq_len) + c * seq_len + t
}

/// Output element `idx` of the magnitude of a `[batch, channels, seq]` STFT
/// buffer whose first `cutoff` channels are real parts and next `cutoff`
/// imaginary parts: the pair (real, imaginary) it combines.
pub open spec fn complex_pair_spec<T>(
    data: Seq<T>,
    idx: int,
    channels: int,
    seq_len: int,
    cutoff: int,
) -> (T, T) {
    let b = idx / (cutoff * seq_len);
    let c = (idx / seq_len) % cutoff;
    let t = idx % seq_len;
    (data[flat3(b, c, t, channels, seq_len)], data[flat3(b, c + cutoff, t, channels, seq_len)])
}

pub open spec fn complex_pairs_ok(len: int, batch: int, channels: int, seq_len: int, cutoff: int) -> bool {
    &&& 2 * cutoff <= channels
    &&& batch * channels * seq_len <= len
    &&& batch * cutoff <= usize::MAX
    &&& batch * cutoff * seq_len <= usize::MAX
}

proof fn lemma_complex_in_range(idx: int, batch: int, channels: int, seq_len: int, cutoff: int)
    requires
        0 <= idx < batch * cutoff * seq_len,
        batch >= 0,
        seq_len >= 0,
        cutoff >= 0,
        2 * cutoff <= channels,
    ensures
        cutoff * seq_len > 0,
        seq_len > 0,
        ({
            let b = idx / (cutoff * seq_len);
            let c = (idx / seq_len) % cutoff;
            let t = idx % seq_len;
            &&& 0 <= flat3(b, c, t, channels, seq_len)
            &&& flat3(b, c + cutoff, t, channels, seq_len) < batch * channels * seq_len
            &&& flat3(b, c, t, channels, seq_len) < flat3(b, c + cutoff, t, channels, seq_len)
        }),
{
    assert(cutoff * seq_len > 0 && seq_len > 0 && cutoff > 0) by (nonlinear_arith)
        requires
            0 <= idx < batch * cutoff * seq_len,
            batch >= 0,
            seq_len >= 0,
            cutoff >= 0,
    ;
    let b = idx / (cutoff * seq_len);
    let c = (idx / seq_len) % cutoff;
    let t = idx % seq_len;
    assert(0 <= b < batch) by (nonlinear_arith)
        requires
            0 <= idx < batch * cutoff * seq_len,
            cutoff * seq_len > 0,
            b == idx / (cutoff * seq_len),
    ;
    assert(0 <= c < cutoff) by (nonlinear_arith)
        requires
            cutoff > 0,
            seq_len > 0,
            idx >= 0,
            c == (idx / seq_len) % cutoff,
    ;
    assert(0 <= t < seq_len) by (nonlinear_arith)
        requires
            seq_len > 0,
            t == idx % seq_len,
    ;
    assert(0 <= b * (channels * seq_len) + c * seq_len + t) by (nonlinear_arith)
        requires
            0 <= b,
            0 <= c,
            0 <= t,
            channels >= 0,
            seq_len >= 0,
    ;
    assert(b * (channels * seq_len) + (c + cutoff) * seq_len + t < batch * channels * seq_len) by (
    nonlinear_arith)
        requires
            0 <= b < batch,
            0 <= c < cutoff,
            2 * cutoff <= channels,
            0 <= t < seq_len,
    ;
    assert(c * seq_len < (c + cutoff) * seq_len) by (nonlinear_arith)
        requires
            cutoff > 0,
            seq_len > 0,
    ;
}

/// For each element of the `[batch, cutoff, seq_len]` magnitude, in row-major
/// order, the (real, imaginary) pair of STFT values it is computed from.
pub fn complex_pairs<T: Copy>(
    data: &[T],
    batch: usize,
    channels: usize,
    seq_len: usize,
    cutoff: usize,
) -> (r: Vec<(T, T)>)
    requires
        complex_pairs_ok(data.len() as int, batch as int, channels as int, seq_len as int, cutoff as int),
    ensures
        r@ == Seq::new(
            (batch * cutoff * seq_len) as nat,
            |idx: int| complex_pair_spec(data@, idx, channels as int, seq_len as int, cutoff as int),
        ),
{
    let total = batch * cutoff * seq_len;
    let mut r: Vec<(T, T)> = Vec::new();
    let mut idx: usize = 0;
    while idx < total
        invariant
            complex_pairs_ok(data.len() as int, batch as int, channels as int, seq_len as int, cutoff as int),
            total == batch * cutoff * seq_len,
            0 <= idx <= total,
            r@ =~= Seq::new(
                idx as nat,
                |j: int| complex_pair_spec(data@, j, channels as int, seq_len as int, cutoff as int),
            ),
        decreases total - idx,
    {
        proof {
            lemma_complex_in_range(idx as int, batch as int, channels as int, seq_len as int, cutoff as int);
            let bb = idx as int / (cutoff as int * seq_len as int);
            let cc = (idx as int / seq_len as int) % (cutoff as int);
            let tt = idx as int % seq_len as int;
            assert(0 <= bb < batch && 0 <= cc < cutoff && 0 <= tt < seq_len) by (nonlinear_arith)
                requires
                    0 <= idx < batch * cutoff * seq_len,
                    cutoff * seq_len > 0,
                    seq_len > 0,
                    cutoff > 0 || batch * cutoff * seq_len == 0,
                    bb == idx as int / (cutoff as int * seq_len as int),
                    cc == (idx as int / seq_len as int) % (cutoff as int),
                    tt == idx as int % seq_len as int,
            ;
            assert(cutoff * seq_len <= total && channels * seq_len <= batch * channels * seq_len
                && bb * (channels * seq_len) <= batch * channels * seq_len && (cc + cutoff)
                * seq_len <= channels * seq_len) by (nonlinear_arith)
                requires
                    0 <= bb < batch,
                    0 <= cc < cutoff,
                    2 * cutoff <= channels,
                    seq_len > 0,
                    total == batch * cutoff * seq_len,
            ;
        }
        let b = idx / (cutoff * seq_len);
        let c = (idx / seq_len) % cutoff;
        let t = idx % seq_len;
        let re = b * (channels * seq_len) + c * seq_len + t;
        let im = b * (channels * seq_len) + (c + cutoff) * seq_len + t;
        r.push((data[re], data[im]));
        idx = idx + 1;
    }
    r
}

/// Whether [`reflect_pad_1d`] can be called (see [`reflect_pad_ok`]).
pub fn reflect_pad_checkable(len: usize, batch: usize, channels: usize, seq_len: usize, pad: usize) -> (b:
    bool)
    ensures
        b == reflect_pad_ok(len as int, batch as int, channels as int, seq_len as int, pad as int),
{
    if !(pad == 0 || pad < seq_len) {
        return false;
    }
    if seq_len > usize::MAX - pad {
        return false;
    }
    let ns = seq_len + pad;
    let bc = match batch.checked_mul(channels) {
        Some(v) => v,
        None => {
            return false;
        },
    };
    let total = match bc.checked_mul(ns) {
        Some(v) => v,
        None => {
            return false;
        },
    };
    proof {
        assert(bc * seq_len <= bc * ns) by (nonlinear_arith)
            requires
                seq_len <= ns,
                bc >= 0,
        ;
    }
    bc * seq_len <= len
}

/// Whether [`conv1d_out_len`] can be called.
pub fn conv_len_checkable(seq_len: usize, kernel: usize, stride: usize, padding: usize) -> (b: bool)
    ensures
        b == (stride > 0 && seq_len + 2 * padding <= usize::MAX && kernel <= seq_len + 2 * padding
            && conv_out_len_spec(seq_len as int, kernel as int, stride as int, padding as int)
            <= usize::MAX),
{
    if stride == 0 || padding > (usize::MAX - seq_len) / 2 {
        return false;
    }
    let span = seq_len + 2 * padding;
    if kernel > span {
        return false;
    }
    (span - kernel) / stride < usize::MAX
}

/// Whether the taps of output `t` can be located (see [`taps_fit`]).
pub fn taps_checkable(t: usize, stride: usize, padding: usize, kernel: usize, seq_len: usize) -> (b:
    bool)
    ensures
        b == taps_fit(t as int, stride as int, padding as int, kernel as int, seq_len as int),
{
    let limit = isize::MAX as usize;
    if padding > limit || seq_len > limit {
        return false;
    }
    match t.checked_mul(stride) {
        Some(v) => v <= limit && kernel <= limit - v,
        None => false,
    }
}

/// Whether [`complex_pairs`] can be called (see [`complex_pairs_ok`]).
pub fn complex_pairs_checkable(len: usize, batch: usize, channels: usize, seq_len: usize, cutoff: usize) -> (b:
    bool)
    ensures
        b == complex_pairs_ok(len as int, batch as int, channels as int, seq_len as int, cutoff as int),
{
    if cutoff > channels / 2 {
        return false;
    }
    let bcut = match batch.checked_mul(cutoff) {
        Some(v) => v,
        None => {
            return false;
        },
    };
    if bcut.checked_mul(seq_len).is_none() {
        return false;
    }
    let bc = match batch.checked_mul(channels) {
        Some(v) => v,
        None => {
            return batch_channels_seq_small(batch, channels, seq_len, len);
        },
    };
    match bc.checked_mul(seq_len) {
        Some(v) => v <= len,
        None => false,
    }
}

/// `batch * channels * seq_len <= len`, when `batch * channels` overflows.
fn batch_channels_seq_small(batch: usize, channels: usize, seq_len: usize, len: usize) -> (b: bool)
    requires
        batch * channels > usize::MAX,
    ensures
        b == (batch * channels * seq_len <= len),
{
    if seq_len == 0 {
        return true;
    }
    proof {
        assert(batch * channels * seq_len >= batch * channels) by (nonlinear_arith)
            requires
                seq_len >= 1,
                batch * channels >= 0,
        ;
    }
    false
}

/// The input sizes of an LSTM cell step, when the shapes agree: a single
/// input row `[1, input_size]`, a hidden state `[_, hidden]`, input weights
/// `[4 * hidden, input_size]` and hidden weights `[4 * hidden, hidden]`.
pub open spec fn lstm_dims_spec(
    x: Seq<usize>,
    h: Seq<usize>,
    w_ih: Seq<usize>,
    w_hh: Seq<usize>,
) -> Option<(int, int)> {
    if x.len() >= 2 && h.len() >= 2 && w_ih.len() >= 2 && w_hh.len() >= 2 && x[0] == 1 && w_ih[0]
        == 4 * h[1] && w_ih[1] == x[1] && w_hh[0] == 4 * h[1] && w_hh[1] == h[1] {
        Some((x[1] as int, h[1] as int))
    } else {
        None
    }
}

/// `(input_size, hidden_size)` of an LSTM cell step, or `None` when the shapes
/// disagree (see [`lstm_dims_spec`]).
pub fn lstm_dims(x: &[usize], h: &[usize], w_ih: &[usize], w_hh: &[usize]) -> (r: Option<(usize, usize)>)
    ensures
        match lstm_dims_spec(x@, h@, w_ih@, w_hh@) {
            Some(d) => r matches Some(v) && v.0 == d.0 && v.1 == d.1,
            None => r is None,
        },
{
    if x.len() < 2 || h.len() < 2 || w_ih.len() < 2 || w_hh.len() < 2 {
        return None;
    }
    let hidden = h[1];
    if x[0] != 1 || hidden > usize::MAX / 4 {
        return None;
    }
    if w_ih[0] != 4 * hidden || w_ih[1] != x[1] || w_hh[0] != 4 * hidden || w_hh[1] != hidden {
        return None;
    }
    Some((x[1], hidden))
}

/// `(batch, in_channels, seq_len, out_channels, kernel)` of a 1-D convolution
/// of a `[batch, in_channels, seq_len]` input by `[out_channels, in_channels,
/// kernel]` weights, or `None` when the shapes disagree.
pub fn conv1d_dims(input: &[usize], weight: &[usize]) -> (r: Option<(usize, usize, usize, usize, usize)>)
    ensures
        (input.len() == 3 && weight.len() == 3 && input[1] == weight[1]) <==> r is Some,
        r matches Some(d) ==> d.0 == input[0] && d.1 == input[1] && d.2 == input[2] && d.3
            == weight[0] && d.4 == weight[2],
{
    if input.len() != 3 || weight.len() != 3 || input[1] != weight[1] {
        return None;
    }
    Some((input[0], input[1], input[2], weight[0], weight[2]))
}

} // verus!
