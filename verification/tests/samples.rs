use silero_vad_rust::audio::{
    collect_chunks, downsample, drop_chunks, last_samples, step_for_rate, window, with_context,
};
use silero_vad_rust::layout::{
    complex_pairs, complex_pairs_checkable, conv1d_dims, conv1d_out_len, conv_len_checkable,
    conv_tap, conv_window, lstm_dims, reflect_pad_1d, reflect_pad_1d_into, reflect_pad_checkable,
    taps_checkable,
};

#[test]
fn rates_map_to_decimation_steps() {
    assert_eq!(step_for_rate(16000).unwrap(), 1);
    assert_eq!(step_for_rate(48000).unwrap(), 3);
    assert_eq!(step_for_rate(32000).unwrap(), 2);
    assert_eq!(step_for_rate(0).err().unwrap().message(), "Sampling rate must be greater than zero");
    assert_eq!(
        step_for_rate(44100).err().unwrap().message(),
        "Currently custom silero VAD model only supports 16000 (or multiply of 16000) sample rate"
    );
    assert!(step_for_rate(8000).is_err());
}

#[test]
fn downsample_keeps_every_step() {
    let a: Vec<u32> = (0..10).collect();
    assert_eq!(downsample(&a, 3), vec![0, 3, 6, 9]);
    assert_eq!(downsample(&a, 1), a);
    assert_eq!(downsample(&a, 20), vec![0]);
    assert!(downsample::<u32>(&[], 2).is_empty());
}

#[test]
fn window_pads_with_zero() {
    let a = [1.0f32, 2.0, 3.0, 4.0, 5.0];
    assert_eq!(window(&a, 0, 3, 0.0), vec![1.0, 2.0, 3.0]);
    assert_eq!(window(&a, 3, 4, 0.0), vec![4.0, 5.0, 0.0, 0.0]);
}

#[test]
fn context_is_prepended_and_kept() {
    assert_eq!(with_context(&[1, 2], &[3, 4, 5]), vec![1, 2, 3, 4, 5]);
    assert_eq!(last_samples(&[1, 2, 3, 4, 5], 2), vec![4, 5]);
}

#[test]
fn collect_and_drop_chunks() {
    let wav: Vec<u32> = (0..10).collect();
    let spans = [(1, 3), (5, 7)];
    let kept = collect_chunks(&spans, &wav, false, None).unwrap();
    let rest = drop_chunks(&spans, &wav, false, None).unwrap();
    assert_eq!(kept, vec![1, 2, 5, 6]);
    assert_eq!(rest, vec![0, 3, 4, 7, 8, 9]);
    assert_eq!(kept.len() + rest.len(), wav.len());
}

#[test]
fn chunks_are_clipped_and_skipped() {
    let wav: Vec<u32> = (0..10).collect();
    let spans = [(4, 2), (8, 20)];
    assert_eq!(collect_chunks(&spans, &wav, false, None).unwrap(), vec![8, 9]);
    // an inverted span still moves the cursor only to its end, so samples 2..4 come twice
    assert_eq!(
        drop_chunks(&spans, &wav, false, None).unwrap(),
        vec![0, 1, 2, 3, 2, 3, 4, 5, 6, 7]
    );
    assert!(collect_chunks::<u32>(&[], &wav, false, None).unwrap().is_empty());
    assert_eq!(drop_chunks::<u32>(&[], &wav, false, None).unwrap(), wav);
}

#[test]
fn chunks_in_seconds_need_a_rate() {
    let wav = [0u8; 4];
    let e = collect_chunks(&[(0, 1)], &wav, true, None).err().unwrap();
    assert_eq!(e.message(), "sampling_rate must be provided when seconds is true");
    let e = drop_chunks(&[(0, 1)], &wav, true, None).err().unwrap();
    assert_eq!(e.message(), "sampling_rate must be provided when seconds is true");
    assert!(collect_chunks(&[(0, 1)], &wav, true, Some(16000)).is_ok());
}

#[test]
fn reflect_padding() {
    let x = [1, 2, 3, 4];
    assert_eq!(reflect_pad_1d(&x, 1, 1, 4, 2), vec![1, 2, 3, 4, 3, 2]);
    let y = [1, 2, 3, 10, 20, 30];
    assert_eq!(reflect_pad_1d(&y, 1, 2, 3, 2), vec![1, 2, 3, 2, 1, 10, 20, 30, 20, 10]);
    let mut out = [0; 6];
    reflect_pad_1d_into(&x, 1, 1, 4, 2, &mut out);
    assert_eq!(out, [1, 2, 3, 4, 3, 2]);
    assert!(reflect_pad_checkable(4, 1, 1, 4, 3));
    assert!(!reflect_pad_checkable(4, 1, 1, 4, 4));
    assert!(!reflect_pad_checkable(3, 1, 1, 4, 1));
}

#[test]
fn conv_geometry() {
    // STFT frontend: 640 padded samples, 256 taps, hop 128
    assert_eq!(conv1d_out_len(640, 256, 128, 0), 4);
    assert_eq!(conv1d_out_len(4, 3, 2, 1), 2);
    assert_eq!(conv1d_out_len(2, 3, 2, 1), 1);
    assert!(conv_len_checkable(4, 3, 2, 1));
    assert!(!conv_len_checkable(1, 5, 1, 1));
    assert!(!conv_len_checkable(4, 3, 0, 1));
    assert_eq!(conv_tap(0, 0, 1, 1, 4), None);
    assert_eq!(conv_tap(0, 1, 1, 1, 4), Some(0));
    assert_eq!(conv_tap(3, 2, 1, 1, 4), None);
    assert_eq!(conv_window(1, 2, 1, 3, 4), Some(1));
    assert_eq!(conv_window(0, 2, 1, 3, 4), None);
    assert!(taps_checkable(3, 2, 1, 3, 4));
    assert!(!taps_checkable(usize::MAX, 2, 1, 3, 4));
}

#[test]
fn complex_halves_pair_up() {
    // [1, 4, 2]: channels 0,1 real, 2,3 imaginary
    let x = [1, 2, 3, 4, 5, 6, 7, 8];
    assert!(complex_pairs_checkable(8, 1, 4, 2, 2));
    assert_eq!(complex_pairs(&x, 1, 4, 2, 2), vec![(1, 5), (2, 6), (3, 7), (4, 8)]);
    assert!(!complex_pairs_checkable(8, 1, 4, 2, 3));
}

#[test]
fn shape_checks() {
    assert_eq!(lstm_dims(&[1, 128], &[1, 64], &[256, 128], &[256, 64]), Some((128, 64)));
    assert_eq!(lstm_dims(&[2, 128], &[1, 64], &[256, 128], &[256, 64]), None);
    assert_eq!(lstm_dims(&[1, 128], &[1, 64], &[256, 100], &[256, 64]), None);
    assert_eq!(conv1d_dims(&[1, 129, 4], &[128, 129, 3]), Some((1, 129, 4, 128, 3)));
    assert_eq!(conv1d_dims(&[1, 128, 4], &[128, 129, 3]), None);
}

#[test]
fn fast_window_reads_the_same_taps() {
    // every output of a stride-2, pad-1, 3-tap convolution over 9 inputs
    for t in 0..5 {
        if let Some(start) = conv_window(t, 2, 1, 3, 9) {
            for k in 0..3 {
                assert_eq!(conv_tap(t, k, 2, 1, 9), Some(start + k));
            }
        }
    }
    assert_eq!(conv_window(3, 2, 1, 3, 9), Some(5));
    assert_eq!(conv_window(4, 2, 1, 3, 9), None);
}

#[test]
fn partition_of_ordered_spans() {
    let wav: Vec<u16> = (0..100).collect();
    let spans = [(0, 10), (10, 25), (40, 41), (90, 100)];
    let kept = collect_chunks(&spans, &wav, false, None).unwrap();
    let rest = drop_chunks(&spans, &wav, false, None).unwrap();
    assert_eq!(kept.len() + rest.len(), wav.len());
    assert_eq!(rest.first(), Some(&25));
    assert_eq!(rest.last(), Some(&89));
}

#[test]
fn partition_with_empty_and_clipped_spans() {
    let wav: Vec<u16> = (0..50).collect();
    // an empty span, and a span running past the end of the recording
    let spans = [(5, 5), (10, 20), (45, 80)];
    let kept = collect_chunks(&spans, &wav, false, None).unwrap();
    let rest = drop_chunks(&spans, &wav, false, None).unwrap();
    assert_eq!(kept.len() + rest.len(), wav.len());
    assert_eq!(kept, (10..20).chain(45..50).collect::<Vec<u16>>());
}

#[test]
fn drop_removes_exactly_the_covered_samples() {
    let wav: Vec<u16> = (0..30).collect();
    // sorted by start, overlapping: samples 3..12 and 20..25 are covered
    let spans = [(3, 8), (5, 12), (6, 7), (20, 25)];
    let rest = drop_chunks(&spans, &wav, false, None).unwrap();
    let expected: Vec<u16> = (0..30).filter(|k| !((3..12).contains(k) || (20..25).contains(k))).collect();
    assert_eq!(rest, expected);
}

#[test]
fn laws_hold_for_spans_sorted_once_clipped() {
    let wav: Vec<u16> = (0..50).collect();
    // past the end, (60, 55) and (55, 70) both clip to the empty span (50, 50)
    let spans = [(10, 20), (60, 55), (55, 70)];
    let kept = collect_chunks(&spans, &wav, false, None).unwrap();
    let rest = drop_chunks(&spans, &wav, false, None).unwrap();
    assert_eq!(kept, (10..20).collect::<Vec<u16>>());
    assert_eq!(rest, (0..10).chain(20..50).collect::<Vec<u16>>());
    assert_eq!(kept.len() + rest.len(), wav.len());
}
