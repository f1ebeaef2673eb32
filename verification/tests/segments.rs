use silero_vad_rust::postprocess::{apply_vad_config, SegmentConfig};
use silero_vad_rust::timestamps::{
    fits_in_memory_exec, num_windows, speech_segments, Frame, TimestampParams,
};

fn frames_from(pattern: &str) -> Vec<Frame> {
    pattern
        .chars()
        .map(|c| match c {
            's' => Frame { speech: true, silence: false },
            '.' => Frame { speech: false, silence: true },
            _ => Frame { speech: false, silence: false },
        })
        .collect()
}

fn default_params() -> TimestampParams {
    TimestampParams {
        min_speech_duration_ms: 250,
        min_silence_duration_ms: 100,
        speech_pad_ms: 30,
        min_silence_at_max_speech: 98,
        use_max_possible_silence: true,
        max_speech_samples: None,
    }
}

fn default_config() -> SegmentConfig {
    SegmentConfig {
        min_speech_duration_ms: 250,
        min_silence_duration_ms: 100,
        speech_pad_ms: 30,
        min_silence_at_max_speech_ms: 98,
        max_speech_samples: None,
    }
}

#[test]
fn window_count_covers_audio() {
    assert_eq!(num_windows(0), 0);
    assert_eq!(num_windows(1), 1);
    assert_eq!(num_windows(512), 1);
    assert_eq!(num_windows(513), 2);
    assert!(fits_in_memory_exec(10240));
    assert!(fits_in_memory_exec(usize::MAX / 2));
    assert!(!fits_in_memory_exec(usize::MAX / 2 + 1));
}

#[test]
fn single_segment_is_padded() {
    // windows 2..=9 speech, the rest silence; 20 windows of audio
    let frames = frames_from("..ssssssss..........");
    let segs = speech_segments(&frames, 20 * 512, &default_params());
    assert_eq!(segs, vec![(1024 - 480, 5120 + 480)]);
}

#[test]
fn short_speech_is_discarded() {
    // 4 windows = 2048 samples of speech, under the 4000-sample minimum
    let frames = frames_from("..ssss..............");
    let segs = speech_segments(&frames, 20 * 512, &default_params());
    assert!(segs.is_empty());
}

#[test]
fn open_segment_is_closed_at_end_of_audio() {
    let frames = frames_from("..ssssssssssssssssss");
    let len = 20 * 512 - 100;
    let segs = speech_segments(&frames, len, &default_params());
    // starts at window 2, padded; runs to the end of the audio (clipped)
    assert_eq!(segs, vec![(1024 - 480, len)]);
}

#[test]
fn close_segments_share_the_gap() {
    // pad 100 ms = 1600 samples; gap between segments is 2048 samples (< 2 * pad)
    let mut p = default_params();
    p.speech_pad_ms = 100;
    p.min_silence_duration_ms = 50; // 800 samples
    let frames = frames_from("sssssssss....sssssssss.........");
    let segs = speech_segments(&frames, 31 * 512, &p);
    assert_eq!(segs.len(), 2);
    // first segment: 0..4608, second: 6656..11264; gap 2048 split evenly
    assert_eq!(segs[0], (0, 4608 + 1024));
    assert_eq!(segs[1], (6656 - 1024, 11264 + 1600));
    assert!(segs[0].1 <= segs[1].0);
}

#[test]
fn long_segment_is_split_at_the_maximum() {
    let mut p = default_params();
    p.max_speech_samples = Some(4096);
    p.speech_pad_ms = 0;
    let frames = frames_from("ssssssssssssssssssss");
    let segs = speech_segments(&frames, 20 * 512, &p);
    // no silence candidates: the segment is cut where it first exceeds the maximum
    assert_eq!(segs[0], (0, 4608));
    for w in segs.windows(2) {
        assert!(w[0].1 <= w[1].0);
    }
    for s in &segs {
        assert!(s.0 < s.1 && s.1 <= 20 * 512);
    }
}

#[test]
fn split_uses_longest_silence_candidate() {
    let mut p = default_params();
    p.max_speech_samples = Some(8000);
    p.speech_pad_ms = 0;
    p.min_silence_at_max_speech = 10; // 160 samples
    p.min_silence_duration_ms = 1000; // never closes on silence
    // speech, a 1-window silence, speech, a 3-window silence, speech...
    let frames = frames_from("sss.ss...ssssssssssss");
    let segs = speech_segments(&frames, 21 * 512, &p);
    // the split happens at the longer silence (starting at window 6)
    assert_eq!(segs[0], (0, 6 * 512));
    assert_eq!(segs[1].0, 9 * 512);
}

#[test]
fn detector_post_processing_matches_hand_computation() {
    let frames = frames_from("..ssssssss..........");
    let segs = apply_vad_config(&frames, 20 * 512, &default_config());
    assert_eq!(segs, vec![(1024 - 480, 5120 + 480)]);
}

#[test]
fn detector_post_processing_splits_small_gaps() {
    let mut c = default_config();
    c.speech_pad_ms = 100;
    c.min_silence_duration_ms = 50;
    let frames = frames_from("sssssssss....sssssssss.........");
    let segs = apply_vad_config(&frames, 31 * 512, &c);
    assert_eq!(segs.len(), 2);
    // the gap of 2048 samples (under two pads) is split evenly between the two
    assert_eq!(segs[0], (0, 4608 + 1024));
    assert_eq!(segs[1], (6656 - 1024, 11264 + 1600));
    assert!(segs[0].1 <= segs[1].0);
}

#[test]
fn detector_post_processing_close_segments_meet() {
    let mut c = default_config();
    c.min_speech_duration_ms = 0;
    c.min_silence_duration_ms = 0;
    c.speech_pad_ms = 100;
    let frames = frames_from("s.s.");
    let segs = apply_vad_config(&frames, 2048, &c);
    assert_eq!(segs, vec![(0, 768), (768, 2048)]);
}

#[test]
fn detector_post_processing_without_pad_does_not_overlap() {
    let mut c = default_config();
    c.speech_pad_ms = 0;
    c.min_silence_duration_ms = 50;
    let frames = frames_from("sssssssss....sssssssss.........");
    let segs = apply_vad_config(&frames, 31 * 512, &c);
    assert_eq!(segs, vec![(0, 4608), (6656, 11264)]);
}

#[test]
fn detector_post_processing_keeps_open_segment() {
    let frames = frames_from("....ssssssssssssssss");
    let segs = apply_vad_config(&frames, 20 * 512, &default_config());
    assert_eq!(segs, vec![(2048 - 480, 20 * 512)]);
}

#[test]
fn detector_post_processing_forced_split() {
    let mut c = default_config();
    c.max_speech_samples = Some(4096);
    c.speech_pad_ms = 0;
    let frames = frames_from("ssssssssssssssssssss");
    let segs = apply_vad_config(&frames, 20 * 512, &c);
    assert_eq!(segs[0], (0, 4608));
    for w in segs.windows(2) {
        assert!(w[0].1 <= w[1].0);
    }
}

#[test]
fn default_configuration_never_overlaps() {
    let frames = frames_from("..ssssssss......ssssssssss......sssssssss.........");
    let len = frames.len() * 512;
    let segs = apply_vad_config(&frames, len, &default_config());
    assert_eq!(segs.len(), 3);
    for (i, s) in segs.iter().enumerate() {
        assert!(s.0 < s.1 && s.1 <= len);
        if i > 0 {
            assert!(segs[i - 1].1 <= s.0);
        }
    }
    let segs = speech_segments(&frames, len, &default_params());
    for (i, s) in segs.iter().enumerate() {
        assert!(s.0 < s.1 && s.1 <= len);
        if i > 0 {
            assert!(segs[i - 1].1 <= s.0);
        }
    }
}

#[test]
fn detector_post_processing_drops_short_speech() {
    // 4 speech windows = 2048 samples, not longer than 250 ms = 4000 samples
    let frames = frames_from("..ssss..............");
    let segs = apply_vad_config(&frames, 20 * 512, &default_config());
    assert!(segs.is_empty());
    // 8 windows = 4096 samples is kept, and stays longer than the minimum once padded
    let frames = frames_from("..ssssssss..........");
    let segs = apply_vad_config(&frames, 20 * 512, &default_config());
    assert_eq!(segs.len(), 1);
    assert!(segs[0].1 - segs[0].0 > 4000);
}

#[test]
fn forced_splits_respect_the_length_bound() {
    // maximum 3000 samples, pad 30 ms = 480 samples: no segment is longer than
    // 3000 + 512 + 2 * 480 samples
    let frames = frames_from("ssssssssssssssssssssssssssssssssssssssss");
    let len = frames.len() * 512;
    let mut c = default_config();
    c.max_speech_samples = Some(3000);
    let segs = apply_vad_config(&frames, len, &c);
    assert!(segs.len() > 1);
    for s in &segs {
        assert!(s.1 - s.0 <= 3000 + 512 + 960);
    }
    let mut p = default_params();
    p.max_speech_samples = Some(3000);
    let segs = speech_segments(&frames, len, &p);
    assert!(segs.len() > 1);
    for s in &segs {
        assert!(s.1 - s.0 <= 3000 + 512 + 960);
    }
    // a negative maximum still cuts every segment within one window
    c.max_speech_samples = Some(-5);
    c.speech_pad_ms = 0;
    let segs = apply_vad_config(&frames, len, &c);
    for s in &segs {
        assert!(s.1 - s.0 <= 512);
    }
}

#[test]
fn huge_padding_is_clipped_to_the_audio() {
    let frames = frames_from("..ssssssss..........");
    let mut p = default_params();
    p.speech_pad_ms = u32::MAX;
    assert_eq!(speech_segments(&frames, 20 * 512, &p), vec![(0, 20 * 512)]);
    let mut c = default_config();
    c.speech_pad_ms = u32::MAX;
    assert_eq!(apply_vad_config(&frames, 20 * 512, &c), vec![(0, 20 * 512)]);
}
