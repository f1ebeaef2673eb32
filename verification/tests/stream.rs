use silero_vad_rust::stream::{IteratorState, StreamEvent};

#[test]
fn iterator_requires_16k() {
    let e = IteratorState::new(8000, 100, 30).err().unwrap();
    assert_eq!(e.message(), "VADIterator only supports 16000 Hz sampling rate");
    assert!(IteratorState::new(16000, 100, 30).is_ok());
}

#[test]
fn iterator_reports_start_then_end() {
    let mut st = IteratorState::new(16000, 100, 30).unwrap();
    // speech in the first chunk: start, padded back, clipped at 0
    assert_eq!(st.process_chunk(512, true, false), Some(StreamEvent::Start(0)));
    assert!(st.triggered());
    // more speech: nothing new
    assert_eq!(st.process_chunk(512, true, false), None);
    assert_eq!(st.current_sample(), 1024);
    // silence starts at 1536; 1600 samples are needed to end
    assert_eq!(st.process_chunk(512, false, true), None);
    assert_eq!(st.process_chunk(512, false, true), None);
    assert_eq!(st.process_chunk(512, false, true), None);
    assert_eq!(st.process_chunk(512, false, true), None);
    // silence of 2048 samples: end at 1536 + 480 - 512
    assert_eq!(st.process_chunk(512, false, true), Some(StreamEvent::End(1504)));
    assert!(!st.triggered());
    // a later onset is padded back
    assert_eq!(st.process_chunk(512, true, false), Some(StreamEvent::Start(4096 - 480 - 512)));
}

#[test]
fn iterator_ignores_empty_chunks_and_resets() {
    let mut st = IteratorState::new(16000, 100, 30).unwrap();
    assert_eq!(st.process_chunk(0, true, false), None);
    assert_eq!(st.current_sample(), 0);
    assert!(!st.triggered());
    st.process_chunk(512, true, false);
    st.reset_states(100, 30);
    assert_eq!(st.current_sample(), 0);
    assert!(!st.triggered());
    assert!(st.accepts(512));
}

#[test]
fn iterator_speech_cancels_pending_silence() {
    let mut st = IteratorState::new(16000, 100, 0).unwrap();
    st.process_chunk(512, true, false);
    assert_eq!(st.process_chunk(512, false, true), None);
    assert_eq!(st.process_chunk(512, true, false), None);
    // the pending silence was forgotten: a new one starts now
    for _ in 0..4 {
        assert_eq!(st.process_chunk(512, false, true), None);
    }
    assert_eq!(st.process_chunk(512, false, true), Some(StreamEvent::End(2048 - 512)));
}

#[test]
fn iterator_events_alternate() {
    let mut st = IteratorState::new(16000, 10, 0).unwrap();
    let pattern = "ss...s..ss.sss....s";
    let mut events = Vec::new();
    for c in pattern.chars() {
        if let Some(e) = st.process_chunk(512, c == 's', c == '.') {
            events.push(e);
        }
    }
    assert!(!events.is_empty());
    for (i, e) in events.iter().enumerate() {
        match e {
            StreamEvent::Start(_) => assert_eq!(i % 2, 0),
            StreamEvent::End(_) => assert_eq!(i % 2, 1),
        }
    }
}

#[test]
fn reset_iterator_behaves_like_a_fresh_one() {
    let pattern = "sss...ss.s.....ss";
    let run = |st: &mut IteratorState| -> Vec<Option<StreamEvent>> {
        pattern.chars().map(|c| st.process_chunk(512, c == 's', c == '.')).collect()
    };
    let mut fresh = IteratorState::new(16000, 50, 30).unwrap();
    let expected = run(&mut fresh);
    // a state left in the middle of speech, with a pending silence
    let mut used = IteratorState::new(16000, 50, 30).unwrap();
    used.process_chunk(512, true, false);
    used.process_chunk(512, false, true);
    assert!(used.triggered());
    used.reset_states(50, 30);
    assert_eq!(run(&mut used), expected);
}
