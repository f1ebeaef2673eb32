use silero_vad_rust::error::{make_error, SileroError};
use silero_vad_rust::safetensors::{
    build_index, check_tensor, header_text, utf8_header, frame_checkable, index_checkable, is_metadata_entry, parse_frame,
    tensor_checkable, HeaderEntry, SafeTensors, TensorMetadata, TensorView,
};
use silero_vad_rust::text::push_decimal;
use silero_vad_rust::weights::{model_weights, parse_failed, weight_name_list, NUM_WEIGHTS};

fn meta(dtype: &str, shape: Vec<usize>, a: usize, b: usize) -> TensorMetadata {
    TensorMetadata { dtype: dtype.to_string(), shape, data_offsets: [a, b] }
}

fn view(start: usize, end: usize) -> TensorView {
    TensorView { dtype: "F32".to_string(), shape: vec![(end - start) / 4], data_start: start, data_end: end }
}

#[test]
fn error_carries_message() {
    let e = make_error("boom".to_string());
    assert_eq!(e.message(), "boom");
    match e {
        SileroError::Message(m) => assert_eq!(m, "boom"),
    }
}

#[test]
fn decimal_formatting() {
    let mut s = String::from("n=");
    push_decimal(&mut s, 0);
    assert_eq!(s, "n=0");
    let mut s = String::new();
    push_decimal(&mut s, 1234567890);
    assert_eq!(s, "1234567890");
    let mut s = String::new();
    push_decimal(&mut s, u64::MAX);
    assert_eq!(s, u64::MAX.to_string());
}

#[test]
fn frame_too_short() {
    let e = parse_frame(&[1, 2, 3]).err().unwrap();
    assert_eq!(e.message(), "File too short: length is 3");
}

#[test]
fn frame_header_exceeds_file() {
    let mut bytes = vec![0u8; 12];
    bytes[0] = 10; // header of 10 bytes, but only 4 follow
    let e = parse_frame(&bytes).err().unwrap();
    assert_eq!(e.message(), "File corrupted: header size 10 exceeds file length 12");
}

#[test]
fn frame_locates_data() {
    let mut bytes = vec![0u8; 8 + 258 + 4];
    bytes[0] = 2;
    bytes[1] = 1; // 258 = 0x0102, little endian
    assert_eq!(parse_frame(&bytes).unwrap(), 8 + 258);
    assert!(frame_checkable(&bytes));
    let huge = [0xffu8; 8];
    assert!(!frame_checkable(&huge));
}

#[test]
fn tensor_rejects_other_dtypes() {
    let e = check_tensor(100, 10, "w", meta("F16", vec![2], 0, 8)).err().unwrap();
    assert_eq!(e.message(), "Unsupported datatype 'F16' for tensor 'w'. Only F32 is supported.");
}

#[test]
fn tensor_rejects_out_of_bounds() {
    let e = check_tensor(100, 10, "w", meta("F32", vec![30], 0, 120)).err().unwrap();
    assert_eq!(e.message(), "Tensor 'w' offset out of bounds: end is 130 but file size is 100");
}

#[test]
fn tensor_rejects_partial_floats() {
    let e = check_tensor(100, 10, "w", meta("F32", vec![1], 0, 6)).err().unwrap();
    assert_eq!(e.message(), "Tensor 'w' data size is not a multiple of 4 bytes");
}

#[test]
fn tensor_rejects_wrong_shape() {
    let e = check_tensor(100, 10, "w", meta("F32", vec![2, 3], 0, 16)).err().unwrap();
    assert_eq!(e.message(), "Tensor 'w' shape product is 6 but data has 4 elements");
}

#[test]
fn tensor_accepted_with_byte_range() {
    let v = check_tensor(100, 10, "w", meta("F32", vec![2, 3], 8, 32)).unwrap();
    assert_eq!((v.data_start, v.data_end), (18, 42));
    assert_eq!(v.shape, vec![2, 3]);
    assert_eq!(v.dtype, "F32");
}

#[test]
fn tensor_domain_checks() {
    assert!(tensor_checkable(100, 10, &meta("F32", vec![1], 0, 4)));
    // inverted range inside the file would be sliced backwards
    assert!(!tensor_checkable(100, 10, &meta("F32", vec![1], 8, 4)));
    // an overflowing shape product
    assert!(!tensor_checkable(100, 10, &meta("F32", vec![usize::MAX, 2], 0, 4)));
    // offsets overflowing the data start
    assert!(!tensor_checkable(100, 10, &meta("F32", vec![1], 0, usize::MAX)));
    // any other dtype is rejected before anything is computed
    assert!(tensor_checkable(100, 10, &meta("I8", vec![1], 0, usize::MAX)));
}

#[test]
fn metadata_entry_is_recognised() {
    assert!(is_metadata_entry("__metadata__"));
    assert!(!is_metadata_entry("conv1.weight"));
}

#[test]
fn index_reads_back_what_was_recorded() {
    let mut st = SafeTensors::new();
    assert_eq!(st.get("a").err().unwrap().message(), "Tensor 'a' not found in weights");
    st.insert("a".to_string(), view(0, 8));
    st.insert("b".to_string(), view(8, 16));
    assert_eq!(st.get("a").unwrap().data_start, 0);
    assert_eq!(st.get("b").unwrap().data_start, 8);
    st.insert("a".to_string(), view(16, 20));
    let a = st.get("a").unwrap();
    assert_eq!((a.data_start, a.data_end), (16, 20));
    assert_eq!(st.get("b").unwrap().data_end, 16);
    assert_eq!(st.num_entries(), 3);
}

#[test]
fn model_weights_in_order() {
    let names = weight_name_list();
    assert_eq!(names.len(), NUM_WEIGHTS);
    assert_eq!(names[0], "stft_conv.weight");
    assert_eq!(names[14], "final_conv.bias");
    let mut st = SafeTensors::new();
    for (i, n) in names.iter().enumerate().rev() {
        st.insert(n.to_string(), view(4 * i, 4 * i + 4));
    }
    let w = model_weights(&st).unwrap();
    assert_eq!(w.len(), 15);
    for (i, v) in w.iter().enumerate() {
        assert_eq!(v.data_start, 4 * i);
    }
}

#[test]
fn model_weights_report_first_missing() {
    let names = weight_name_list();
    let mut st = SafeTensors::new();
    for n in names.iter().take(9) {
        st.insert(n.to_string(), view(0, 4));
    }
    let e = model_weights(&st).err().unwrap();
    assert_eq!(e.message(), "Tensor 'lstm_cell.weight_ih' not found in weights");
}

#[test]
fn parse_failure_is_prefixed() {
    let e = parse_failed(make_error("File too short: length is 3".to_string()));
    assert_eq!(e.message(), "Failed to parse safetensors: File too short: length is 3");
}

fn entry(name: &str, m: Result<TensorMetadata, &str>) -> HeaderEntry {
    (name.to_string(), m.map_err(|e| e.to_string()))
}

#[test]
fn index_built_from_header_entries() {
    // data section starts at 10 in a 100-byte file
    let entries = vec![
        entry("__metadata__", Err("invalid type: map")),
        entry("a", Ok(meta("F32", vec![2], 0, 8))),
        entry("b", Ok(meta("F32", vec![2, 2], 8, 24))),
    ];
    assert!(index_checkable(100, 10, &entries));
    let st = build_index(100, 10, &entries).unwrap();
    assert_eq!(st.num_entries(), 2);
    let a = st.get("a").unwrap();
    assert_eq!((a.data_start, a.data_end), (10, 18));
    let b = st.get("b").unwrap();
    assert_eq!((b.data_start, b.data_end, b.shape.clone()), (18, 34, vec![2, 2]));
    assert!(st.get("__metadata__").is_err());
}

#[test]
fn index_stops_at_first_bad_entry() {
    let entries = vec![
        entry("a", Ok(meta("F32", vec![2], 0, 8))),
        entry("b", Err("missing field `shape`")),
        entry("c", Ok(meta("F16", vec![2], 0, 4))),
    ];
    let e = build_index(100, 10, &entries).err().unwrap();
    assert_eq!(e.message(), "Invalid tensor metadata for 'b': missing field `shape`");
    let entries = vec![
        entry("c", Ok(meta("F16", vec![2], 0, 4))),
        entry("b", Err("missing field `shape`")),
    ];
    let e = build_index(100, 10, &entries).err().unwrap();
    assert_eq!(e.message(), "Unsupported datatype 'F16' for tensor 'c'. Only F32 is supported.");
}

#[test]
fn index_domain_only_covers_entries_reached() {
    // an inverted range is out of the domain, unless an earlier entry already failed
    let bad = || entry("x", Ok(meta("F32", vec![1], 8, 4)));
    assert!(!index_checkable(100, 10, &vec![bad()]));
    let entries = vec![entry("y", Err("not a map")), bad()];
    assert!(index_checkable(100, 10, &entries));
    assert!(build_index(100, 10, &entries).is_err());
}

#[test]
fn header_text_is_decoded_or_refused() {
    let mut bytes = vec![2u8, 0, 0, 0, 0, 0, 0, 0];
    bytes.extend_from_slice(b"{}");
    assert_eq!(header_text(&bytes, 10).unwrap(), "{}");
    let bad = [1u8, 0, 0, 0, 0, 0, 0, 0, 0xff];
    let e = header_text(&bad, 9).err().unwrap();
    assert_eq!(
        e.message(),
        "Failed to parse header as UTF-8: invalid utf-8 sequence of 1 bytes from index 0"
    );
    assert_eq!(utf8_header(Ok("abc".to_string())).unwrap(), "abc");
    let e = utf8_header(Err("bad byte".to_string())).err().unwrap();
    assert_eq!(e.message(), "Failed to parse header as UTF-8: bad byte");
}

#[test]
fn index_keeps_the_last_entry_of_a_name() {
    let entries = vec![
        entry("a", Ok(meta("F32", vec![1], 0, 4))),
        entry("b", Ok(meta("F32", vec![1], 4, 8))),
        entry("a", Ok(meta("F32", vec![2], 8, 16))),
    ];
    let st = build_index(100, 10, &entries).unwrap();
    let a = st.get("a").unwrap();
    assert_eq!((a.data_start, a.data_end, a.shape.clone()), (18, 26, vec![2]));
    let b = st.get("b").unwrap();
    assert_eq!((b.data_start, b.data_end), (14, 18));
    assert!(st.get("c").is_err());
}
