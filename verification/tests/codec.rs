use ush::codec::{DecodeError, Decoder, Encoder, Format, MAX_FRAME_SIZE};

#[test]
fn test_msgpack_eof() {
    let mut decoder = Decoder::new(Vec::new());
    assert!(decoder.read_frame().unwrap().is_none());
}

#[test]
fn test_msgpack_roundtrip() {
    let frame = ("stdout_chunk".to_string(), "host1".to_string(), 0u64, "hello".to_string());
    let payload = rmp_serde::to_vec_named(&frame).unwrap();
    let mut encoder = Encoder::new(Format::Msgpack);
    encoder.write_frame(&payload);
    let bytes = encoder.flush();

    let mut decoder = Decoder::new(bytes);
    let decoded = decoder.read_frame().unwrap().unwrap();
    let (kind, target, seq, data): (String, String, u64, String) = rmp_serde::from_slice(&decoded).unwrap();
    assert_eq!(kind, "stdout_chunk");
    assert_eq!(target, "host1");
    assert_eq!(seq, 0);
    assert_eq!(data, "hello");
    assert!(decoder.read_frame().unwrap().is_none());
}

#[test]
fn test_json_roundtrip() {
    let mut frame = serde_json::Map::new();
    frame.insert("type".to_string(), serde_json::Value::String("stdout_chunk".to_string()));
    frame.insert("target".to_string(), serde_json::Value::String("host1".to_string()));
    frame.insert("data".to_string(), serde_json::Value::String("hello".to_string()));
    let payload = serde_json::to_vec(&serde_json::Value::Object(frame)).unwrap();
    let mut encoder = Encoder::new(Format::Json);
    encoder.write_frame(&payload);
    let s = String::from_utf8(encoder.flush()).unwrap();
    assert!(s.contains("stdout_chunk"));
    assert!(s.contains("host1"));
    assert!(s.ends_with('\n'));
}

#[test]
fn msgpack_frame_is_length_prefixed() {
    let mut encoder = Encoder::new(Format::Msgpack);
    encoder.write_frame(&[1, 2, 3]);
    encoder.write_legacy(&[9]);
    assert_eq!(encoder.flush(), vec![0, 0, 0, 3, 1, 2, 3, 0, 0, 0, 1, 9]);
}

#[test]
fn json_frame_ends_with_newline() {
    let mut encoder = Encoder::new(Format::Json);
    encoder.write_frame(b"{}");
    encoder.write_legacy(b"[]");
    assert_eq!(encoder.flush(), b"{}\n[]\n".to_vec());
    assert_eq!(encoder.format(), Format::Json);
}

#[test]
fn flush_empties_the_encoder() {
    let mut encoder = Encoder::new(Format::Msgpack);
    encoder.write_frame(&[7]);
    assert_eq!(encoder.flush().len(), 5);
    assert!(encoder.flush().is_empty());
}

#[test]
fn decoder_reads_frames_in_order() {
    let mut encoder = Encoder::new(Format::Msgpack);
    encoder.write_frame(b"one");
    encoder.write_frame(b"");
    encoder.write_legacy(b"three");
    let mut decoder = Decoder::new(encoder.flush());
    assert_eq!(decoder.read_frame().unwrap(), Some(b"one".to_vec()));
    assert_eq!(decoder.read_frame().unwrap(), Some(Vec::new()));
    assert_eq!(decoder.read_legacy().unwrap(), Some(b"three".to_vec()));
    assert_eq!(decoder.read_frame().unwrap(), None);
}

#[test]
fn decoder_rejects_oversized_frame() {
    let len = (MAX_FRAME_SIZE as u32) + 1;
    let mut decoder = Decoder::new(len.to_be_bytes().to_vec());
    assert!(matches!(decoder.read_frame(), Err(DecodeError::FrameTooLarge(n)) if n == MAX_FRAME_SIZE + 1));
}

#[test]
fn decoder_reports_truncated_frame() {
    let mut decoder = Decoder::new(vec![0, 0, 0, 4, 1, 2]);
    assert!(matches!(decoder.read_frame(), Err(DecodeError::Truncated)));
}

#[test]
fn decoder_treats_partial_prefix_as_end() {
    let mut decoder = Decoder::new(vec![0, 0]);
    assert!(decoder.read_frame().unwrap().is_none());
}

#[test]
fn json_stream_splits_back_into_payloads() {
    let payloads: Vec<&[u8]> = vec![b"{\"a\":1}", b"", b"[2]"];
    let mut encoder = Encoder::new(Format::Json);
    for p in &payloads {
        encoder.write_frame(p);
    }
    let bytes = encoder.flush();
    let lines: Vec<&[u8]> = bytes.split(|b| *b == b'\n').collect();
    assert_eq!(lines.len(), payloads.len() + 1);
    for (line, p) in lines.iter().zip(payloads.iter()) {
        assert_eq!(line, p);
    }
    assert!(lines[payloads.len()].is_empty());
}

#[test]
fn decode_error_messages() {
    assert_eq!(DecodeError::FrameTooLarge(16777217).message(), "frame length 16777217 exceeds maximum 16777216");
    assert_eq!(DecodeError::Truncated.message(), "failed to fill whole buffer");
}
