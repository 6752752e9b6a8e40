use std::collections::HashSet;

use vertov::crc::{crc32c, MaskedCrc};
use vertov::event::{DataClass, Event, EventPayload, SummaryPayload};
use vertov::hparams::{session_start_hparams, HparamValue, SESSION_START_INFO_TAG};
use vertov::reader::{EventFileReader, ReadEventError};
use vertov::record::{ByteStream, ChecksumError, ReadRecordError, RecordReader};
use vertov::wire::{packed_f32, packed_f64, DecodeError, MessageReader};
use vertov::writer::{events_file, histogram_event, scalar_event, write_record};

fn varint(mut value: u64, out: &mut Vec<u8>) {
    loop {
        let byte = (value & 0x7F) as u8;
        value >>= 7;
        if value == 0 {
            out.push(byte);
            return;
        }
        out.push(byte | 0x80);
    }
}

fn field_varint(field: u32, value: u64, out: &mut Vec<u8>) {
    varint(u64::from(field) << 3, out);
    varint(value, out);
}

fn field_double(field: u32, value: f64, out: &mut Vec<u8>) {
    varint(u64::from(field) << 3 | 1, out);
    out.extend_from_slice(&value.to_bits().to_le_bytes());
}

fn field_float(field: u32, value: f32, out: &mut Vec<u8>) {
    varint(u64::from(field) << 3 | 5, out);
    out.extend_from_slice(&value.to_bits().to_le_bytes());
}

fn field_bytes(field: u32, value: &[u8], out: &mut Vec<u8>) {
    varint(u64::from(field) << 3 | 2, out);
    varint(value.len() as u64, out);
    out.extend_from_slice(value);
}

fn double(bits: Option<u64>) -> Option<f64> {
    bits.map(f64::from_bits)
}

#[test]
fn crc32c_known_vectors() {
    assert_eq!(crc32c(&[0u8; 32]), 0x8A91_36AA);
    assert_eq!(crc32c(&[0xFFu8; 32]), 0x62A8_AB43);
    assert_eq!(crc32c(b""), 0);
    assert_eq!(crc32c(b"123456789"), 0xE306_9283);
}

#[test]
fn masked_crc_matches_rustboard_vector() {
    assert_eq!(
        MaskedCrc::compute(b"\x1a\x11CRC test, one two"),
        MaskedCrc(0x5794_d08a)
    );
}

#[test]
fn mask_is_injective_on_samples() {
    let inputs: &[&[u8]] = &[b"", b"a", b"ab", b"abc", b"\x00", b"\x00\x00"];
    let mut seen = HashSet::new();
    for input in inputs {
        assert!(seen.insert(MaskedCrc::compute(input).0));
    }
}

fn tf1_scalar_event(wall_time: f64, step: i64, tag: &str, value: f32) -> Vec<u8> {
    let mut summary_value = Vec::new();
    field_bytes(1, tag.as_bytes(), &mut summary_value);
    field_float(2, value, &mut summary_value);
    let mut summary = Vec::new();
    field_bytes(1, &summary_value, &mut summary);
    let mut event = Vec::new();
    field_double(1, wall_time, &mut event);
    field_varint(2, step as u64, &mut event);
    field_bytes(5, &summary, &mut event);
    event
}

#[test]
fn decodes_file_version() {
    let mut buf = Vec::new();
    field_double(1, 123.5, &mut buf);
    field_bytes(3, b"brain.Event:2", &mut buf);
    let event = Event::decode(&buf).unwrap();
    assert_eq!(f64::from_bits(event.wall_time), 123.5);
    assert_eq!(event.step, 0);
    assert_eq!(event.payload, EventPayload::FileVersion("brain.Event:2".into()));
}

#[test]
fn decodes_tf1_scalar() {
    let buf = tf1_scalar_event(1700000000.25, 42, "train/loss", 0.125);
    let event = Event::decode(&buf).unwrap();
    assert_eq!(f64::from_bits(event.wall_time), 1700000000.25);
    assert_eq!(event.step, 42);
    let EventPayload::Summary(values) = &event.payload else {
        panic!("expected summary");
    };
    assert_eq!(values.len(), 1);
    assert_eq!(values[0].tag, "train/loss");
    assert_eq!(double(values[0].scalar()), Some(0.125));
}

#[test]
fn decodes_negative_step() {
    let buf = tf1_scalar_event(0.0, -1, "t", 0.0);
    assert_eq!(Event::decode(&buf).unwrap().step, -1);
}

fn tf2_scalar_tensor(value: f32, via_content: bool) -> Vec<u8> {
    let mut tensor = Vec::new();
    field_varint(1, 1, &mut tensor);
    if via_content {
        field_bytes(4, &value.to_le_bytes(), &mut tensor);
    } else {
        field_bytes(5, &value.to_le_bytes(), &mut tensor);
    }
    tensor
}

fn event_with_tensor(tag: &str, tensor: &[u8], metadata: Option<&[u8]>) -> Vec<u8> {
    let mut summary_value = Vec::new();
    field_bytes(1, tag.as_bytes(), &mut summary_value);
    field_bytes(8, tensor, &mut summary_value);
    if let Some(metadata) = metadata {
        field_bytes(9, metadata, &mut summary_value);
    }
    let mut summary = Vec::new();
    field_bytes(1, &summary_value, &mut summary);
    let mut event = Vec::new();
    field_bytes(5, &summary, &mut event);
    event
}

#[test]
fn decodes_tf2_scalar_both_storage_forms() {
    for via_content in [false, true] {
        let buf = event_with_tensor("loss", &tf2_scalar_tensor(1.5, via_content), None);
        let event = Event::decode(&buf).unwrap();
        let EventPayload::Summary(values) = &event.payload else {
            panic!("expected summary");
        };
        assert_eq!(double(values[0].scalar()), Some(1.5), "via_content={via_content}");
    }
}

#[test]
fn scalar_rejects_higher_rank_tensors() {
    let mut tensor = Vec::new();
    field_varint(1, 1, &mut tensor);
    let mut dim = Vec::new();
    field_varint(1, 2, &mut dim);
    let mut shape = Vec::new();
    field_bytes(2, &dim, &mut shape);
    field_bytes(2, &shape, &mut tensor);
    let mut floats = Vec::new();
    floats.extend_from_slice(&1.0f32.to_le_bytes());
    floats.extend_from_slice(&2.0f32.to_le_bytes());
    field_bytes(5, &floats, &mut tensor);

    let buf = event_with_tensor("vec", &tensor, None);
    let event = Event::decode(&buf).unwrap();
    let EventPayload::Summary(values) = &event.payload else {
        panic!("expected summary");
    };
    assert_eq!(values[0].scalar(), None);
}

#[test]
fn decodes_metadata_and_data_class() {
    let mut plugin_data = Vec::new();
    field_bytes(1, b"scalars", &mut plugin_data);
    field_bytes(2, b"content", &mut plugin_data);
    let mut metadata = Vec::new();
    field_bytes(1, &plugin_data, &mut metadata);
    field_varint(4, 1, &mut metadata);

    let buf = event_with_tensor("loss", &tf2_scalar_tensor(0.5, false), Some(&metadata));
    let event = Event::decode(&buf).unwrap();
    let EventPayload::Summary(values) = &event.payload else {
        panic!("expected summary");
    };
    let metadata = values[0].metadata.as_ref().unwrap();
    assert_eq!(metadata.plugin_name, "scalars");
    assert_eq!(metadata.plugin_content, b"content");
    assert_eq!(metadata.data_class, DataClass::Scalar);
}

#[test]
fn decodes_tf2_histogram_tensor() {
    let rows = [0.0f64, 1.0, 5.0, 1.0, 2.0, 7.0];
    let mut tensor = Vec::new();
    field_varint(1, 2, &mut tensor);
    let mut shape = Vec::new();
    for size in [2u64, 3] {
        let mut dim = Vec::new();
        field_varint(1, size, &mut dim);
        field_bytes(2, &dim, &mut shape);
    }
    field_bytes(2, &shape, &mut tensor);
    let mut packed = Vec::new();
    for v in rows {
        packed.extend_from_slice(&v.to_bits().to_le_bytes());
    }
    field_bytes(6, &packed, &mut tensor);

    let buf = event_with_tensor("weights", &tensor, None);
    let event = Event::decode(&buf).unwrap();
    let EventPayload::Summary(values) = &event.payload else {
        panic!("expected summary");
    };
    let SummaryPayload::Tensor(tensor) = &values[0].payload else {
        panic!("expected tensor");
    };
    assert_eq!(tensor.shape, vec![2, 3]);
    let doubles: Vec<f64> = tensor.doubles().unwrap().into_iter().map(f64::from_bits).collect();
    assert_eq!(doubles, rows);
    assert_eq!(values[0].scalar(), None);
    let buckets: Vec<(f64, f64, f64)> = values[0]
        .histogram_buckets()
        .unwrap()
        .into_iter()
        .map(|(left, right, count)| {
            (f64::from_bits(left), f64::from_bits(right), f64::from_bits(count))
        })
        .collect();
    assert_eq!(buckets, vec![(0.0, 1.0, 5.0), (1.0, 2.0, 7.0)]);
}

#[test]
fn decodes_tf1_histogram() {
    let mut histo = Vec::new();
    field_double(1, -1.0, &mut histo);
    field_double(2, 3.0, &mut histo);
    field_double(3, 10.0, &mut histo);
    let mut limits = Vec::new();
    for v in [0.0f64, 1.0, 2.0] {
        limits.extend_from_slice(&v.to_bits().to_le_bytes());
    }
    field_bytes(6, &limits, &mut histo);
    let mut counts = Vec::new();
    for v in [3.0f64, 4.0, 3.0] {
        counts.extend_from_slice(&v.to_bits().to_le_bytes());
    }
    field_bytes(7, &counts, &mut histo);

    let mut summary_value = Vec::new();
    field_bytes(1, b"grads", &mut summary_value);
    field_bytes(5, &histo, &mut summary_value);
    let mut summary = Vec::new();
    field_bytes(1, &summary_value, &mut summary);
    let mut event = Vec::new();
    field_bytes(5, &summary, &mut event);

    let decoded = Event::decode(&event).unwrap();
    let EventPayload::Summary(values) = &decoded.payload else {
        panic!("expected summary");
    };
    let SummaryPayload::Histogram(h) = &values[0].payload else {
        panic!("expected histogram");
    };
    assert_eq!(
        (f64::from_bits(h.min), f64::from_bits(h.max), f64::from_bits(h.num)),
        (-1.0, 3.0, 10.0)
    );
    let limits: Vec<f64> = h.bucket_limit.iter().map(|&bits| f64::from_bits(bits)).collect();
    assert_eq!(limits, vec![0.0, 1.0, 2.0]);
    let counts: Vec<f64> = h.bucket.iter().map(|&bits| f64::from_bits(bits)).collect();
    assert_eq!(counts, vec![3.0, 4.0, 3.0]);
}

#[test]
fn decodes_string_tensor() {
    let mut tensor = Vec::new();
    field_varint(1, 7, &mut tensor);
    field_bytes(8, b"hello", &mut tensor);
    field_bytes(8, b"world", &mut tensor);
    let buf = event_with_tensor("notes/text_summary", &tensor, None);
    let event = Event::decode(&buf).unwrap();
    let EventPayload::Summary(values) = &event.payload else {
        panic!("expected summary");
    };
    let SummaryPayload::Tensor(tensor) = &values[0].payload else {
        panic!("expected tensor");
    };
    assert_eq!(
        tensor.strings().unwrap(),
        &[b"hello".to_vec(), b"world".to_vec()]
    );
}

#[test]
fn decodes_tf1_image() {
    let mut image = Vec::new();
    field_varint(1, 2, &mut image);
    field_varint(2, 3, &mut image);
    field_varint(3, 3, &mut image);
    field_bytes(4, b"\x89PNGfake", &mut image);
    let mut summary_value = Vec::new();
    field_bytes(1, b"samples/image/0", &mut summary_value);
    field_bytes(4, &image, &mut summary_value);
    let mut summary = Vec::new();
    field_bytes(1, &summary_value, &mut summary);
    let mut event = Vec::new();
    field_bytes(5, &summary, &mut event);

    let decoded = Event::decode(&event).unwrap();
    let EventPayload::Summary(values) = &decoded.payload else {
        panic!("expected summary");
    };
    let SummaryPayload::Image(image) = &values[0].payload else {
        panic!("expected image");
    };
    assert_eq!((image.height, image.width, image.colorspace), (2, 3, 3));
    assert_eq!(image.encoded_image, b"\x89PNGfake");
}

#[test]
fn skips_unknown_fields_everywhere() {
    let mut summary_value = Vec::new();
    field_bytes(1, b"tag", &mut summary_value);
    field_varint(77, 99, &mut summary_value);
    field_float(2, 1.0, &mut summary_value);
    let mut summary = Vec::new();
    field_bytes(1, &summary_value, &mut summary);
    field_varint(50, 1, &mut summary);
    let mut event = Vec::new();
    field_varint(2, 7, &mut event);
    field_bytes(5, &summary, &mut event);
    field_double(90, 3.5, &mut event);

    let decoded = Event::decode(&event).unwrap();
    assert_eq!(decoded.step, 7);
    let EventPayload::Summary(values) = &decoded.payload else {
        panic!("expected summary");
    };
    assert_eq!(double(values[0].scalar()), Some(1.0));
}

#[test]
fn an_unknown_field_does_not_change_a_refusal() {
    let mut front = Vec::new();
    field_bytes(5, &[0xFF, 0xFF, 0xFF], &mut front);
    let mut longer = front.clone();
    field_double(90, 3.5, &mut longer);
    field_varint(2, 7, &mut longer);
    field_varint(2, 7, &mut front);
    let refusal = Event::decode(&front).unwrap_err();
    assert_eq!(Event::decode(&longer).unwrap_err(), refusal);
}

#[test]
fn malformed_bytes_error_rather_than_panic() {
    let mut event = Vec::new();
    field_bytes(5, &[0xFF, 0xFF, 0xFF], &mut event);
    assert!(Event::decode(&event).is_err());
}

#[test]
fn ignored_payloads_decode_as_other() {
    let mut event = Vec::new();
    field_double(1, 5.0, &mut event);
    field_bytes(4, b"graphdef-bytes", &mut event);
    let decoded = Event::decode(&event).unwrap();
    assert_eq!(decoded.payload, EventPayload::Other);
}

#[test]
fn invalid_utf8_tags_decode_lossily() {
    let mut summary_value = Vec::new();
    field_bytes(1, b"lo\xFFss", &mut summary_value);
    field_float(2, 1.0, &mut summary_value);
    let mut summary = Vec::new();
    field_bytes(1, &summary_value, &mut summary);
    let mut event = Vec::new();
    field_bytes(5, &summary, &mut event);
    let decoded = Event::decode(&event).unwrap();
    let EventPayload::Summary(values) = &decoded.payload else {
        panic!("expected summary");
    };
    assert_eq!(values[0].tag, "lo\u{FFFD}ss");
}

fn session_start_event(entries: &[(&str, Vec<u8>)]) -> Vec<u8> {
    let mut info = Vec::new();
    for (key, value) in entries {
        let mut entry = Vec::new();
        field_bytes(1, key.as_bytes(), &mut entry);
        field_bytes(2, value, &mut entry);
        field_bytes(1, &entry, &mut info);
    }
    let mut plugin_data = Vec::new();
    field_varint(1, 0, &mut plugin_data);
    field_bytes(3, &info, &mut plugin_data);

    let mut inner = Vec::new();
    field_bytes(1, b"hparams", &mut inner);
    field_bytes(2, &plugin_data, &mut inner);
    let mut metadata = Vec::new();
    field_bytes(1, &inner, &mut metadata);

    let mut summary_value = Vec::new();
    field_bytes(1, SESSION_START_INFO_TAG.as_bytes(), &mut summary_value);
    field_bytes(9, &metadata, &mut summary_value);
    let mut summary = Vec::new();
    field_bytes(1, &summary_value, &mut summary);
    let mut event = Vec::new();
    field_bytes(5, &summary, &mut event);
    event
}

#[test]
fn decodes_typed_hparams() {
    let mut lr = Vec::new();
    field_double(2, 0.001, &mut lr);
    let mut optimizer = Vec::new();
    field_bytes(3, b"adam", &mut optimizer);
    let mut amsgrad = Vec::new();
    field_varint(4, 1, &mut amsgrad);
    let event_bytes = session_start_event(&[
        ("lr", lr),
        ("optimizer", optimizer),
        ("amsgrad", amsgrad),
    ]);

    let event = Event::decode(&event_bytes).unwrap();
    let EventPayload::Summary(values) = &event.payload else {
        panic!("expected summary");
    };
    let hparams = session_start_hparams(&values[0]).unwrap().unwrap();
    assert_eq!(*hparams.get("lr").unwrap(), HparamValue::F64(0.001f64.to_bits()));
    assert_eq!(*hparams.get("optimizer").unwrap(), HparamValue::String("adam".into()));
    assert_eq!(*hparams.get("amsgrad").unwrap(), HparamValue::Bool(true));
}

#[test]
fn other_summaries_are_not_hparams() {
    let mut summary_value = Vec::new();
    field_bytes(1, b"train/loss", &mut summary_value);
    field_float(2, 1.0, &mut summary_value);
    let mut summary = Vec::new();
    field_bytes(1, &summary_value, &mut summary);
    let mut event = Vec::new();
    field_bytes(5, &summary, &mut event);

    let event = Event::decode(&event).unwrap();
    let EventPayload::Summary(values) = &event.payload else {
        panic!("expected summary");
    };
    assert!(session_start_hparams(&values[0]).is_none());
}

fn scalar_event_payload(step: i64, tag: &str, value: f32) -> Vec<u8> {
    tf1_scalar_event(1000.0 + step as f64, step, tag, value)
}

fn scalar_of(event: &Event) -> (i64, f64) {
    let EventPayload::Summary(values) = &event.payload else {
        panic!("expected summary");
    };
    (event.step, double(values[0].scalar()).unwrap())
}

#[test]
fn reads_events_end_to_end() {
    let mut file = Vec::new();
    for step in 0..3 {
        write_record(&mut file, &scalar_event_payload(step, "loss", step as f32));
    }
    let mut reader = EventFileReader::new(ByteStream::new(file.clone()));
    for step in 0..3 {
        let event = reader.next_event().unwrap();
        assert_eq!(scalar_of(&event), (step, f64::from(step as f32)));
    }
    assert!(matches!(reader.next_event(), Err(ReadEventError::Truncated)));
    assert_eq!(reader.committed_offset(), file.len() as u64);
}

#[test]
fn tailing_a_growing_file() {
    let mut full = Vec::new();
    write_record(&mut full, &scalar_event_payload(1, "loss", 0.5));
    write_record(&mut full, &scalar_event_payload(2, "loss", 0.25));
    let cut = full.len() - 5;

    let mut reader = EventFileReader::new(ByteStream::new(full[..cut].to_vec()));
    assert_eq!(scalar_of(&reader.next_event().unwrap()), (1, 0.5));
    assert!(matches!(reader.next_event(), Err(ReadEventError::Truncated)));
    assert!(matches!(reader.next_event(), Err(ReadEventError::Truncated)));

    reader.feed(&full[cut..]);
    assert_eq!(scalar_of(&reader.next_event().unwrap()), (2, 0.25));
}

#[test]
fn corrupt_record_is_reported_and_skipped() {
    let mut file = Vec::new();
    write_record(&mut file, &scalar_event_payload(1, "loss", 1.0));
    let corrupt_at = file.len() as u64;
    write_record(&mut file, &scalar_event_payload(2, "loss", 2.0));
    file[corrupt_at as usize + 12] ^= 0x80;
    write_record(&mut file, &scalar_event_payload(3, "loss", 3.0));

    let mut reader = EventFileReader::new(ByteStream::new(file));
    assert_eq!(scalar_of(&reader.next_event().unwrap()).0, 1);
    match reader.next_event() {
        Err(ReadEventError::Corrupt { offset, error }) => {
            assert_eq!(offset, corrupt_at);
            let expected = format!(
                "corrupt record at offset {corrupt_at}: record checksum mismatch: stored {:#010x}, computed {:#010x}",
                error.want.0, error.got.0
            );
            assert_eq!(ReadEventError::Corrupt { offset, error }.message(), expected);
        }
        other => panic!("expected Corrupt, got {other:?}"),
    }
    assert_eq!(scalar_of(&reader.next_event().unwrap()).0, 3);
}

#[test]
fn malformed_record_with_valid_checksum() {
    let mut file = Vec::new();
    write_record(&mut file, &[0xFF, 0xFF]);
    write_record(&mut file, &scalar_event_payload(1, "loss", 1.0));
    let mut reader = EventFileReader::new(ByteStream::new(file));
    assert!(matches!(
        reader.next_event(),
        Err(ReadEventError::Malformed { offset: 0, .. })
    ));
    assert_eq!(scalar_of(&reader.next_event().unwrap()).0, 1);
}

#[test]
fn resume_from_committed_offset() {
    let mut file = Vec::new();
    write_record(&mut file, &scalar_event_payload(1, "loss", 1.0));
    write_record(&mut file, &scalar_event_payload(2, "loss", 2.0));

    let mut reader = EventFileReader::new(ByteStream::new(file.clone()));
    reader.next_event().unwrap();
    let offset = reader.committed_offset();
    drop(reader);

    let mut resumed = EventFileReader::resume(ByteStream::new(file), offset as usize);
    assert_eq!(scalar_of(&resumed.next_event().unwrap()).0, 2);
    assert!(matches!(resumed.next_event(), Err(ReadEventError::Truncated)));
}

fn file_with(payloads: &[&[u8]]) -> Vec<u8> {
    let mut out = Vec::new();
    for payload in payloads {
        write_record(&mut out, payload);
    }
    out
}

#[test]
fn reads_records_in_order() {
    let file = file_with(&[b"first", b"", b"third record"]);
    let mut stream = ByteStream::new(file.clone());
    let mut reader = RecordReader::new();
    for expected in [&b"first"[..], b"", b"third record"] {
        let record = reader.read_record(&mut stream).unwrap();
        assert_eq!(record.data, expected);
        record.checksum().unwrap();
    }
    assert!(matches!(
        reader.read_record(&mut stream),
        Err(ReadRecordError::Truncated)
    ));
    assert_eq!(reader.committed_offset(), file.len() as u64);
}

#[test]
fn resumes_across_truncation_at_every_byte() {
    let file = file_with(&[b"hello", b"world!"]);
    let mut reader = RecordReader::new();
    let mut records = Vec::new();
    for (position, byte) in file.iter().enumerate() {
        let mut stream = ByteStream::new(vec![*byte]);
        loop {
            match reader.read_record(&mut stream) {
                Ok(record) => records.push(record.data),
                Err(ReadRecordError::Truncated) => break,
                Err(err) => panic!("unexpected error at byte {position}: {err:?}"),
            }
        }
    }
    assert_eq!(records, vec![b"hello".to_vec(), b"world!".to_vec()]);
}

#[test]
fn bad_length_crc_kills_the_stream() {
    let mut file = file_with(&[b"good"]);
    let offset = file.len() as u64;
    let mut second = file_with(&[b"bad"]);
    second[8] ^= 0xFF;
    file.extend_from_slice(&second);
    file.extend_from_slice(&file_with(&[b"unreachable"]));

    let mut stream = ByteStream::new(file);
    let mut reader = RecordReader::new();
    assert_eq!(reader.read_record(&mut stream).unwrap().data, b"good");
    for _ in 0..2 {
        match reader.read_record(&mut stream) {
            Err(ReadRecordError::BadLengthCrc { offset: at, .. }) => assert_eq!(at, offset),
            other => panic!("expected BadLengthCrc, got {:?}", other.map(|r| r.data)),
        }
    }
    assert_eq!(reader.committed_offset(), offset);
}

#[test]
fn corrupt_payload_is_detected_lazily() {
    let mut file = file_with(&[b"payload"]);
    file[12] ^= 0x01;
    let mut stream = ByteStream::new(file);
    let mut reader = RecordReader::new();
    let record = reader.read_record(&mut stream).unwrap();
    assert!(record.checksum().is_err());
}

#[test]
fn corrupt_record_does_not_block_successors() {
    let mut file = file_with(&[b"broken"]);
    file[12] ^= 0x01;
    write_record(&mut file, b"fine");
    let mut stream = ByteStream::new(file);
    let mut reader = RecordReader::new();
    assert!(reader.read_record(&mut stream).unwrap().checksum().is_err());
    let record = reader.read_record(&mut stream).unwrap();
    assert_eq!(record.data, b"fine");
    record.checksum().unwrap();
}

#[test]
fn resume_at_continues_from_committed_offset() {
    let file = file_with(&[b"one", b"two"]);
    let mut reader = RecordReader::new();
    let mut stream = ByteStream::new(file.clone());
    assert_eq!(reader.read_record(&mut stream).unwrap().data, b"one");
    let offset = reader.committed_offset();

    let mut resumed = RecordReader::resume_at(offset);
    let mut stream = ByteStream::new(file[offset as usize..].to_vec());
    assert_eq!(resumed.read_record(&mut stream).unwrap().data, b"two");
    assert_eq!(resumed.committed_offset(), file.len() as u64);
}

#[test]
fn huge_claimed_length_does_not_allocate_upfront() {
    let length = u64::MAX.to_le_bytes();
    let mut file = Vec::new();
    file.extend_from_slice(&length);
    file.extend_from_slice(&MaskedCrc::compute(&length).0.to_le_bytes());
    file.extend_from_slice(b"only a few actual bytes");
    let mut stream = ByteStream::new(file);
    let mut reader = RecordReader::new();
    assert!(matches!(
        reader.read_record(&mut stream),
        Err(ReadRecordError::Truncated)
    ));
}

#[test]
fn walks_all_wire_types() {
    let mut buf = Vec::new();
    field_varint(1, 150, &mut buf);
    field_double(2, -0.5, &mut buf);
    field_bytes(3, b"payload", &mut buf);
    field_float(4, 2.25, &mut buf);

    let mut reader = MessageReader::new(&buf);
    let (field, value) = reader.next_field().unwrap().unwrap();
    assert_eq!((field, value.varint()), (1, Some(150)));
    let (field, value) = reader.next_field().unwrap().unwrap();
    assert_eq!((field, double(value.double())), (2, Some(-0.5)));
    let (field, value) = reader.next_field().unwrap().unwrap();
    assert_eq!((field, value.bytes()), (3, Some(&b"payload"[..])));
    let (field, value) = reader.next_field().unwrap().unwrap();
    assert_eq!((field, value.float().map(f32::from_bits)), (4, Some(2.25)));
    assert!(reader.next_field().unwrap().is_none());
}

#[test]
fn negative_int64_roundtrips() {
    let mut buf = Vec::new();
    field_varint(2, (-7i64) as u64, &mut buf);
    let mut reader = MessageReader::new(&buf);
    let (_, value) = reader.next_field().unwrap().unwrap();
    assert_eq!(value.int64(), Some(-7));
}

#[test]
fn truncated_inputs_error_cleanly() {
    let mut buf = Vec::new();
    field_bytes(1, b"hello", &mut buf);
    for end in 0..buf.len() {
        let mut reader = MessageReader::new(&buf[..end]);
        match reader.next_field() {
            Err(DecodeError::Truncated) | Ok(None) => {}
            other => panic!("prefix {end}: unexpected {other:?}"),
        }
    }
}

#[test]
fn rejects_groups_and_bad_field_numbers() {
    let mut reader = MessageReader::new(&[0x0B]);
    assert_eq!(
        reader.next_field().unwrap_err(),
        DecodeError::UnsupportedWireType(3)
    );
    let mut reader = MessageReader::new(&[0x00, 0x01]);
    assert_eq!(reader.next_field().unwrap_err(), DecodeError::InvalidFieldNumber);
}

#[test]
fn varint_limits() {
    let mut buf = Vec::new();
    field_varint(1, u64::MAX, &mut buf);
    let mut reader = MessageReader::new(&buf);
    let (field, value) = reader.next_field().unwrap().unwrap();
    assert_eq!((field, value.varint()), (1, Some(u64::MAX)));
    let mut long = vec![0x08];
    long.extend_from_slice(&[0x80; 10]);
    long.push(0x00);
    let mut reader = MessageReader::new(&long);
    assert_eq!(reader.next_field().unwrap_err(), DecodeError::VarintTooLong);
    let mut overflow = vec![0x08];
    overflow.extend_from_slice(&[0xFF; 9]);
    overflow.push(0x02);
    let mut reader = MessageReader::new(&overflow);
    assert_eq!(reader.next_field().unwrap_err(), DecodeError::VarintTooLong);
}

#[test]
fn packed_decoding() {
    let mut bytes = Vec::new();
    for v in [1.0f64, -2.5, f64::NAN] {
        bytes.extend_from_slice(&v.to_bits().to_le_bytes());
    }
    let values: Vec<f64> = packed_f64(&bytes).unwrap().into_iter().map(f64::from_bits).collect();
    assert_eq!(values.len(), 3);
    assert_eq!(values[0], 1.0);
    assert_eq!(values[1], -2.5);
    assert!(values[2].is_nan());
    assert_eq!(packed_f64(&bytes[..7]), Err(DecodeError::MisalignedPackedField));
    assert_eq!(
        packed_f32(&1.5f32.to_bits().to_le_bytes()),
        Ok(vec![1.5f32.to_bits()])
    );
}

#[test]
fn written_files_read_back() {
    let file = events_file(&[
        scalar_event(1000.0f64.to_bits(), 0, "loss", 4.0f32.to_bits()),
        scalar_event(1001.0f64.to_bits(), 1, "loss", 2.0f32.to_bits()),
    ]);
    let mut reader = EventFileReader::new(ByteStream::new(file));
    assert!(matches!(
        reader.next_event().unwrap().payload,
        EventPayload::FileVersion(_)
    ));
    for (step, expected) in [(0, 4.0), (1, 2.0)] {
        let event = reader.next_event().unwrap();
        assert_eq!(event.step, step);
        assert_eq!(f64::from_bits(event.wall_time), 1000.0 + step as f64);
        let EventPayload::Summary(values) = &event.payload else {
            panic!("expected summary");
        };
        assert_eq!(values[0].tag, "loss");
        assert_eq!(double(values[0].scalar()), Some(expected));
    }
    assert!(matches!(reader.next_event(), Err(ReadEventError::Truncated)));
}

#[test]
fn written_histograms_read_back() {
    let buckets: Vec<(u64, u64, u64)> = [(-1.0f64, 0.0f64, 3.0f64), (0.0, 1.0, 5.0)]
        .iter()
        .map(|(left, right, count)| (left.to_bits(), right.to_bits(), count.to_bits()))
        .collect();
    let sum = |counts: &Vec<u64>| -> u64 {
        let total: f64 = counts.iter().map(|&bits| f64::from_bits(bits)).sum();
        total.to_bits()
    };
    let counts: Vec<u64> = buckets.iter().map(|bucket| bucket.2).collect();
    let event = histogram_event(5.0f64.to_bits(), 7, "w", &buckets, sum(&counts));
    let decoded = Event::decode(&event).unwrap();
    assert_eq!(decoded.step, 7);
    let EventPayload::Summary(values) = &decoded.payload else {
        panic!("expected summary");
    };
    assert_eq!(values[0].histogram_buckets().unwrap(), buckets);
}

#[test]
fn error_sentences() {
    assert_eq!(DecodeError::Truncated.message(), "message truncated mid-field");
    assert_eq!(DecodeError::VarintTooLong.message(), "varint longer than ten bytes");
    assert_eq!(DecodeError::UnsupportedWireType(3).message(), "unsupported wire type 3");
    assert_eq!(DecodeError::InvalidFieldNumber.message(), "field number zero is invalid");
    assert_eq!(
        DecodeError::MisalignedPackedField.message(),
        "packed field length is not a multiple of the element size"
    );
    let pair = ChecksumError { want: MaskedCrc(0x1F), got: MaskedCrc(0xA282_EAD8) };
    assert_eq!(
        pair.message(),
        "record checksum mismatch: stored 0x0000001f, computed 0xa282ead8"
    );
    assert_eq!(
        ReadRecordError::Truncated.message(),
        "record truncated (stream ended mid-record)"
    );
    assert_eq!(
        ReadRecordError::BadLengthCrc {
            offset: 21,
            want: MaskedCrc(0x1F),
            got: MaskedCrc(0x20),
        }
        .message(),
        "bad length CRC at offset 21: stored 0x0000001f, computed 0x00000020"
    );
    assert_eq!(
        ReadEventError::Truncated.message(),
        "event truncated (stream ended mid-record)"
    );
    assert_eq!(
        ReadEventError::BadLengthCrc {
            offset: 21,
            want: MaskedCrc(0x1F),
            got: MaskedCrc(0x20),
        }
        .message(),
        "framing dead at offset 21: bad length CRC"
    );
    assert_eq!(
        ReadEventError::Malformed { offset: 3, error: DecodeError::Truncated }.message(),
        "undecodable record at offset 3: message truncated mid-field"
    );
}

#[test]
fn bad_length_crc_ends_the_events() {
    let mut file = Vec::new();
    write_record(&mut file, &scalar_event_payload(1, "loss", 1.0));
    let dead_at = file.len() as u64;
    let mut second = Vec::new();
    write_record(&mut second, &scalar_event_payload(2, "loss", 2.0));
    second[8] ^= 0xFF;
    file.extend_from_slice(&second);
    let mut reader = EventFileReader::new(ByteStream::new(file));
    assert_eq!(scalar_of(&reader.next_event().unwrap()).0, 1);
    assert!(matches!(
        reader.next_event(),
        Err(ReadEventError::BadLengthCrc { offset, .. }) if offset == dead_at
    ));
    assert_eq!(reader.committed_offset(), dead_at);
}

#[test]
fn broken_session_start_is_an_error() {
    let mut inner = Vec::new();
    field_bytes(1, b"hparams", &mut inner);
    field_bytes(2, &[0x1A, 0x05], &mut inner);
    let mut metadata = Vec::new();
    field_bytes(1, &inner, &mut metadata);
    let mut summary_value = Vec::new();
    field_bytes(1, SESSION_START_INFO_TAG.as_bytes(), &mut summary_value);
    field_bytes(9, &metadata, &mut summary_value);
    let mut summary = Vec::new();
    field_bytes(1, &summary_value, &mut summary);
    let mut event = Vec::new();
    field_bytes(5, &summary, &mut event);
    let event = Event::decode(&event).unwrap();
    let EventPayload::Summary(values) = &event.payload else {
        panic!("expected summary");
    };
    assert!(matches!(session_start_hparams(&values[0]), Some(Err(DecodeError::Truncated))));
}
