use vertov::dvclive::{parse_params_yaml, TsvSchema};
use vertov::mlflow::{parse_meta, parse_metric_line, parse_param};
use vertov::params::ParamValue;
use vertov::wandb::{check_header, checksum_chunk, read_records, BLOCK, HEADER_LEN};
use vertov::wandb_record::{json_number, json_param, parse_item, parse_record, WandbRecord};
use vertov::wandb_writer::{append_record, config_record, exit_record, history_record, wandb_file};

/// Reads a text as a double, to its bits.
fn number(text: &str) -> Option<u64> {
    text.parse::<f64>().ok().map(f64::to_bits)
}

/// Milliseconds to seconds.
fn seconds(millis: u64) -> u64 {
    (f64::from_bits(millis) / 1000.0).to_bits()
}

fn param(value: f64) -> ParamValue {
    ParamValue::Number(value.to_bits())
}

fn history(step: i64, wall: f64, values: &[(&str, &str)]) -> Vec<u8> {
    history_record(step, wall.to_bits(), &wall.to_string(), values)
}

#[test]
fn schema_with_timestamp_and_step() {
    let schema = TsvSchema::from_header("timestamp\tstep\tloss").unwrap();
    let row = schema.parse_row("1700000000500\t3\t0.25", &number, &seconds).unwrap();
    assert_eq!(row.step, 3);
    assert_eq!(f64::from_bits(row.wall), 1_700_000_000.5);
    assert_eq!(f64::from_bits(row.value), 0.25);
}

#[test]
fn schema_without_timestamp() {
    let schema = TsvSchema::from_header("step\tacc").unwrap();
    let row = schema.parse_row("7\t0.9", &number, &seconds).unwrap();
    assert_eq!(
        (row.step, f64::from_bits(row.wall), f64::from_bits(row.value)),
        (7, 0.0, 0.9)
    );
}

#[test]
fn malformed_rows_are_none() {
    let schema = TsvSchema::from_header("timestamp\tstep\tloss").unwrap();
    assert_eq!(schema.parse_row("not\ta\tnumber", &number, &seconds), None);
    assert_eq!(schema.parse_row("", &number, &seconds), None);
    assert_eq!(schema.parse_row("12", &number, &seconds), None);
}

#[test]
fn nan_values_pass_through() {
    let schema = TsvSchema::from_header("step\tloss").unwrap();
    let row = schema.parse_row("1\tnan", &number, &seconds).unwrap();
    assert!(f64::from_bits(row.value).is_nan());
}

#[test]
fn headers_need_a_value_column() {
    assert_eq!(TsvSchema::from_header(""), None);
    let schema = TsvSchema::from_header("timestamp\tstep\tloss").unwrap();
    assert_eq!((schema.timestamp, schema.step, schema.value), (Some(0), Some(1), 2));
}

#[test]
fn params_yaml_subset() {
    let params = parse_params_yaml(
        "lr: 0.001\noptimizer: adam\nuse_ema: true\nmodel:\n  layers: 12\n  width: 768\n# comment\nseed: 42\n",
        &number,
    );
    assert_eq!(
        params,
        vec![
            ("lr".to_owned(), param(0.001)),
            ("optimizer".to_owned(), ParamValue::Text("adam".into())),
            ("use_ema".to_owned(), ParamValue::Bool(true)),
            ("model.layers".to_owned(), param(12.0)),
            ("model.width".to_owned(), param(768.0)),
            ("seed".to_owned(), param(42.0)),
        ]
    );
}

#[test]
fn deeper_nesting_is_skipped() {
    assert_eq!(parse_params_yaml("model:\n  enc:\n    layers: 3\n", &number), vec![]);
    assert_eq!(
        parse_params_yaml(
            "model:\n  enc:\n    layers: 3\n  width: 768\noptim:\n    lr: 0.1\n",
            &number,
        ),
        vec![("model.width".to_owned(), param(768.0)), ("optim.lr".to_owned(), param(0.1))]
    );
}

#[test]
fn what_lies_under_a_list_or_an_odd_key_is_skipped() {
    let text = "blocks:\n  - kind: conv\n    width: 8\n  depth: 2\nmy model:\n  lr: 0.1\nseed: 1\n";
    assert_eq!(
        parse_params_yaml(text, &number),
        vec![("blocks.depth".to_owned(), param(2.0)), ("seed".to_owned(), param(1.0))]
    );
}

#[test]
fn a_child_may_be_indented_less_than_the_first() {
    assert_eq!(
        parse_params_yaml("a:\n    b: 1\n  c: 2\n", &number),
        vec![("a.b".to_owned(), param(1.0)), ("a.c".to_owned(), param(2.0))]
    );
}

#[test]
fn lines_without_a_colon_change_nothing() {
    let expected = vec![("a.b".to_owned(), param(1.0)), ("a.c".to_owned(), param(2.0))];
    assert_eq!(parse_params_yaml("a:\njunk\n  b: 1\n      junk\n  c: 2\n", &number), expected);
    assert_eq!(parse_params_yaml("a:\n      junk\n  b: 1\n  c: 2\n", &number), expected);
}

#[test]
fn unindented_lists_are_skipped_with_what_they_hold() {
    let text = "blocks:\n- kind: conv\n  width: 8\nmodel:\n  depth: 2\n";
    assert_eq!(
        parse_params_yaml(text, &number),
        vec![("model.depth".to_owned(), param(2.0))]
    );
}

#[test]
fn param_values_are_typed() {
    assert_eq!(ParamValue::parse("0.001", &number), param(0.001));
    assert_eq!(ParamValue::parse("1e-3", &number), param(0.001));
    assert_eq!(ParamValue::parse("true", &number), ParamValue::Bool(true));
    assert_eq!(ParamValue::parse("False", &number), ParamValue::Bool(false));
    assert_eq!(ParamValue::parse("adam", &number), ParamValue::Text("adam".into()));
    assert_eq!(ParamValue::parse("'adam'", &number), ParamValue::Text("adam".into()));
    assert_eq!(ParamValue::parse("  8  ", &number), param(8.0));
}

#[test]
fn metric_lines() {
    let line = parse_metric_line("1700000001500 0.75 12", &number, &seconds).unwrap();
    assert_eq!(line.step, 12);
    assert_eq!(f64::from_bits(line.wall), 1_700_000_001.5);
    assert_eq!(f64::from_bits(line.value), 0.75);
    let gap = parse_metric_line("1700000001500 nan 3", &number, &seconds).unwrap();
    assert!(f64::from_bits(gap.value).is_nan());
    assert_eq!(parse_metric_line("only two", &number, &seconds), None);
    assert_eq!(parse_metric_line("1 2 3 4", &number, &seconds), None);
    assert_eq!(parse_metric_line("", &number, &seconds), None);
}

#[test]
fn meta_yaml() {
    let meta = parse_meta(
        "artifact_uri: file:///tmp/mlruns/0/abc/artifacts\nrun_id: abc123\nrun_name: brave-owl-7\nstatus: FINISHED\n",
    );
    assert_eq!(meta.run_name.as_deref(), Some("brave-owl-7"));
    assert_eq!(meta.run_id.as_deref(), Some("abc123"));
    assert_eq!(meta.status.as_deref(), Some("FINISHED"));
    assert_eq!(parse_meta("experiment_id: 0\nname: Default\n").run_id, None);
}

#[test]
fn params() {
    assert_eq!(parse_param("0.01\n", &number), param(0.01));
    assert_eq!(parse_param("adam", &number), ParamValue::Text("adam".into()));
}

#[test]
fn header_gates_versions() {
    let file = wandb_file(&[]);
    assert!(check_header(&file).is_ok());
    let mut newer = file.clone();
    newer[6] = 1;
    assert!(check_header(&newer).unwrap_err().contains("version 1"));
    assert!(check_header(b":NOPE\x00\x00").is_err());
    assert!(check_header(b":W").is_err());
}

#[test]
fn records_roundtrip_and_resume() {
    let row = history(3, 1.7e9, &[("loss", "0.5"), ("acc", "0.9")]);
    let config = config_record(&[("lr", "0.001"), ("opt", "\"adam\"")]);
    let file = wandb_file(&[row, config, exit_record()]);

    let (records, committed) = read_records(&file[HEADER_LEN as usize..], HEADER_LEN);
    assert_eq!(records.len(), 3);
    assert_eq!(committed, file.len() as u64);

    match parse_record(&records[0], &number).unwrap() {
        WandbRecord::History { step, wall, values } => {
            assert_eq!(step, 3);
            assert_eq!(f64::from_bits(wall), 1.7e9);
            assert_eq!(
                values,
                vec![
                    ("loss".to_owned(), 0.5f64.to_bits()),
                    ("acc".to_owned(), 0.9f64.to_bits()),
                ]
            );
        }
        other => panic!("expected history, got {other:?}"),
    }
    match parse_record(&records[1], &number).unwrap() {
        WandbRecord::Config(updates) => {
            assert_eq!(updates[0], ("lr".to_owned(), param(0.001)));
            assert_eq!(updates[1], ("opt".to_owned(), ParamValue::Text("adam".into())));
        }
        other => panic!("expected config, got {other:?}"),
    }
    assert_eq!(parse_record(&records[2], &number).unwrap(), WandbRecord::Exit);
}

#[test]
fn torn_tail_is_a_state() {
    let record = history(0, 0.0, &[("loss", "1.0")]);
    let file = wandb_file(&[record.clone(), record]);
    for cut in (HEADER_LEN as usize + 1)..file.len() {
        let (records, committed) = read_records(&file[HEADER_LEN as usize..cut], HEADER_LEN);
        assert!(records.len() <= 2);
        if records.len() == 1 {
            let (rest, end) = read_records(&file[committed as usize..], committed);
            assert_eq!(rest.len(), 1);
            assert_eq!(end, file.len() as u64);
        }
    }
}

#[test]
fn a_torn_log_record_is_unread() {
    let first = history(0, 0.0, &[("loss", "1.0")]);
    let big = format!("\"{}\"", "x".repeat(40_000));
    let second = history(1, 0.0, &[("note", &big)]);
    let whole = wandb_file(&[first.clone()]).len();
    let file = wandb_file(&[first.clone(), second]);
    for cut in [whole, whole + 1, whole + 7, whole + 500, BLOCK, BLOCK + 9, file.len() - 1] {
        let (records, committed) = read_records(&file[HEADER_LEN as usize..cut], HEADER_LEN);
        assert_eq!(records, vec![first.clone()]);
        assert_eq!(committed, whole as u64);
    }
}

#[test]
fn large_records_span_blocks() {
    let big = format!("\"{}\"", "x".repeat(100_000));
    let record = history(1, 0.0, &[("note", &big), ("loss", "2.5")]);
    let tail = history(2, 0.0, &[("loss", "1.5")]);
    let file = wandb_file(&[record, tail]);
    assert!(file.len() > BLOCK * 3);

    let (records, committed) = read_records(&file[HEADER_LEN as usize..], HEADER_LEN);
    assert_eq!(records.len(), 2);
    assert_eq!(committed, file.len() as u64);
    match parse_record(&records[1], &number).unwrap() {
        WandbRecord::History { step, values, .. } => {
            assert_eq!(step, 2);
            assert_eq!(values, vec![("loss".to_owned(), 1.5f64.to_bits())]);
        }
        other => panic!("{other:?}"),
    }
}

#[test]
fn zero_chunks_and_padding_skip() {
    let record = history(0, 0.0, &[("loss", "1.0")]);
    let mut file = wandb_file(std::slice::from_ref(&record));
    let pad = BLOCK - (file.len() % BLOCK);
    file.resize(file.len() + pad, 0);
    append_record(&mut file, &record);
    let (records, committed) = read_records(&file[HEADER_LEN as usize..], HEADER_LEN);
    assert_eq!(records.len(), 2);
    assert_eq!(committed, file.len() as u64);
}

#[test]
fn nan_tokens_parse() {
    assert!(f64::from_bits(json_number("NaN", &number).unwrap()).is_nan());
    assert_eq!(json_number("Infinity", &number), Some(f64::INFINITY.to_bits()));
    assert_eq!(json_number("-Infinity", &number), Some(f64::NEG_INFINITY.to_bits()));
    assert_eq!(json_number("1.5e-3", &number), Some(0.0015f64.to_bits()));
    assert_eq!(json_number("\"text\"", &number), None);
}

#[test]
fn config_value_wrapper_unwraps() {
    assert_eq!(json_param("{\"value\": 0.01}", &number), Some(param(0.01)));
    assert_eq!(json_param("true", &number), Some(ParamValue::Bool(true)));
    assert_eq!(json_param("null", &number), None);
}

#[test]
fn chunk_checksum_is_the_ieee_one() {
    // The chunk's kind leads: CRC-32 of "123456789".
    assert_eq!(checksum_chunk(b'1', b"23456789"), 0xCBF4_3926);
}

#[test]
fn damaged_chunk_ends_the_reading() {
    let record = history(0, 0.0, &[("loss", "1.0")]);
    let mut file = wandb_file(&[record.clone(), record]);
    let last = file.len() - 1;
    file[last] ^= 1;
    let (records, _) = read_records(&file[HEADER_LEN as usize..], HEADER_LEN);
    assert_eq!(records.len(), 1);
}

#[test]
fn invalid_utf8_keys_read_lossily() {
    // key = 1: "l\xFFr"; value_json = 16 (tag 0x82 0x01): "1".
    let item = [0x0A, 3, b'l', 0xFF, b'r', 0x82, 0x01, 1, b'1'];
    assert_eq!(parse_item(&item), Some(("l\u{FFFD}r".to_owned(), "1".to_owned())));
    assert_eq!(parse_item(&[0x0A, 9]), None);
}
