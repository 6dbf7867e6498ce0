use nasbench::DecodeError;
use nasbench::NasBench;
use nasbench::Op;
use nasbench::encode_frame;

fn record_json(hash: &str, epochs: &str, adjacency: &str, ops: &str, metrics: &str) -> Vec<u8> {
    format!(
        "[\"{}\", {}, \"{}\", \"{}\", \"{}\"]",
        hash, epochs, adjacency, ops, metrics
    )
    .into_bytes()
}

fn one_record_stream() -> Vec<u8> {
    let json = record_json(
        "0000000000000000000000000000001a",
        "12",
        "011000000",
        "input,conv1x1-bn-relu,output",
        "final accuracy 0.94",
    );
    encode_frame(&json)
}

#[test]
fn empty_stream_is_an_empty_dataset() {
    let nb = NasBench::from_tfrecord_bytes(&[]).expect("clean end");
    assert!(nb.records.is_empty());
}

#[test]
fn one_record_decodes_through_json() {
    let nb = NasBench::from_tfrecord_bytes(&one_record_stream()).expect("valid stream");
    assert_eq!(nb.records.len(), 1);
    let rec = &nb.records[0];
    assert_eq!(rec.module_hash, 0x1a);
    assert_eq!(rec.epochs, 12);
    assert_eq!(rec.adjacency[0], vec![false, true, true]);
    assert_eq!(rec.operations, vec![Op::Input, Op::Conv1x1, Op::Output]);
    assert_eq!(rec.metrics, b"final accuracy 0.94".to_vec());
}

#[test]
fn records_keep_stream_order() {
    let mut stream = one_record_stream();
    let second = record_json(
        "000000000000000000000000000000ff",
        "108",
        "0",
        "input",
        "m",
    );
    stream.extend_from_slice(&encode_frame(&second));
    let nb = NasBench::from_tfrecord_bytes(&stream).expect("valid stream");
    assert_eq!(nb.records.len(), 2);
    assert_eq!(nb.records[0].module_hash, 0x1a);
    assert_eq!(nb.records[1].module_hash, 0xff);
    assert_eq!(nb.records[1].epochs, 108);
    assert_eq!(nb.records[1].operations, vec![Op::Input]);
}

#[test]
fn non_json_block_is_a_malformed_record() {
    let stream = encode_frame(b"not json at all");
    assert_eq!(
        NasBench::from_tfrecord_bytes(&stream).unwrap_err(),
        DecodeError::MalformedRecord,
    );
}

#[test]
fn json_non_array_block_is_a_malformed_record() {
    let stream = encode_frame(b"{\"a\": 1}");
    assert_eq!(
        NasBench::from_tfrecord_bytes(&stream).unwrap_err(),
        DecodeError::MalformedRecord,
    );
}

#[test]
fn json_array_of_wrong_arity_is_a_malformed_record() {
    let stream = encode_frame(b"[1, 2, 3]");
    assert_eq!(
        NasBench::from_tfrecord_bytes(&stream).unwrap_err(),
        DecodeError::MalformedRecord,
    );
}

#[test]
fn fractional_epochs_are_a_malformed_field() {
    let json = record_json(
        "0000000000000000000000000000001a",
        "1.5",
        "011000000",
        "input,conv1x1-bn-relu,output",
        "m",
    );
    let stream = encode_frame(&json);
    assert_eq!(
        NasBench::from_tfrecord_bytes(&stream).unwrap_err(),
        DecodeError::MalformedField,
    );
}

#[test]
fn unknown_operation_reaches_the_caller() {
    let json = record_json(
        "0000000000000000000000000000001a",
        "12",
        "011000000",
        "input,foo,output",
        "m",
    );
    let stream = encode_frame(&json);
    assert_eq!(
        NasBench::from_tfrecord_bytes(&stream).unwrap_err(),
        DecodeError::UnknownOperation,
    );
}

#[test]
fn bad_record_after_good_one_halts_decoding() {
    let mut stream = one_record_stream();
    stream.extend_from_slice(&encode_frame(b"[]"));
    assert_eq!(
        NasBench::from_tfrecord_bytes(&stream).unwrap_err(),
        DecodeError::MalformedRecord,
    );
}
