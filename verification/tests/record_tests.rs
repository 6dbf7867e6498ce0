use nasbench::DecodeError;
use nasbench::JsonField;
use nasbench::Op;
use nasbench::RawRecord;
use nasbench::parse_hash;

fn text(s: &str) -> JsonField {
    JsonField::Text(s.as_bytes().to_vec())
}

fn valid_fields() -> Vec<JsonField> {
    vec![
        text("00000000000000000000000000000001"),
        JsonField::Int(4),
        text("011000000"),
        text("input,conv1x1-bn-relu,output"),
        text("metrics payload"),
    ]
}

#[test]
fn hash_of_32_hex_chars_parses() {
    let h = "00000000000000000000000000000001";
    assert_eq!(h.len(), 32);
    assert_eq!(parse_hash(h.as_bytes()), Some(1));
}

#[test]
fn hash_of_33_chars_is_rejected() {
    let long = format!("{}1a", "0".repeat(31));
    assert_eq!(long.len(), 33);
    assert_eq!(parse_hash(long.as_bytes()), None);
    let mut fields = valid_fields();
    fields[0] = text(&long);
    assert_eq!(
        RawRecord::from_json(fields).unwrap_err(),
        DecodeError::MalformedField,
    );
}

#[test]
fn hash_with_non_hex_char_is_rejected() {
    let h = "0000000000000000000000000000000g";
    assert_eq!(h.len(), 32);
    assert_eq!(parse_hash(h.as_bytes()), None);
}

#[test]
fn hash_uses_hex_digit_order() {
    assert_eq!(
        parse_hash(b"000000000000000000000000000000ff"),
        Some(255),
    );
    assert_eq!(
        parse_hash(b"80000000000000000000000000000000"),
        Some(1u128 << 127),
    );
    assert_eq!(
        parse_hash(b"ffffffffffffffffffffffffffffffff"),
        Some(u128::MAX),
    );
    assert_eq!(
        parse_hash(b"FFFFFFFFFFFFFFFFFFFFFFFFFFFFFFFF"),
        Some(u128::MAX),
    );
}

#[test]
fn record_decodes_field_by_field() {
    let rec = RawRecord::from_json(valid_fields()).expect("valid record");
    assert_eq!(rec.module_hash, 1);
    assert_eq!(rec.epochs, 4);
    assert_eq!(
        rec.adjacency,
        vec![
            vec![false, true, true],
            vec![false, false, false],
            vec![false, false, false],
        ],
    );
    assert_eq!(rec.operations, vec![Op::Input, Op::Conv1x1, Op::Output]);
    assert_eq!(rec.metrics, b"metrics payload".to_vec());
}

#[test]
fn all_operation_tokens_decode() {
    let mut fields = valid_fields();
    fields[2] = text("0110000000000000000000000");
    fields[3] = text("input,conv1x1-bn-relu,conv3x3-bn-relu,maxpool3x3,output");
    let rec = RawRecord::from_json(fields).expect("valid record");
    assert_eq!(
        rec.operations,
        vec![Op::Input, Op::Conv1x1, Op::Conv3x3, Op::MaxPool3x3, Op::Output],
    );
}

#[test]
fn unknown_operation_token_is_rejected() {
    let mut fields = valid_fields();
    fields[3] = text("input,foo,output");
    assert_eq!(
        RawRecord::from_json(fields).unwrap_err(),
        DecodeError::UnknownOperation,
    );
}

#[test]
fn wrong_arity_is_rejected() {
    let mut fields = valid_fields();
    fields.pop();
    assert_eq!(
        RawRecord::from_json(fields).unwrap_err(),
        DecodeError::MalformedRecord,
    );
}

#[test]
fn wrong_field_kind_is_rejected() {
    let mut fields = valid_fields();
    fields[0] = JsonField::Int(7);
    assert_eq!(
        RawRecord::from_json(fields).unwrap_err(),
        DecodeError::MalformedField,
    );
    let mut fields = valid_fields();
    fields[1] = JsonField::Other;
    assert_eq!(
        RawRecord::from_json(fields).unwrap_err(),
        DecodeError::MalformedField,
    );
}

#[test]
fn out_of_range_epochs_are_rejected() {
    for bad in [-1i64, 256, 1000, i64::MIN, i64::MAX] {
        let mut fields = valid_fields();
        fields[1] = JsonField::Int(bad);
        assert_eq!(
            RawRecord::from_json(fields).unwrap_err(),
            DecodeError::MalformedField,
        );
    }
}

#[test]
fn non_square_adjacency_is_rejected() {
    let mut fields = valid_fields();
    fields[2] = text("01100000");
    assert_eq!(
        RawRecord::from_json(fields).unwrap_err(),
        DecodeError::MalformedField,
    );
}

#[test]
fn empty_adjacency_with_operations_is_rejected() {
    let mut fields = valid_fields();
    fields[2] = text("");
    assert_eq!(
        RawRecord::from_json(fields).unwrap_err(),
        DecodeError::MalformedRecord,
    );
}

#[test]
fn operation_count_must_match_adjacency_side() {
    let mut fields = valid_fields();
    fields[2] = text("0110");
    assert_eq!(
        RawRecord::from_json(fields).unwrap_err(),
        DecodeError::MalformedRecord,
    );
}

#[test]
fn non_bit_characters_mean_no_edge() {
    let mut fields = valid_fields();
    fields[2] = text("1x10zzzz1");
    let rec = RawRecord::from_json(fields).expect("valid record");
    assert_eq!(
        rec.adjacency,
        vec![
            vec![true, false, true],
            vec![false, false, false],
            vec![false, false, true],
        ],
    );
}
