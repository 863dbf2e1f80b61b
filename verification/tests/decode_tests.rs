use resp_kv::decode::{get_resp_value, read_line, DecodeError};
use resp_kv::resp::{BulkEnumerator, RESPValue};

#[test]
fn test_read_line() {
    let input: &[u8] = b"+OK\r\n";
    let (line, next) = read_line(input, 0);
    assert_eq!(line, b"+OK".to_vec());
    assert_eq!(next, input.len());
}

#[test]
fn test_get_resp_value_simple_string() {
    let input: &[u8] = b"+OK\r\n";
    let (value, used) = get_resp_value(input).unwrap();
    assert_eq!(value, RESPValue::SimpleString(b"OK".to_vec()));
    assert_eq!(used, input.len());
}

#[test]
fn test_get_resp_value_bulk_string() {
    let input: &[u8] = b"$4\r\nWiki\r\n";
    let (value, used) = get_resp_value(input).unwrap();
    assert_eq!(value, RESPValue::BulkString(BulkEnumerator::Value(b"Wiki".to_vec())));
    assert_eq!(used, input.len());
}

#[test]
fn test_get_resp_value_array() {
    let input: &[u8] = b"*2\r\n$3\r\nfoo\r\n$3\r\nbar\r\n";
    let (value, used) = get_resp_value(input).unwrap();
    assert_eq!(
        value,
        RESPValue::Array(vec![
            RESPValue::BulkString(BulkEnumerator::Value(b"foo".to_vec())),
            RESPValue::BulkString(BulkEnumerator::Value(b"bar".to_vec())),
        ])
    );
    assert_eq!(used, input.len());
}

#[test]
fn test_get_resp_value_error() {
    let input: &[u8] = b"-Error message\r\n";
    let (value, used) = get_resp_value(input).unwrap();
    assert_eq!(value, RESPValue::Error(b"Error message".to_vec()));
    assert_eq!(used, input.len());
}

#[test]
fn test_get_resp_value_integer() {
    let input: &[u8] = b":1000\r\n";
    let (value, used) = get_resp_value(input).unwrap();
    assert_eq!(value, RESPValue::Integer(1000));
    assert_eq!(used, input.len());
}

#[test]
fn test_get_resp_value_null() {
    let input: &[u8] = b"$-1\r\n";
    let (value, used) = get_resp_value(input).unwrap();
    assert_eq!(value, RESPValue::BulkString(BulkEnumerator::Null));
    assert_eq!(used, input.len());
}

#[test]
fn read_line_without_delimiter_takes_the_rest() {
    let input: &[u8] = b"abc";
    let (line, next) = read_line(input, 0);
    assert_eq!(line, b"abc".to_vec());
    assert_eq!(next, 3);
}

#[test]
fn framing_bulk_consumes_exactly_its_bytes() {
    let input: &[u8] = b"$5\r\nhello\r\nTRAILING";
    let (value, used) = get_resp_value(input).unwrap();
    assert_eq!(value, RESPValue::BulkString(BulkEnumerator::Value(b"hello".to_vec())));
    assert_eq!(used, 11);
}

#[test]
fn framing_empty_bulk() {
    let input: &[u8] = b"$0\r\n\r\n";
    let (value, used) = get_resp_value(input).unwrap();
    assert_eq!(value, RESPValue::BulkString(BulkEnumerator::Empty));
    assert_eq!(used, 6);
}

#[test]
fn bulk_payload_is_binary_safe() {
    let input: &[u8] = b"$4\r\nab\r\n\r\n";
    let (value, used) = get_resp_value(input).unwrap();
    assert_eq!(value, RESPValue::BulkString(BulkEnumerator::Value(b"ab\r\n".to_vec())));
    assert_eq!(used, 10);
}

#[test]
fn nested_arrays_decode() {
    let input: &[u8] = b"*2\r\n*1\r\n:7\r\n$1\r\nx\r\n";
    let (value, used) = get_resp_value(input).unwrap();
    assert_eq!(
        value,
        RESPValue::Array(vec![
            RESPValue::Array(vec![RESPValue::Integer(7)]),
            RESPValue::BulkString(BulkEnumerator::Value(b"x".to_vec())),
        ])
    );
    assert_eq!(used, input.len());
}

#[test]
fn empty_array_decodes_to_empty_array() {
    let input: &[u8] = b"*0\r\n";
    let (value, used) = get_resp_value(input).unwrap();
    assert_eq!(value, RESPValue::Array(vec![]));
    assert_eq!(used, 4);
}

#[test]
fn unknown_tag_is_lenient_null() {
    let (value, used) = get_resp_value(b"_\r\n").unwrap();
    assert_eq!(value, RESPValue::NULL);
    assert_eq!(used, 3);
    let (value, used) = get_resp_value(b"?junk\r\nrest").unwrap();
    assert_eq!(value, RESPValue::NULL);
    assert_eq!(used, 7);
}

#[test]
fn empty_input_is_truncated() {
    assert_eq!(get_resp_value(b""), Err(DecodeError::Truncated));
}

#[test]
fn short_bulk_payload_is_truncated() {
    assert_eq!(get_resp_value(b"$5\r\nab"), Err(DecodeError::Truncated));
}

#[test]
fn bulk_without_terminator_is_rejected() {
    assert_eq!(get_resp_value(b"$2\r\nabXY"), Err(DecodeError::MissingCrlf));
}

#[test]
fn malformed_integer_is_rejected() {
    assert_eq!(get_resp_value(b":12a\r\n"), Err(DecodeError::BadNumber));
    assert_eq!(get_resp_value(b":\r\n"), Err(DecodeError::BadNumber));
    assert_eq!(get_resp_value(b":2147483648\r\n"), Err(DecodeError::BadNumber));
}

#[test]
fn integer_bounds_and_signs_parse() {
    let (value, _) = get_resp_value(b":2147483647\r\n").unwrap();
    assert_eq!(value, RESPValue::Integer(i32::MAX));
    let (value, _) = get_resp_value(b":-2147483648\r\n").unwrap();
    assert_eq!(value, RESPValue::Integer(i32::MIN));
    let (value, _) = get_resp_value(b":+123\r\n").unwrap();
    assert_eq!(value, RESPValue::Integer(123));
}

#[test]
fn negative_array_count_is_rejected() {
    assert_eq!(get_resp_value(b"*-1\r\n"), Err(DecodeError::BadNumber));
}

#[test]
fn deep_nesting_is_rejected() {
    let mut input = Vec::new();
    for _ in 0..65 {
        input.extend_from_slice(b"*1\r\n");
    }
    input.extend_from_slice(b":1\r\n");
    assert_eq!(get_resp_value(&input), Err(DecodeError::TooDeep));
}

#[test]
fn nesting_within_the_limit_decodes() {
    let mut input = Vec::new();
    for _ in 0..64 {
        input.extend_from_slice(b"*1\r\n");
    }
    input.extend_from_slice(b":1\r\n");
    let (value, used) = get_resp_value(&input).unwrap();
    assert_eq!(used, input.len());
    let mut v = &value;
    for _ in 0..64 {
        match v {
            RESPValue::Array(items) => {
                assert_eq!(items.len(), 1);
                v = &items[0];
            }
            other => panic!("expected an array, got {:?}", other),
        }
    }
    assert_eq!(*v, RESPValue::Integer(1));
}
