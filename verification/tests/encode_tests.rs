use resp_kv::decode::get_resp_value;
use resp_kv::encode::encode_resp_value;
use resp_kv::resp::{BulkEnumerator, RESPValue};

#[test]
fn test_encode_simple_string() {
    let value = RESPValue::SimpleString(b"OK".to_vec());
    let expected = b"+OK\r\n".to_vec();
    assert_eq!(encode_resp_value(&value), expected);
}

#[test]
fn test_encode_error() {
    let value = RESPValue::Error(b"ERR wrong number of arguments for 'set' command".to_vec());
    let expected = b"-ERR wrong number of arguments for 'set' command\r\n".to_vec();
    assert_eq!(encode_resp_value(&value), expected);
}

#[test]
fn test_encode_integer() {
    let value = RESPValue::Integer(42);
    let expected = b":42\r\n".to_vec();
    assert_eq!(encode_resp_value(&value), expected);
}

#[test]
fn test_encode_bulk_string() {
    let value = RESPValue::BulkString(BulkEnumerator::Value(b"hello world".to_vec()));
    let expected = b"$11\r\nhello world\r\n".to_vec();
    assert_eq!(encode_resp_value(&value), expected);
}

#[test]
fn test_encode_null_bulk_string() {
    let value = RESPValue::BulkString(BulkEnumerator::Null);
    let expected = b"$-1\r\n".to_vec();
    assert_eq!(encode_resp_value(&value), expected);
}

#[test]
fn test_encode_empty_bulk_string() {
    let value = RESPValue::BulkString(BulkEnumerator::Empty);
    let expected = b"$0\r\n\r\n".to_vec();
    assert_eq!(encode_resp_value(&value), expected);
}

#[test]
fn test_encode_array() {
    let value = RESPValue::Array(vec![
        RESPValue::SimpleString(b"OK".to_vec()),
        RESPValue::Error(b"ERR wrong number of arguments for 'set' command".to_vec()),
        RESPValue::Integer(42),
        RESPValue::BulkString(BulkEnumerator::Value(b"hello world".to_vec())),
        RESPValue::BulkString(BulkEnumerator::Null),
        RESPValue::BulkString(BulkEnumerator::Empty),
    ]);
    let expected =
        b"*6\r\n+OK\r\n-ERR wrong number of arguments for 'set' command\r\n:42\r\n$11\r\nhello world\r\n$-1\r\n$0\r\n\r\n"
            .to_vec();
    assert_eq!(encode_resp_value(&value), expected);
}

#[test]
fn test_encode_null() {
    let value = RESPValue::NULL;
    let expected = b"_\r\n".to_vec();
    assert_eq!(encode_resp_value(&value), expected);
}

#[test]
fn encode_negative_integer() {
    assert_eq!(encode_resp_value(&RESPValue::Integer(-42)), b":-42\r\n".to_vec());
    assert_eq!(
        encode_resp_value(&RESPValue::Integer(i32::MIN)),
        b":-2147483648\r\n".to_vec()
    );
    assert_eq!(encode_resp_value(&RESPValue::Integer(0)), b":0\r\n".to_vec());
}

#[test]
fn decode_inverts_encode() {
    let value = RESPValue::Array(vec![
        RESPValue::Array(vec![RESPValue::Integer(-7), RESPValue::NULL]),
        RESPValue::SimpleString(b"status".to_vec()),
        RESPValue::BulkString(BulkEnumerator::Value(b"a\rb\nc".to_vec())),
        RESPValue::BulkString(BulkEnumerator::Empty),
        RESPValue::BulkString(BulkEnumerator::Null),
    ]);
    let bytes = encode_resp_value(&value);
    let (decoded, used) = get_resp_value(&bytes).unwrap();
    assert_eq!(decoded, value);
    assert_eq!(used, bytes.len());
}
