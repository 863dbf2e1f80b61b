use resp_kv::server::handle_request;
use resp_kv::store::{Store, ValueProperties};

#[test]
fn set_then_get_returns_the_value() {
    let mut store = Store::new();
    let (reply, close) = handle_request(&mut store, b"*3\r\n$3\r\nSET\r\n$1\r\nk\r\n$1\r\nv\r\n", 0);
    assert_eq!(reply, b"+OK\r\n".to_vec());
    assert!(!close);

    let (reply, close) = handle_request(&mut store, b"*2\r\n$3\r\nGET\r\n$1\r\nk\r\n", 50);
    assert_eq!(reply, b"$1\r\nv\r\n".to_vec());
    assert!(!close);
}

#[test]
fn get_of_a_missing_key_is_null() {
    let mut store = Store::new();
    let (reply, _) = handle_request(&mut store, b"*2\r\n$3\r\nGET\r\n$1\r\nk\r\n", 0);
    assert_eq!(reply, b"$-1\r\n".to_vec());
}

#[test]
fn set_px_zero_expires_immediately() {
    let mut store = Store::new();
    let (reply, _) = handle_request(
        &mut store,
        b"*5\r\n$3\r\nSET\r\n$1\r\nk\r\n$1\r\nv\r\n$2\r\nPX\r\n$1\r\n0\r\n",
        100,
    );
    assert_eq!(reply, b"+OK\r\n".to_vec());

    let (reply, _) = handle_request(&mut store, b"*2\r\n$3\r\nGET\r\n$1\r\nk\r\n", 101);
    assert_eq!(reply, b"$-1\r\n".to_vec());
}

#[test]
fn set_px_entry_lives_until_the_expiry_passes() {
    let mut store = Store::new();
    let (reply, _) = handle_request(
        &mut store,
        b"*5\r\n$3\r\nSET\r\n$1\r\nk\r\n$1\r\nv\r\n$2\r\nPX\r\n$2\r\n10\r\n",
        100,
    );
    assert_eq!(reply, b"+OK\r\n".to_vec());

    let (reply, _) = handle_request(&mut store, b"*2\r\n$3\r\nGET\r\n$1\r\nk\r\n", 110);
    assert_eq!(reply, b"$1\r\nv\r\n".to_vec());

    let (reply, _) = handle_request(&mut store, b"*2\r\n$3\r\nGET\r\n$1\r\nk\r\n", 111);
    assert_eq!(reply, b"$-1\r\n".to_vec());
}

#[test]
fn set_does_not_overwrite_an_existing_key() {
    let mut store = Store::new();
    handle_request(&mut store, b"*3\r\n$3\r\nSET\r\n$1\r\nk\r\n$2\r\nv1\r\n", 0);
    let (reply, _) = handle_request(&mut store, b"*3\r\n$3\r\nSET\r\n$1\r\nk\r\n$2\r\nv2\r\n", 1);
    assert_eq!(reply, b"+OK\r\n".to_vec());
    let (reply, _) = handle_request(&mut store, b"*2\r\n$3\r\nGET\r\n$1\r\nk\r\n", 2);
    assert_eq!(reply, b"$2\r\nv1\r\n".to_vec());
}

#[test]
fn sets_on_disjoint_keys_are_independent() {
    let mut store = Store::new();
    handle_request(&mut store, b"*3\r\n$3\r\nSET\r\n$1\r\na\r\n$1\r\n1\r\n", 0);
    handle_request(&mut store, b"*3\r\n$3\r\nSET\r\n$1\r\nb\r\n$1\r\n2\r\n", 0);
    let (reply, _) = handle_request(&mut store, b"*2\r\n$3\r\nGET\r\n$1\r\na\r\n", 1);
    assert_eq!(reply, b"$1\r\n1\r\n".to_vec());
    let (reply, _) = handle_request(&mut store, b"*2\r\n$3\r\nGET\r\n$1\r\nb\r\n", 1);
    assert_eq!(reply, b"$1\r\n2\r\n".to_vec());
}

#[test]
fn repeated_ping_always_replies_pong() {
    let mut store = Store::new();
    for now in 0..5u128 {
        let (reply, close) = handle_request(&mut store, b"*1\r\n$4\r\nPING\r\n", now);
        assert_eq!(reply, b"$4\r\nPONG\r\n".to_vec());
        assert!(!close);
    }
    handle_request(&mut store, b"*3\r\n$3\r\nSET\r\n$1\r\nk\r\n$1\r\nv\r\n", 5);
    let (reply, _) = handle_request(&mut store, b"*1\r\n$4\r\npInG\r\n", 6);
    assert_eq!(reply, b"$4\r\nPONG\r\n".to_vec());
}

#[test]
fn echo_replies_the_second_element_verbatim() {
    let mut store = Store::new();
    let (reply, _) = handle_request(&mut store, b"*2\r\n$4\r\nECHO\r\n$5\r\nhello\r\n", 0);
    assert_eq!(reply, b"$5\r\nhello\r\n".to_vec());
    let (reply, _) = handle_request(&mut store, b"*2\r\n$4\r\nECHO\r\n:42\r\n", 0);
    assert_eq!(reply, b":42\r\n".to_vec());
}

#[test]
fn echo_without_argument_is_an_error_not_a_crash() {
    let mut store = Store::new();
    let (reply, close) = handle_request(&mut store, b"*1\r\n$4\r\nECHO\r\n", 0);
    assert_eq!(reply, b"-ERR invalid arguments\r\n".to_vec());
    assert!(!close);
}

#[test]
fn wrong_set_arity_is_an_argument_error() {
    let mut store = Store::new();
    let (reply, _) = handle_request(&mut store, b"*2\r\n$3\r\nSET\r\n$1\r\nk\r\n", 0);
    assert_eq!(reply, b"-ERR invalid arguments\r\n".to_vec());
    let (reply, _) =
        handle_request(&mut store, b"*4\r\n$3\r\nSET\r\n$1\r\nk\r\n$1\r\nv\r\n$2\r\nPX\r\n", 0);
    assert_eq!(reply, b"-ERR invalid arguments\r\n".to_vec());
}

#[test]
fn get_without_key_is_an_argument_error() {
    let mut store = Store::new();
    let (reply, _) = handle_request(&mut store, b"*1\r\n$3\r\nGET\r\n", 0);
    assert_eq!(reply, b"-ERR invalid arguments\r\n".to_vec());
}

#[test]
fn info_is_recognized_but_unhandled() {
    let mut store = Store::new();
    let (reply, close) = handle_request(&mut store, b"*1\r\n$4\r\nINFO\r\n", 0);
    assert_eq!(reply, b"-ERR unknown command\r\n".to_vec());
    assert!(!close);
}

#[test]
fn non_array_request_is_an_invalid_command() {
    let mut store = Store::new();
    let (reply, close) = handle_request(&mut store, b"+hello\r\n", 0);
    assert_eq!(reply, b"-ERR invalid command\r\n".to_vec());
    assert!(!close);
}

#[test]
fn first_element_must_be_a_present_bulk_string() {
    let mut store = Store::new();
    let (reply, _) = handle_request(&mut store, b"*1\r\n:42\r\n", 0);
    assert_eq!(reply, b"-ERR invalid command\r\n".to_vec());
    let (reply, _) = handle_request(&mut store, b"*1\r\n$-1\r\n", 0);
    assert_eq!(reply, b"-ERR invalid command\r\n".to_vec());
}

#[test]
fn a_decode_error_replies_and_closes() {
    let mut store = Store::new();
    let (reply, close) = handle_request(&mut store, b":\r\n", 0);
    assert_eq!(reply, b"-ERR invalid command\r\n".to_vec());
    assert!(close);
    let (reply, close) = handle_request(&mut store, b"", 0);
    assert_eq!(reply, b"-ERR invalid command\r\n".to_vec());
    assert!(close);
}

#[test]
fn unparsable_expiry_stores_without_expiry() {
    let mut store = Store::new();
    handle_request(
        &mut store,
        b"*5\r\n$3\r\nSET\r\n$1\r\nk\r\n$1\r\nv\r\n$2\r\nPX\r\n$4\r\nsoon\r\n",
        0,
    );
    let (reply, _) = handle_request(&mut store, b"*2\r\n$3\r\nGET\r\n$1\r\nk\r\n", 1_000_000);
    assert_eq!(reply, b"$1\r\nv\r\n".to_vec());
}

#[test]
fn value_properties_expiry_is_strict() {
    let props = ValueProperties::new(b"v".to_vec(), 100, Some(5));
    assert!(!props.is_expired(100));
    assert!(!props.is_expired(105));
    assert!(props.is_expired(106));
    assert!(!props.is_expired(0));
    let forever = ValueProperties::new(b"v".to_vec(), 100, None);
    assert!(!forever.is_expired(u128::MAX));
}

#[test]
fn store_get_and_set_if_absent() {
    let mut store = Store::new();
    assert!(store.get(b"k").is_none());
    store.set_if_absent(b"k".to_vec(), ValueProperties::new(b"v1".to_vec(), 0, None));
    store.set_if_absent(b"k".to_vec(), ValueProperties::new(b"v2".to_vec(), 0, None));
    let got = store.get(b"k").unwrap();
    assert_eq!(got.value, b"v1".to_vec());
    assert!(store.get(b"other").is_none());
}
