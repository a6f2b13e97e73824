use codecrafters_redis::command::{Answer, Command};
use codecrafters_redis::store::Store;
use codecrafters_redis::connection_::{interpret, ExpiryUnit, Step};
use codecrafters_redis::reply::{encode_bulk, encode_integer, null_array_bytes, null_bulk_bytes, ok_reply_bytes, pong_bytes};
use codecrafters_redis::resp::decode::resp_decode_value;
use codecrafters_redis::resp::value::DataObjects;

fn bulk(b: &[u8]) -> DataObjects {
    DataObjects::BulkString(Some(b.to_vec()))
}

fn req(words: &[&[u8]]) -> DataObjects {
    DataObjects::Array(Some(words.iter().map(|w| bulk(w)).collect()))
}

fn v(b: &[u8]) -> Vec<u8> {
    b.to_vec()
}

#[test]
fn ping_answers_pong() {
    assert_eq!(interpret(&req(&[b"PING"])), Step::Reply(v(b"+PONG\r\n")));
    assert_eq!(interpret(&DataObjects::Array(Some(vec![DataObjects::BasicString("PING".to_string())]))), Step::Reply(v(b"+PONG\r\n")));
}

#[test]
fn decoded_echo_request_is_echoed() {
    let mut pos = 0;
    let value = resp_decode_value(b"*2\r\n$4\r\nECHO\r\n$3\r\nhey\r\n", &mut pos).unwrap();
    assert_eq!(interpret(&value), Step::Echo(v(b"hey")));
    assert_eq!(interpret(&req(&[b"ECHO"])), Step::Fault);
}

#[test]
fn set_with_and_without_expiry() {
    assert_eq!(
        interpret(&req(&[b"SET", b"k", b"v"])),
        Step::SetValue { key: v(b"k"), value: v(b"v"), expiry: None }
    );
    assert_eq!(
        interpret(&req(&[b"SET", b"k", b"v", b"PX", b"100"])),
        Step::SetValue { key: v(b"k"), value: v(b"v"), expiry: Some((ExpiryUnit::Millis, v(b"100"))) }
    );
    assert_eq!(
        interpret(&req(&[b"SET", b"k", b"v", b"EX", b"1.5"])),
        Step::SetValue { key: v(b"k"), value: v(b"v"), expiry: Some((ExpiryUnit::Seconds, v(b"1.5"))) }
    );
    assert_eq!(
        interpret(&req(&[b"SET", b"k", b"v", b"XX", b"5"])),
        Step::SetValue { key: v(b"k"), value: v(b"v"), expiry: Some((ExpiryUnit::Ignored, v(b"5"))) }
    );
    assert_eq!(
        interpret(&req(&[b"SET", b"k", b"v", b"PX"])),
        Step::SetValue { key: v(b"k"), value: v(b"v"), expiry: None }
    );
}

#[test]
fn set_with_missing_or_unreadable_arguments() {
    assert_eq!(interpret(&req(&[b"SET"])), Step::Fault);
    assert_eq!(interpret(&req(&[b"SET", b"k"])), Step::Fault);
    let int_key = DataObjects::Array(Some(vec![bulk(b"SET"), DataObjects::Integer("1".to_string()), bulk(b"v")]));
    assert_eq!(interpret(&int_key), Step::Ignore);
    let no_amount = DataObjects::Array(Some(vec![
        bulk(b"SET"),
        bulk(b"k"),
        bulk(b"v"),
        bulk(b"PX"),
        DataObjects::BulkString(None),
    ]));
    assert_eq!(interpret(&no_amount), Step::Fault);
}

#[test]
fn get_requests() {
    assert_eq!(interpret(&req(&[b"GET", b"k"])), Step::Get { key: v(b"k") });
    assert_eq!(interpret(&req(&[b"GET"])), Step::Fault);
    let int_key = DataObjects::Array(Some(vec![bulk(b"GET"), DataObjects::Integer("1".to_string())]));
    assert_eq!(interpret(&int_key), Step::Ignore);
}

#[test]
fn list_requests() {
    assert_eq!(
        interpret(&req(&[b"RPUSH", b"l", b"a", b"b"])),
        Step::RPush { list_name: v(b"l"), values: vec![v(b"a"), v(b"b")] }
    );
    assert_eq!(
        interpret(&req(&[b"LPUSH", b"l", b"a"])),
        Step::LPush { list_name: v(b"l"), values: vec![v(b"a")] }
    );
    assert_eq!(interpret(&req(&[b"RPUSH", b"l"])), Step::Ignore);
    assert_eq!(
        interpret(&req(&[b"LRANGE", b"l", b"0", b"-1"])),
        Step::LRange { key: v(b"l"), start: 0, end: -1 }
    );
    assert_eq!(interpret(&req(&[b"LRANGE", b"l", b"0", b"x"])), Step::Fault);
    assert_eq!(interpret(&req(&[b"LRANGE", b"l", b"0"])), Step::Ignore);
    assert_eq!(interpret(&req(&[b"LLEN", b"l"])), Step::LLen { key: v(b"l") });
    assert_eq!(interpret(&req(&[b"LPOP", b"l"])), Step::LPop { key: v(b"l"), count: None });
    assert_eq!(interpret(&req(&[b"LPOP", b"l", b"+2"])), Step::LPop { key: v(b"l"), count: Some(2) });
    assert_eq!(interpret(&req(&[b"LPOP", b"l", b"two"])), Step::Fault);
    assert_eq!(interpret(&req(&[b"BLPOP", b"l", b"0"])), Step::BLPop { key: v(b"l"), timeout: v(b"0") });
    assert_eq!(interpret(&req(&[b"BLPOP", b"l"])), Step::Fault);
}

#[test]
fn type_and_xadd_requests() {
    assert_eq!(interpret(&req(&[b"TYPE", b"k"])), Step::Type { key: v(b"k") });
    assert_eq!(interpret(&req(&[b"TYPE"])), Step::Fault);
    assert_eq!(
        interpret(&req(&[b"XADD", b"s", b"1-0", b"a", b"1"])),
        Step::XAdd { key: v(b"s"), id: v(b"1-0"), pairs: vec![(v(b"a"), v(b"1"))] }
    );
    // each element from the fourth on is paired with the one after it
    assert_eq!(
        interpret(&req(&[b"XADD", b"s", b"1-0", b"a", b"1", b"b", b"2"])),
        Step::XAdd {
            key: v(b"s"),
            id: v(b"1-0"),
            pairs: vec![(v(b"a"), v(b"1")), (v(b"1"), v(b"b")), (v(b"b"), v(b"2"))],
        }
    );
    assert_eq!(
        interpret(&req(&[b"XADD", b"s", b"1-0"])),
        Step::XAdd { key: v(b"s"), id: v(b"1-0"), pairs: vec![] }
    );
    assert_eq!(interpret(&req(&[b"XADD", b"s"])), Step::Fault);
}

#[test]
fn other_values_are_ignored() {
    assert_eq!(interpret(&req(&[b"HELLO", b"x"])), Step::Ignore);
    assert_eq!(interpret(&DataObjects::BasicString("PING".to_string())), Step::Ignore);
    assert_eq!(interpret(&DataObjects::Array(None)), Step::Ignore);
    assert_eq!(interpret(&DataObjects::Array(Some(vec![]))), Step::Fault);
    assert_eq!(interpret(&req(&[b"ping"])), Step::Ignore);
}

#[test]
fn reply_encodings() {
    assert_eq!(encode_bulk(b"abc"), v(b"$3\r\nabc\r\n"));
    assert_eq!(encode_bulk(b""), v(b"$0\r\n\r\n"));
    assert_eq!(encode_integer(0), v(b":0\r\n"));
    assert_eq!(encode_integer(1234), v(b":1234\r\n"));
    assert_eq!(null_bulk_bytes(), v(b"$-1\r\n"));
    assert_eq!(null_array_bytes(), v(b"*-1\r\n"));
    assert_eq!(ok_reply_bytes(), v(b"+OK\r\n"));
    assert_eq!(pong_bytes(), v(b"+PONG\r\n"));
}

#[test]
fn echo_of_other_values_sends_their_text() {
    let int_arg = DataObjects::Array(Some(vec![bulk(b"ECHO"), DataObjects::Integer("42".to_string())]));
    assert_eq!(interpret(&int_arg), Step::Echo(v(b"42")));
    let arr_arg = DataObjects::Array(Some(vec![bulk(b"ECHO"), req(&[b"a", b"b"])]));
    assert_eq!(interpret(&arr_arg), Step::Echo(v(b"[ \x08a, \x08b, \x08\x08]")));
    let null_arg = DataObjects::Array(Some(vec![bulk(b"ECHO"), DataObjects::BulkString(None)]));
    assert_eq!(interpret(&null_arg), Step::Echo(v(b"")));
}

#[test]
fn request_with_non_utf8_bulk_fails() {
    assert_eq!(interpret(&req(&[b"ECHO", b"\xff"])), Step::Fault);
    assert_eq!(interpret(&req(&[b"SET", b"k", b"\xfe\xff"])), Step::Fault);
    assert_eq!(interpret(&DataObjects::BulkString(Some(vec![0xff]))), Step::Fault);
}

#[test]
fn shown_text_of_values() {
    assert_eq!(DataObjects::BasicString("OK".to_string()).shown(), Some(v(b"OK")));
    assert_eq!(DataObjects::Error("ERR x".to_string()).shown(), Some(v(b"ERR x")));
    assert_eq!(DataObjects::Integer("7".to_string()).shown(), Some(v(b"7")));
    assert_eq!(bulk(b"hey").shown(), Some(v(b"hey")));
    assert_eq!(DataObjects::BulkString(None).shown(), Some(v(b"")));
    assert_eq!(DataObjects::Array(None).shown(), Some(v(b"")));
    assert_eq!(DataObjects::Array(Some(vec![])).shown(), Some(v(b"[ \x08\x08]")));
    assert_eq!(req(&[b"PING"]).shown(), Some(v(b"[ \x08PING, \x08\x08]")));
    assert_eq!(bulk(b"\xc3\x28").shown(), None);
    assert_eq!(bulk("é".as_bytes()).shown(), Some("é".as_bytes().to_vec()));
}

#[test]
fn law_echo_answers_argument_example() {
    let mut pos = 0;
    let value = resp_decode_value(b"*2\r\n$4\r\nECHO\r\n$3\r\nhey\r\n", &mut pos).unwrap();
    let text = match interpret(&value) {
        Step::Echo(t) => t,
        other => panic!("unexpected {:?}", other),
    };
    let mut s = Store::new();
    assert_eq!(s.handle(Command::Echo { value: text }, 0, 0), Answer::Reply(v(b"$3\r\nhey\r\n")));
}
