use codecrafters_redis::resp::decode::{resp_decode_array, resp_decode_value, resp_decode_value_checked, DecodeFault};
use codecrafters_redis::reply::encode_bulk;
use codecrafters_redis::resp::value::DataObjects;

fn bulk(b: &[u8]) -> DataObjects {
    DataObjects::BulkString(Some(b.to_vec()))
}

#[test]
fn decodes_echo_request() {
    let input = b"*2\r\n$4\r\nECHO\r\n$3\r\nhey\r\n";
    let mut pos = 0;
    let v = resp_decode_value(input, &mut pos);
    assert_eq!(v, Some(DataObjects::Array(Some(vec![bulk(b"ECHO"), bulk(b"hey")]))));
    assert_eq!(pos, 23);
}

#[test]
fn decodes_simple_string_error_and_integer() {
    let mut pos = 0;
    assert_eq!(resp_decode_value(b"+OK\r\n", &mut pos), Some(DataObjects::BasicString("OK".to_string())));
    assert_eq!(pos, 5);
    let mut pos = 0;
    assert_eq!(resp_decode_value(b"-ERR bad\r\n", &mut pos), Some(DataObjects::Error("ERR bad".to_string())));
    assert_eq!(pos, 10);
    let mut pos = 0;
    assert_eq!(resp_decode_value(b":42\r\n", &mut pos), Some(DataObjects::Integer("42".to_string())));
    assert_eq!(pos, 5);
}

#[test]
fn decodes_from_a_later_position() {
    let input = b"+a\r\n+b\r\n";
    let mut pos = 0;
    assert_eq!(resp_decode_value(input, &mut pos), Some(DataObjects::BasicString("a".to_string())));
    assert_eq!(resp_decode_value(input, &mut pos), Some(DataObjects::BasicString("b".to_string())));
    assert_eq!(pos, 8);
    assert_eq!(resp_decode_value(input, &mut pos), None);
    assert_eq!(pos, 8);
}

#[test]
fn empty_input_gives_nothing() {
    let mut pos = 0;
    assert_eq!(resp_decode_value(b"", &mut pos), None);
    assert_eq!(pos, 0);
}

#[test]
fn null_and_empty_arrays() {
    let mut pos = 0;
    assert_eq!(resp_decode_value(b"*-1\r\n", &mut pos), Some(DataObjects::Array(None)));
    assert_eq!(pos, 5);
    let mut pos = 0;
    assert_eq!(resp_decode_value(b"*0\r\n", &mut pos), Some(DataObjects::Array(Some(vec![]))));
    assert_eq!(pos, 4);
}

#[test]
fn nested_arrays() {
    let input = b"*2\r\n*1\r\n:1\r\n+a\r\n";
    let mut pos = 0;
    let inner = DataObjects::Array(Some(vec![DataObjects::Integer("1".to_string())]));
    assert_eq!(
        resp_decode_value(input, &mut pos),
        Some(DataObjects::Array(Some(vec![inner, DataObjects::BasicString("a".to_string())])))
    );
    assert_eq!(pos, 16);
}

#[test]
fn array_shorter_than_announced_keeps_what_is_there() {
    let input = b"*3\r\n+a\r\n";
    let mut pos = 0;
    assert_eq!(
        resp_decode_value(input, &mut pos),
        Some(DataObjects::Array(Some(vec![DataObjects::BasicString("a".to_string())])))
    );
    assert_eq!(pos, 8);
}

#[test]
fn request_in_a_zero_filled_buffer() {
    let mut buffer = [0u8; 64];
    let req = b"*1\r\n$4\r\nPING\r\n";
    buffer[..req.len()].copy_from_slice(req);
    let mut pos = 0;
    assert_eq!(resp_decode_value(&buffer, &mut pos), Some(DataObjects::Array(Some(vec![bulk(b"PING")]))));
    assert_eq!(pos, req.len());
}

#[test]
fn decode_array_from_its_header() {
    let input = b"*1\r\n$3\r\nabc\r\n";
    let mut pos = 0;
    assert_eq!(resp_decode_array(input, &mut pos), Some(DataObjects::Array(Some(vec![bulk(b"abc")]))));
    assert_eq!(pos, input.len());
}

#[test]
fn checked_decode_reports_faults() {
    let cases: [&[u8]; 7] = [
        b"$-1\r\n",
        b"$5\r\nab\r\n",
        b"$x\r\n",
        b"?abc",
        b"+",
        b"*x\r\n",
        b"+\xff\r\n",
    ];
    for c in cases.iter() {
        let mut pos = 0;
        assert_eq!(resp_decode_value_checked(c, &mut pos), Err(DecodeFault));
        assert_eq!(pos, 0);
    }
}

#[test]
fn checked_decode_agrees_on_good_input() {
    let input = b"*2\r\n$4\r\nECHO\r\n$3\r\nhey\r\n";
    let mut pos = 0;
    let v = resp_decode_value_checked(input, &mut pos);
    assert_eq!(v, Ok(Some(DataObjects::Array(Some(vec![bulk(b"ECHO"), bulk(b"hey")])))));
    assert_eq!(pos, 23);
}

#[test]
fn as_command_gives_bytes_of_words() {
    assert_eq!(bulk(b"GET").as_command(), Some(&b"GET"[..]));
    assert_eq!(DataObjects::BasicString("PING".to_string()).as_command(), Some(&b"PING"[..]));
    assert_eq!(DataObjects::Integer("1".to_string()).as_command(), None);
    assert_eq!(DataObjects::BulkString(None).as_command(), None);
    assert_eq!(DataObjects::Array(None).as_command(), None);
}

#[test]
fn law_bulk_reply_decodes_back() {
    for b in [&b""[..], b"x", b"hello world", &[0u8, 13, 10, 255][..]] {
        let w = encode_bulk(b);
        let mut pos = 0;
        assert_eq!(resp_decode_value(&w, &mut pos), Some(bulk(b)));
        assert_eq!(pos, w.len());
    }
}

#[test]
fn law_request_array_decodes_back() {
    let words: [&[u8]; 3] = [b"SET", b"key", b"a\r\nb"];
    let mut w = format!("*{}\r\n", words.len()).into_bytes();
    for x in words.iter() {
        w.extend_from_slice(&encode_bulk(x));
    }
    let mut pos = 0;
    assert_eq!(
        resp_decode_value(&w, &mut pos),
        Some(DataObjects::Array(Some(words.iter().map(|x| bulk(x)).collect())))
    );
    assert_eq!(pos, w.len());
}
