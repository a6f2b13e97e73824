use codecrafters_redis::command::{Answer, Command};
use codecrafters_redis::store::Store;

fn v(b: &[u8]) -> Vec<u8> {
    b.to_vec()
}

fn vs(items: &[&[u8]]) -> Vec<Vec<u8>> {
    items.iter().map(|b| b.to_vec()).collect()
}

fn reply(b: &[u8]) -> Answer {
    Answer::Reply(b.to_vec())
}

fn rpush(s: &mut Store, key: &[u8], items: &[&[u8]]) -> Answer {
    s.handle(Command::RPUSH { list_name: v(key), value_list: vs(items) }, 0, 0)
}

fn lpush(s: &mut Store, key: &[u8], items: &[&[u8]]) -> Answer {
    s.handle(Command::LPUSH { list_name: v(key), value_list: vs(items) }, 0, 0)
}

fn lrange(s: &mut Store, key: &[u8], a: i32, b: i32) -> Answer {
    s.handle(Command::LRange { list_name: v(key), start_index: a, end_index: b }, 0, 0)
}

fn lpop(s: &mut Store, key: &[u8], n: Option<i32>) -> Answer {
    s.handle(Command::LPOP { list_name: v(key), no_of_elements: n }, 0, 0)
}

#[test]
fn set_then_get() {
    let mut s = Store::new();
    assert_eq!(s.handle(Command::SetKey { key: v(b"k"), value: v(b"val"), life: None }, 1, 10), reply(b"+OK\r\n"));
    assert_eq!(s.handle(Command::Get { key: v(b"k") }, 2, 1_000_000), reply(b"$3\r\nval\r\n"));
    assert_eq!(s.handle(Command::Get { key: v(b"other") }, 2, 11), reply(b"$-1\r\n"));
}

#[test]
fn set_overwrites() {
    let mut s = Store::new();
    s.handle(Command::SetKey { key: v(b"k"), value: v(b"a"), life: None }, 1, 0);
    s.handle(Command::SetKey { key: v(b"k"), value: v(b"bb"), life: None }, 1, 0);
    assert_eq!(s.get(b"k", 0), Some(v(b"bb")));
}

#[test]
fn value_expires_after_its_life() {
    let mut s = Store::new();
    s.handle(Command::SetKey { key: v(b"k"), value: v(b"x"), life: Some(100) }, 1, 1000);
    assert_eq!(s.handle(Command::Get { key: v(b"k") }, 1, 1100), reply(b"$1\r\nx\r\n"));
    assert_eq!(s.handle(Command::Get { key: v(b"k") }, 1, 1101), reply(b"$-1\r\n"));
    assert_eq!(s.handle(Command::TYPE { key: v(b"k") }, 1, 1100), reply(b"+string\r\n"));
    assert_eq!(s.handle(Command::TYPE { key: v(b"k") }, 1, 1101), reply(b"+none\r\n"));
}

#[test]
fn lifetime_past_the_end_of_the_clock_never_expires() {
    let mut s = Store::new();
    assert_eq!(s.handle(Command::SetKey { key: v(b"k"), value: v(b"x"), life: Some(u64::MAX) }, 1, 5), reply(b"+OK\r\n"));
    assert_eq!(s.handle(Command::Get { key: v(b"k") }, 1, u64::MAX), reply(b"$1\r\nx\r\n"));
    assert_eq!(s.handle(Command::SetKey { key: v(b"j"), value: v(b"y"), life: Some(1) }, 1, u64::MAX), reply(b"+OK\r\n"));
    assert_eq!(s.get(b"j", u64::MAX), Some(v(b"y")));
}

#[test]
fn echo_answers_bulk() {
    let mut s = Store::new();
    assert_eq!(s.handle(Command::Echo { value: v(b"hey") }, 1, 0), reply(b"$3\r\nhey\r\n"));
    assert_eq!(s.handle(Command::Echo { value: v(b"") }, 1, 0), reply(b"$0\r\n\r\n"));
}

#[test]
fn pushes_answer_lengths_and_order() {
    let mut s = Store::new();
    assert_eq!(rpush(&mut s, b"l", &[b"a", b"b"]), reply(b":2\r\n"));
    assert_eq!(lpush(&mut s, b"l", &[b"c", b"d"]), reply(b":4\r\n"));
    assert_eq!(
        lrange(&mut s, b"l", 0, -1),
        reply(b"*4\r\n$1\r\nd\r\n$1\r\nc\r\n$1\r\na\r\n$1\r\nb\r\n")
    );
    assert_eq!(s.handle(Command::LLen { list_name: v(b"l") }, 0, 0), reply(b":4\r\n"));
    assert_eq!(s.llen(b"l"), 4);
}

#[test]
fn push_onto_a_string_answers_zero() {
    let mut s = Store::new();
    s.handle(Command::SetKey { key: v(b"k"), value: v(b"x"), life: None }, 1, 0);
    assert_eq!(rpush(&mut s, b"k", &[b"a"]), reply(b":0\r\n"));
    assert_eq!(s.get(b"k", 0), Some(v(b"x")));
    assert_eq!(s.handle(Command::LLen { list_name: v(b"k") }, 0, 0), reply(b":0\r\n"));
}

#[test]
fn lrange_indices() {
    let mut s = Store::new();
    rpush(&mut s, b"l", &[b"a", b"b", b"c", b"d", b"e"]);
    assert_eq!(lrange(&mut s, b"l", 0, 1), reply(b"*2\r\n$1\r\na\r\n$1\r\nb\r\n"));
    assert_eq!(lrange(&mut s, b"l", 2, 4), reply(b"*3\r\n$1\r\nc\r\n$1\r\nd\r\n$1\r\ne\r\n"));
    assert_eq!(lrange(&mut s, b"l", 1, 10), reply(b"*4\r\n$1\r\nb\r\n$1\r\nc\r\n$1\r\nd\r\n$1\r\ne\r\n"));
    assert_eq!(lrange(&mut s, b"l", -2, -1), reply(b"*2\r\n$1\r\nd\r\n$1\r\ne\r\n"));
    assert_eq!(lrange(&mut s, b"l", -9, 0), reply(b"*1\r\n$1\r\na\r\n"));
    assert_eq!(lrange(&mut s, b"l", 3, 1), reply(b"*0\r\n"));
    assert_eq!(lrange(&mut s, b"l", 5, 9), reply(b"*0\r\n"));
}

#[test]
fn lrange_on_missing_key_makes_an_empty_list() {
    let mut s = Store::new();
    assert_eq!(lrange(&mut s, b"m", 0, -1), reply(b"*0\r\n"));
    assert_eq!(s.handle(Command::TYPE { key: v(b"m") }, 0, 0), reply(b"+list\r\n"));
}

#[test]
fn lrange_on_a_string_sends_no_answer() {
    let mut s = Store::new();
    s.handle(Command::SetKey { key: v(b"k"), value: v(b"x"), life: None }, 1, 0);
    assert_eq!(lrange(&mut s, b"k", 0, -1), Answer::NoAnswer);
}

#[test]
fn lpop_variants() {
    let mut s = Store::new();
    rpush(&mut s, b"l", &[b"d", b"c", b"a", b"b"]);
    assert_eq!(lpop(&mut s, b"l", None), reply(b"$1\r\nd\r\n"));
    assert_eq!(lpop(&mut s, b"l", Some(2)), reply(b"*2\r\n$1\r\nc\r\n$1\r\na\r\n"));
    assert_eq!(lpop(&mut s, b"l", Some(-1)), reply(b"*-1\r\n"));
    assert_eq!(lpop(&mut s, b"l", Some(5)), reply(b"*1\r\n$1\r\nb\r\n"));
    assert_eq!(lpop(&mut s, b"l", None), reply(b"$-1\r\n"));
    assert_eq!(lpop(&mut s, b"l", Some(3)), reply(b"$-1\r\n"));
    assert_eq!(lpop(&mut s, b"missing", None), reply(b""));
    assert_eq!(lpop(&mut s, b"missing", Some(1)), reply(b""));
}

#[test]
fn type_of_each_kind() {
    let mut s = Store::new();
    s.handle(Command::SetKey { key: v(b"s"), value: v(b"x"), life: None }, 1, 0);
    rpush(&mut s, b"l", &[b"a"]);
    s.handle(Command::XADD { key: v(b"x"), stream_id: v(b"1-0"), value_pairs: vec![] }, 1, 0);
    assert_eq!(s.handle(Command::TYPE { key: v(b"s") }, 0, 0), reply(b"+string\r\n"));
    assert_eq!(s.handle(Command::TYPE { key: v(b"l") }, 0, 0), reply(b"+list\r\n"));
    assert_eq!(s.handle(Command::TYPE { key: v(b"x") }, 0, 0), reply(b"+stream\r\n"));
    assert_eq!(s.handle(Command::TYPE { key: v(b"none") }, 0, 0), reply(b"+none\r\n"));
}

#[test]
fn xadd_answers_the_id() {
    let mut s = Store::new();
    let pairs = vec![(v(b"temperature"), v(b"36")), (v(b"humidity"), v(b"95"))];
    assert_eq!(
        s.handle(Command::XADD { key: v(b"stream"), stream_id: v(b"1526919030474-0"), value_pairs: pairs }, 1, 0),
        reply(b"$15\r\n1526919030474-0\r\n")
    );
    assert_eq!(
        s.handle(Command::XADD { key: v(b"stream"), stream_id: v(b"1526919030474-1"), value_pairs: vec![] }, 1, 0),
        reply(b"$15\r\n1526919030474-1\r\n")
    );
}

#[test]
fn xadd_on_another_kind_answers_error() {
    let mut s = Store::new();
    s.handle(Command::SetKey { key: v(b"k"), value: v(b"x"), life: None }, 1, 0);
    assert_eq!(
        s.handle(Command::XADD { key: v(b"k"), stream_id: v(b"0-1"), value_pairs: vec![] }, 1, 0),
        reply(b"+Error\r\n")
    );
    assert_eq!(s.get(b"k", 0), Some(v(b"x")));
}

#[test]
fn xadd_checked_agrees_with_handle() {
    let mut s = Store::new();
    let r = s.xadd_checked(b"st", b"5-1", &vec![(v(b"a"), v(b"1"))], 0);
    assert_eq!(r, Ok(v(b"$3\r\n5-1\r\n")));
}

#[test]
fn blpop_waits_then_is_served_by_a_push() {
    let mut s = Store::new();
    assert_eq!(s.handle(Command::BLPOP { list_name: v(b"q"), exp_time: None }, 7, 0), Answer::Wait);
    assert!(s.tick(5).is_empty());
    assert_eq!(rpush(&mut s, b"q", &[b"x"]), reply(b":1\r\n"));
    assert_eq!(s.tick(10), vec![(7u64, v(b"*2\r\n$1\r\nq\r\n$1\r\nx\r\n"))]);
    assert_eq!(s.llen(b"q"), 0);
    assert!(s.tick(20).is_empty());
}

#[test]
fn blpop_times_out() {
    let mut s = Store::new();
    assert_eq!(s.handle(Command::BLPOP { list_name: v(b"q"), exp_time: Some(10) }, 8, 100), Answer::Wait);
    assert!(s.tick(110).is_empty());
    assert_eq!(s.tick(111), vec![(8u64, v(b"*-1\r\n"))]);
    assert!(s.tick(200).is_empty());
}

#[test]
fn blpop_serves_clients_with_deadlines_first() {
    let mut s = Store::new();
    s.handle(Command::BLPOP { list_name: v(b"q"), exp_time: None }, 1, 0);
    s.handle(Command::BLPOP { list_name: v(b"q"), exp_time: Some(1000) }, 2, 0);
    s.handle(Command::BLPOP { list_name: v(b"q"), exp_time: Some(500) }, 3, 0);
    rpush(&mut s, b"q", &[b"a", b"b"]);
    assert_eq!(
        s.tick(1),
        vec![(3u64, v(b"*2\r\n$1\r\nq\r\n$1\r\na\r\n")), (2u64, v(b"*2\r\n$1\r\nq\r\n$1\r\nb\r\n"))]
    );
    rpush(&mut s, b"q", &[b"c"]);
    assert_eq!(s.tick(2), vec![(1u64, v(b"*2\r\n$1\r\nq\r\n$1\r\nc\r\n"))]);
}

#[test]
fn blpop_deadline_past_the_end_of_the_clock_never_passes() {
    let mut s = Store::new();
    assert_eq!(s.handle(Command::BLPOP { list_name: v(b"q"), exp_time: Some(2) }, 1, u64::MAX - 1), Answer::Wait);
    assert!(s.tick(u64::MAX).is_empty());
    rpush(&mut s, b"q", &[b"z"]);
    assert_eq!(s.tick(u64::MAX), vec![(1u64, v(b"*2\r\n$1\r\nq\r\n$1\r\nz\r\n"))]);
}

#[test]
fn lrange_and_lpop_checks() {
    let mut s = Store::new();
    rpush(&mut s, b"l", &[b"a"]);
    assert!(s.lrange_ok(b"l", 0, -1));
    assert!(s.lpop_ok(b"l", Some(1)));
    assert!(s.lrange_ok(b"missing", i32::MIN, i32::MAX));
}

#[test]
fn law_read_after_write_through_handle() {
    let mut s = Store::new();
    for (i, key) in [&b"a"[..], b"b", b"c"].iter().enumerate() {
        let val = vec![b'0' + i as u8; i + 1];
        assert_eq!(s.handle(Command::SetKey { key: v(key), value: val.clone(), life: None }, 1, 0), reply(b"+OK\r\n"));
    }
    assert_eq!(s.handle(Command::Get { key: v(b"a") }, 1, 0), reply(b"$1\r\n0\r\n"));
    assert_eq!(s.handle(Command::Get { key: v(b"b") }, 1, 0), reply(b"$2\r\n11\r\n"));
    assert_eq!(s.handle(Command::Get { key: v(b"c") }, 1, 0), reply(b"$3\r\n222\r\n"));
}

#[test]
fn law_push_then_llen_through_handle() {
    let mut s = Store::new();
    assert_eq!(lpush(&mut s, b"l", &[b"a", b"b", b"c"]), reply(b":3\r\n"));
    assert_eq!(s.handle(Command::LLen { list_name: v(b"l") }, 0, 0), reply(b":3\r\n"));
    assert_eq!(rpush(&mut s, b"l", &[b"d"]), reply(b":4\r\n"));
    assert_eq!(s.handle(Command::LLen { list_name: v(b"l") }, 0, 0), reply(b":4\r\n"));
}

#[test]
fn law_rpush_then_lrange_through_handle() {
    let mut s = Store::new();
    rpush(&mut s, b"fruit", &[b"apple", b"kiwi"]);
    assert_eq!(lrange(&mut s, b"fruit", 0, -1), reply(b"*2\r\n$5\r\napple\r\n$4\r\nkiwi\r\n"));
}

#[test]
fn law_type_after_write_through_handle() {
    let mut s = Store::new();
    s.handle(Command::RPUSH { list_name: v(b"l"), value_list: vs(&[b"a"]) }, 0, 0);
    s.handle(Command::LPUSH { list_name: v(b"m"), value_list: vs(&[b"a"]) }, 0, 0);
    s.handle(Command::XADD { key: v(b"x"), stream_id: v(b"0-1"), value_pairs: vec![(v(b"f"), v(b"1"))] }, 0, 0);
    s.handle(Command::SetKey { key: v(b"s"), value: v(b"1"), life: Some(5) }, 0, 10);
    assert_eq!(s.handle(Command::TYPE { key: v(b"l") }, 0, 0), reply(b"+list\r\n"));
    assert_eq!(s.handle(Command::TYPE { key: v(b"m") }, 0, 0), reply(b"+list\r\n"));
    assert_eq!(s.handle(Command::TYPE { key: v(b"x") }, 0, 0), reply(b"+stream\r\n"));
    assert_eq!(s.handle(Command::TYPE { key: v(b"s") }, 0, 15), reply(b"+string\r\n"));
    assert_eq!(s.handle(Command::TYPE { key: v(b"s") }, 0, 16), reply(b"+none\r\n"));
}

#[test]
fn law_xadd_on_expired_key_makes_a_new_stream() {
    let mut s = Store::new();
    s.handle(Command::SetKey { key: v(b"k"), value: v(b"1"), life: Some(5) }, 0, 0);
    assert_eq!(
        s.handle(Command::XADD { key: v(b"k"), stream_id: v(b"1-1"), value_pairs: vec![] }, 0, 6),
        reply(b"$3\r\n1-1\r\n")
    );
    assert_eq!(s.handle(Command::TYPE { key: v(b"k") }, 0, 1_000_000), reply(b"+stream\r\n"));
}

#[test]
fn law_blocked_client_with_passed_deadline_gets_null() {
    let mut s = Store::new();
    assert_eq!(s.handle(Command::BLPOP { list_name: v(b"q"), exp_time: Some(10) }, 4, 100), Answer::Wait);
    assert_eq!(rpush(&mut s, b"q", &[b"x"]), reply(b":1\r\n"));
    assert_eq!(s.tick(200), vec![(4u64, v(b"*-1\r\n"))]);
    assert_eq!(s.llen(b"q"), 1);
}

#[test]
fn law_blocked_client_within_deadline_gets_value() {
    let mut s = Store::new();
    s.handle(Command::BLPOP { list_name: v(b"q"), exp_time: Some(10) }, 4, 100);
    rpush(&mut s, b"q", &[b"x"]);
    assert_eq!(s.tick(110), vec![(4u64, v(b"*2\r\n$1\r\nq\r\n$1\r\nx\r\n"))]);
    assert_eq!(s.llen(b"q"), 0);
}

#[test]
fn law_lrange_negative_indices_count_from_the_end() {
    let mut s = Store::new();
    rpush(&mut s, b"l", &[b"a", b"b", b"c"]);
    assert_eq!(lrange(&mut s, b"l", -3, -2), reply(b"*2\r\n$1\r\na\r\n$1\r\nb\r\n"));
    assert_eq!(lrange(&mut s, b"l", 1, -1), reply(b"*2\r\n$1\r\nb\r\n$1\r\nc\r\n"));
    assert_eq!(lrange(&mut s, b"l", 0, -4), reply(b"*1\r\n$1\r\na\r\n"));
    assert_eq!(lrange(&mut s, b"l", -1, 1), reply(b"*0\r\n"));
    assert_eq!(lrange(&mut s, b"l", 3, 5), reply(b"*0\r\n"));
}
