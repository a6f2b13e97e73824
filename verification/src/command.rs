use vstd::prelude::*;
use crate::radx::views;
use crate::reply::{null_array, type_list, type_none, type_stream, type_string, array_header, bulks, bulk, encode_bulk, encode_integer, integer_reply, null_bulk, null_bulk_bytes, ok_reply, ok_reply_bytes};
use crate::resp::Data_Storage::StorageModel;
use vstd::utf8::valid_utf8;
use crate::connection_::{interpret_spec, word_echo, StepModel};
use crate::resp::value::{lemma_ascii_valid, shown_defined, RespValue};
use crate::radix_laws::{extends, keys, law_insert_keeps_keys, law_insert_wf, law_locate_finds_keys, law_pairs_read_after_write, root_wf, stores};
use crate::radx::{label_index, leaf_model, model_insert, model_locate, model_with_kvp, shortest_label_prefix};
use crate::store::{add_pairs, empty_tree, lemma_new_stream_defined, 
    expiry_after, get_spec, llen_spec, lpop_defined, lpop_spec, lrange_defined, lrange_spec,
    pairs_view, push_spec, type_spec, xadd_defined, xadd_fault_spec, xadd_spec, blpop_spec, Store,
    StoreModel, Waiter, holds_list, blpop_reply, lemma_tick_serves, list_at, serve, tick_from, top_index, law_expiry, law_get_after_set, law_lrange_whole_list, law_push_length, live, trunc_rem,
};

verus! {

/// A request that a connection hands to the store, any duration in it
/// already read as a number of clock units.
#[allow(non_camel_case_types)]
#[derive(Debug, PartialEq)]
pub enum Command {
    Get { key: Vec<u8> },
    SetKey { key: Vec<u8>, value: Vec<u8>, life: Option<u64> },
    Echo { value: Vec<u8> },
    RPUSH { list_name: Vec<u8>, value_list: Vec<Vec<u8>> },
    LRange { list_name: Vec<u8>, start_index: i32, end_index: i32 },
    LPUSH { list_name: Vec<u8>, value_list: Vec<Vec<u8>> },
    LLen { list_name: Vec<u8> },
    LPOP { list_name: Vec<u8>, no_of_elements: Option<i32> },
    BLPOP { list_name: Vec<u8>, exp_time: Option<u64> },
    TYPE { key: Vec<u8> },
    XADD { key: Vec<u8>, stream_id: Vec<u8>, value_pairs: Vec<(Vec<u8>, Vec<u8>)> },
}

/// The mathematical form of a `Command`.
#[allow(non_camel_case_types)]
pub enum CommandModel {
    Get(Seq<u8>),
    SetKey(Seq<u8>, Seq<u8>, Option<u64>),
    Echo(Seq<u8>),
    RPUSH(Seq<u8>, Seq<Seq<u8>>),
    LRange(Seq<u8>, i32, i32),
    LPUSH(Seq<u8>, Seq<Seq<u8>>),
    LLen(Seq<u8>),
    LPOP(Seq<u8>, Option<i32>),
    BLPOP(Seq<u8>, Option<u64>),
    TYPE(Seq<u8>),
    XADD(Seq<u8>, Seq<u8>, Seq<(Seq<u8>, Seq<u8>)>),
}

impl View for Command {
    type V = CommandModel;

    open spec fn view(&self) -> CommandModel {
        match self {
            Command::Get { key } => CommandModel::Get(key@),
            Command::SetKey { key, value, life } => CommandModel::SetKey(key@, value@, *life),
            Command::Echo { value } => CommandModel::Echo(value@),
            Command::RPUSH { list_name, value_list } => CommandModel::RPUSH(list_name@, views(value_list@)),
            Command::LRange { list_name, start_index, end_index } => CommandModel::LRange(
                list_name@,
                *start_index,
                *end_index,
            ),
            Command::LPUSH { list_name, value_list } => CommandModel::LPUSH(list_name@, views(value_list@)),
            Command::LLen { list_name } => CommandModel::LLen(list_name@),
            Command::LPOP { list_name, no_of_elements } => CommandModel::LPOP(list_name@, *no_of_elements),
            Command::BLPOP { list_name, exp_time } => CommandModel::BLPOP(list_name@, *exp_time),
            Command::TYPE { key } => CommandModel::TYPE(key@),
            Command::XADD { key, stream_id, value_pairs } => CommandModel::XADD(
                key@,
                stream_id@,
                pairs_view(value_pairs@),
            ),
        }
    }
}

/// What the client that sent a command gets: the bytes to write back, a wait
/// for a later pass over blocked clients, no answer at all (its connection
/// then fails), or a failure of the store itself.
#[derive(Debug, PartialEq)]
pub enum Answer {
    Reply(Vec<u8>),
    Wait,
    NoAnswer,
    Fault,
}

/// The mathematical form of an `Answer`.
pub enum AnswerModel {
    Reply(Seq<u8>),
    Wait,
    NoAnswer,
    Fault,
}

impl View for Answer {
    type V = AnswerModel;

    open spec fn view(&self) -> AnswerModel {
        match self {
            Answer::Reply(b) => AnswerModel::Reply(b@),
            Answer::Wait => AnswerModel::Wait,
            Answer::NoAnswer => AnswerModel::NoAnswer,
            Answer::Fault => AnswerModel::Fault,
        }
    }
}

/// `s` with `d` for its keys.
pub open spec fn with_dict(s: StoreModel, d: Map<Seq<u8>, (StorageModel, Option<u64>)>) -> StoreModel {
    StoreModel { dict: d, waiters: s.waiters, waiter_keys: s.waiter_keys }
}

/// What the store does with `c` from client `client` at `now`, and what the
/// client gets, written as a connection writes it.
pub open spec fn handle_spec(s: StoreModel, c: CommandModel, client: u64, now: u64) -> (StoreModel, AnswerModel) {
    match c {
        CommandModel::Get(k) => (
            s,
            AnswerModel::Reply(
                match get_spec(s.dict, k, now) {
                    Some(v) => bulk(v),
                    None => null_bulk(),
                },
            ),
        ),
        CommandModel::SetKey(k, v, life) => (
            with_dict(s, s.dict.insert(k, (StorageModel::Str(v), expiry_after(now, life)))),
            AnswerModel::Reply(ok_reply()),
        ),
        CommandModel::Echo(v) => (s, AnswerModel::Reply(bulk(v))),
        CommandModel::RPUSH(k, vs) => {
            let (d, n) = push_spec(s.dict, k, vs, false);
            (with_dict(s, d), AnswerModel::Reply(integer_reply(n)))
        },
        CommandModel::LPUSH(k, vs) => {
            let (d, n) = push_spec(s.dict, k, vs, true);
            (with_dict(s, d), AnswerModel::Reply(integer_reply(n)))
        },
        CommandModel::LRange(k, a, b) => if lrange_defined(s.dict, k, a as int, b as int) {
            let (d, r) = lrange_spec(s.dict, k, a as int, b as int);
            (
                with_dict(s, d),
                match r {
                    Some(x) => AnswerModel::Reply(x),
                    None => AnswerModel::NoAnswer,
                },
            )
        } else {
            (s, AnswerModel::Fault)
        },
        CommandModel::LLen(k) => (s, AnswerModel::Reply(integer_reply(llen_spec(s.dict, k)))),
        CommandModel::LPOP(k, count) => if lpop_defined(s.dict, k, count) {
            let (d, r) = lpop_spec(s.dict, k, count);
            (with_dict(s, d), AnswerModel::Reply(r))
        } else {
            (s, AnswerModel::Fault)
        },
        CommandModel::BLPOP(k, t) => (
            StoreModel {
                dict: s.dict,
                waiters: blpop_spec(s.waiters, k, Waiter { deadline: expiry_after(now, t), id: client }),
                waiter_keys: if s.waiters.contains_key(k) {
                    s.waiter_keys
                } else {
                    s.waiter_keys.push(k)
                },
            },
            AnswerModel::Wait,
        ),
        CommandModel::TYPE(k) => (s, AnswerModel::Reply(type_spec(s.dict, k, now))),
        CommandModel::XADD(k, id, ps) => if xadd_defined(s.dict, k, id, now) {
            let (d, r) = xadd_spec(s.dict, k, id, ps, now);
            (with_dict(s, d), AnswerModel::Reply(r))
        } else {
            (with_dict(s, xadd_fault_spec(s.dict, k, id)), AnswerModel::Fault)
        },
    }
}

impl Store {
    /// Carries out `cmd` from client `client` at `now`, as `handle_spec`
    /// describes.
    pub fn handle(&mut self, cmd: Command, client: u64, now: u64) -> (r: Answer)
        requires
            old(self).wf(),
        ensures
            final(self).wf(),
            (final(self)@, r@) == handle_spec(old(self)@, cmd@, client, now),
    {
        match cmd {
            Command::Get { key } => match self.get(key.as_slice(), now) {
                Some(v) => Answer::Reply(encode_bulk(v.as_slice())),
                None => Answer::Reply(null_bulk_bytes()),
            },
            Command::SetKey { key, value, life } => {
                self.set(key, value, life, now);
                Answer::Reply(ok_reply_bytes())
            },
            Command::Echo { value } => Answer::Reply(encode_bulk(value.as_slice())),
            Command::RPUSH { list_name, value_list } => {
                let n = self.push(list_name.as_slice(), &value_list, false);
                Answer::Reply(encode_integer(n))
            },
            Command::LPUSH { list_name, value_list } => {
                let n = self.push(list_name.as_slice(), &value_list, true);
                Answer::Reply(encode_integer(n))
            },
            Command::LRange { list_name, start_index, end_index } => {
                if !self.lrange_ok(list_name.as_slice(), start_index, end_index) {
                    return Answer::Fault;
                }
                match self.lrange(list_name.as_slice(), start_index, end_index) {
                    Some(b) => Answer::Reply(b),
                    None => Answer::NoAnswer,
                }
            },
            Command::LLen { list_name } => Answer::Reply(encode_integer(self.llen(list_name.as_slice()))),
            Command::LPOP { list_name, no_of_elements } => {
                if !self.lpop_ok(list_name.as_slice(), no_of_elements) {
                    return Answer::Fault;
                }
                Answer::Reply(self.lpop(list_name.as_slice(), no_of_elements))
            },
            Command::BLPOP { list_name, exp_time } => {
                self.blpop(list_name.as_slice(), exp_time, client, now);
                Answer::Wait
            },
            Command::TYPE { key } => Answer::Reply(self.type_of(key.as_slice(), now)),
            Command::XADD { key, stream_id, value_pairs } => {
                match self.xadd_checked(key.as_slice(), stream_id.as_slice(), &value_pairs, now) {
                    Ok(b) => Answer::Reply(b),
                    Err(_) => Answer::Fault,
                }
            },
        }
    }
}


/// Through `handle`: a client that reads a key after a `SET` of it gets the
/// value back as a bulk string while it is readable, and a null bulk string
/// once it has expired.
pub proof fn law_handle_read_after_write(
    s: StoreModel,
    key: Seq<u8>,
    value: Seq<u8>,
    life: Option<u64>,
    now: u64,
    later: u64,
    writer: u64,
    reader: u64,
)
    requires
    ensures
        ({
            let (s1, a1) = handle_spec(s, CommandModel::SetKey(key, value, life), writer, now);
            &&& a1 == AnswerModel::Reply(ok_reply())
            &&& handle_spec(s1, CommandModel::Get(key), reader, later).1 == AnswerModel::Reply(
                if live(expiry_after(now, life), later) {
                    bulk(value)
                } else {
                    null_bulk()
                },
            )
        }),
{
    assert(key.push(0u8).len() != key.len());
    law_get_after_set(s.dict, key, value, life, now, later, key.push(0u8));
    if let Some(l) = life {
        law_expiry(now, l, later);
    }
}

/// Through `handle`: on a key that holds a list or nothing, `RPUSH` and
/// `LPUSH` answer the new length, and an `LLEN` after them answers the same.
pub proof fn law_handle_push_then_llen(
    s: StoreModel,
    key: Seq<u8>,
    values: Seq<Seq<u8>>,
    front: bool,
    client: u64,
    now: u64,
)
    requires
        !s.dict.contains_key(key) || holds_list(s.dict, key),
    ensures
        ({
            let c = if front { CommandModel::LPUSH(key, values) } else { CommandModel::RPUSH(key, values) };
            let (s1, a1) = handle_spec(s, c, client, now);
            let n = llen_spec(s.dict, key) + values.len();
            &&& a1 == AnswerModel::Reply(integer_reply(n))
            &&& handle_spec(s1, CommandModel::LLen(key), client, now).1 == AnswerModel::Reply(integer_reply(n))
        }),
{
    law_push_length(s.dict, key, values, front);
}

/// Through `handle`: `RPUSH` of values to a key that holds nothing, then
/// `LRANGE 0 -1`, answers all the values in order.
pub proof fn law_handle_rpush_then_lrange(
    s: StoreModel,
    key: Seq<u8>,
    values: Seq<Seq<u8>>,
    client: u64,
    now: u64,
)
    requires
        !s.dict.contains_key(key),
        0 < values.len() <= i32::MAX,
    ensures
        ({
            let (s1, _) = handle_spec(s, CommandModel::RPUSH(key, values), client, now);
            handle_spec(s1, CommandModel::LRange(key, 0i32, -1i32), client, now).1 == AnswerModel::Reply(
                array_header(values.len() as int) + bulks(values),
            )
        }),
{
    let (s1, _) = handle_spec(s, CommandModel::RPUSH(key, values), client, now);
    assert(Seq::<Seq<u8>>::empty() + values =~= values);
    assert(s1.dict[key] == (StorageModel::List(values), None::<u64>));
    let n = values.len() as int;
    assert(trunc_rem(0, n) == 0);
    if n == 1 {
        assert(trunc_rem(-1, n) == 0);
    } else {
        vstd::arithmetic::div_mod::lemma_small_mod(1, n as nat);
        assert(trunc_rem(-1, n) == -1);
    }
    assert(lrange_defined(s1.dict, key, 0, -1));
    law_lrange_whole_list(values);
}


/// Through `handle` and the periodic pass: a client that blocks on a list
/// that is empty or missing, and that no one else waits on, until `timeout`
/// after `t0` or without end, and then sees one value pushed: at a pass
/// while it still waits it gets that value, and the list is left empty; at
/// a pass after its deadline it gets `*-1` and the value stays. Either way
/// it no longer waits.
pub proof fn law_blocked_client_gets_pushed_value(
    st: Store,
    name: Seq<u8>,
    value: Seq<u8>,
    timeout: Option<u64>,
    client: u64,
    pusher: u64,
    t0: u64,
    t1: u64,
    t2: u64,
)
    requires
        st.wf(),
        !st@.dict.contains_key(name) || (holds_list(st@.dict, name) && st@.dict[name].0->List_0.len() == 0),
        !st@.waiters.contains_key(name) || st@.waiters[name].len() == 0,
    ensures
        ({
            let (s1, a1) = handle_spec(st@, CommandModel::BLPOP(name, timeout), client, t0);
            let (s2, a2) = handle_spec(s1, CommandModel::RPUSH(name, seq![value]), pusher, t1);
            let (d3, w3, out) = tick_from(s2.dict, s2.waiters, s2.waiter_keys, 0, t2);
            &&& a1 == AnswerModel::Wait
            &&& a2 == AnswerModel::Reply(integer_reply(1))
            &&& w3[name] == Seq::<Waiter>::empty()
            &&& if live(expiry_after(t0, timeout), t2) {
                &&& out.contains((client, blpop_reply(name, value)))
                &&& list_at(d3, name) == Some(Seq::<Seq<u8>>::empty())
            } else {
                &&& out.contains((client, null_array()))
                &&& list_at(d3, name) == Some(seq![value])
            }
        }),
{
    st.lemma_waiter_keys();
    let s = st@;
    let waiter = Waiter { deadline: expiry_after(t0, timeout), id: client };
    let (s1, a1) = handle_spec(s, CommandModel::BLPOP(name, timeout), client, t0);
    let (s2, a2) = handle_spec(s1, CommandModel::RPUSH(name, seq![value]), pusher, t1);
    assert(s1.waiters[name] =~= seq![waiter]);
    let old_list = if s.dict.contains_key(name) { s.dict[name].0->List_0 } else { Seq::empty() };
    assert(old_list + seq![value] =~= seq![value]);
    assert(list_at(s2.dict, name) == Some(seq![value]));
    assert(s2.waiters == s1.waiters);
    let keys = s2.waiter_keys;
    let j: int = if s.waiters.contains_key(name) {
        choose|j: int| 0 <= j < s.waiter_keys.len() && s.waiter_keys[j] == name
    } else {
        s.waiter_keys.len() as int
    };
    assert(0 <= j < keys.len() && keys[j] == name);
    assert(keys.no_duplicates()) by {
        if !s.waiters.contains_key(name) {
            assert forall|a: int, b: int| 0 <= a < b < keys.len() implies keys[a] != keys[b] by {
                if b == s.waiter_keys.len() {
                    assert(!s.waiter_keys.contains(name));
                    assert(s.waiter_keys[a] == keys[a]);
                }
            }
        }
    }
    lemma_tick_serves(s2.dict, s2.waiters, keys, 0, j, t2, name);
    let h = seq![waiter];
    assert(top_index(h) == 0);
    assert(h.remove(0) =~= Seq::<Waiter>::empty());
    let expired = waiter.deadline is Some && waiter.deadline.unwrap() < t2;
    assert(expired == !live(expiry_after(t0, timeout), t2));
    let served = serve(Some(seq![value]), h, name, t2);
    let (d3, w3, out) = tick_from(s2.dict, s2.waiters, s2.waiter_keys, 0, t2);
    if expired {
        let rest = serve(Some(seq![value]), Seq::<Waiter>::empty(), name, t2);
        assert(rest == (Some(seq![value]), Seq::<Waiter>::empty(), Seq::<(u64, Seq<u8>)>::empty()));
        assert(serve(Some(seq![value]), h.remove(0), name, t2) == rest);
        assert(served.0 == Some(seq![value]));
        assert(served.1 == Seq::<Waiter>::empty());
        assert(served.2 =~= seq![(client, null_array())]);
        assert(served.2[0] == (client, null_array()));
        assert(served.2.contains((client, null_array())));
        assert(out.contains((client, null_array())));
    } else {
        assert(seq![value].drop_first() =~= Seq::<Seq<u8>>::empty());
        let rest = serve(Some(Seq::<Seq<u8>>::empty()), Seq::<Waiter>::empty(), name, t2);
        assert(rest == (Some(Seq::<Seq<u8>>::empty()), Seq::<Waiter>::empty(), Seq::<(u64, Seq<u8>)>::empty()));
        assert(serve(Some(seq![value].drop_first()), h.remove(0), name, t2) == rest);
        assert(served.0 == Some(Seq::<Seq<u8>>::empty()));
        assert(served.1 == Seq::<Waiter>::empty());
        assert(served.2 =~= seq![(client, blpop_reply(name, value))]);
        assert(served.2[0] == (client, blpop_reply(name, value)));
        assert(served.2.contains((client, blpop_reply(name, value))));
        assert(out.contains((client, blpop_reply(name, value))));
    }
    assert(a1 == AnswerModel::Wait);
    assert(a2 == AnswerModel::Reply(integer_reply(1)));
    assert(w3[name] == Seq::<Waiter>::empty());
}


/// Below a tree with the one edge `id`, the shortest prefix of `id` that
/// labels an edge is all of it.
proof fn lemma_only_label_is_whole(id: Seq<u8>, i: nat)
    requires
        i <= id.len(),
    ensures
        shortest_label_prefix(seq![(id, leaf_model())], id, i, id.len() as int) == id.len(),
    decreases id.len() - i,
{
    let edges = seq![(id, leaf_model())];
    if i < id.len() {
        assert(id.take(i as int).len() != id.len());
        assert(label_index(edges, id.take(i as int), 1) == -1);
        assert(label_index(edges, id.take(i as int), 0) == -1);
        lemma_only_label_is_whole(id, i + 1);
    } else {
        assert(id.take(i as int) =~= id);
        assert(label_index(edges, id.take(i as int), 0) == 0);
    }
}

/// Through `handle`: `XADD` on a key that holds nothing readable makes a
/// stream that holds the id, whose entry holds exactly the pairs given (the
/// last value of a field repeated winning), and answers the id.
pub proof fn law_handle_xadd_new_stream(
    s: StoreModel,
    key: Seq<u8>,
    id: Seq<u8>,
    pairs: Seq<(Seq<u8>, Seq<u8>)>,
    client: u64,
    now: u64,
)
    requires
        !(s.dict.contains_key(key) && live(s.dict[key].1, now)),
    ensures
        ({
            let (s1, a1) = handle_spec(s, CommandModel::XADD(key, id, pairs), client, now);
            let t = s1.dict[key].0->Stream_0;
            &&& a1 == AnswerModel::Reply(bulk(id))
            &&& s1.dict[key].0 is Stream
            &&& root_wf(t)
            &&& keys(t) == set![id]
            &&& model_locate(t, id) == Some(add_pairs(Map::empty(), pairs))
        }),
{
    let t0 = empty_tree();
    lemma_new_stream_defined(id);
    assert(root_wf(t0));
    let t1 = model_insert(t0, id);
    assert(t1.edges =~= seq![(id, leaf_model())]);
    lemma_only_label_is_whole(id, 0);
    assert(id.take(id.len() as int) =~= id);
    assert(label_index(t1.edges, id, 0) == 0);
    assert(id.skip(id.len() as int) =~= Seq::<u8>::empty());
    assert(!t1.is_end);
    assert(shortest_label_prefix(t1.edges, id, 0, id.len() as int) == id.len());
    assert(label_index(t1.edges, id.take(id.len() as int), 0) == 0);
    assert(t1.edges[0].1 == leaf_model());
    assert(model_locate(leaf_model(), Seq::<u8>::empty()) == Some(Map::<Seq<u8>, Seq<u8>>::empty()));
    assert(model_locate(t1, id) == model_locate(leaf_model(), id.skip(id.len() as int)));
    assert(model_locate(t1, id) == Some(Map::<Seq<u8>, Seq<u8>>::empty()));
    law_insert_wf(t0, id);
    law_insert_keeps_keys(t0, id);
    law_locate_finds_keys(t1, id);
    let m = add_pairs(Map::empty(), pairs);
    law_pairs_read_after_write(t1, id, m);
    let t2 = model_with_kvp(t1, id, m);
    assert(keys(t2) =~= set![id]) by {
        assert forall|w: Seq<u8>| keys(t1).contains(w) implies w == id by {
            assert(stores(t1, w));
            assert(!(w.len() == 0 && t1.is_end));
            let i = choose|i: int|
                0 <= i < t1.edges.len() && (#[trigger] t1.edges[i]).0.is_prefix_of(w) && stores(
                    t1.edges[i].1,
                    w.skip(t1.edges[i].0.len() as int),
                );
            assert(i == 0);
            let rest = w.skip(id.len() as int);
            assert(stores(leaf_model(), rest));
            assert(rest.len() == 0);
            assert(w =~= id);
        }
    }
}


/// Through `handle`: `XADD` that goes through on a readable well-formed
/// stream keeps the stream well formed, loses no id, adds the new id (and,
/// as insertion can, ids that extend it), puts the pairs given on top of
/// those that the id's entry has once inserted, and answers the id.
pub proof fn law_handle_xadd_existing_stream(
    s: StoreModel,
    key: Seq<u8>,
    id: Seq<u8>,
    pairs: Seq<(Seq<u8>, Seq<u8>)>,
    client: u64,
    now: u64,
)
    requires
        s.dict.contains_key(key),
        live(s.dict[key].1, now),
        s.dict[key].0 is Stream,
        root_wf(s.dict[key].0->Stream_0),
        xadd_defined(s.dict, key, id, now),
    ensures
        ({
            let t = s.dict[key].0->Stream_0;
            let (s1, a1) = handle_spec(s, CommandModel::XADD(key, id, pairs), client, now);
            let t2 = s1.dict[key].0->Stream_0;
            &&& a1 == AnswerModel::Reply(bulk(id))
            &&& s1.dict[key].0 is Stream
            &&& s1.dict[key].1 == s.dict[key].1
            &&& root_wf(t2)
            &&& keys(t) <= keys(t2)
            &&& keys(t2).contains(id)
            &&& forall|w: Seq<u8>| #[trigger] keys(t2).contains(w) ==> keys(t).contains(w) || w == id || extends(id, w)
            &&& model_locate(t2, id) == Some(add_pairs(model_locate(model_insert(t, id), id).unwrap(), pairs))
        }),
{
    let t = s.dict[key].0->Stream_0;
    let t1 = model_insert(t, id);
    law_insert_wf(t, id);
    law_insert_keeps_keys(t, id);
    law_locate_finds_keys(t1, id);
    let m = add_pairs(model_locate(t1, id).unwrap(), pairs);
    law_pairs_read_after_write(t1, id, m);
}


/// Through `handle`: `TYPE` names what a write left under a key: a string
/// after `SET` while readable (nothing once expired), a list after `RPUSH`
/// or `LPUSH` to a key that held nothing, and a stream after `XADD` to a key
/// that held nothing readable.
pub proof fn law_handle_type_after_write(
    s: StoreModel,
    key: Seq<u8>,
    value: Seq<u8>,
    life: Option<u64>,
    values: Seq<Seq<u8>>,
    id: Seq<u8>,
    pairs: Seq<(Seq<u8>, Seq<u8>)>,
    client: u64,
    now: u64,
    later: u64,
)
    requires
    ensures
        handle_spec(
            handle_spec(s, CommandModel::SetKey(key, value, life), client, now).0,
            CommandModel::TYPE(key),
            client,
            later,
        ).1 == AnswerModel::Reply(
            if live(expiry_after(now, life), later) {
                type_string()
            } else {
                type_none()
            },
        ),
        !s.dict.contains_key(key) ==> handle_spec(
            handle_spec(s, CommandModel::RPUSH(key, values), client, now).0,
            CommandModel::TYPE(key),
            client,
            later,
        ).1 == AnswerModel::Reply(type_list()),
        !s.dict.contains_key(key) ==> handle_spec(
            handle_spec(s, CommandModel::LPUSH(key, values), client, now).0,
            CommandModel::TYPE(key),
            client,
            later,
        ).1 == AnswerModel::Reply(type_list()),
        !(s.dict.contains_key(key) && live(s.dict[key].1, now)) ==> handle_spec(
            handle_spec(s, CommandModel::XADD(key, id, pairs), client, now).0,
            CommandModel::TYPE(key),
            client,
            later,
        ).1 == AnswerModel::Reply(type_stream()),
{
    if !(s.dict.contains_key(key) && live(s.dict[key].1, now)) {
        lemma_new_stream_defined(id);
    }
}


/// A connection that reads `ECHO` with a bulk string argument of UTF-8 text
/// sends the store exactly those bytes, and the store answers them back as a
/// bulk string.
pub proof fn law_echo_answers_argument(s: StoreModel, x: Seq<u8>, client: u64, now: u64)
    requires
        valid_utf8(x),
    ensures
        ({
            let req = RespValue::Array(Some(seq![RespValue::Bulk(Some(word_echo())), RespValue::Bulk(Some(x))]));
            &&& interpret_spec(req) == StepModel::Echo(x)
            &&& handle_spec(s, CommandModel::Echo(x), client, now) == (s, AnswerModel::Reply(bulk(x)))
        }),
{
    lemma_ascii_valid(word_echo());
    let items = seq![RespValue::Bulk(Some(word_echo())), RespValue::Bulk(Some(x))];
    assert(shown_defined(items[0]));
    assert(shown_defined(items[1]));
    assert(shown_defined(RespValue::Array(Some(items))));
}

} // verus!
