use vstd::prelude::*;
use crate::bytes::bytes_eq;
use crate::radx::views;
use crate::store::pairs_view;
use crate::reply::{pong, pong_bytes};
use crate::resp::decode::{parse_i32, parse_i32_bytes};
use vstd::utf8::valid_utf8;
use crate::resp::decode::bulk_values;
use crate::resp::value::{lemma_ascii_valid, command_bytes, shown_defined, shown_spec, values_view, DataObjects, RespValue};

verus! {

broadcast use vstd::std_specs::vec::group_vec_axioms;

/// The word `ECHO`.
pub open spec fn word_echo() -> Seq<u8> {
    seq![69u8, 67u8, 72u8, 79u8]
}

fn word_echo_bytes() -> (r: Vec<u8>)
    ensures
        r@ == word_echo(),
{
    let r: Vec<u8> = vec![69u8, 67u8, 72u8, 79u8];
    assert(r@ =~= word_echo());
    r
}

/// The word `PING`.
pub open spec fn word_ping() -> Seq<u8> {
    seq![80u8, 73u8, 78u8, 71u8]
}

fn word_ping_bytes() -> (r: Vec<u8>)
    ensures
        r@ == word_ping(),
{
    let r: Vec<u8> = vec![80u8, 73u8, 78u8, 71u8];
    assert(r@ =~= word_ping());
    r
}

/// The word `SET`.
pub open spec fn word_set() -> Seq<u8> {
    seq![83u8, 69u8, 84u8]
}

fn word_set_bytes() -> (r: Vec<u8>)
    ensures
        r@ == word_set(),
{
    let r: Vec<u8> = vec![83u8, 69u8, 84u8];
    assert(r@ =~= word_set());
    r
}

/// The word `GET`.
pub open spec fn word_get() -> Seq<u8> {
    seq![71u8, 69u8, 84u8]
}

fn word_get_bytes() -> (r: Vec<u8>)
    ensures
        r@ == word_get(),
{
    let r: Vec<u8> = vec![71u8, 69u8, 84u8];
    assert(r@ =~= word_get());
    r
}

/// The word `RPUSH`.
pub open spec fn word_rpush() -> Seq<u8> {
    seq![82u8, 80u8, 85u8, 83u8, 72u8]
}

fn word_rpush_bytes() -> (r: Vec<u8>)
    ensures
        r@ == word_rpush(),
{
    let r: Vec<u8> = vec![82u8, 80u8, 85u8, 83u8, 72u8];
    assert(r@ =~= word_rpush());
    r
}

/// The word `LPUSH`.
pub open spec fn word_lpush() -> Seq<u8> {
    seq![76u8, 80u8, 85u8, 83u8, 72u8]
}

fn word_lpush_bytes() -> (r: Vec<u8>)
    ensures
        r@ == word_lpush(),
{
    let r: Vec<u8> = vec![76u8, 80u8, 85u8, 83u8, 72u8];
    assert(r@ =~= word_lpush());
    r
}

/// The word `LRANGE`.
pub open spec fn word_lrange() -> Seq<u8> {
    seq![76u8, 82u8, 65u8, 78u8, 71u8, 69u8]
}

fn word_lrange_bytes() -> (r: Vec<u8>)
    ensures
        r@ == word_lrange(),
{
    let r: Vec<u8> = vec![76u8, 82u8, 65u8, 78u8, 71u8, 69u8];
    assert(r@ =~= word_lrange());
    r
}

/// The word `LLEN`.
pub open spec fn word_llen() -> Seq<u8> {
    seq![76u8, 76u8, 69u8, 78u8]
}

fn word_llen_bytes() -> (r: Vec<u8>)
    ensures
        r@ == word_llen(),
{
    let r: Vec<u8> = vec![76u8, 76u8, 69u8, 78u8];
    assert(r@ =~= word_llen());
    r
}

/// The word `LPOP`.
pub open spec fn word_lpop() -> Seq<u8> {
    seq![76u8, 80u8, 79u8, 80u8]
}

fn word_lpop_bytes() -> (r: Vec<u8>)
    ensures
        r@ == word_lpop(),
{
    let r: Vec<u8> = vec![76u8, 80u8, 79u8, 80u8];
    assert(r@ =~= word_lpop());
    r
}

/// The word `BLPOP`.
pub open spec fn word_blpop() -> Seq<u8> {
    seq![66u8, 76u8, 80u8, 79u8, 80u8]
}

fn word_blpop_bytes() -> (r: Vec<u8>)
    ensures
        r@ == word_blpop(),
{
    let r: Vec<u8> = vec![66u8, 76u8, 80u8, 79u8, 80u8];
    assert(r@ =~= word_blpop());
    r
}

/// The word `TYPE`.
pub open spec fn word_type() -> Seq<u8> {
    seq![84u8, 89u8, 80u8, 69u8]
}

fn word_type_bytes() -> (r: Vec<u8>)
    ensures
        r@ == word_type(),
{
    let r: Vec<u8> = vec![84u8, 89u8, 80u8, 69u8];
    assert(r@ =~= word_type());
    r
}

/// The word `XADD`.
pub open spec fn word_xadd() -> Seq<u8> {
    seq![88u8, 65u8, 68u8, 68u8]
}

fn word_xadd_bytes() -> (r: Vec<u8>)
    ensures
        r@ == word_xadd(),
{
    let r: Vec<u8> = vec![88u8, 65u8, 68u8, 68u8];
    assert(r@ =~= word_xadd());
    r
}

/// The word `EX`.
pub open spec fn word_ex() -> Seq<u8> {
    seq![69u8, 88u8]
}

fn word_ex_bytes() -> (r: Vec<u8>)
    ensures
        r@ == word_ex(),
{
    let r: Vec<u8> = vec![69u8, 88u8];
    assert(r@ =~= word_ex());
    r
}

/// The word `PX`.
pub open spec fn word_px() -> Seq<u8> {
    seq![80u8, 88u8]
}

fn word_px_bytes() -> (r: Vec<u8>)
    ensures
        r@ == word_px(),
{
    let r: Vec<u8> = vec![80u8, 88u8];
    assert(r@ =~= word_px());
    r
}


/// How `SET` reads its fourth argument.
#[derive(Clone, Copy, Debug, PartialEq, Eq)]
pub enum ExpiryUnit {
    /// `EX`: the amount is in seconds.
    Seconds,
    /// `PX`: the amount is in milliseconds.
    Millis,
    /// Any other word: the amount is read, then no expiry is set.
    Ignored,
}

/// What a connection does with one decoded request, before any time or
/// number with a fraction is read: nothing, answer at once, send a request to
/// the store, or give up on the connection (`Fault`: an argument that the
/// command needs is missing or unreadable).
#[derive(Debug, PartialEq)]
pub enum Step {
    Ignore,
    Reply(Vec<u8>),
    Echo(Vec<u8>),
    SetValue { key: Vec<u8>, value: Vec<u8>, expiry: Option<(ExpiryUnit, Vec<u8>)> },
    Get { key: Vec<u8> },
    RPush { list_name: Vec<u8>, values: Vec<Vec<u8>> },
    LPush { list_name: Vec<u8>, values: Vec<Vec<u8>> },
    LRange { key: Vec<u8>, start: i32, end: i32 },
    LLen { key: Vec<u8> },
    LPop { key: Vec<u8>, count: Option<i32> },
    BLPop { key: Vec<u8>, timeout: Vec<u8> },
    Type { key: Vec<u8> },
    XAdd { key: Vec<u8>, id: Vec<u8>, pairs: Vec<(Vec<u8>, Vec<u8>)> },
    Fault,
}

/// The mathematical form of a `Step`.
pub enum StepModel {
    Ignore,
    Reply(Seq<u8>),
    Echo(Seq<u8>),
    SetValue(Seq<u8>, Seq<u8>, Option<(ExpiryUnit, Seq<u8>)>),
    Get(Seq<u8>),
    RPush(Seq<u8>, Seq<Seq<u8>>),
    LPush(Seq<u8>, Seq<Seq<u8>>),
    LRange(Seq<u8>, i32, i32),
    LLen(Seq<u8>),
    LPop(Seq<u8>, Option<i32>),
    BLPop(Seq<u8>, Seq<u8>),
    Type(Seq<u8>),
    XAdd(Seq<u8>, Seq<u8>, Seq<(Seq<u8>, Seq<u8>)>),
    Fault,
}

impl View for Step {
    type V = StepModel;

    open spec fn view(&self) -> StepModel {
        match self {
            Step::Ignore => StepModel::Ignore,
            Step::Reply(b) => StepModel::Reply(b@),
            Step::Echo(v) => StepModel::Echo(v@),
            Step::SetValue { key, value, expiry } => StepModel::SetValue(
                key@,
                value@,
                match expiry {
                    Some((u, a)) => Some((*u, a@)),
                    None => None,
                },
            ),
            Step::Get { key } => StepModel::Get(key@),
            Step::RPush { list_name, values } => StepModel::RPush(list_name@, views(values@)),
            Step::LPush { list_name, values } => StepModel::LPush(list_name@, views(values@)),
            Step::LRange { key, start, end } => StepModel::LRange(key@, *start, *end),
            Step::LLen { key } => StepModel::LLen(key@),
            Step::LPop { key, count } => StepModel::LPop(key@, *count),
            Step::BLPop { key, timeout } => StepModel::BLPop(key@, timeout@),
            Step::Type { key } => StepModel::Type(key@),
            Step::XAdd { key, id, pairs } => StepModel::XAdd(
                key@,
                id@,
                pairs_view(pairs@),
            ),
            Step::Fault => StepModel::Fault,
        }
    }
}

/// The bytes that each of `vs` names, if all name some.
pub open spec fn all_command_bytes(vs: Seq<RespValue>) -> Option<Seq<Seq<u8>>>
    decreases vs.len(),
{
    if vs.len() == 0 {
        Some(Seq::empty())
    } else {
        match (all_command_bytes(vs.drop_last()), command_bytes(vs.last())) {
            (Some(a), Some(b)) => Some(a.push(b)),
            _ => None,
        }
    }
}

/// The field/value pairs that `XADD` reads: each element from the fourth on,
/// but the last, with the element after it.
pub open spec fn xadd_pairs(arr: Seq<RespValue>, i: int) -> Option<Seq<(Seq<u8>, Seq<u8>)>>
    decreases arr.len() - i,
{
    if i < 3 || i >= arr.len() - 1 {
        Some(Seq::empty())
    } else {
        match (command_bytes(arr[i]), command_bytes(arr[i + 1]), xadd_pairs(arr, i + 1)) {
            (Some(k), Some(v), Some(rest)) => Some(seq![(k, v)] + rest),
            _ => None,
        }
    }
}

/// The number that an argument names, read as `str::parse::<i32>` reads it.
pub open spec fn int_arg(v: RespValue) -> Option<i32> {
    match command_bytes(v) {
        Some(b) => parse_i32(b),
        None => None,
    }
}

/// How `SET` reads the word before the amount.
pub open spec fn unit_of(w: Option<Seq<u8>>) -> ExpiryUnit {
    if w == Some(word_ex()) {
        ExpiryUnit::Seconds
    } else if w == Some(word_px()) {
        ExpiryUnit::Millis
    } else {
        ExpiryUnit::Ignored
    }
}

/// What a connection does with the request array `arr`.
pub open spec fn command_spec(arr: Seq<RespValue>) -> StepModel {
    let n = arr.len();
    if n == 0 {
        StepModel::Fault
    } else {
        let name = command_bytes(arr[0]);
        if name == Some(word_echo()) {
            if n < 2 || !shown_defined(arr[1]) { StepModel::Fault } else { StepModel::Echo(shown_spec(arr[1])) }
        } else if name == Some(word_ping()) {
            StepModel::Reply(pong())
        } else if name == Some(word_set()) {
            if n < 2 {
                StepModel::Fault
            } else {
                match command_bytes(arr[1]) {
                    None => StepModel::Ignore,
                    Some(k) => if n < 3 {
                        StepModel::Fault
                    } else {
                        match command_bytes(arr[2]) {
                            None => StepModel::Ignore,
                            Some(v) => if n >= 5 {
                                match command_bytes(arr[4]) {
                                    None => StepModel::Fault,
                                    Some(a) => StepModel::SetValue(k, v, Some((unit_of(command_bytes(arr[3])), a))),
                                }
                            } else {
                                StepModel::SetValue(k, v, None)
                            },
                        }
                    },
                }
            }
        } else if name == Some(word_get()) {
            if n < 2 {
                StepModel::Fault
            } else {
                match command_bytes(arr[1]) {
                    None => StepModel::Ignore,
                    Some(k) => StepModel::Get(k),
                }
            }
        } else if name == Some(word_rpush()) && n > 2 {
            match all_command_bytes(arr.subrange(2, n as int)) {
                None => StepModel::Fault,
                Some(vs) => if shown_defined(arr[1]) { StepModel::RPush(shown_spec(arr[1]), vs) } else { StepModel::Fault },
            }
        } else if name == Some(word_lpush()) && n > 2 {
            match all_command_bytes(arr.subrange(2, n as int)) {
                None => StepModel::Fault,
                Some(vs) => if shown_defined(arr[1]) { StepModel::LPush(shown_spec(arr[1]), vs) } else { StepModel::Fault },
            }
        } else if name == Some(word_lrange()) && n > 3 {
            match (command_bytes(arr[1]), int_arg(arr[2]), int_arg(arr[3])) {
                (Some(k), Some(s), Some(e)) => StepModel::LRange(k, s, e),
                _ => StepModel::Fault,
            }
        } else if name == Some(word_llen()) && n > 1 {
            match command_bytes(arr[1]) {
                Some(k) => StepModel::LLen(k),
                None => StepModel::Fault,
            }
        } else if name == Some(word_lpop()) && n > 1 {
            match command_bytes(arr[1]) {
                None => StepModel::Fault,
                Some(k) => if n > 2 {
                    match int_arg(arr[2]) {
                        Some(c) => StepModel::LPop(k, Some(c)),
                        None => StepModel::Fault,
                    }
                } else {
                    StepModel::LPop(k, None)
                },
            }
        } else if name == Some(word_blpop()) && n > 1 {
            match command_bytes(arr[1]) {
                None => StepModel::Fault,
                Some(k) => if n < 3 {
                    StepModel::Fault
                } else {
                    match command_bytes(arr[2]) {
                        Some(t) => StepModel::BLPop(k, t),
                        None => StepModel::Fault,
                    }
                },
            }
        } else if name == Some(word_type()) {
            if n < 2 {
                StepModel::Fault
            } else {
                match command_bytes(arr[1]) {
                    Some(k) => StepModel::Type(k),
                    None => StepModel::Fault,
                }
            }
        } else if name == Some(word_xadd()) {
            match xadd_pairs(arr, 3) {
                None => StepModel::Fault,
                Some(ps) => if n < 3 {
                    StepModel::Fault
                } else {
                    match (command_bytes(arr[1]), command_bytes(arr[2])) {
                        (Some(k), Some(id)) => StepModel::XAdd(k, id, ps),
                        _ => StepModel::Fault,
                    }
                },
            }
        } else {
            StepModel::Ignore
        }
    }
}

/// What a connection does with a decoded request. The request is shown as
/// text first, which fails on a bulk string that is not UTF-8; then an
/// array is a command, and anything else is ignored.
pub open spec fn interpret_spec(v: RespValue) -> StepModel {
    if !shown_defined(v) {
        StepModel::Fault
    } else {
        match v {
            RespValue::Array(Some(arr)) => command_spec(arr),
            _ => StepModel::Ignore,
        }
    }
}


/// `Some(b@)` for `Some(b)`.
pub open spec fn opt_seq(o: Option<Vec<u8>>) -> Option<Seq<u8>> {
    match o {
        Some(b) => Some(b@),
        None => None,
    }
}

/// Whether `v` names the word `w`.
fn names_word(v: &DataObjects, w: Vec<u8>) -> (r: bool)
    ensures
        r == (command_bytes(v@) == Some(w@)),
{
    match v.as_command() {
        Some(b) => bytes_eq(b, w.as_slice()),
        None => false,
    }
}

/// A copy of the bytes that `v` names.
fn arg_bytes(v: &DataObjects) -> (r: Option<Vec<u8>>)
    ensures
        opt_seq(r) == command_bytes(v@),
{
    match v.as_command() {
        Some(b) => Some(vstd::slice::slice_to_vec(b)),
        None => None,
    }
}

/// The number that `v` names.
fn int_arg_of(v: &DataObjects) -> (r: Option<i32>)
    ensures
        r == int_arg(v@),
{
    match v.as_command() {
        Some(b) => parse_i32_bytes(b),
        None => None,
    }
}

/// When one element names no bytes, the list of all their bytes is missing.
proof fn lemma_all_command_bytes_none(s: Seq<RespValue>, j: int)
    requires
        0 <= j < s.len(),
        command_bytes(s[j]) is None,
    ensures
        all_command_bytes(s) is None,
    decreases s.len(),
{
    if j < s.len() - 1 {
        lemma_all_command_bytes_none(s.drop_last(), j);
    }
}

/// The bytes of the elements of `arr` from `from` on, if each names some.
fn collect_args(arr: &Vec<DataObjects>, from: usize) -> (r: Option<Vec<Vec<u8>>>)
    requires
        from <= arr@.len(),
    ensures
        match r {
            Some(o) => all_command_bytes(values_view(arr@).subrange(from as int, arr@.len() as int))
                == Some(views(o@)),
            None => all_command_bytes(values_view(arr@).subrange(from as int, arr@.len() as int)) is None,
        },
{
    let ghost vs = values_view(arr@);
    let mut out: Vec<Vec<u8>> = Vec::new();
    let mut i: usize = from;
    assert(vs.subrange(from as int, from as int) =~= Seq::<RespValue>::empty());
    assert(views(out@) =~= Seq::<Seq<u8>>::empty());
    while i < arr.len()
        invariant
            from <= i <= arr@.len(),
            vs == values_view(arr@),
            all_command_bytes(vs.subrange(from as int, i as int)) == Some(views(out@)),
        decreases arr@.len() - i,
    {
        let ghost prefix = vs.subrange(from as int, i as int + 1);
        assert(prefix.drop_last() =~= vs.subrange(from as int, i as int));
        assert(prefix.last() == arr@[i as int]@);
        match arg_bytes(&arr[i]) {
            Some(b) => {
                let ghost before = out@;
                out.push(b);
                assert(views(out@) =~= views(before).push(b@));
            },
            None => {
                proof {
                    let whole = vs.subrange(from as int, arr@.len() as int);
                    assert(whole[i - from] == vs[i as int]);
                    lemma_all_command_bytes_none(whole, i - from);
                }
                return None;
            },
        }
        i += 1;
    }
    Some(out)
}

/// `pre` put in front of what `rest` holds.
pub open spec fn prepend_pairs(
    pre: Seq<(Seq<u8>, Seq<u8>)>,
    rest: Option<Seq<(Seq<u8>, Seq<u8>)>>,
) -> Option<Seq<(Seq<u8>, Seq<u8>)>> {
    match rest {
        Some(r) => Some(pre + r),
        None => None,
    }
}

/// The field/value pairs that `XADD` reads from `arr`.
fn collect_pairs(arr: &Vec<DataObjects>) -> (r: Option<Vec<(Vec<u8>, Vec<u8>)>>)
    ensures
        match r {
            Some(o) => xadd_pairs(values_view(arr@), 3) == Some(pairs_view(o@)),
            None => xadd_pairs(values_view(arr@), 3) is None,
        },
{
    let ghost vs = values_view(arr@);
    let mut out: Vec<(Vec<u8>, Vec<u8>)> = Vec::new();
    let mut i: usize = 3;
    proof {
        assert(pairs_view(out@) =~= Seq::<(Seq<u8>, Seq<u8>)>::empty());
        if let Some(r) = xadd_pairs(vs, 3) {
            assert(pairs_view(out@) + r =~= r);
        }
    }
    while i < arr.len() && i + 1 < arr.len()
        invariant
            3 <= i,
            vs == values_view(arr@),
            vs.len() == arr@.len(),
            xadd_pairs(vs, 3) == prepend_pairs(pairs_view(out@), xadd_pairs(vs, i as int)),
        decreases arr@.len() - i,
    {
        let k = arg_bytes(&arr[i]);
        let v = arg_bytes(&arr[i + 1]);
        match (k, v) {
            (Some(kb), Some(vb)) => {
                let ghost before = pairs_view(out@);
                out.push((kb, vb));
                proof {
                    assert(pairs_view(out@) =~= before.push((kb@, vb@)));
                    if let Some(rest) = xadd_pairs(vs, i as int + 1) {
                        assert(before + (seq![(kb@, vb@)] + rest) =~= before.push((kb@, vb@)) + rest);
                    }
                }
            },
            _ => {
                return None;
            },
        }
        i += 1;
    }
    proof {
        assert(pairs_view(out@) + Seq::<(Seq<u8>, Seq<u8>)>::empty() =~= pairs_view(out@));
    }
    Some(out)
}

/// What a connection does with the request array `arr`.
fn command(arr: &Vec<DataObjects>) -> (r: Step)
    ensures
        r@ == command_spec(values_view(arr@)),
{
    let ghost vs = values_view(arr@);
    let n = arr.len();
    if n == 0 {
        return Step::Fault;
    }
    let name = &arr[0];
    if names_word(name, word_echo_bytes()) {
        if n < 2 {
            Step::Fault
        } else {
            match arr[1].shown() {
                Some(text) => Step::Echo(text),
                None => Step::Fault,
            }
        }
    } else if names_word(name, word_ping_bytes()) {
        Step::Reply(pong_bytes())
    } else if names_word(name, word_set_bytes()) {
        if n < 2 {
            return Step::Fault;
        }
        let key = match arg_bytes(&arr[1]) {
            None => return Step::Ignore,
            Some(k) => k,
        };
        if n < 3 {
            return Step::Fault;
        }
        let value = match arg_bytes(&arr[2]) {
            None => return Step::Ignore,
            Some(v) => v,
        };
        if n >= 5 {
            match arg_bytes(&arr[4]) {
                None => Step::Fault,
                Some(a) => {
                    let unit = if names_word(&arr[3], word_ex_bytes()) {
                        ExpiryUnit::Seconds
                    } else if names_word(&arr[3], word_px_bytes()) {
                        ExpiryUnit::Millis
                    } else {
                        ExpiryUnit::Ignored
                    };
                    Step::SetValue { key, value, expiry: Some((unit, a)) }
                },
            }
        } else {
            Step::SetValue { key, value, expiry: None }
        }
    } else if names_word(name, word_get_bytes()) {
        if n < 2 {
            return Step::Fault;
        }
        match arg_bytes(&arr[1]) {
            None => Step::Ignore,
            Some(key) => Step::Get { key },
        }
    } else if names_word(name, word_rpush_bytes()) && n > 2 {
        match collect_args(arr, 2) {
            None => Step::Fault,
            Some(values) => match arr[1].shown() {
                Some(list_name) => Step::RPush { list_name, values },
                None => Step::Fault,
            },
        }
    } else if names_word(name, word_lpush_bytes()) && n > 2 {
        match collect_args(arr, 2) {
            None => Step::Fault,
            Some(values) => match arr[1].shown() {
                Some(list_name) => Step::LPush { list_name, values },
                None => Step::Fault,
            },
        }
    } else if names_word(name, word_lrange_bytes()) && n > 3 {
        match (arg_bytes(&arr[1]), int_arg_of(&arr[2]), int_arg_of(&arr[3])) {
            (Some(key), Some(start), Some(end)) => Step::LRange { key, start, end },
            _ => Step::Fault,
        }
    } else if names_word(name, word_llen_bytes()) && n > 1 {
        match arg_bytes(&arr[1]) {
            Some(key) => Step::LLen { key },
            None => Step::Fault,
        }
    } else if names_word(name, word_lpop_bytes()) && n > 1 {
        match arg_bytes(&arr[1]) {
            None => Step::Fault,
            Some(key) => if n > 2 {
                match int_arg_of(&arr[2]) {
                    Some(c) => Step::LPop { key, count: Some(c) },
                    None => Step::Fault,
                }
            } else {
                Step::LPop { key, count: None }
            },
        }
    } else if names_word(name, word_blpop_bytes()) && n > 1 {
        match arg_bytes(&arr[1]) {
            None => Step::Fault,
            Some(key) => if n < 3 {
                Step::Fault
            } else {
                match arg_bytes(&arr[2]) {
                    Some(timeout) => Step::BLPop { key, timeout },
                    None => Step::Fault,
                }
            },
        }
    } else if names_word(name, word_type_bytes()) {
        if n < 2 {
            return Step::Fault;
        }
        match arg_bytes(&arr[1]) {
            Some(key) => Step::Type { key },
            None => Step::Fault,
        }
    } else if names_word(name, word_xadd_bytes()) {
        match collect_pairs(arr) {
            None => Step::Fault,
            Some(pairs) => if n < 3 {
                Step::Fault
            } else {
                match (arg_bytes(&arr[1]), arg_bytes(&arr[2])) {
                    (Some(key), Some(id)) => Step::XAdd { key, id, pairs },
                    _ => Step::Fault,
                }
            },
        }
    } else {
        Step::Ignore
    }
}

/// What a connection does with one decoded request, as `interpret_spec`
/// describes.
pub fn interpret(value: &DataObjects) -> (r: Step)
    ensures
        r@ == interpret_spec(value@),
{
    if value.shown().is_none() {
        return Step::Fault;
    }
    match value {
        DataObjects::Array(Some(arr)) => {
            proof {
                crate::resp::value::lemma_array_view(*arr);
            }
            command(arr)
        },
        _ => Step::Ignore,
    }
}

/// The bytes of a list of bulk strings are their contents.
proof fn lemma_all_bulk_bytes(values: Seq<Seq<u8>>)
    ensures
        all_command_bytes(bulk_values(values)) == Some(values),
    decreases values.len(),
{
    if values.len() > 0 {
        lemma_all_bulk_bytes(values.drop_last());
        assert(bulk_values(values).drop_last() =~= bulk_values(values.drop_last()));
        assert(values.drop_last().push(values.last()) =~= values);
    }
}

/// A request `[word, name, v1, .., vk]` of bulk strings with `k >= 1`: its
/// elements from the third on are the values, and every element is valid
/// UTF-8 when the name and values are.
proof fn lemma_push_request(word: Seq<u8>, name: Seq<u8>, values: Seq<Seq<u8>>)
    requires
        forall|i: int| 0 <= i < word.len() ==> #[trigger] word[i] < 128,
        valid_utf8(name),
        forall|i: int| 0 <= i < values.len() ==> valid_utf8(#[trigger] values[i]),
    ensures
        ({
            let arr = seq![RespValue::Bulk(Some(word)), RespValue::Bulk(Some(name))] + bulk_values(values);
            &&& arr.subrange(2, arr.len() as int) == bulk_values(values)
            &&& shown_defined(RespValue::Array(Some(arr)))
            &&& command_bytes(arr[0]) == Some(word)
            &&& arr.len() == values.len() + 2
        }),
{
    let arr = seq![RespValue::Bulk(Some(word)), RespValue::Bulk(Some(name))] + bulk_values(values);
    lemma_ascii_valid(word);
    assert(arr.subrange(2, arr.len() as int) =~= bulk_values(values));
    assert forall|i: int| 0 <= i < arr.len() implies shown_defined(#[trigger] arr[i]) by {
        if i >= 2 {
            assert(arr[i] == RespValue::Bulk(Some(values[i - 2])));
        }
    }
}

/// `RPUSH name v1 .. vk` and `LPUSH name v1 .. vk`, with at least one value,
/// make a push of exactly those values, in order, onto the list named by
/// `name`.
pub proof fn law_push_request(name: Seq<u8>, values: Seq<Seq<u8>>)
    requires
        values.len() >= 1,
        valid_utf8(name),
        forall|i: int| 0 <= i < values.len() ==> valid_utf8(#[trigger] values[i]),
    ensures
        interpret_spec(RespValue::Array(Some(
            seq![RespValue::Bulk(Some(word_rpush())), RespValue::Bulk(Some(name))] + bulk_values(values),
        ))) == StepModel::RPush(name, values),
        interpret_spec(RespValue::Array(Some(
            seq![RespValue::Bulk(Some(word_lpush())), RespValue::Bulk(Some(name))] + bulk_values(values),
        ))) == StepModel::LPush(name, values),
{
    lemma_all_bulk_bytes(values);
    lemma_push_request(word_rpush(), name, values);
    lemma_push_request(word_lpush(), name, values);
    let r = seq![RespValue::Bulk(Some(word_rpush())), RespValue::Bulk(Some(name))] + bulk_values(values);
    let l = seq![RespValue::Bulk(Some(word_lpush())), RespValue::Bulk(Some(name))] + bulk_values(values);
    assert(r[1] == RespValue::Bulk(Some(name)));
    assert(l[1] == RespValue::Bulk(Some(name)));
    assert(word_rpush() != word_echo() && word_rpush() != word_ping() && word_rpush() != word_set()
        && word_rpush() != word_get()) by {
        assert(word_rpush().len() != word_echo().len());
        assert(word_rpush().len() != word_ping().len());
        assert(word_rpush().len() != word_set().len());
        assert(word_rpush().len() != word_get().len());
    }
    assert(word_lpush() != word_echo() && word_lpush() != word_ping() && word_lpush() != word_set()
        && word_lpush() != word_get() && word_lpush() != word_rpush()) by {
        assert(word_lpush().len() != word_echo().len());
        assert(word_lpush().len() != word_ping().len());
        assert(word_lpush().len() != word_set().len());
        assert(word_lpush().len() != word_get().len());
        assert(word_lpush()[0] != word_rpush()[0]);
    }
}

/// A request `[word] + args` of bulk strings: every element is valid UTF-8
/// when the arguments are, and the elements name the word and arguments.
proof fn lemma_request(word: Seq<u8>, args: Seq<Seq<u8>>)
    requires
        forall|i: int| 0 <= i < word.len() ==> #[trigger] word[i] < 128,
        forall|i: int| 0 <= i < args.len() ==> valid_utf8(#[trigger] args[i]),
    ensures
        ({
            let arr = seq![RespValue::Bulk(Some(word))] + bulk_values(args);
            &&& shown_defined(RespValue::Array(Some(arr)))
            &&& arr.len() == args.len() + 1
            &&& command_bytes(arr[0]) == Some(word)
            &&& forall|i: int| 0 <= i < args.len() ==> command_bytes(#[trigger] arr[i + 1]) == Some(args[i])
        }),
{
    let arr = seq![RespValue::Bulk(Some(word))] + bulk_values(args);
    lemma_ascii_valid(word);
    assert forall|i: int| 0 <= i < arr.len() implies shown_defined(#[trigger] arr[i]) by {
        if i >= 1 {
            assert(arr[i] == RespValue::Bulk(Some(args[i - 1])));
        }
    }
    assert forall|i: int| 0 <= i < args.len() implies command_bytes(#[trigger] arr[i + 1]) == Some(args[i]) by {
        assert(arr[i + 1] == RespValue::Bulk(Some(args[i])));
    }
}

/// The command words are told apart.
proof fn lemma_words_differ()
    ensures
        word_get() != word_echo() && word_get() != word_ping() && word_get() != word_set(),
        word_llen() != word_echo() && word_llen() != word_ping() && word_llen() != word_set()
            && word_llen() != word_get() && word_llen() != word_rpush() && word_llen() != word_lpush()
            && word_llen() != word_lrange(),
        word_lrange() != word_echo() && word_lrange() != word_ping() && word_lrange() != word_set()
            && word_lrange() != word_get() && word_lrange() != word_rpush() && word_lrange() != word_lpush(),
        word_lpop() != word_echo() && word_lpop() != word_ping() && word_lpop() != word_set()
            && word_lpop() != word_get() && word_lpop() != word_rpush() && word_lpop() != word_lpush()
            && word_lpop() != word_lrange() && word_lpop() != word_llen(),
        word_blpop() != word_echo() && word_blpop() != word_ping() && word_blpop() != word_set()
            && word_blpop() != word_get() && word_blpop() != word_rpush() && word_blpop() != word_lpush()
            && word_blpop() != word_lrange() && word_blpop() != word_llen() && word_blpop() != word_lpop(),
        word_type() != word_echo() && word_type() != word_ping() && word_type() != word_set()
            && word_type() != word_get() && word_type() != word_rpush() && word_type() != word_lpush()
            && word_type() != word_lrange() && word_type() != word_llen() && word_type() != word_lpop()
            && word_type() != word_blpop(),
        word_xadd() != word_echo() && word_xadd() != word_ping() && word_xadd() != word_set()
            && word_xadd() != word_get() && word_xadd() != word_rpush() && word_xadd() != word_lpush()
            && word_xadd() != word_lrange() && word_xadd() != word_llen() && word_xadd() != word_lpop()
            && word_xadd() != word_blpop() && word_xadd() != word_type(),
        word_set() != word_echo() && word_set() != word_ping(),
        word_ex() != word_px(),
{
    assert(word_get()[0] != word_set()[0]);
    assert(word_get().len() != word_echo().len());
    assert(word_get().len() != word_ping().len());
    assert(word_llen()[1] != word_lpush()[1] && word_llen().len() != word_rpush().len());
    assert(word_llen().len() != word_lrange().len() && word_llen()[0] != word_echo()[0]);
    assert(word_llen()[0] != word_ping()[0] && word_llen().len() != word_set().len());
    assert(word_llen().len() != word_get().len());
    assert(word_lrange().len() != word_echo().len() && word_lrange().len() != word_rpush().len());
    assert(word_lrange().len() != word_ping().len() && word_lrange().len() != word_set().len());
    assert(word_lrange().len() != word_get().len() && word_lrange().len() != word_lpush().len());
    assert(word_lpop()[0] != word_echo()[0] && word_lpop()[0] != word_ping()[0]);
    assert(word_lpop().len() != word_set().len() && word_lpop().len() != word_get().len());
    assert(word_lpop().len() != word_rpush().len() && word_lpop().len() != word_lpush().len());
    assert(word_lpop().len() != word_lrange().len() && word_lpop()[1] != word_llen()[1]);
    assert(word_blpop()[0] != word_echo()[0] && word_blpop()[0] != word_ping()[0]);
    assert(word_blpop().len() != word_set().len() && word_blpop().len() != word_get().len());
    assert(word_blpop()[0] != word_rpush()[0] && word_blpop()[0] != word_lpush()[0]);
    assert(word_blpop().len() != word_lrange().len() && word_blpop().len() != word_llen().len());
    assert(word_blpop().len() != word_lpop().len());
    assert(word_type()[0] != word_echo()[0] && word_type()[0] != word_ping()[0]);
    assert(word_type().len() != word_set().len() && word_type().len() != word_get().len());
    assert(word_type().len() != word_rpush().len() && word_type().len() != word_lpush().len());
    assert(word_type().len() != word_lrange().len() && word_type()[0] != word_llen()[0]);
    assert(word_type()[0] != word_lpop()[0] && word_type().len() != word_blpop().len());
    assert(word_xadd()[0] != word_echo()[0] && word_xadd()[0] != word_ping()[0]);
    assert(word_xadd().len() != word_set().len() && word_xadd().len() != word_get().len());
    assert(word_xadd().len() != word_rpush().len() && word_xadd().len() != word_lpush().len());
    assert(word_xadd().len() != word_lrange().len() && word_xadd()[0] != word_llen()[0]);
    assert(word_xadd()[0] != word_lpop()[0] && word_xadd().len() != word_blpop().len());
    assert(word_xadd()[0] != word_type()[0]);
    assert(word_set().len() != word_echo().len() && word_set().len() != word_ping().len());
    assert(word_ex()[0] != word_px()[0]);
}

/// What each request of bulk strings asks for: `GET k`, `SET k v` (with
/// `EX a` or `PX a`), `LLEN k`, `TYPE k`, `LPOP k` (with a count), `LRANGE k s
/// e`, `BLPOP k t` and `XADD k id f v` carry exactly their arguments, and
/// `PING` is answered `+PONG`.
#[verifier::rlimit(40)]
pub proof fn law_requests(k: Seq<u8>, v: Seq<u8>, a: Seq<u8>, b: Seq<u8>, x: i32, y: i32)
    requires
        valid_utf8(k),
        valid_utf8(v),
        valid_utf8(a),
        valid_utf8(b),
        parse_i32(a) == Some(x),
        parse_i32(b) == Some(y),
    ensures
        interpret_spec(RespValue::Array(Some(seq![RespValue::Bulk(Some(word_ping()))]))) == StepModel::Reply(pong()),
        interpret_spec(RespValue::Array(Some(seq![RespValue::Bulk(Some(word_get()))] + bulk_values(seq![k]))))
            == StepModel::Get(k),
        interpret_spec(RespValue::Array(Some(seq![RespValue::Bulk(Some(word_set()))] + bulk_values(seq![k, v]))))
            == StepModel::SetValue(k, v, None),
        interpret_spec(RespValue::Array(Some(
            seq![RespValue::Bulk(Some(word_set()))] + bulk_values(seq![k, v, word_px(), a]),
        ))) == StepModel::SetValue(k, v, Some((ExpiryUnit::Millis, a))),
        interpret_spec(RespValue::Array(Some(
            seq![RespValue::Bulk(Some(word_set()))] + bulk_values(seq![k, v, word_ex(), a]),
        ))) == StepModel::SetValue(k, v, Some((ExpiryUnit::Seconds, a))),
        interpret_spec(RespValue::Array(Some(seq![RespValue::Bulk(Some(word_llen()))] + bulk_values(seq![k]))))
            == StepModel::LLen(k),
        interpret_spec(RespValue::Array(Some(seq![RespValue::Bulk(Some(word_type()))] + bulk_values(seq![k]))))
            == StepModel::Type(k),
        interpret_spec(RespValue::Array(Some(seq![RespValue::Bulk(Some(word_lpop()))] + bulk_values(seq![k]))))
            == StepModel::LPop(k, None),
        interpret_spec(RespValue::Array(Some(seq![RespValue::Bulk(Some(word_lpop()))] + bulk_values(seq![k, a]))))
            == StepModel::LPop(k, Some(x)),
        interpret_spec(RespValue::Array(Some(
            seq![RespValue::Bulk(Some(word_lrange()))] + bulk_values(seq![k, a, b]),
        ))) == StepModel::LRange(k, x, y),
        interpret_spec(RespValue::Array(Some(seq![RespValue::Bulk(Some(word_blpop()))] + bulk_values(seq![k, a]))))
            == StepModel::BLPop(k, a),
        interpret_spec(RespValue::Array(Some(
            seq![RespValue::Bulk(Some(word_xadd()))] + bulk_values(seq![k, v, a, b]),
        ))) == StepModel::XAdd(k, v, seq![(a, b)]),
{
    lemma_words_differ();
    lemma_ascii_valid(word_px());
    lemma_ascii_valid(word_ex());
    lemma_ascii_valid(word_ping());
    let ping = seq![RespValue::Bulk(Some(word_ping()))];
    assert(shown_defined(ping[0]));
    lemma_request(word_get(), seq![k]);
    lemma_request(word_set(), seq![k, v]);
    lemma_request(word_set(), seq![k, v, word_px(), a]);
    lemma_request(word_set(), seq![k, v, word_ex(), a]);
    lemma_request(word_llen(), seq![k]);
    lemma_request(word_type(), seq![k]);
    lemma_request(word_lpop(), seq![k]);
    lemma_request(word_lpop(), seq![k, a]);
    lemma_request(word_lrange(), seq![k, a, b]);
    lemma_request(word_blpop(), seq![k, a]);
    lemma_request(word_xadd(), seq![k, v, a, b]);
    let xa = seq![RespValue::Bulk(Some(word_xadd()))] + bulk_values(seq![k, v, a, b]);
    assert(command_bytes(xa[3]) == Some(a));
    assert(command_bytes(xa[4]) == Some(b));
    assert(xadd_pairs(xa, 4) == Some(Seq::<(Seq<u8>, Seq<u8>)>::empty()));
    assert(seq![(a, b)] + Seq::<(Seq<u8>, Seq<u8>)>::empty() =~= seq![(a, b)]);
    assert(xadd_pairs(xa, 3) == Some(seq![(a, b)]));
}

} // verus!
