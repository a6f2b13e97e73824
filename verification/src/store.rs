use vstd::prelude::*;
use std::collections::VecDeque;
use crate::bytemap::ByteMap;
use crate::radx::{has_empty_label, model_insert, model_locate, model_with_kvp, views, RadixModel, RadixT};
use crate::radix_laws::{keys, law_insert_adds_key, law_locate_finds_keys, root_wf};
use crate::reply::{null_array, null_array_bytes, encode_bulk, error_reply, error_reply_bytes, array_header, bulk, bulks, empty_array, empty_array_bytes, null_bulk, null_bulk_bytes, push_bulk, push_crlf, push_signed, type_list, type_list_bytes, type_none, type_none_bytes, type_stream, type_stream_bytes, type_string, type_string_bytes};
use crate::resp::Data_Storage::{Data_Storage, StorageModel};

verus! {

broadcast use vstd::std_specs::vec::group_vec_axioms;

/// A key's value and the time at which it stops being readable, if any.
pub struct Entry {
    pub data: Data_Storage,
    pub expires: Option<u64>,
}

impl View for Entry {
    type V = (StorageModel, Option<u64>);

    open spec fn view(&self) -> (StorageModel, Option<u64>) {
        (self.data@, self.expires)
    }
}

/// A client blocked on a list, known by the number the caller gave it, with
/// the time at which it stops waiting, if any.
#[derive(Clone, Copy, Debug, PartialEq, Eq)]
pub struct Waiter {
    pub deadline: Option<u64>,
    pub id: u64,
}

/// The keys and their values, and the clients blocked on each list name.
pub struct Store {
    dict: ByteMap<Entry>,
    waiters: ByteMap<Vec<Waiter>>,
}

/// The mathematical form of a store.
pub struct StoreModel {
    pub dict: Map<Seq<u8>, (StorageModel, Option<u64>)>,
    pub waiters: Map<Seq<u8>, Seq<Waiter>>,
    pub waiter_keys: Seq<Seq<u8>>,
}

impl View for Store {
    type V = StoreModel;

    closed spec fn view(&self) -> StoreModel {
        StoreModel { dict: self.dict@, waiters: self.waiters@, waiter_keys: self.waiters.key_seq() }
    }
}

/// Whether a value with this expiry time is still readable at `now`.
pub open spec fn live(expires: Option<u64>, now: u64) -> bool {
    match expires {
        Some(ts) => now <= ts,
        None => true,
    }
}

/// What `GET` answers: the string under `key` while it is readable.
pub open spec fn get_spec(d: Map<Seq<u8>, (StorageModel, Option<u64>)>, key: Seq<u8>, now: u64) -> Option<Seq<u8>> {
    if d.contains_key(key) {
        match d[key] {
            (StorageModel::Str(v), ts) => if live(ts, now) {
                Some(v)
            } else {
                None
            },
            _ => None,
        }
    } else {
        None
    }
}

/// The expiry time `life` after `now`, if any, held at the end of the
/// clock when it lies past it: no reading of the clock comes after that end,
/// so such a value never expires, as one whose deadline is far off.
pub open spec fn expiry_after(now: u64, life: Option<u64>) -> Option<u64> {
    match life {
        Some(l) => Some(if now + l > u64::MAX { u64::MAX } else { (now + l) as u64 }),
        None => None,
    }
}

/// What `TYPE` answers for `key` at `now`.
pub open spec fn type_spec(d: Map<Seq<u8>, (StorageModel, Option<u64>)>, key: Seq<u8>, now: u64) -> Seq<u8> {
    if d.contains_key(key) && live(d[key].1, now) {
        match d[key].0 {
            StorageModel::List(_) => type_list(),
            StorageModel::Str(_) => type_string(),
            StorageModel::Stream(_) => type_stream(),
        }
    } else {
        type_none()
    }
}

/// The length of the list under `key`, or 0 when there is none.
pub open spec fn llen_spec(d: Map<Seq<u8>, (StorageModel, Option<u64>)>, key: Seq<u8>) -> nat {
    if d.contains_key(key) {
        match d[key].0 {
            StorageModel::List(l) => l.len(),
            _ => 0,
        }
    } else {
        0
    }
}

/// What `RPUSH` (`front` false) or `LPUSH` (`front` true) does: the values
/// go to the back in order, or each to the front in turn, of the list under
/// `key`, made empty first when there is none; the answer is the new length,
/// or 0 with nothing changed when `key` holds something else.
pub open spec fn push_spec(
    d: Map<Seq<u8>, (StorageModel, Option<u64>)>,
    key: Seq<u8>,
    values: Seq<Seq<u8>>,
    front: bool,
) -> (Map<Seq<u8>, (StorageModel, Option<u64>)>, nat) {
    let (l, ts) = if d.contains_key(key) {
        match d[key] {
            (StorageModel::List(l), ts) => (Some(l), ts),
            _ => (None, None),
        }
    } else {
        (Some(Seq::empty()), None)
    };
    match l {
        Some(l) => {
            let l2 = if front { values.reverse() + l } else { l + values };
            (d.insert(key, (StorageModel::List(l2), ts)), l2.len())
        },
        None => (d, 0),
    }
}

/// A copy of a byte string.
fn copy_bytes(b: &Vec<u8>) -> (r: Vec<u8>)
    ensures
        r@ == b@,
{
    vstd::slice::slice_to_vec(b.as_slice())
}

impl Store {
    /// Every list name has one entry among the blocked clients.
    pub closed spec fn wf(&self) -> bool {
        self.waiters.wf()
    }

    /// In a well-formed store each list name that clients wait on is listed
    /// once among the waited-on names, and only those are listed.
    pub proof fn lemma_waiter_keys(&self)
        requires
            self.wf(),
        ensures
            self@.waiter_keys.no_duplicates(),
            forall|k: Seq<u8>| #[trigger] self@.waiters.contains_key(k) <==> self@.waiter_keys.contains(k),
    {
        self.waiters.lemma_wf_keys();
        self.waiters.lemma_key_seq();
    }

    /// An empty store.
    pub fn new() -> (r: Store)
        ensures
            r.wf(),
            r@.dict == Map::<Seq<u8>, (StorageModel, Option<u64>)>::empty(),
            r@.waiters == Map::<Seq<u8>, Seq<Waiter>>::empty(),
            r@.waiter_keys == Seq::<Seq<u8>>::empty(),
    {
        Store { dict: ByteMap::new(), waiters: ByteMap::new() }
    }

    /// `GET`: the string under `key` while it is readable at `now`.
    pub fn get(&self, key: &[u8], now: u64) -> (r: Option<Vec<u8>>)
        ensures
            match r {
                Some(v) => get_spec(self@.dict, key@, now) == Some(v@),
                None => get_spec(self@.dict, key@, now) is None,
            },
    {
        match self.dict.get(key) {
            Some(e) => match &e.data {
                Data_Storage::RedisString(val) => {
                    match e.expires {
                        Some(ts) => {
                            if now > ts {
                                None
                            } else {
                                Some(copy_bytes(val))
                            }
                        },
                        None => Some(copy_bytes(val)),
                    }
                },
                _ => None,
            },
            None => None,
        }
    }

    /// `SET`: puts the string under `key`, readable until `life` after `now`
    /// when `life` is given.
    pub fn set(&mut self, key: Vec<u8>, value: Vec<u8>, life: Option<u64>, now: u64)
        requires
            old(self).wf(),
        ensures
            final(self).wf(),
            final(self)@.dict == old(self)@.dict.insert(
                key@,
                (StorageModel::Str(value@), expiry_after(now, life)),
            ),
            final(self)@.waiters == old(self)@.waiters,
            final(self)@.waiter_keys == old(self)@.waiter_keys,
    {
        let expires = match life {
            Some(l) => Some(now.saturating_add(l)),
            None => None,
        };
        self.dict.insert(key, Entry { data: Data_Storage::RedisString(value), expires });
    }

    /// `TYPE`: the kind of value under `key` while it is readable at `now`.
    pub fn type_of(&self, key: &[u8], now: u64) -> (r: Vec<u8>)
        ensures
            r@ == type_spec(self@.dict, key@, now),
    {
        match self.dict.get(key) {
            Some(e) => {
                let readable = match e.expires {
                    Some(ts) => ts >= now,
                    None => true,
                };
                if readable {
                    match &e.data {
                        Data_Storage::RedisList(_) => type_list_bytes(),
                        Data_Storage::RedisString(_) => type_string_bytes(),
                        Data_Storage::RedisStream(_) => type_stream_bytes(),
                    }
                } else {
                    type_none_bytes()
                }
            },
            None => type_none_bytes(),
        }
    }

    /// `LLEN`: the length of the list under `key`, or 0.
    pub fn llen(&self, key: &[u8]) -> (r: usize)
        ensures
            r == llen_spec(self@.dict, key@),
    {
        match self.dict.get(key) {
            Some(e) => match &e.data {
                Data_Storage::RedisList(l) => l.len(),
                _ => 0,
            },
            None => 0,
        }
    }

    /// `RPUSH` and `LPUSH`, as `push_spec` describes.
    pub fn push(&mut self, key: &[u8], values: &Vec<Vec<u8>>, front: bool) -> (r: usize)
        requires
            old(self).wf(),
        ensures
            final(self).wf(),
            (final(self)@.dict, r as nat) == push_spec(old(self)@.dict, key@, views(values@), front),
            final(self)@.waiters == old(self)@.waiters,
            final(self)@.waiter_keys == old(self)@.waiter_keys,
    {
        let ghost d0 = self.dict@;
        let placeholder = Entry { data: Data_Storage::RedisString(Vec::new()), expires: None };
        let prev = self.dict.insert(vstd::slice::slice_to_vec(key), placeholder);
        let (data, expires) = match prev {
            Some(entry) => (entry.data, entry.expires),
            None => {
                proof {
                    assert(views(Seq::<Vec<u8>>::empty()) =~= Seq::<Seq<u8>>::empty());
                }
                (Data_Storage::RedisList(VecDeque::new()), None)
            },
        };
        match data {
            Data_Storage::RedisList(mut l) => {
                fill_list(&mut l, values, front);
                let n = l.len();
                self.dict.insert(vstd::slice::slice_to_vec(key), Entry { data: Data_Storage::RedisList(l), expires });
                assert(self.dict@ =~= push_spec(d0, key@, views(values@), front).0);
                n
            },
            other => {
                self.dict.insert(vstd::slice::slice_to_vec(key), Entry { data: other, expires });
                assert(self.dict@ =~= d0);
                0
            },
        }
    }
}

/// Puts `values` at the back of `l` in order, or each at the front in turn.
fn fill_list(l: &mut VecDeque<Vec<u8>>, values: &Vec<Vec<u8>>, front: bool)
    ensures
        views(final(l)@) == (if front {
            views(values@).reverse() + views(old(l)@)
        } else {
            views(old(l)@) + views(values@)
        }),
{
    let ghost l0 = views(l@);
    let mut i: usize = 0;
    while i < values.len()
        invariant
            i <= values@.len(),
            l0 == views(old(l)@),
            views(l@) == (if front {
                views(values@).take(i as int).reverse() + l0
            } else {
                l0 + views(values@).take(i as int)
            }),
        decreases values@.len() - i,
    {
        let ghost before = views(l@);
        let v = copy_bytes(&values[i]);
        if front {
            l.push_front(v);
            assert(views(l@) =~= seq![v@] + before);
            assert(views(values@).take(i + 1).reverse() =~= seq![v@] + views(values@).take(i as int).reverse());
        } else {
            l.push_back(v);
            assert(views(l@) =~= before.push(v@));
        }
        i += 1;
    }
    assert(views(values@).take(values@.len() as int) =~= views(values@));
}

/// Rust's `%` on integers: the remainder takes the sign of `a`.
pub open spec fn trunc_rem(a: int, n: int) -> int {
    if a >= 0 {
        a % n
    } else {
        -((-a) % n)
    }
}

/// The start index after the adjustments `LRANGE` makes before wrapping.
pub open spec fn clamp_start(n: int, start: int) -> int {
    if start < -n {
        0
    } else {
        start
    }
}

/// The end index after the adjustments `LRANGE` makes before wrapping.
pub open spec fn clamp_end(n: int, end: int) -> int {
    let e1 = if end < -n {
        0
    } else {
        end
    };
    if e1 >= n {
        n - 1
    } else {
        e1
    }
}

/// The inclusive index range that `LRANGE start end` covers in a list of
/// length `n`, or none.
pub open spec fn lrange_indices(n: int, start: int, end: int) -> Option<(int, int)> {
    let s1 = clamp_start(n, start);
    let e2 = clamp_end(n, end);
    if s1 >= n {
        None
    } else {
        let s3 = trunc_rem(trunc_rem(s1, n) + n, n);
        let e3 = trunc_rem(trunc_rem(e2, n) + n, n);
        if s3 > e3 {
            None
        } else {
            Some((s3, e3))
        }
    }
}

/// Whether `LRANGE` computes its indices for a list of length `n` without
/// overflowing `i32`.
pub open spec fn lrange_fits(n: int, start: int, end: int) -> bool {
    &&& n <= i32::MAX
    &&& clamp_start(n, start) < n ==> {
        &&& trunc_rem(clamp_start(n, start), n) + n <= i32::MAX
        &&& trunc_rem(clamp_end(n, end), n) + n <= i32::MAX
    }
}

/// The reply of `LRANGE start end` on the list `l`.
pub open spec fn lrange_reply(l: Seq<Seq<u8>>, start: int, end: int) -> Seq<u8> {
    match lrange_indices(l.len() as int, start, end) {
        None => empty_array(),
        Some((s, e)) => array_header(e - s + 1) + bulks(l.subrange(s, e + 1)),
    }
}

/// The store with an empty list under `key` when `key` holds nothing.
pub open spec fn with_list(d: Map<Seq<u8>, (StorageModel, Option<u64>)>, key: Seq<u8>) -> Map<Seq<u8>, (StorageModel, Option<u64>)> {
    if d.contains_key(key) {
        d
    } else {
        d.insert(key, (StorageModel::List(Seq::empty()), None))
    }
}

/// What `LRANGE` does: it first puts an empty list under `key` when `key`
/// holds nothing, then answers for the list there, or does not answer when
/// `key` holds something else.
pub open spec fn lrange_spec(d: Map<Seq<u8>, (StorageModel, Option<u64>)>, key: Seq<u8>, start: int, end: int)
    -> (Map<Seq<u8>, (StorageModel, Option<u64>)>, Option<Seq<u8>>) {
    let d2 = with_list(d, key);
    match d2[key].0 {
        StorageModel::List(l) => (d2, Some(lrange_reply(l, start, end))),
        _ => (d2, None),
    }
}

/// Whether `LRANGE` on `key` runs without overflow.
pub open spec fn lrange_defined(d: Map<Seq<u8>, (StorageModel, Option<u64>)>, key: Seq<u8>, start: int, end: int) -> bool {
    d.contains_key(key) ==> match d[key].0 {
        StorageModel::List(l) => lrange_fits(l.len() as int, start, end),
        _ => true,
    }
}

/// Whether `LRANGE` on a list of length `n` computes its indices without
/// overflowing `i32`.
pub fn lrange_fits_exec(n: usize, start: i32, end: i32) -> (r: bool)
    ensures
        r == lrange_fits(n as int, start as int, end as int),
{
    if n > 2147483647 {
        return false;
    }
    let n = n as i64;
    let s1: i64 = if (start as i64) < -n { 0 } else { start as i64 };
    let e1: i64 = if (end as i64) < -n { 0 } else { end as i64 };
    let e2: i64 = if e1 >= n { n - 1 } else { e1 };
    if s1 >= n {
        return true;
    }
    s1 % n + n <= 2147483647 && e2 % n + n <= 2147483647
}

impl Store {
    /// `LRANGE`, as `lrange_spec` describes; `None` where no answer is sent.
    pub fn lrange(&mut self, key: &[u8], start: i32, end: i32) -> (r: Option<Vec<u8>>)
        requires
            old(self).wf(),
            lrange_defined(old(self)@.dict, key@, start as int, end as int),
        ensures
            final(self).wf(),
            final(self)@.dict == lrange_spec(old(self)@.dict, key@, start as int, end as int).0,
            opt_bytes(r) == lrange_spec(old(self)@.dict, key@, start as int, end as int).1,
            final(self)@.waiters == old(self)@.waiters,
            final(self)@.waiter_keys == old(self)@.waiter_keys,
    {
        if !self.dict.contains_key(key) {
            self.dict.insert(
                vstd::slice::slice_to_vec(key),
                Entry { data: Data_Storage::RedisList(VecDeque::new()), expires: None },
            );
            proof {
                assert(views(Seq::<Vec<u8>>::empty()) =~= Seq::<Seq<u8>>::empty());
            }
        }
        match self.dict.get(key) {
            Some(e) => match &e.data {
                Data_Storage::RedisList(l) => Some(lrange_list(l, start, end)),
                _ => None,
            },
            None => None,
        }
    }
}

/// The bytes of an optional byte vector.
pub open spec fn opt_bytes(r: Option<Vec<u8>>) -> Option<Seq<u8>> {
    match r {
        Some(v) => Some(v@),
        None => None,
    }
}

/// The reply of `LRANGE start end` on the list `l`.
fn lrange_list(l: &VecDeque<Vec<u8>>, start: i32, end: i32) -> (r: Vec<u8>)
    requires
        lrange_fits(views(l@).len() as int, start as int, end as int),
    ensures
        r@ == lrange_reply(views(l@), start as int, end as int),
{
    let ghost lv = views(l@);
    let n = l.len() as i32;
    let mut start_index = start;
    let mut end_index = end;
    if start_index < -n {
        start_index = 0;
    }
    if end_index < -n {
        end_index = 0;
    }
    if end_index >= n {
        end_index = n - 1;
    }
    if start_index >= n {
        return empty_array_bytes();
    }
    start_index = ((start_index % n) + n) % n;
    end_index = ((end_index % n) + n) % n;
    if start_index > end_index {
        return empty_array_bytes();
    }
    let mut out: Vec<u8> = Vec::new();
    out.push(42u8);
    push_signed(&mut out, (end_index - start_index + 1) as i64);
    push_crlf(&mut out);
    assert(out@ =~= array_header(end_index - start_index + 1));
    let mut ind: usize = start_index as usize;
    while ind <= end_index as usize
        invariant
            0 <= start_index <= end_index < n,
            n == lv.len(),
            lv == views(l@),
            start_index as usize <= ind <= end_index as usize + 1,
            out@ == array_header(end_index - start_index + 1) + bulks(lv.subrange(start_index as int, ind as int)),
        decreases end_index as usize + 1 - ind,
    {
        let ghost before = out@;
        push_bulk(&mut out, l[ind].as_slice());
        proof {
            assert(lv.subrange(start_index as int, ind + 1).drop_last() =~= lv.subrange(start_index as int, ind as int));
            assert(lv[ind as int] == l@[ind as int]@);
        }
        ind += 1;
    }
    out
}

/// Whether `key` holds a list.
pub open spec fn holds_list(d: Map<Seq<u8>, (StorageModel, Option<u64>)>, key: Seq<u8>) -> bool {
    d.contains_key(key) && d[key].0 is List
}

/// What `LPOP` does. On an empty list it answers a null bulk string; with a
/// count it takes up to that many values from the front (none for a count
/// of 0 or less) and answers them as an array announcing the smaller of the
/// count and the length; without one it takes the front value and answers
/// it; on a key that holds no list it answers nothing.
pub open spec fn lpop_spec(d: Map<Seq<u8>, (StorageModel, Option<u64>)>, key: Seq<u8>, count: Option<i32>)
    -> (Map<Seq<u8>, (StorageModel, Option<u64>)>, Seq<u8>) {
    if holds_list(d, key) {
        let l = d[key].0->List_0;
        let ts = d[key].1;
        if l.len() == 0 {
            (d, null_bulk())
        } else {
            match count {
                Some(c) => {
                    let k = if c < l.len() { c as int } else { l.len() as int };
                    let m = if k > 0 { k } else { 0 };
                    (d.insert(key, (StorageModel::List(l.skip(m)), ts)), array_header(k) + bulks(l.take(m)))
                },
                None => (d.insert(key, (StorageModel::List(l.drop_first()), ts)), bulk(l[0])),
            }
        }
    } else {
        (d, Seq::empty())
    }
}

/// Whether `LPOP` on `key` runs without overflow: with a count, the list
/// length must fit in `i32`.
pub open spec fn lpop_defined(d: Map<Seq<u8>, (StorageModel, Option<u64>)>, key: Seq<u8>, count: Option<i32>) -> bool {
    holds_list(d, key) && count is Some ==> d[key].0->List_0.len() <= i32::MAX
}

impl Store {
    /// Replaces the entry under `key`, which must be there, by a placeholder,
    /// and gives it back.
    fn take_entry(&mut self, key: &[u8]) -> (r: Entry)
        requires
            old(self).wf(),
            old(self)@.dict.contains_key(key@),
        ensures
            final(self).wf(),
            r@ == old(self)@.dict[key@],
            final(self)@.dict.dom() == old(self)@.dict.dom(),
            forall|k: Seq<u8>| k != key@ ==> #[trigger] final(self)@.dict.insert(key@, r@).contains_key(k) ==> final(self)@.dict[k] == old(self)@.dict[k],
            final(self)@.dict.insert(key@, r@) == old(self)@.dict,
            final(self)@.waiters == old(self)@.waiters,
            final(self)@.waiter_keys == old(self)@.waiter_keys,
    {
        let placeholder = Entry { data: Data_Storage::RedisString(Vec::new()), expires: None };
        let prev = self.dict.insert(vstd::slice::slice_to_vec(key), placeholder);
        match prev {
            Some(e) => {
                assert(self.dict@.insert(key@, e@) =~= old(self)@.dict);
                assert(self.dict@.dom() =~= old(self)@.dict.dom());
                e
            },
            None => {
                assert(false);
                Entry { data: Data_Storage::RedisString(Vec::new()), expires: None }
            },
        }
    }

    /// `LPOP`, as `lpop_spec` describes.
    pub fn lpop(&mut self, key: &[u8], count: Option<i32>) -> (r: Vec<u8>)
        requires
            old(self).wf(),
            lpop_defined(old(self)@.dict, key@, count),
        ensures
            final(self).wf(),
            (final(self)@.dict, r@) == lpop_spec(old(self)@.dict, key@, count),
            final(self)@.waiters == old(self)@.waiters,
            final(self)@.waiter_keys == old(self)@.waiter_keys,
    {
        let is_list = match self.dict.get(key) {
            Some(e) => match &e.data {
                Data_Storage::RedisList(_) => true,
                _ => false,
            },
            None => false,
        };
        if !is_list {
            let r: Vec<u8> = Vec::new();
            assert(r@ =~= Seq::<u8>::empty());
            return r;
        }
        let ghost d0 = self.dict@;
        let e = self.take_entry(key);
        let expires = e.expires;
        match e.data {
            Data_Storage::RedisList(mut l) => {
                let ghost lv = views(l@);
                if l.len() == 0 {
                    self.dict.insert(vstd::slice::slice_to_vec(key), Entry { data: Data_Storage::RedisList(l), expires });
                    return null_bulk_bytes();
                }
                let mut out: Vec<u8> = Vec::new();
                match count {
                    Some(c) => {
                        let len = l.len() as i32;
                        let n_ = if c < len { c } else { len };
                        out.push(42u8);
                        push_signed(&mut out, n_ as i64);
                        push_crlf(&mut out);
                        assert(out@ =~= array_header(n_ as int));
                        let ghost m: int = if n_ > 0 { n_ as int } else { 0 };
                        let mut i: i32 = 0;
                        assert(lv.take(0) =~= Seq::<Seq<u8>>::empty());
                        assert(lv.skip(0) =~= lv);
                        while i < n_
                            invariant
                                0 <= i,
                                n_ <= lv.len(),
                                n_ <= 0 ==> i == 0,
                                n_ > 0 ==> i <= n_,
                                views(l@) == lv.skip(i as int),
                                out@ == array_header(n_ as int) + bulks(lv.take(i as int)),
                            decreases n_ - i,
                        {
                            let ghost before = views(l@);
                            assert(before.len() == lv.len() - i);
                            match l.pop_front() {
                                Some(p) => {
                                    assert(p@ == before[0]);
                                    assert(views(l@) =~= before.subrange(1, before.len() as int));
                                    push_bulk(&mut out, p.as_slice());
                                    assert(lv.take(i + 1).drop_last() =~= lv.take(i as int));
                                    assert(views(l@) =~= lv.skip(i + 1));
                                },
                                None => {
                                    assert(false);
                                },
                            }
                            i += 1;
                        }
                        assert(i as int == m);
                    },
                    None => {
                        match l.pop_front() {
                            Some(p) => {
                                push_bulk(&mut out, p.as_slice());
                                assert(out@ =~= bulk(lv[0]));
                                assert(views(l@) =~= lv.drop_first());
                            },
                            None => {
                                assert(false);
                            },
                        }
                    },
                }
                self.dict.insert(vstd::slice::slice_to_vec(key), Entry { data: Data_Storage::RedisList(l), expires });
                proof {
                    assert(self.dict@ =~= lpop_spec(d0, key@, count).0);
                }
                out
            },
            _ => {
                assert(false);
                Vec::new()
            },
        }
    }
}

/// The field/value pairs of a list of pairs of byte vectors.
pub open spec fn pairs_view(p: Seq<(Vec<u8>, Vec<u8>)>) -> Seq<(Seq<u8>, Seq<u8>)> {
    p.map_values(|e: (Vec<u8>, Vec<u8>)| (e.0@, e.1@))
}

/// `m` with each of `pairs` put in, in order.
pub open spec fn add_pairs(m: Map<Seq<u8>, Seq<u8>>, pairs: Seq<(Seq<u8>, Seq<u8>)>) -> Map<Seq<u8>, Seq<u8>>
    decreases pairs.len(),
{
    if pairs.len() == 0 {
        m
    } else {
        add_pairs(m, pairs.drop_last()).insert(pairs.last().0, pairs.last().1)
    }
}

/// The empty tree that a new stream starts from.
pub open spec fn empty_tree() -> RadixModel {
    RadixModel { edges: Seq::empty(), is_end: false, kvp: Map::empty() }
}

/// The stream `t` after `XADD` of the entry `id` with `pairs`: the id is
/// inserted unless `search` finds it, then the pairs go into the node that
/// the id leads to.
pub open spec fn stream_add(t: RadixModel, id: Seq<u8>, pairs: Seq<(Seq<u8>, Seq<u8>)>) -> RadixModel {
    let t1 = if id.len() == 0 && t.is_end {
        t
    } else {
        model_insert(t, id)
    };
    model_with_kvp(t1, id, add_pairs(model_locate(t1, id).unwrap(), pairs))
}

/// Whether `XADD` of `id` on the stream `t` runs to its end: `search` must
/// return, and the id must lead somewhere once inserted.
pub open spec fn stream_add_defined(t: RadixModel, id: Seq<u8>) -> bool {
    let t1 = if id.len() == 0 && t.is_end {
        t
    } else {
        model_insert(t, id)
    };
    &&& !(id.len() >= 2 && has_empty_label(t))
    &&& model_locate(t1, id) is Some
}

/// What `XADD` does at `now`: on a readable stream under `key` it adds the
/// entry; on another readable value it answers `+Error` and changes nothing;
/// otherwise it puts a new stream holding just the entry under `key`. The
/// answer is the id as a bulk string.
pub open spec fn xadd_spec(
    d: Map<Seq<u8>, (StorageModel, Option<u64>)>,
    key: Seq<u8>,
    id: Seq<u8>,
    pairs: Seq<(Seq<u8>, Seq<u8>)>,
    now: u64,
) -> (Map<Seq<u8>, (StorageModel, Option<u64>)>, Seq<u8>) {
    if d.contains_key(key) && live(d[key].1, now) {
        match d[key].0 {
            StorageModel::Stream(t) => (d.insert(key, (StorageModel::Stream(stream_add(t, id, pairs)), d[key].1)), bulk(id)),
            _ => (d, error_reply()),
        }
    } else {
        (d.insert(key, (StorageModel::Stream(stream_add(empty_tree(), id, pairs)), None)), bulk(id))
    }
}

/// Whether `XADD` runs to its end.
pub open spec fn xadd_defined(d: Map<Seq<u8>, (StorageModel, Option<u64>)>, key: Seq<u8>, id: Seq<u8>, now: u64) -> bool {
    d.contains_key(key) && live(d[key].1, now) && d[key].0 is Stream ==> stream_add_defined(d[key].0->Stream_0, id)
}

/// A new stream always takes an entry.
pub proof fn lemma_new_stream_defined(id: Seq<u8>)
    ensures
        stream_add_defined(empty_tree(), id),
{
    let t = empty_tree();
    assert(root_wf(t));
    assert forall|w: Seq<u8>| #[trigger] keys(t).contains(w) implies !crate::radix_laws::extends(id, w) by {
        crate::radix_laws::lemma_empty_holds_nothing(w);
    }
    law_insert_adds_key(t, id);
    crate::radix_laws::law_insert_wf(t, id);
    law_locate_finds_keys(model_insert(t, id), id);
    assert(keys(model_insert(t, id)).contains(id));
}

/// The stream that `XADD` of `id` leaves behind when it stops with the id
/// leading nowhere once inserted.
pub open spec fn stream_after_insert(t: RadixModel, id: Seq<u8>) -> RadixModel {
    if id.len() == 0 && t.is_end {
        t
    } else {
        model_insert(t, id)
    }
}

/// A failure of `XADD`: the search for the id would never return, or the id
/// leads nowhere once inserted.
#[derive(Debug, PartialEq)]
pub struct StoreFault;

/// Adds the entry `id` with `pairs` to a stream, as `stream_add` describes;
/// `Err` exactly where that is not defined, with the stream unchanged when
/// `search` would not return and with the id inserted otherwise.
fn add_to_stream(rs: &mut RadixT, id: &[u8], pairs: &Vec<(Vec<u8>, Vec<u8>)>) -> (r: Result<(), StoreFault>)
    ensures
        r is Ok <==> stream_add_defined(old(rs)@, id@),
        r is Ok ==> final(rs)@ == stream_add(old(rs)@, id@, pairs_view(pairs@)),
        r is Err && id@.len() >= 2 && has_empty_label(old(rs)@) ==> final(rs)@ == old(rs)@,
        r is Err && !(id@.len() >= 2 && has_empty_label(old(rs)@)) ==> final(rs)@ == stream_after_insert(old(rs)@, id@),
{
    if id.len() >= 2 && rs.has_empty_edge() {
        return Err(StoreFault);
    }
    if !rs.search(id) {
        rs.insert(id);
    }
    let ghost t1 = rs@;
    match rs.iterator(id) {
        Some(m) => {
            let ghost m0 = m@;
            let mut i: usize = 0;
            while i < pairs.len()
                invariant
                    i <= pairs@.len(),
                    m@ == add_pairs(m0, pairs_view(pairs@).take(i as int)),
                decreases pairs@.len() - i,
            {
                let k = vstd::slice::slice_to_vec(pairs[i].0.as_slice());
                let v = vstd::slice::slice_to_vec(pairs[i].1.as_slice());
                m.insert(k, v);
                assert(pairs_view(pairs@).take(i + 1).drop_last() =~= pairs_view(pairs@).take(i as int));
                i += 1;
            }
            assert(pairs_view(pairs@).take(pairs@.len() as int) =~= pairs_view(pairs@));
            Ok(())
        },
        None => Err(StoreFault),
    }
}

/// The store after an `XADD` that stops short: the id inserted into the
/// readable stream under `key`, or nothing changed when `search` would not
/// return.
pub open spec fn xadd_fault_spec(
    d: Map<Seq<u8>, (StorageModel, Option<u64>)>,
    key: Seq<u8>,
    id: Seq<u8>,
) -> Map<Seq<u8>, (StorageModel, Option<u64>)> {
    let t = d[key].0->Stream_0;
    if id.len() >= 2 && has_empty_label(t) {
        d
    } else {
        d.insert(key, (StorageModel::Stream(stream_after_insert(t, id)), d[key].1))
    }
}

impl Store {
    /// `XADD`, as `xadd_spec` describes.
    pub fn xadd(&mut self, key: &[u8], stream_id: &[u8], pairs: &Vec<(Vec<u8>, Vec<u8>)>, now: u64) -> (r: Vec<u8>)
        requires
            old(self).wf(),
            xadd_defined(old(self)@.dict, key@, stream_id@, now),
        ensures
            final(self).wf(),
            (final(self)@.dict, r@) == xadd_spec(old(self)@.dict, key@, stream_id@, pairs_view(pairs@), now),
            final(self)@.waiters == old(self)@.waiters,
            final(self)@.waiter_keys == old(self)@.waiter_keys,
    {
        match self.xadd_checked(key, stream_id, pairs, now) {
            Ok(r) => r,
            Err(_) => Vec::new(),
        }
    }

    /// `XADD` for any input: `Err` exactly where `xadd` is not defined, the
    /// store then left as `xadd_fault_spec` describes.
    pub fn xadd_checked(&mut self, key: &[u8], stream_id: &[u8], pairs: &Vec<(Vec<u8>, Vec<u8>)>, now: u64) -> (r: Result<Vec<u8>, StoreFault>)
        requires
            old(self).wf(),
        ensures
            final(self).wf(),
            r is Ok <==> xadd_defined(old(self)@.dict, key@, stream_id@, now),
            r matches Ok(b) ==> (final(self)@.dict, b@) == xadd_spec(old(self)@.dict, key@, stream_id@, pairs_view(pairs@), now),
            r is Err ==> final(self)@.dict == xadd_fault_spec(old(self)@.dict, key@, stream_id@),
            final(self)@.waiters == old(self)@.waiters,
            final(self)@.waiter_keys == old(self)@.waiter_keys,
    {
        let ghost d0 = self.dict@;
        let readable = match self.dict.get(key) {
            Some(e) => match e.expires {
                Some(ts) => ts >= now,
                None => true,
            },
            None => false,
        };
        if readable {
            let e = self.take_entry(key);
            let expires = e.expires;
            match e.data {
                Data_Storage::RedisStream(mut rs) => {
                    let res = add_to_stream(&mut rs, stream_id, pairs);
                    self.dict.insert(vstd::slice::slice_to_vec(key), Entry { data: Data_Storage::RedisStream(rs), expires });
                    match res {
                        Ok(()) => {
                            assert(self.dict@ =~= xadd_spec(d0, key@, stream_id@, pairs_view(pairs@), now).0);
                        },
                        Err(f) => {
                            assert(self.dict@ =~= xadd_fault_spec(d0, key@, stream_id@));
                            return Err(f);
                        },
                    }
                },
                other => {
                    self.dict.insert(vstd::slice::slice_to_vec(key), Entry { data: other, expires });
                    assert(self.dict@ =~= d0);
                    return Ok(error_reply_bytes());
                },
            }
        } else {
            let mut rs = RadixT::new();
            proof {
                lemma_new_stream_defined(stream_id@);
            }
            let res = add_to_stream(&mut rs, stream_id, pairs);
            self.dict.insert(vstd::slice::slice_to_vec(key), Entry { data: Data_Storage::RedisStream(rs), expires: None });
            if res.is_err() {
                assert(false);
            }
        }
        Ok(encode_bulk(stream_id))
    }

    /// Whether `LRANGE start end` on `key` runs without overflow.
    pub fn lrange_ok(&self, key: &[u8], start: i32, end: i32) -> (r: bool)
        ensures
            r == lrange_defined(self@.dict, key@, start as int, end as int),
    {
        match self.dict.get(key) {
            Some(e) => match &e.data {
                Data_Storage::RedisList(l) => lrange_fits_exec(l.len(), start, end),
                _ => true,
            },
            None => true,
        }
    }

    /// Whether `LPOP` on `key` runs without overflow.
    pub fn lpop_ok(&self, key: &[u8], count: Option<i32>) -> (r: bool)
        ensures
            r == lpop_defined(self@.dict, key@, count),
    {
        match self.dict.get(key) {
            Some(e) => match &e.data {
                Data_Storage::RedisList(l) => count.is_none() || l.len() <= 2147483647,
                _ => true,
            },
            None => true,
        }
    }
}

/// Whether `a` is served before `b`: a client with a deadline comes before
/// one without, and an earlier deadline before a later one.
pub open spec fn waiter_gt(a: Waiter, b: Waiter) -> bool {
    match (a.deadline, b.deadline) {
        (Some(_), None) => true,
        (Some(x), Some(y)) => x < y,
        _ => false,
    }
}

/// Scanning from `j` with `best` the first of the greatest so far: the
/// position of the first greatest waiter.
pub open spec fn top_from(h: Seq<Waiter>, best: int, j: int) -> int
    decreases h.len() - j,
{
    if j >= h.len() || j < 0 {
        best
    } else if waiter_gt(h[j], h[best]) {
        top_from(h, j, j + 1)
    } else {
        top_from(h, best, j + 1)
    }
}

/// The position of the waiter served next: the first of the greatest.
pub open spec fn top_index(h: Seq<Waiter>) -> int {
    top_from(h, 0, 1)
}

/// What a client blocked on the list `name` gets when served `v`.
pub open spec fn blpop_reply(name: Seq<u8>, v: Seq<u8>) -> Seq<u8> {
    array_header(2) + bulk(name) + bulk(v)
}

/// Serving the waiters `h` on the list `name` at `now`: the waiter served
/// next gets `*-1` when its deadline has passed, else the front value of the
/// list when the list (`None` when the key holds no list) has one; serving
/// stops at the first waiter that gets neither. Gives the list and waiters
/// left and the answers, in order, each with the number of its client.
pub open spec fn serve(list: Option<Seq<Seq<u8>>>, h: Seq<Waiter>, name: Seq<u8>, now: u64)
    -> (Option<Seq<Seq<u8>>>, Seq<Waiter>, Seq<(u64, Seq<u8>)>)
    decreases h.len(),
{
    if h.len() == 0 {
        (list, h, Seq::empty())
    } else {
        let t = top_index(h);
        if 0 <= t < h.len() {
            let w = h[t];
            if w.deadline is Some && w.deadline.unwrap() < now {
                let (l2, h2, out) = serve(list, h.remove(t), name, now);
                (l2, h2, seq![(w.id, null_array())] + out)
            } else if list is Some && list.unwrap().len() > 0 {
                let l = list.unwrap();
                let (l2, h2, out) = serve(Some(l.drop_first()), h.remove(t), name, now);
                (l2, h2, seq![(w.id, blpop_reply(name, l[0]))] + out)
            } else {
                (list, h, Seq::empty())
            }
        } else {
            (list, h, Seq::empty())
        }
    }
}

/// The list under `key`, if `key` holds one.
pub open spec fn list_at(d: Map<Seq<u8>, (StorageModel, Option<u64>)>, key: Seq<u8>) -> Option<Seq<Seq<u8>>> {
    if holds_list(d, key) {
        Some(d[key].0->List_0)
    } else {
        None
    }
}

/// What the periodic pass over blocked clients does, for the list names
/// `keys[i..]` in turn.
pub open spec fn tick_from(
    d: Map<Seq<u8>, (StorageModel, Option<u64>)>,
    w: Map<Seq<u8>, Seq<Waiter>>,
    keys: Seq<Seq<u8>>,
    i: int,
    now: u64,
) -> (Map<Seq<u8>, (StorageModel, Option<u64>)>, Map<Seq<u8>, Seq<Waiter>>, Seq<(u64, Seq<u8>)>)
    decreases keys.len() - i,
{
    if i < 0 || i >= keys.len() {
        (d, w, Seq::empty())
    } else {
        let k = keys[i];
        let (l2, h2, out1) = serve(list_at(d, k), w[k], k, now);
        let d2 = match l2 {
            Some(l) => if holds_list(d, k) {
                d.insert(k, (StorageModel::List(l), d[k].1))
            } else {
                d
            },
            None => d,
        };
        let (d3, w3, out2) = tick_from(d2, w.insert(k, h2), keys, i + 1, now);
        (d3, w3, out1 + out2)
    }
}

/// What `BLPOP` registers: the client waits on `name` until `timeout` after
/// `now`, or without end.
pub open spec fn blpop_spec(w: Map<Seq<u8>, Seq<Waiter>>, name: Seq<u8>, waiter: Waiter) -> Map<Seq<u8>, Seq<Waiter>> {
    w.insert(name, (if w.contains_key(name) { w[name] } else { Seq::empty() }).push(waiter))
}

/// The answers of a pass, by client number and bytes.
pub open spec fn answers_view(a: Seq<(u64, Vec<u8>)>) -> Seq<(u64, Seq<u8>)> {
    a.map_values(|e: (u64, Vec<u8>)| (e.0, e.1@))
}

/// The position of the waiter served next.
fn top_waiter(h: &Vec<Waiter>) -> (t: usize)
    requires
        h@.len() > 0,
    ensures
        t == top_index(h@),
        t < h@.len(),
{
    let mut best: usize = 0;
    let mut j: usize = 1;
    while j < h.len()
        invariant
            1 <= j <= h@.len(),
            best < j,
            top_from(h@, best as int, j as int) == top_index(h@),
        decreases h@.len() - j,
    {
        let gt = match (h[j].deadline, h[best].deadline) {
            (Some(_), None) => true,
            (Some(x), Some(y)) => x < y,
            _ => false,
        };
        if gt {
            best = j;
        }
        j += 1;
    }
    best
}

/// Serves the waiters `h` on the list `name` at `now`, as `serve` describes;
/// `has_list` tells whether `l` stands for a list.
fn serve_waiters(
    has_list: bool,
    l: &mut VecDeque<Vec<u8>>,
    h: &mut Vec<Waiter>,
    name: &[u8],
    now: u64,
    out: &mut Vec<(u64, Vec<u8>)>,
)
    requires
        has_list || old(l)@.len() == 0,
    ensures
        ({
            let (l2, h2, o) = serve(if has_list { Some(views(old(l)@)) } else { None }, old(h)@, name@, now);
            &&& (if has_list { Some(views(final(l)@)) } else { None }) == l2
            &&& final(h)@ == h2
            &&& answers_view(final(out)@) == answers_view(old(out)@) + o
        }),
        has_list || final(l)@.len() == 0,
    decreases old(h)@.len(),
{
    let ghost list0 = if has_list { Some(views(l@)) } else { None::<Seq<Seq<u8>>> };
    let ghost out0 = answers_view(out@);
    if h.len() == 0 {
        assert(answers_view(out@) =~= out0 + Seq::<(u64, Seq<u8>)>::empty());
        return;
    }
    let t = top_waiter(h);
    let w = h[t];
    let expired = match w.deadline {
        Some(d) => d < now,
        None => false,
    };
    if expired {
        h.remove(t);
        out.push((w.id, null_array_bytes()));
        assert(answers_view(out@) =~= out0 + seq![(w.id, null_array())]);
        let ghost mid = answers_view(out@);
        serve_waiters(has_list, l, h, name, now, out);
        assert(answers_view(out@) =~= out0 + (seq![(w.id, null_array())] + (answers_view(out@).subrange(mid.len() as int, answers_view(out@).len() as int))));
    } else if has_list && l.len() > 0 {
        let ghost lv = views(l@);
        match l.pop_front() {
            Some(front) => {
                assert(views(l@) =~= lv.drop_first());
                let mut reply: Vec<u8> = Vec::new();
                reply.push(42u8);
                push_signed(&mut reply, 2);
                push_crlf(&mut reply);
                push_bulk(&mut reply, name);
                push_bulk(&mut reply, front.as_slice());
                assert(reply@ =~= blpop_reply(name@, lv[0]));
                h.remove(t);
                out.push((w.id, reply));
                assert(answers_view(out@) =~= out0 + seq![(w.id, blpop_reply(name@, lv[0]))]);
                let ghost mid = answers_view(out@);
                serve_waiters(has_list, l, h, name, now, out);
                assert(answers_view(out@) =~= out0 + (seq![(w.id, blpop_reply(name@, lv[0]))] + (answers_view(out@).subrange(mid.len() as int, answers_view(out@).len() as int))));
            },
            None => {
                assert(false);
            },
        }
    } else {
        assert(answers_view(out@) =~= out0 + Seq::<(u64, Seq<u8>)>::empty());
    }
}

impl Store {
    /// `BLPOP`: the client `id` waits on the list `name`, until `timeout`
    /// after `now` when a timeout is given.
    pub fn blpop(&mut self, name: &[u8], timeout: Option<u64>, id: u64, now: u64)
        requires
            old(self).wf(),
        ensures
            final(self).wf(),
            final(self)@.dict == old(self)@.dict,
            final(self)@.waiters == blpop_spec(
                old(self)@.waiters,
                name@,
                Waiter { deadline: expiry_after(now, timeout), id },
            ),
            final(self)@.waiter_keys == (if old(self)@.waiters.contains_key(name@) {
                old(self)@.waiter_keys
            } else {
                old(self)@.waiter_keys.push(name@)
            }),
    {
        let deadline = match timeout {
            Some(t) => Some(now.saturating_add(t)),
            None => None,
        };
        let w = Waiter { deadline, id };
        let ghost w0 = self.waiters@;
        let prev = self.waiters.insert(vstd::slice::slice_to_vec(name), Vec::new());
        let mut h = match prev {
            Some(h) => h,
            None => Vec::new(),
        };
        h.push(w);
        self.waiters.insert(vstd::slice::slice_to_vec(name), h);
        assert(self.waiters@ =~= blpop_spec(w0, name@, w));
    }

    /// The periodic pass over blocked clients at `now`, as `tick_from`
    /// describes for all list names in the order they were first waited on;
    /// gives the answers, each with the number of its client.
    pub fn tick(&mut self, now: u64) -> (r: Vec<(u64, Vec<u8>)>)
        requires
            old(self).wf(),
        ensures
            final(self).wf(),
            (final(self)@.dict, final(self)@.waiters, answers_view(r@)) == tick_from(
                old(self)@.dict,
                old(self)@.waiters,
                old(self)@.waiter_keys,
                0,
                now,
            ),
            final(self)@.waiter_keys == old(self)@.waiter_keys,
    {
        let ghost keys = self.waiters.key_seq();
        let ghost goal = tick_from(self.dict@, self.waiters@, keys, 0, now);
        let mut out: Vec<(u64, Vec<u8>)> = Vec::new();
        let n = self.waiters.len();
        let mut i: usize = 0;
        assert(answers_view(out@) =~= Seq::<(u64, Seq<u8>)>::empty());
        assert(answers_view(out@) + goal.2 =~= goal.2);
        while i < n
            invariant
                n == keys.len(),
                i <= n,
                self.wf(),
                self.waiters.key_seq() == keys,
                ({
                    let (d3, w3, o) = tick_from(self.dict@, self.waiters@, keys, i as int, now);
                    &&& d3 == goal.0
                    &&& w3 == goal.1
                    &&& answers_view(out@) + o == goal.2
                }),
            decreases n - i,
        {
            let key = vstd::slice::slice_to_vec(self.waiters.key_at(i).as_slice());
            proof {
                self.waiters.lemma_key_seq();
                assert(self.waiters.key_seq()[i as int] == key@);
            }
            let ghost d = self.dict@;
            let ghost wm = self.waiters@;
            let ghost out_before = answers_view(out@);
            let prev = self.waiters.insert(vstd::slice::slice_to_vec(key.as_slice()), Vec::new());
            let mut h = match prev {
                Some(h) => h,
                None => {
                    assert(false);
                    Vec::new()
                },
            };
            let is_list = match self.dict.get(key.as_slice()) {
                Some(e) => match &e.data {
                    Data_Storage::RedisList(_) => true,
                    _ => false,
                },
                None => false,
            };
            if is_list {
                let e = self.take_entry(key.as_slice());
                let expires = e.expires;
                match e.data {
                    Data_Storage::RedisList(mut l) => {
                        serve_waiters(true, &mut l, &mut h, key.as_slice(), now, &mut out);
                        self.dict.insert(vstd::slice::slice_to_vec(key.as_slice()), Entry { data: Data_Storage::RedisList(l), expires });
                    },
                    _ => {
                        assert(false);
                    },
                }
            } else {
                let mut dummy: VecDeque<Vec<u8>> = VecDeque::new();
                serve_waiters(false, &mut dummy, &mut h, key.as_slice(), now, &mut out);
            }
            self.waiters.insert(key, h);
            proof {
                let (l2, h2, o1) = serve(list_at(d, key@), wm[key@], key@, now);
                let d2 = match l2 {
                    Some(l) => if holds_list(d, key@) {
                        d.insert(key@, (StorageModel::List(l), d[key@].1))
                    } else {
                        d
                    },
                    None => d,
                };
                assert(self.dict@ =~= d2);
                assert(self.waiters@ =~= wm.insert(key@, h2));
                let (d3, w3, o2) = tick_from(d2, wm.insert(key@, h2), keys, i + 1, now);
                assert(answers_view(out@) == out_before + o1);
                assert(out_before + (o1 + o2) =~= (out_before + o1) + o2);
            }
            i += 1;
        }
        assert(answers_view(out@) + Seq::<(u64, Seq<u8>)>::empty() =~= answers_view(out@));
        out
    }
}

/// Scanning on from `j` keeps the best so far one that no waiter seen
/// comes before.
proof fn lemma_top_from(h: Seq<Waiter>, best: int, j: int)
    requires
        0 <= best < j,
        best < h.len(),
        forall|i: int| 0 <= i < j && i < h.len() ==> !waiter_gt(#[trigger] h[i], h[best]),
    ensures
        0 <= top_from(h, best, j) < h.len(),
        forall|i: int| 0 <= i < h.len() ==> !waiter_gt(#[trigger] h[i], h[top_from(h, best, j)]),
    decreases h.len() - j,
{
    if j < h.len() {
        if waiter_gt(h[j], h[best]) {
            lemma_top_from(h, j, j + 1);
        } else {
            lemma_top_from(h, best, j + 1);
        }
    }
}

/// Scanning on from `j`, with every waiter before the best so far served
/// after it and none from it to `j` served before it, ends at the first of
/// the greatest.
proof fn lemma_top_from_first(h: Seq<Waiter>, best: int, j: int)
    requires
        0 <= best < j,
        best < h.len(),
        forall|i: int| 0 <= i < best ==> waiter_gt(h[best], #[trigger] h[i]),
        forall|i: int| best <= i < j && i < h.len() ==> !waiter_gt(#[trigger] h[i], h[best]),
    ensures
        0 <= top_from(h, best, j) < h.len(),
        forall|i: int| 0 <= i < top_from(h, best, j) ==> waiter_gt(h[top_from(h, best, j)], #[trigger] h[i]),
        forall|i: int| 0 <= i < h.len() ==> !waiter_gt(#[trigger] h[i], h[top_from(h, best, j)]),
    decreases h.len() - j,
{
    if j < h.len() {
        if waiter_gt(h[j], h[best]) {
            assert forall|i: int| 0 <= i < j implies waiter_gt(h[j], #[trigger] h[i]) by {
                law_waiter_order(h[j], h[best], h[i]);
                law_waiter_order(h[i], h[best], h[j]);
                law_waiter_order(h[j], h[i], h[best]);
            }
            lemma_top_from_first(h, j, j + 1);
        } else {
            lemma_top_from_first(h, best, j + 1);
        }
    }
}

/// The blocked client served next has the earliest deadline, a client with
/// a deadline coming before one without; among clients with that same
/// deadline, or all without one, it is the one that blocked first.
pub proof fn law_served_client_blocked_first(h: Seq<Waiter>)
    requires
        h.len() > 0,
    ensures
        0 <= top_index(h) < h.len(),
        forall|i: int| 0 <= i < h.len() && (#[trigger] h[i]).deadline is Some ==> {
            &&& h[top_index(h)].deadline is Some
            &&& h[top_index(h)].deadline.unwrap() <= h[i].deadline.unwrap()
        },
        forall|i: int| 0 <= i < top_index(h) ==> (#[trigger] h[i]).deadline != h[top_index(h)].deadline,
{
    lemma_top_from_first(h, 0, 1);
    let t = top_index(h);
    assert forall|i: int| 0 <= i < h.len() && (#[trigger] h[i]).deadline is Some implies {
        &&& h[t].deadline is Some
        &&& h[t].deadline.unwrap() <= h[i].deadline.unwrap()
    } by {
        assert(!waiter_gt(h[i], h[t]));
    }
    assert forall|i: int| 0 <= i < t implies (#[trigger] h[i]).deadline != h[t].deadline by {
        assert(waiter_gt(h[t], h[i]));
    }
}

/// `LPUSH` onto a key that holds nothing leaves there the values reversed,
/// the last one first, and `RPUSH` the values in order; both answer their
/// number.
pub proof fn law_push_onto_missing_key(
    d: Map<Seq<u8>, (StorageModel, Option<u64>)>,
    key: Seq<u8>,
    values: Seq<Seq<u8>>,
)
    requires
        !d.contains_key(key),
    ensures
        list_at(push_spec(d, key, values, true).0, key) == Some(values.reverse()),
        list_at(push_spec(d, key, values, false).0, key) == Some(values),
        forall|i: int| 0 <= i < values.len() ==> #[trigger] push_spec(d, key, values, true).0[key].0->List_0[i]
            == values[values.len() - 1 - i],
        push_spec(d, key, values, true).1 == values.len(),
        push_spec(d, key, values, false).1 == values.len(),
{
    assert(values.reverse() + Seq::<Seq<u8>>::empty() =~= values.reverse());
    assert(Seq::<Seq<u8>>::empty() + values =~= values);
}

/// `LPOP` with a count `c > 0` on a list of `n > 0` values answers an array
/// of the first `min(c, n)` values, in order, and leaves the list without
/// them; a count of `n` or more empties the list.
pub proof fn law_lpop_count(d: Map<Seq<u8>, (StorageModel, Option<u64>)>, key: Seq<u8>, c: i32)
    requires
        holds_list(d, key),
        d[key].0->List_0.len() > 0,
        c > 0,
    ensures
        ({
            let l = d[key].0->List_0;
            let m: int = if c < l.len() { c as int } else { l.len() as int };
            let (d2, r) = lpop_spec(d, key, Some(c));
            &&& r == array_header(m) + bulks(l.subrange(0, m))
            &&& list_at(d2, key) == Some(l.subrange(m, l.len() as int))
            &&& llen_spec(d2, key) == l.len() - m
            &&& c >= l.len() ==> list_at(d2, key) == Some(Seq::<Seq<u8>>::empty())
        }),
{
    let l = d[key].0->List_0;
    let m: int = if c < l.len() { c as int } else { l.len() as int };
    assert(l.take(m) =~= l.subrange(0, m));
    assert(l.skip(m) =~= l.subrange(m, l.len() as int));
}

/// `LRANGE` is defined for every start and end on a key that holds nothing
/// or a list of at most 2^30 values: wrapping an index then stays within
/// `i32`.
pub proof fn law_lrange_defined(d: Map<Seq<u8>, (StorageModel, Option<u64>)>, key: Seq<u8>, start: i32, end: i32)
    requires
        d.contains_key(key) && d[key].0 is List ==> d[key].0->List_0.len() <= 1073741824,
    ensures
        lrange_defined(d, key, start as int, end as int),
{
    if d.contains_key(key) && d[key].0 is List {
        let n = d[key].0->List_0.len() as int;
        let s1 = clamp_start(n, start as int);
        let e2 = clamp_end(n, end as int);
        if s1 < n {
            lemma_trunc_rem_below(n, s1);
            lemma_trunc_rem_below(n, e2);
        }
    }
}

/// Rust's `%` by a positive `n` gives less than `n`.
proof fn lemma_trunc_rem_below(n: int, a: int)
    requires
        n > 0,
    ensures
        trunc_rem(a, n) < n,
{
    if a < 0 {
        assert((-a) % n >= 0) by (nonlinear_arith)
            requires n > 0, -a > 0;
    } else {
        assert(a % n < n) by (nonlinear_arith)
            requires n > 0, a >= 0;
    }
}

/// `waiter_gt` is a strict order among waiters whose ties are exactly equal
/// deadlines: never both ways, never of a waiter and itself, transitive,
/// with "not after" transitive too, and neither way exactly when the
/// deadlines are equal.
pub proof fn law_waiter_order(a: Waiter, b: Waiter, c: Waiter)
    ensures
        !(waiter_gt(a, b) && waiter_gt(b, a)),
        !waiter_gt(a, a),
        waiter_gt(a, b) && waiter_gt(b, c) ==> waiter_gt(a, c),
        !waiter_gt(a, b) && !waiter_gt(b, c) ==> !waiter_gt(a, c),
        (!waiter_gt(a, b) && !waiter_gt(b, a)) <==> a.deadline == b.deadline,
{
}

/// The blocked client served next is one that no other client on the same
/// list comes before: none without a deadline while one has a deadline, and
/// none with a later deadline while one has an earlier one.
pub proof fn law_served_client_comes_first(h: Seq<Waiter>)
    requires
        h.len() > 0,
    ensures
        0 <= top_index(h) < h.len(),
        forall|i: int| 0 <= i < h.len() ==> !waiter_gt(#[trigger] h[i], h[top_index(h)]),
{
    lemma_top_from(h, 0, 1);
}

/// A pass over names that do not include `name` leaves the value and the
/// waiters under `name` as they were.
pub proof fn lemma_tick_keeps(
    d: Map<Seq<u8>, (StorageModel, Option<u64>)>,
    w: Map<Seq<u8>, Seq<Waiter>>,
    keys: Seq<Seq<u8>>,
    i: int,
    now: u64,
    name: Seq<u8>,
)
    requires
        forall|m: int| i <= m < keys.len() ==> keys[m] != name,
    ensures
        ({
            let (d3, w3, _) = tick_from(d, w, keys, i, now);
            &&& d3.contains_key(name) == d.contains_key(name)
            &&& d.contains_key(name) ==> d3[name] == d[name]
            &&& w3.contains_key(name) == w.contains_key(name)
            &&& w.contains_key(name) ==> w3[name] == w[name]
        }),
    decreases keys.len() - i,
{
    if 0 <= i < keys.len() {
        let k = keys[i];
        let (l2, h2, out1) = serve(list_at(d, k), w[k], k, now);
        let d2 = match l2 {
            Some(l) => if holds_list(d, k) {
                d.insert(k, (StorageModel::List(l), d[k].1))
            } else {
                d
            },
            None => d,
        };
        lemma_tick_keeps(d2, w.insert(k, h2), keys, i + 1, now, name);
    }
}

/// In a pass over names that lists `name` once, at `j` or later, what
/// serving `name` gives lands in the store and among the answers.
pub proof fn lemma_tick_serves(
    d: Map<Seq<u8>, (StorageModel, Option<u64>)>,
    w: Map<Seq<u8>, Seq<Waiter>>,
    keys: Seq<Seq<u8>>,
    i: int,
    j: int,
    now: u64,
    name: Seq<u8>,
)
    requires
        keys.no_duplicates(),
        0 <= i <= j < keys.len(),
        keys[j] == name,
    ensures
        ({
            let (d3, w3, out) = tick_from(d, w, keys, i, now);
            let (l2, h2, o1) = serve(list_at(d, name), w[name], name, now);
            &&& forall|x: (u64, Seq<u8>)| #[trigger] o1.contains(x) ==> out.contains(x)
            &&& w3.contains_key(name)
            &&& w3[name] == h2
            &&& holds_list(d, name) ==> l2 is Some && list_at(d3, name) == l2
        }),
    decreases keys.len() - i,
{
    let k = keys[i];
    let (l2, h2, out1) = serve(list_at(d, k), w[k], k, now);
    let d2 = match l2 {
        Some(l) => if holds_list(d, k) {
            d.insert(k, (StorageModel::List(l), d[k].1))
        } else {
            d
        },
        None => d,
    };
    let w2 = w.insert(k, h2);
    let (d3, w3, out2) = tick_from(d2, w2, keys, i + 1, now);
    assert(tick_from(d, w, keys, i, now) == (d3, w3, out1 + out2));
    if i < j {
        assert(k != name);
        assert(list_at(d2, name) == list_at(d, name));
        assert(w2[name] == w[name]);
        lemma_tick_serves(d2, w2, keys, i + 1, j, now, name);
        assert forall|x: (u64, Seq<u8>)| #[trigger] out2.contains(x) implies (out1 + out2).contains(x) by {
            let p = choose|p: int| 0 <= p < out2.len() && out2[p] == x;
            assert((out1 + out2)[out1.len() + p] == x);
        }
    } else {
        assert forall|m: int| i + 1 <= m < keys.len() implies keys[m] != name by {
            assert(keys[m] != keys[j]);
        }
        lemma_tick_keeps(d2, w2, keys, i + 1, now, name);
        lemma_serve_keeps_list(list_at(d, name), w[name], name, now);
        assert forall|x: (u64, Seq<u8>)| #[trigger] out1.contains(x) implies (out1 + out2).contains(x) by {
            let p = choose|p: int| 0 <= p < out1.len() && out1[p] == x;
            assert((out1 + out2)[p] == x);
        }
    }
}

/// Serving keeps a list a list.
pub proof fn lemma_serve_keeps_list(list: Option<Seq<Seq<u8>>>, h: Seq<Waiter>, name: Seq<u8>, now: u64)
    ensures
        (list is Some) == (serve(list, h, name, now).0 is Some),
    decreases h.len(),
{
    if h.len() > 0 {
        let t = top_index(h);
        if 0 <= t < h.len() {
            let w = h[t];
            if w.deadline is Some && w.deadline.unwrap() < now {
                lemma_serve_keeps_list(list, h.remove(t), name, now);
            } else if list is Some && list.unwrap().len() > 0 {
                lemma_serve_keeps_list(Some(list.unwrap().drop_first()), h.remove(t), name, now);
            }
        }
    }
}

/// A `GET` after a `SET` of `key` gives back the value set while it is
/// readable and nothing after it expires; other keys read as before.
pub proof fn law_get_after_set(
    d: Map<Seq<u8>, (StorageModel, Option<u64>)>,
    key: Seq<u8>,
    value: Seq<u8>,
    life: Option<u64>,
    now: u64,
    later: u64,
    other: Seq<u8>,
)
    requires
        other != key,
    ensures
        get_spec(d.insert(key, (StorageModel::Str(value), expiry_after(now, life))), key, later) == (if live(
            expiry_after(now, life),
            later,
        ) {
            Some(value)
        } else {
            None
        }),
        get_spec(d.insert(key, (StorageModel::Str(value), expiry_after(now, life))), other, later) == get_spec(
            d,
            other,
            later,
        ),
{
}

/// A value set without a lifetime never expires; one set with a lifetime
/// `l` at `now` is readable exactly up to `now + l`, at every reading of the
/// clock.
pub proof fn law_expiry(now: u64, l: u64, later: u64)
    ensures
        live(expiry_after(now, None), later),
        live(expiry_after(now, Some(l)), later) <==> later <= now + l,
{
}

/// `RPUSH` and `LPUSH` answer the new length: the old length plus the number
/// of values, where the key holds a list or nothing, and 0 otherwise.
pub proof fn law_push_length(
    d: Map<Seq<u8>, (StorageModel, Option<u64>)>,
    key: Seq<u8>,
    values: Seq<Seq<u8>>,
    front: bool,
)
    ensures
        push_spec(d, key, values, front).1 == (if !d.contains_key(key) || holds_list(d, key) {
            llen_spec(d, key) + values.len()
        } else {
            0
        }),
        llen_spec(push_spec(d, key, values, front).0, key) == push_spec(d, key, values, front).1
            || !(!d.contains_key(key) || holds_list(d, key)),
{
}

/// `RPUSH` appends to the back and `LPUSH` prepends, in reverse, to the front.
pub proof fn law_push_order(
    d: Map<Seq<u8>, (StorageModel, Option<u64>)>,
    key: Seq<u8>,
    values: Seq<Seq<u8>>,
)
    requires
        holds_list(d, key),
    ensures
        list_at(push_spec(d, key, values, false).0, key) == Some(d[key].0->List_0 + values),
        list_at(push_spec(d, key, values, true).0, key) == Some(values.reverse() + d[key].0->List_0),
{
}

/// `LRANGE 0 -1` answers the whole of a non-empty list.
pub proof fn law_lrange_whole_list(l: Seq<Seq<u8>>)
    requires
        0 < l.len() <= i32::MAX,
    ensures
        lrange_reply(l, 0, -1) == array_header(l.len() as int) + bulks(l),
{
    let n = l.len() as int;
    assert(trunc_rem(0, n) == 0);
    assert(trunc_rem(n, n) == 0);
    if n == 1 {
        assert(trunc_rem(-1, n) == 0);
        assert(trunc_rem(1, n) == 0);
    } else {
        vstd::arithmetic::div_mod::lemma_small_mod(1, n as nat);
        vstd::arithmetic::div_mod::lemma_small_mod((n - 1) as nat, n as nat);
        assert(trunc_rem(-1, n) == -1);
        assert(trunc_rem(n - 1, n) == n - 1);
    }
    assert(l.subrange(0, n) =~= l);
}

/// An index in `-n..n` of a list of length `n`: a negative one counts from
/// the end.
pub open spec fn from_end(n: int, x: int) -> int {
    if x < 0 {
        n + x
    } else {
        x
    }
}

/// The wrapping that `LRANGE` does reads an index in `-n..n` from the end
/// when it is negative.
proof fn lemma_wrap_index(n: int, x: int)
    requires
        0 < n,
        -n <= x < n,
    ensures
        trunc_rem(trunc_rem(x, n) + n, n) == from_end(n, x),
{
    if x >= 0 {
        vstd::arithmetic::div_mod::lemma_small_mod(x as nat, n as nat);
        vstd::arithmetic::div_mod::lemma_mod_add_multiples_vanish(x, n);
    } else if x > -n {
        vstd::arithmetic::div_mod::lemma_small_mod((-x) as nat, n as nat);
        vstd::arithmetic::div_mod::lemma_small_mod((n + x) as nat, n as nat);
    } else {
        vstd::arithmetic::div_mod::lemma_mod_add_multiples_vanish(0, n);
        assert(trunc_rem(x, n) == 0);
        assert(n % n == 0);
    }
}

/// `LRANGE start end` on a non-empty list of length `n`: a negative index
/// counts from the end, a start before the front reads as the front, an end
/// past the back as the back (and one before the front as the front); the
/// answer is the elements from start to end, both included, or an empty
/// array when the start lies past the back or after the end.
pub proof fn law_lrange_indices(l: Seq<Seq<u8>>, start: i32, end: i32)
    requires
        0 < l.len() <= i32::MAX,
    ensures
        ({
            let n = l.len() as int;
            let s = if start < -n { 0 } else { from_end(n, start as int) };
            let e = if end < -n { 0 } else if end >= n { n - 1 } else { from_end(n, end as int) };
            lrange_reply(l, start as int, end as int) == if start >= n || s > e {
                empty_array()
            } else {
                array_header(e - s + 1) + bulks(l.subrange(s, e + 1))
            }
        }),
{
    let n = l.len() as int;
    let s1 = clamp_start(n, start as int);
    let e2 = clamp_end(n, end as int);
    if s1 < n {
        lemma_wrap_index(n, s1);
        lemma_wrap_index(n, e2);
    }
}

/// `LPOP` without a count takes the front of a non-empty list and answers
/// it; a later `LLEN` sees one fewer.
pub proof fn law_lpop_front(d: Map<Seq<u8>, (StorageModel, Option<u64>)>, key: Seq<u8>)
    requires
        holds_list(d, key),
        d[key].0->List_0.len() > 0,
    ensures
        lpop_spec(d, key, None).1 == bulk(d[key].0->List_0[0]),
        llen_spec(lpop_spec(d, key, None).0, key) + 1 == llen_spec(d, key),
{
}

} // verus!
