use vstd::prelude::*;
use vstd::utf8::{decode_utf8, valid_utf8};
use crate::reply::{array_header, bulk, bulks, crlf, decimal};
use crate::resp::value::{lemma_array_view, DataObjects, RespValue, values_view};

verus! {

broadcast use vstd::std_specs::vec::group_vec_axioms;

/// Carriage return.
pub const CR: u8 = 13;

/// Line feed.
pub const LF: u8 = 10;

/// Whether a byte is an ASCII decimal digit.
pub open spec fn is_digit(c: u8) -> bool {
    48 <= c <= 57
}

/// The value of a string of decimal digits.
pub open spec fn digits_value(ds: Seq<u8>) -> int
    decreases ds.len(),
{
    if ds.len() == 0 {
        0
    } else {
        digits_value(ds.drop_last()) * 10 + (ds.last() - 48)
    }
}

/// Whether every byte is a decimal digit.
pub open spec fn all_digits(ds: Seq<u8>) -> bool {
    forall|i: int| 0 <= i < ds.len() ==> is_digit(#[trigger] ds[i])
}

/// The text after a leading `+` or `-`, if any.
pub open spec fn unsigned_part(s: Seq<u8>) -> Seq<u8> {
    if s.len() > 0 && (s[0] == 45u8 || s[0] == 43u8) {
        s.drop_first()
    } else {
        s
    }
}

/// What `str::parse::<i32>` gives for the text `s`: an optional `+` or `-`,
/// then at least one decimal digit and nothing else, and a value that fits.
pub open spec fn parse_i32(s: Seq<u8>) -> Option<i32> {
    let ds = unsigned_part(s);
    let v = if s.len() > 0 && s[0] == 45u8 { -digits_value(ds) } else { digits_value(ds) };
    if ds.len() == 0 || !all_digits(ds) {
        None
    } else if i32::MIN <= v <= i32::MAX {
        Some(v as i32)
    } else {
        None
    }
}

/// Where the scan for the end of a line that starts at `pos` stops: the first
/// `\r\n` at or after `pos`, or the last byte when there is none; `pos` itself
/// when it is at or past the last byte.
pub open spec fn line_end(b: Seq<u8>, pos: int) -> int
    decreases b.len() - pos,
{
    if pos >= b.len() - 1 {
        pos
    } else if b[pos] == CR && b[pos + 1] == LF {
        pos
    } else {
        line_end(b, pos + 1)
    }
}

/// The outcome of decoding.
pub enum Decoded {
    /// Decoding cannot get through the input: a header, length or slice is
    /// malformed or out of bounds, text is not UTF-8, or a byte starts no
    /// value (where the scan would never move on). The text of a number is
    /// kept as it is; whether it reads as a number is not decided here.
    Fault,
    /// The value decoded (none when the position is at or past the end) and the
    /// position after it.
    Done(Option<RespValue>, int),
}

/// How far `pos` is from the end of `b`, or 0 past it.
pub open spec fn room(b: Seq<u8>, pos: int) -> int {
    if pos < b.len() {
        b.len() - pos
    } else {
        0
    }
}

/// Decoding one value of `b` at `pos`.
pub open spec fn decode_value(b: Seq<u8>, pos: int) -> Decoded
    decreases room(b, pos), 2int, 0int,
{
    if pos < 0 || pos >= b.len() {
        Decoded::Done(None, pos)
    } else {
        let c = b[pos];
        if c == 43u8 || c == 45u8 || c == 58u8 {
            let e = line_end(b, pos);
            let text = b.subrange(pos + 1, e);
            if pos + 1 > e || !valid_utf8(text) || e + 2 > usize::MAX {
                Decoded::Fault
            } else {
                let s = decode_utf8(text);
                let v = if c == 43u8 {
                    RespValue::Simple(s)
                } else if c == 45u8 {
                    RespValue::Error(s)
                } else {
                    RespValue::Integer(s)
                };
                Decoded::Done(Some(v), e + 2)
            }
        } else if c == 36u8 {
            let e = line_end(b, pos);
            if pos + 1 > e {
                Decoded::Fault
            } else {
                match parse_i32(b.subrange(pos + 1, e)) {
                    None => Decoded::Fault,
                    Some(len) => {
                        if len < 0 || e + 2 + len > b.len() || e + 4 + len > usize::MAX {
                            Decoded::Fault
                        } else {
                            Decoded::Done(
                                Some(RespValue::Bulk(Some(b.subrange(e + 2, e + 2 + len)))),
                                e + 4 + len,
                            )
                        }
                    },
                }
            }
        } else if c == 42u8 {
            decode_array(b, pos)
        } else {
            Decoded::Fault
        }
    }
}

/// Decoding an array header at `pos`, then as many values as it announces.
pub open spec fn decode_array(b: Seq<u8>, pos: int) -> Decoded
    decreases room(b, pos), 1int, 0int,
{
    let e = line_end(b, pos);
    if b.len() == 0 || pos < 0 || pos + 1 > e {
        Decoded::Fault
    } else {
        match parse_i32(b.subrange(pos + 1, e)) {
            None => Decoded::Fault,
            Some(count) => {
                if e + 2 > usize::MAX {
                    Decoded::Fault
                } else if count == 0 {
                    Decoded::Done(Some(RespValue::Array(Some(Seq::empty()))), e + 2)
                } else if count < 0 {
                    Decoded::Done(Some(RespValue::Array(None)), e + 2)
                } else {
                    decode_elems(b, e + 2, count as int, Seq::empty())
                }
            },
        }
    }
}

/// Decoding `left` more values from `pos` on, after `acc`; a position at or
/// past the end yields no value and is skipped.
pub open spec fn decode_elems(b: Seq<u8>, pos: int, left: int, acc: Seq<RespValue>) -> Decoded
    decreases room(b, pos), 3int, left,
{
    if left <= 0 {
        Decoded::Done(Some(RespValue::Array(Some(acc))), pos)
    } else {
        match decode_value(b, pos) {
            Decoded::Fault => Decoded::Fault,
            Decoded::Done(v, p2) => {
                if p2 < pos {
                    Decoded::Fault
                } else {
                    let acc2 = match v {
                        Some(x) => acc.push(x),
                        None => acc,
                    };
                    decode_elems(b, p2, left - 1, acc2)
                }
            },
        }
    }
}

/// The value of an optional RESP value.
pub open spec fn opt_view(v: Option<DataObjects>) -> Option<RespValue> {
    match v {
        Some(x) => Some(x@),
        None => None,
    }
}

/// Input that decoding cannot get through: a malformed header or length, a
/// slice past the end, text that is not UTF-8, or a byte that starts no value
/// (on which the scan would never move on).
#[derive(Debug, PartialEq)]
pub struct DecodeFault;

/// `std::str::from_utf8`, its error dropped: claimed to give a `str`
/// exactly when the bytes are valid UTF-8, holding the characters they
/// encode, as its documentation says.
#[verifier::external_body]
pub(crate) fn utf8_str(bytes: &[u8]) -> (r: Option<&str>)
    ensures
        r is Some <==> valid_utf8(bytes@),
        r matches Some(s) ==> s@ == decode_utf8(bytes@),
{
    std::str::from_utf8(bytes).ok()
}

proof fn lemma_line_end(b: Seq<u8>, pos: int)
    requires
        b.len() >= 1,
    ensures
        pos <= line_end(b, pos),
        line_end(b, pos) <= pos || line_end(b, pos) <= b.len() - 1,
        line_end(b, pos) > pos ==> line_end(b, pos) <= b.len() - 1,
    decreases b.len() - pos,
{
    if pos < b.len() - 1 && !(b[pos] == CR && b[pos + 1] == LF) {
        lemma_line_end(b, pos + 1);
    }
}

fn line_end_at(b: &[u8], pos: usize) -> (e: usize)
    requires
        b@.len() >= 1,
    ensures
        e == line_end(b@, pos as int),
        pos <= e,
        e > pos ==> e <= b@.len() - 1,
{
    proof {
        lemma_line_end(b@, pos as int);
    }
    let n = b.len();
    let mut e = pos;
    while e < n - 1 && !(b[e] == CR && b[e + 1] == LF)
        invariant
            pos <= e,
            n == b@.len(),
            n >= 1,
            line_end(b@, pos as int) == line_end(b@, e as int),
        decreases n - e,
    {
        e += 1;
    }
    e
}

proof fn lemma_digits_grow(ds: Seq<u8>, i: int)
    requires
        0 <= i <= ds.len(),
        forall|j: int| 0 <= j < ds.len() ==> is_digit(#[trigger] ds[j]),
    ensures
        digits_value(ds.take(i)) <= digits_value(ds),
        0 <= digits_value(ds.take(i)),
    decreases ds.len() - i,
{
    if i < ds.len() {
        lemma_digits_grow(ds, i + 1);
        assert(ds.take(i + 1).drop_last() =~= ds.take(i));
    } else {
        assert(ds.take(i) =~= ds);
    }
    lemma_digits_nonneg(ds.take(i));
}

proof fn lemma_digits_nonneg(ds: Seq<u8>)
    requires
        forall|j: int| 0 <= j < ds.len() ==> is_digit(#[trigger] ds[j]),
    ensures
        0 <= digits_value(ds),
    decreases ds.len(),
{
    if ds.len() > 0 {
        lemma_digits_nonneg(ds.drop_last());
    }
}

/// `str::parse::<i32>` on the text of `s`, for text given as bytes.
pub(crate) fn parse_i32_bytes(s: &[u8]) -> (r: Option<i32>)
    ensures
        r == parse_i32(s@),
{
    let n = s.len();
    if n == 0 {
        return None;
    }
    let neg = s[0] == 45u8;
    let start: usize = if s[0] == 45u8 || s[0] == 43u8 { 1 } else { 0 };
    let ghost ds = if start == 1 { s@.drop_first() } else { s@ };
    assert(ds =~= s@.subrange(start as int, n as int));
    assert(ds == unsigned_part(s@));
    if start == n {
        return None;
    }
    let mut v: i64 = 0;
    let mut i: usize = start;
    while i < n
        invariant
            n == s@.len(),
            start <= i <= n,
            start <= 1,
            ds =~= s@.subrange(start as int, n as int),
            ds == unsigned_part(s@),
            neg == (s@[0] == 45u8),
            forall|j: int| start <= j < i ==> is_digit(#[trigger] s@[j]),
            v == digits_value(s@.subrange(start as int, i as int)),
            0 <= v <= 2147483648,
        decreases n - i,
    {
        if !(48u8 <= s[i] && s[i] <= 57u8) {
            proof {
                assert(ds[i - start] == s@[i as int]);
                assert(!is_digit(ds[i - start]));
            }
            return None;
        }
        let d = (s[i] - 48u8) as i64;
        proof {
            assert(s@.subrange(start as int, (i + 1) as int).drop_last() =~= s@.subrange(start as int, i as int));
        }
        v = v * 10 + d;
        i += 1;
        if v > 2147483648 {
            // Every further digit only makes the value larger.
            let mut k: usize = i;
            while k < n
                invariant
                    n == s@.len(),
                    start <= i <= k <= n,
                    ds =~= s@.subrange(start as int, n as int),
                    ds == unsigned_part(s@),
                    neg == (s@[0] == 45u8),
                    v > 2147483648,
                    v == digits_value(s@.subrange(start as int, i as int)),
                    forall|j: int| start <= j < k ==> is_digit(#[trigger] s@[j]),
                decreases n - k,
            {
                if !(48u8 <= s[k] && s[k] <= 57u8) {
                    proof {
                        assert(ds[k - start] == s@[k as int]);
                        assert(!is_digit(ds[k - start]));
                    }
                    return None;
                }
                k += 1;
            }
            proof {
                assert forall|j: int| 0 <= j < ds.len() implies is_digit(#[trigger] ds[j]) by {
                    assert(ds[j] == s@[j + start]);
                }
                lemma_digits_grow(ds, (i - start) as int);
                assert(ds.take((i - start) as int) =~= s@.subrange(start as int, i as int));
            }
            return None;
        }
    }
    proof {
        assert forall|j: int| 0 <= j < ds.len() implies is_digit(#[trigger] ds[j]) by {
            assert(ds[j] == s@[j + start]);
        }
    }
    let x: i64 = if neg { -v } else { v };
    if -2147483648 <= x && x <= 2147483647 {
        Some(x as i32)
    } else {
        None
    }
}

fn decode_value_at(b: &[u8], pos: usize) -> (r: Result<(Option<DataObjects>, usize), DecodeFault>)
    requires
        b@.len() <= isize::MAX,
    ensures
        match r {
            Err(_) => decode_value(b@, pos as int) is Fault,
            Ok((v, p)) => decode_value(b@, pos as int) == Decoded::Done(opt_view(v), p as int) && p >= pos,
        },
    decreases room(b@, pos as int), 2int, 0int,
{
    let n = b.len();
    if pos >= n {
        return Ok((None, pos));
    }
    let c = b[pos];
    if c == 43u8 || c == 45u8 || c == 58u8 {
        let e = line_end_at(b, pos);
        if pos >= e {
            return Err(DecodeFault);
        }
        let text = &b[pos + 1..e];
        match utf8_str(text) {
            None => Err(DecodeFault),
            Some(t) => {
                let s = t.to_owned();
                let v = if c == 43u8 {
                    DataObjects::BasicString(s)
                } else if c == 45u8 {
                    DataObjects::Error(s)
                } else {
                    DataObjects::Integer(s)
                };
                Ok((Some(v), e + 2))
            },
        }
    } else if c == 36u8 {
        let e = line_end_at(b, pos);
        if pos >= e {
            return Err(DecodeFault);
        }
        match parse_i32_bytes(&b[pos + 1..e]) {
            None => Err(DecodeFault),
            Some(len) => {
                if len < 0 {
                    return Err(DecodeFault);
                }
                let l = len as usize;
                if e + 2 > n || l > n - (e + 2) {
                    return Err(DecodeFault);
                }
                let data = vstd::slice::slice_to_vec(&b[e + 2..e + 2 + l]);
                Ok((Some(DataObjects::BulkString(Some(data))), e + 4 + l))
            },
        }
    } else if c == 42u8 {
        assert(decode_value(b@, pos as int) == decode_array(b@, pos as int));
        decode_array_at(b, pos)
    } else {
        assert(decode_value(b@, pos as int) is Fault);
        Err(DecodeFault)
    }
}

fn decode_array_at(b: &[u8], pos: usize) -> (r: Result<(Option<DataObjects>, usize), DecodeFault>)
    requires
        b@.len() <= isize::MAX,
    ensures
        match r {
            Err(_) => decode_array(b@, pos as int) is Fault,
            Ok((v, p)) => decode_array(b@, pos as int) == Decoded::Done(opt_view(v), p as int) && p >= pos,
        },
    decreases room(b@, pos as int), 1int, 0int,
{
    let n = b.len();
    if n == 0 {
        return Err(DecodeFault);
    }
    let e = line_end_at(b, pos);
    if pos >= e {
        return Err(DecodeFault);
    }
    match parse_i32_bytes(&b[pos + 1..e]) {
        None => Err(DecodeFault),
        Some(count) => {
            let p0 = e + 2;
            if count == 0 {
                let v: Vec<DataObjects> = Vec::new();
                proof {
                    lemma_array_view(v);
                    assert(values_view(v@) =~= Seq::<RespValue>::empty());
                }
                return Ok((Some(DataObjects::Array(Some(v))), p0));
            } else if count < 0 {
                return Ok((Some(DataObjects::Array(None)), p0));
            }
            let mut vc: Vec<DataObjects> = Vec::new();
            let mut cur = p0;
            let mut i: i32 = 0;
            assert(values_view(vc@) =~= Seq::<RespValue>::empty());
            while i < count
                invariant
                    n == b@.len(),
                    b@.len() <= isize::MAX,
                    pos < e <= n - 1,
                    p0 == e + 2,
                    0 <= i <= count,
                    cur >= p0,
                    decode_elems(b@, cur as int, (count - i) as int, values_view(vc@))
                        == decode_elems(b@, p0 as int, count as int, Seq::empty()),
                    decode_array(b@, pos as int) == decode_elems(b@, p0 as int, count as int, Seq::empty()),
                decreases count - i,
            {
                match decode_value_at(b, cur) {
                    Err(f) => {
                        assert(decode_elems(b@, cur as int, (count - i) as int, values_view(vc@)) is Fault);
                        return Err(f);
                    },
                    Ok((v, p2)) => {
                        let ghost before = values_view(vc@);
                        match v {
                            Some(x) => {
                                vc.push(x);
                                assert(values_view(vc@) =~= before.push(x@));
                            },
                            None => {},
                        }
                        cur = p2;
                    },
                }
                i += 1;
            }
            proof {
                lemma_array_view(vc);
            }
            Ok((Some(DataObjects::Array(Some(vc))), cur))
        },
    }
}

/// Decodes the value of `byte_array` at `*iterator_var` and moves
/// `*iterator_var` past it; `None` at or past the end of the input.
pub fn resp_decode_value(byte_array: &[u8], iterator_var: &mut usize) -> (r: Option<DataObjects>)
    requires
        byte_array@.len() <= isize::MAX,
        !(decode_value(byte_array@, *old(iterator_var) as int) is Fault),
    ensures
        decode_value(byte_array@, *old(iterator_var) as int) == Decoded::Done(opt_view(r), *final(iterator_var) as int),
{
    match decode_value_at(byte_array, *iterator_var) {
        Ok((v, p)) => {
            *iterator_var = p;
            v
        },
        Err(_) => None,
    }
}

/// Decodes the array whose header starts at `*iterator_var`, and moves
/// `*iterator_var` past it.
pub fn resp_decode_array(byte_array: &[u8], iterator_var: &mut usize) -> (r: Option<DataObjects>)
    requires
        byte_array@.len() <= isize::MAX,
        !(decode_array(byte_array@, *old(iterator_var) as int) is Fault),
    ensures
        decode_array(byte_array@, *old(iterator_var) as int) == Decoded::Done(opt_view(r), *final(iterator_var) as int),
{
    match decode_array_at(byte_array, *iterator_var) {
        Ok((v, p)) => {
            *iterator_var = p;
            v
        },
        Err(_) => None,
    }
}

/// `resp_decode_value` for any input: `Err` exactly where that would panic or
/// never return, and then `*iterator_var` is left as it was.
pub fn resp_decode_value_checked(byte_array: &[u8], iterator_var: &mut usize) -> (r: Result<Option<DataObjects>, DecodeFault>)
    requires
        byte_array@.len() <= isize::MAX,
    ensures
        r is Err <==> decode_value(byte_array@, *old(iterator_var) as int) is Fault,
        r matches Ok(v) ==> decode_value(byte_array@, *old(iterator_var) as int) == Decoded::Done(
            opt_view(v),
            *final(iterator_var) as int,
        ),
        r is Err ==> *final(iterator_var) == *old(iterator_var),
{
    match decode_value_at(byte_array, *iterator_var) {
        Ok((v, p)) => {
            *iterator_var = p;
            Ok(v)
        },
        Err(f) => Err(f),
    }
}


/// The decimal form of `n` is a non-empty string of digits worth `n`, and
/// no longer than `1 + n / 10`.
pub proof fn lemma_decimal_digits(n: nat)
    ensures
        0 < decimal(n).len() <= 1 + n / 10,
        all_digits(decimal(n)),
        digits_value(decimal(n)) == n,
    decreases n,
{
    let c = decimal(n).last();
    if n < 10 {
        assert(c == (48 + n) as u8);
        assert(decimal(n).drop_last() =~= Seq::<u8>::empty());
        assert(digits_value(decimal(n)) == digits_value(Seq::<u8>::empty()) * 10 + (c - 48));
    } else {
        let q = n / 10;
        lemma_decimal_digits(q);
        let d = decimal(q);
        assert(decimal(n) == d.push((48 + n % 10) as u8));
        assert(decimal(n).drop_last() =~= d);
        assert(c == (48 + n % 10) as u8);
        assert(c - 48 == n % 10);
        assert(digits_value(decimal(n)) == digits_value(d) * 10 + (c - 48));
        assert(q * 10 + n % 10 == n) by (nonlinear_arith)
            requires q == n / 10;
        assert(1 + q / 10 <= q) by (nonlinear_arith)
            requires q >= 1;
        assert forall|i: int| 0 <= i < decimal(n).len() implies is_digit(#[trigger] decimal(n)[i]) by {
            if i < d.len() {
                assert(decimal(n)[i] == d[i]);
            }
        }
    }
}

/// The scan for the end of a line stops at the first `\r\n`.
pub proof fn lemma_line_end_at(b: Seq<u8>, pos: int, e: int)
    requires
        0 <= pos <= e,
        e + 1 < b.len(),
        b[e] == CR,
        b[e + 1] == LF,
        forall|m: int| pos <= m < e ==> b[m] != CR,
    ensures
        line_end(b, pos) == e,
    decreases e - pos,
{
    if pos < e {
        lemma_line_end_at(b, pos + 1, e);
    }
}

/// A bulk string written at `p` of `w` decodes there to its bytes, the
/// position then just past it.
pub proof fn lemma_bulk_at(w: Seq<u8>, p: int, b: Seq<u8>)
    requires
        0 <= p,
        p + bulk(b).len() <= w.len() <= usize::MAX,
        w.subrange(p, p + bulk(b).len()) == bulk(b),
        b.len() <= i32::MAX,
    ensures
        decode_value(w, p) == Decoded::Done(Some(RespValue::Bulk(Some(b))), p + bulk(b).len()),
{
    let n: nat = b.len();
    let d = decimal(n);
    lemma_decimal_digits(n);
    let x = bulk(b);
    assert(x =~= seq![36u8] + d + crlf() + b + crlf());
    let e: int = p + d.len() + 1;
    assert(w[p] == x[0]);
    assert(w[p] == 36u8);
    assert forall|m: int| p <= m < e implies w[m] != CR by {
        assert(w[m] == x[m - p]);
        if m > p {
            assert(x[m - p] == d[m - p - 1]);
            assert(is_digit(d[m - p - 1]));
        }
    }
    assert(w[e] == x[e - p] && w[e + 1] == x[e + 1 - p]);
    lemma_line_end_at(w, p, e);
    assert(w.subrange(p + 1, e) =~= d) by {
        assert forall|i: int| 0 <= i < d.len() implies w.subrange(p + 1, e)[i] == d[i] by {
            assert(w[p + 1 + i] == x[1 + i]);
        }
    }
    assert(is_digit(d[0]));
    assert(unsigned_part(d) == d);
    assert(parse_i32(d) == Some(n as i32));
    assert(w.subrange(e + 2, e + 2 + n as int) =~= b) by {
        assert forall|i: int| 0 <= i < n implies w.subrange(e + 2, e + 2 + n as int)[i] == b[i] by {
            assert(w[e + 2 + i] == x[e + 2 + i - p]);
        }
    }
    assert(x.len() == d.len() + n + 5);
    assert(e + 4 + n == p + x.len());
    assert(line_end(w, p) == e);
    assert(parse_i32(w.subrange(p + 1, e)) == Some(n as i32));
}

/// A bulk string that the server writes decodes back to the same bytes,
/// the position then just past it.
pub proof fn law_bulk_decodes_back(b: Seq<u8>)
    requires
        b.len() <= i32::MAX,
    ensures
        decode_value(bulk(b), 0) == Decoded::Done(Some(RespValue::Bulk(Some(b))), bulk(b).len() as int),
{
    let n: nat = b.len();
    lemma_decimal_digits(n);
    assert(bulk(b).len() == decimal(n).len() + n + 5);
    assert(n + n / 10 + 6 <= u32::MAX) by (nonlinear_arith)
        requires n <= i32::MAX;
    assert(bulk(b).subrange(0, bulk(b).len() as int) =~= bulk(b));
    lemma_bulk_at(bulk(b), 0, b);
}

/// The bulk strings of a non-empty list are that of its first element, then
/// those of the rest.
pub proof fn lemma_bulks_first(l: Seq<Seq<u8>>)
    requires
        l.len() > 0,
    ensures
        bulks(l) == bulk(l[0]) + bulks(l.drop_first()),
    decreases l.len(),
{
    if l.len() == 1 {
        assert(l.drop_last() =~= Seq::<Seq<u8>>::empty());
        assert(l.drop_first() =~= Seq::<Seq<u8>>::empty());
        assert(bulks(l) =~= bulk(l[0]) + bulks(l.drop_first()));
    } else {
        lemma_bulks_first(l.drop_last());
        assert(l.drop_last().drop_first() =~= l.drop_first().drop_last());
        assert(l.drop_first().last() == l.last());
        assert(l.drop_last()[0] == l[0]);
        assert(bulks(l) =~= bulk(l[0]) + bulks(l.drop_first()));
    }
}

/// The values that a list of byte strings makes as bulk strings.
pub open spec fn bulk_values(l: Seq<Seq<u8>>) -> Seq<RespValue> {
    l.map_values(|b: Seq<u8>| RespValue::Bulk(Some(b)))
}

/// Bulk strings written one after another from `p` decode, after `acc`, to
/// their bytes.
pub proof fn lemma_elems_at(w: Seq<u8>, p: int, l: Seq<Seq<u8>>, acc: Seq<RespValue>)
    requires
        0 <= p,
        p + bulks(l).len() <= w.len() <= usize::MAX,
        w.subrange(p, p + bulks(l).len()) == bulks(l),
        forall|i: int| 0 <= i < l.len() ==> (#[trigger] l[i]).len() <= i32::MAX,
    ensures
        decode_elems(w, p, l.len() as int, acc) == Decoded::Done(
            Some(RespValue::Array(Some(acc + bulk_values(l)))),
            p + bulks(l).len(),
        ),
    decreases l.len(),
{
    if l.len() == 0 {
        assert(acc + bulk_values(l) =~= acc);
        assert(bulks(l).len() == 0);
    } else {
        lemma_bulks_first(l);
        let b0 = bulk(l[0]);
        let rest = l.drop_first();
        let q = p + b0.len();
        assert(w.subrange(p, q) =~= b0) by {
            assert forall|i: int| 0 <= i < b0.len() implies w.subrange(p, q)[i] == b0[i] by {
                assert(w.subrange(p, p + bulks(l).len())[i] == bulks(l)[i]);
            }
        }
        assert(l[0].len() <= i32::MAX);
        lemma_bulk_at(w, p, l[0]);
        assert(w.subrange(q, q + bulks(rest).len()) =~= bulks(rest)) by {
            assert forall|i: int| 0 <= i < bulks(rest).len() implies w.subrange(q, q + bulks(rest).len())[i] == bulks(rest)[i] by {
                assert(w.subrange(p, p + bulks(l).len())[b0.len() + i] == bulks(l)[b0.len() + i]);
            }
        }
        assert forall|i: int| 0 <= i < rest.len() implies (#[trigger] rest[i]).len() <= i32::MAX by {
            assert(rest[i] == l[i + 1]);
        }
        lemma_elems_at(w, q, rest, acc.push(RespValue::Bulk(Some(l[0]))));
        assert(acc.push(RespValue::Bulk(Some(l[0]))) + bulk_values(rest) =~= acc + bulk_values(l));
    }
}

/// A request that a client writes, an array of bulk strings, decodes back
/// to the same list of byte strings, the position then just past it.
pub proof fn law_request_decodes_back(l: Seq<Seq<u8>>)
    requires
        0 < l.len() <= i32::MAX,
        forall|i: int| 0 <= i < l.len() ==> (#[trigger] l[i]).len() <= i32::MAX,
        array_header(l.len() as int).len() + bulks(l).len() <= usize::MAX,
    ensures
        decode_value(array_header(l.len() as int) + bulks(l), 0) == Decoded::Done(
            Some(RespValue::Array(Some(bulk_values(l)))),
            (array_header(l.len() as int).len() + bulks(l).len()) as int,
        ),
{
    let n: nat = l.len();
    let d = decimal(n);
    lemma_decimal_digits(n);
    let h = array_header(n as int);
    let w = h + bulks(l);
    assert(h =~= seq![42u8] + d + crlf());
    let e: int = d.len() as int + 1;
    assert forall|m: int| 0 <= m < e implies w[m] != CR by {
        if m > 0 {
            assert(w[m] == d[m - 1]);
            assert(is_digit(d[m - 1]));
        }
    }
    assert(w[e] == CR && w[e + 1] == LF);
    lemma_line_end_at(w, 0, e);
    assert(w.subrange(1, e) =~= d);
    assert(is_digit(d[0]));
    assert(unsigned_part(d) == d);
    assert(parse_i32(d) == Some(n as i32));
    assert(w.subrange(e + 2, e + 2 + bulks(l).len()) =~= bulks(l));
    lemma_elems_at(w, e + 2, l, Seq::empty());
    assert(Seq::<RespValue>::empty() + bulk_values(l) =~= bulk_values(l));
}

/// A number written in decimal reads back as that number, with a leading
/// `-` as its negation and a leading `+` as itself, while it fits in `i32`.
pub proof fn law_parse_i32_decimal(n: nat)
    ensures
        n <= i32::MAX ==> parse_i32(decimal(n)) == Some(n as i32),
        n <= i32::MAX ==> parse_i32(seq![43u8] + decimal(n)) == Some(n as i32),
        n <= 2147483648 ==> parse_i32(seq![45u8] + decimal(n)) == Some((-n) as i32),
        n > 2147483648 ==> parse_i32(seq![45u8] + decimal(n)) is None,
        n > i32::MAX ==> parse_i32(decimal(n)) is None,
{
    lemma_decimal_digits(n);
    let d = decimal(n);
    assert(is_digit(d[0]));
    assert(unsigned_part(d) == d);
    assert((seq![43u8] + d).drop_first() =~= d);
    assert((seq![45u8] + d).drop_first() =~= d);
    assert(unsigned_part(seq![43u8] + d) == d);
    assert(unsigned_part(seq![45u8] + d) == d);
}

/// The line of a one-line value ends just after its text.
proof fn lemma_line_at(c: u8, t: Seq<u8>)
    requires
        c != CR,
        forall|i: int| 0 <= i < t.len() ==> #[trigger] t[i] != CR,
    ensures
        line_end(seq![c] + t + crlf(), 0) == t.len() + 1,
        (seq![c] + t + crlf()).subrange(1, t.len() as int + 1) == t,
        (seq![c] + t + crlf()).len() == t.len() + 3,
        (seq![c] + t + crlf())[0] == c,
{
    let w = seq![c] + t + crlf();
    let e: int = t.len() as int + 1;
    assert forall|m: int| 0 <= m < e implies w[m] != CR by {
        if m > 0 {
            assert(w[m] == t[m - 1]);
        }
    }
    assert(w[e] == CR && w[e + 1] == LF);
    lemma_line_end_at(w, 0, e);
    assert(w.subrange(1, e) =~= t);
}

/// A one-line value `+text`, `-text` or `:text` ended by `\r\n`, whose text
/// is UTF-8 without a carriage return, decodes to a simple string, an error
/// or a number holding that text, the position then just past it.
pub proof fn law_line_decodes_back(t: Seq<u8>)
    requires
        valid_utf8(t),
        forall|i: int| 0 <= i < t.len() ==> #[trigger] t[i] != CR,
        t.len() + 3 <= usize::MAX,
    ensures
        decode_value(seq![43u8] + t + crlf(), 0) == Decoded::Done(
            Some(RespValue::Simple(decode_utf8(t))),
            t.len() as int + 3,
        ),
        decode_value(seq![45u8] + t + crlf(), 0) == Decoded::Done(
            Some(RespValue::Error(decode_utf8(t))),
            t.len() as int + 3,
        ),
        decode_value(seq![58u8] + t + crlf(), 0) == Decoded::Done(
            Some(RespValue::Integer(decode_utf8(t))),
            t.len() as int + 3,
        ),
{
    lemma_line_at(43u8, t);
    lemma_line_at(45u8, t);
    lemma_line_at(58u8, t);
}

} // verus!
