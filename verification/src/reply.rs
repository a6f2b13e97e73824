use vstd::prelude::*;

verus! {

/// The decimal digits of `n`, as `{}` formats an unsigned integer.
pub open spec fn decimal(n: nat) -> Seq<u8>
    decreases n,
{
    if n < 10 {
        seq![(48 + n) as u8]
    } else {
        decimal(n / 10).push((48 + n % 10) as u8)
    }
}

/// `x` as `{}` formats a signed integer: a `-` before the digits of a
/// negative number.
pub open spec fn signed_decimal(x: int) -> Seq<u8> {
    if x < 0 {
        seq![45u8] + decimal((-x) as nat)
    } else {
        decimal(x as nat)
    }
}

/// `\r\n`.
pub open spec fn crlf() -> Seq<u8> {
    seq![13u8, 10u8]
}

/// A RESP bulk string: `$`, the length, `\r\n`, the bytes, `\r\n`.
pub open spec fn bulk(b: Seq<u8>) -> Seq<u8> {
    seq![36u8] + decimal(b.len()) + crlf() + b + crlf()
}

/// The bulk strings of `l`, one after another.
pub open spec fn bulks(l: Seq<Seq<u8>>) -> Seq<u8>
    decreases l.len(),
{
    if l.len() == 0 {
        Seq::empty()
    } else {
        bulks(l.drop_last()) + bulk(l.last())
    }
}

/// A RESP array header announcing `n` elements.
pub open spec fn array_header(n: int) -> Seq<u8> {
    seq![42u8] + signed_decimal(n) + crlf()
}

/// A RESP integer reply.
pub open spec fn integer_reply(n: nat) -> Seq<u8> {
    seq![58u8] + decimal(n) + crlf()
}

/// Appends the decimal digits of `n`.
pub fn push_decimal(out: &mut Vec<u8>, n: u64)
    ensures
        final(out)@ == old(out)@ + decimal(n as nat),
    decreases n,
{
    if n >= 10 {
        push_decimal(out, n / 10);
    }
    let d = (n % 10) as u8;
    out.push(48u8 + d);
    assert(final(out)@ =~= old(out)@ + decimal(n as nat)) by {
        if n >= 10 {
            assert(decimal(n as nat) == decimal((n / 10) as nat).push((48 + n % 10) as u8));
        }
    }
}

/// Appends `x` in decimal, with a `-` when negative.
pub fn push_signed(out: &mut Vec<u8>, x: i64)
    requires
        x > i64::MIN,
    ensures
        final(out)@ == old(out)@ + signed_decimal(x as int),
{
    if x < 0 {
        out.push(45u8);
        let ghost mid = out@;
        push_decimal(out, (-x) as u64);
        assert(out@ =~= old(out)@ + (seq![45u8] + decimal((-x) as nat)));
    } else {
        push_decimal(out, x as u64);
    }
}

/// Appends the bytes of `b`.
pub fn push_bytes(out: &mut Vec<u8>, b: &[u8])
    ensures
        final(out)@ == old(out)@ + b@,
{
    let mut i: usize = 0;
    while i < b.len()
        invariant
            i <= b@.len(),
            out@ == old(out)@ + b@.subrange(0, i as int),
        decreases b@.len() - i,
    {
        out.push(b[i]);
        i += 1;
        assert(out@ =~= old(out)@ + b@.subrange(0, i as int));
    }
    assert(b@.subrange(0, b@.len() as int) =~= b@);
}

/// Appends `\r\n`.
pub fn push_crlf(out: &mut Vec<u8>)
    ensures
        final(out)@ == old(out)@ + crlf(),
{
    out.push(13u8);
    out.push(10u8);
    assert(out@ =~= old(out)@ + crlf());
}

/// Appends `b` as a RESP bulk string.
pub fn push_bulk(out: &mut Vec<u8>, b: &[u8])
    ensures
        final(out)@ == old(out)@ + bulk(b@),
{
    out.push(36u8);
    push_decimal(out, b.len() as u64);
    push_crlf(out);
    push_bytes(out, b);
    push_crlf(out);
    assert(out@ =~= old(out)@ + bulk(b@));
}

/// `b` as a RESP bulk string.
pub fn encode_bulk(b: &[u8]) -> (r: Vec<u8>)
    ensures
        r@ == bulk(b@),
{
    let mut out: Vec<u8> = Vec::new();
    push_bulk(&mut out, b);
    assert(out@ =~= bulk(b@));
    out
}

/// `n` as a RESP integer reply.
pub fn encode_integer(n: usize) -> (r: Vec<u8>)
    ensures
        r@ == integer_reply(n as nat),
{
    let mut out: Vec<u8> = Vec::new();
    out.push(58u8);
    push_decimal(&mut out, n as u64);
    push_crlf(&mut out);
    assert(out@ =~= integer_reply(n as nat));
    out
}

/// The bytes `+list\r\n`.
pub open spec fn type_list() -> Seq<u8> {
    seq![43u8, 108u8, 105u8, 115u8, 116u8, 13u8, 10u8]
}

/// The bytes `+list\r\n`, as a vector.
pub fn type_list_bytes() -> (r: Vec<u8>)
    ensures
        r@ == type_list(),
{
    let r: Vec<u8> = vec![43u8, 108u8, 105u8, 115u8, 116u8, 13u8, 10u8];
    assert(r@ =~= type_list());
    r
}

/// The bytes `+string\r\n`.
pub open spec fn type_string() -> Seq<u8> {
    seq![43u8, 115u8, 116u8, 114u8, 105u8, 110u8, 103u8, 13u8, 10u8]
}

/// The bytes `+string\r\n`, as a vector.
pub fn type_string_bytes() -> (r: Vec<u8>)
    ensures
        r@ == type_string(),
{
    let r: Vec<u8> = vec![43u8, 115u8, 116u8, 114u8, 105u8, 110u8, 103u8, 13u8, 10u8];
    assert(r@ =~= type_string());
    r
}

/// The bytes `+stream\r\n`.
pub open spec fn type_stream() -> Seq<u8> {
    seq![43u8, 115u8, 116u8, 114u8, 101u8, 97u8, 109u8, 13u8, 10u8]
}

/// The bytes `+stream\r\n`, as a vector.
pub fn type_stream_bytes() -> (r: Vec<u8>)
    ensures
        r@ == type_stream(),
{
    let r: Vec<u8> = vec![43u8, 115u8, 116u8, 114u8, 101u8, 97u8, 109u8, 13u8, 10u8];
    assert(r@ =~= type_stream());
    r
}

/// The bytes `+none\r\n`.
pub open spec fn type_none() -> Seq<u8> {
    seq![43u8, 110u8, 111u8, 110u8, 101u8, 13u8, 10u8]
}

/// The bytes `+none\r\n`, as a vector.
pub fn type_none_bytes() -> (r: Vec<u8>)
    ensures
        r@ == type_none(),
{
    let r: Vec<u8> = vec![43u8, 110u8, 111u8, 110u8, 101u8, 13u8, 10u8];
    assert(r@ =~= type_none());
    r
}

/// The bytes `*0\r\n`.
pub open spec fn empty_array() -> Seq<u8> {
    seq![42u8, 48u8, 13u8, 10u8]
}

/// The bytes `*0\r\n`, as a vector.
pub fn empty_array_bytes() -> (r: Vec<u8>)
    ensures
        r@ == empty_array(),
{
    let r: Vec<u8> = vec![42u8, 48u8, 13u8, 10u8];
    assert(r@ =~= empty_array());
    r
}

/// The bytes `$-1\r\n`.
pub open spec fn null_bulk() -> Seq<u8> {
    seq![36u8, 45u8, 49u8, 13u8, 10u8]
}

/// The bytes `$-1\r\n`, as a vector.
pub fn null_bulk_bytes() -> (r: Vec<u8>)
    ensures
        r@ == null_bulk(),
{
    let r: Vec<u8> = vec![36u8, 45u8, 49u8, 13u8, 10u8];
    assert(r@ =~= null_bulk());
    r
}

/// The bytes `*-1\r\n`.
pub open spec fn null_array() -> Seq<u8> {
    seq![42u8, 45u8, 49u8, 13u8, 10u8]
}

/// The bytes `*-1\r\n`, as a vector.
pub fn null_array_bytes() -> (r: Vec<u8>)
    ensures
        r@ == null_array(),
{
    let r: Vec<u8> = vec![42u8, 45u8, 49u8, 13u8, 10u8];
    assert(r@ =~= null_array());
    r
}

/// The bytes `+Error\r\n`.
pub open spec fn error_reply() -> Seq<u8> {
    seq![43u8, 69u8, 114u8, 114u8, 111u8, 114u8, 13u8, 10u8]
}

/// The bytes `+Error\r\n`, as a vector.
pub fn error_reply_bytes() -> (r: Vec<u8>)
    ensures
        r@ == error_reply(),
{
    let r: Vec<u8> = vec![43u8, 69u8, 114u8, 114u8, 111u8, 114u8, 13u8, 10u8];
    assert(r@ =~= error_reply());
    r
}

/// The bytes `+PONG\r\n`.
pub open spec fn pong() -> Seq<u8> {
    seq![43u8, 80u8, 79u8, 78u8, 71u8, 13u8, 10u8]
}

/// The bytes `+PONG\r\n`, as a vector.
pub fn pong_bytes() -> (r: Vec<u8>)
    ensures
        r@ == pong(),
{
    let r: Vec<u8> = vec![43u8, 80u8, 79u8, 78u8, 71u8, 13u8, 10u8];
    assert(r@ =~= pong());
    r
}

/// The bytes `+OK\r\n`.
pub open spec fn ok_reply() -> Seq<u8> {
    seq![43u8, 79u8, 75u8, 13u8, 10u8]
}

/// The bytes `+OK\r\n`, as a vector.
pub fn ok_reply_bytes() -> (r: Vec<u8>)
    ensures
        r@ == ok_reply(),
{
    let r: Vec<u8> = vec![43u8, 79u8, 75u8, 13u8, 10u8];
    assert(r@ =~= ok_reply());
    r
}

} // verus!
