use vstd::prelude::*;
use vstd::utf8::{encode_utf8, valid_utf8};
use crate::resp::decode::utf8_str;

verus! {

broadcast use vstd::std_specs::vec::group_vec_axioms;

/// A RESP value. A number is kept as the text that the wire carried.
#[derive(Debug, PartialEq)]
pub enum DataObjects {
    BasicString(String),
    Error(String),
    Integer(String),
    BulkString(Option<Vec<u8>>),
    Array(Option<Vec<DataObjects>>),
}

/// The mathematical form of a RESP value.
pub enum RespValue {
    Simple(Seq<char>),
    Error(Seq<char>),
    Integer(Seq<char>),
    Bulk(Option<Seq<u8>>),
    Array(Option<Seq<RespValue>>),
}

impl DataObjects {
    pub open spec fn model(&self) -> RespValue
        decreases self,
    {
        match self {
            DataObjects::BasicString(s) => RespValue::Simple(s@),
            DataObjects::Error(s) => RespValue::Error(s@),
            DataObjects::Integer(s) => RespValue::Integer(s@),
            DataObjects::BulkString(b) => RespValue::Bulk(
                match b {
                    Some(v) => Some(v@),
                    None => None,
                },
            ),
            DataObjects::Array(a) => RespValue::Array(
                match a {
                    Some(v) => Some(
                        Seq::new(
                            v@.len(),
                            |i: int|
                                if 0 <= i < v@.len() {
                                    v@[i].model()
                                } else {
                                    RespValue::Bulk(None)
                                },
                        ),
                    ),
                    None => None,
                },
            ),
        }
    }
}

impl View for DataObjects {
    type V = RespValue;

    open spec fn view(&self) -> RespValue {
        self.model()
    }
}

/// The values of a list of RESP values.
pub open spec fn values_view(s: Seq<DataObjects>) -> Seq<RespValue> {
    s.map_values(|v: DataObjects| v@)
}

/// The bytes that a value names when it stands as a command word or argument:
/// the UTF-8 bytes of a simple string or error, or the bytes of a bulk string.
pub open spec fn command_bytes(v: RespValue) -> Option<Seq<u8>> {
    match v {
        RespValue::Simple(s) => Some(encode_utf8(s)),
        RespValue::Error(s) => Some(encode_utf8(s)),
        RespValue::Bulk(Some(b)) => Some(b),
        _ => None,
    }
}

impl DataObjects {
    /// The bytes that the value names as a command word or argument.
    pub fn as_command(&self) -> (r: Option<&[u8]>)
        ensures
            match r {
                Some(b) => command_bytes(self@) == Some(b@),
                None => command_bytes(self@) is None,
            },
    {
        match self {
            DataObjects::BasicString(s) => Some(s.as_str().as_bytes()),
            DataObjects::Error(s) => Some(s.as_str().as_bytes()),
            DataObjects::BulkString(Some(vc)) => Some(vc.as_slice()),
            _ => None,
        }
    }

    /// A copy of the value.
    pub fn duplicate(&self) -> (r: DataObjects)
        ensures
            r@ == self@,
        decreases self,
    {
        match self {
            DataObjects::BasicString(s) => DataObjects::BasicString(s.clone()),
            DataObjects::Error(s) => DataObjects::Error(s.clone()),
            DataObjects::Integer(s) => DataObjects::Integer(s.clone()),
            DataObjects::BulkString(None) => DataObjects::BulkString(None),
            DataObjects::BulkString(Some(v)) => DataObjects::BulkString(Some(vstd::slice::slice_to_vec(v.as_slice()))),
            DataObjects::Array(None) => DataObjects::Array(None),
            DataObjects::Array(Some(v)) => {
                let mut out: Vec<DataObjects> = Vec::new();
                let mut i: usize = 0;
                #[verifier::loop_isolation(false)]
                while i < v.len()
                    invariant
                        i <= v@.len(),
                        out@.len() == i,
                        forall|j: int| 0 <= j < i ==> (#[trigger] out@[j])@ == v@[j]@,
                    decreases v@.len() - i,
                {
                    proof {
                        assert(decreases_to!(*self => v[i as int]));
                    }
                    out.push(v[i].duplicate());
                    i += 1;
                }
                let r = DataObjects::Array(Some(out));
                assert(r@ == self@) by {
                    if let RespValue::Array(Some(a)) = r@ {
                        if let RespValue::Array(Some(b)) = self@ {
                            assert(a =~= b);
                        }
                    }
                }
                r
            },
        }
    }
}

/// The value of an array is the array of the values of its elements.
pub proof fn lemma_array_view(v: Vec<DataObjects>)
    ensures
        DataObjects::Array(Some(v))@ == RespValue::Array(Some(values_view(v@))),
{
    if let RespValue::Array(Some(a)) = DataObjects::Array(Some(v))@ {
        assert(a =~= values_view(v@));
    }
}


/// Bytes that are all ASCII are valid UTF-8.
pub proof fn lemma_ascii_valid(b: Seq<u8>)
    requires
        forall|i: int| 0 <= i < b.len() ==> #[trigger] b[i] < 128,
    ensures
        valid_utf8(b),
    decreases b.len(),
{
    if b.len() > 0 {
        let c = b[0];
        assert(c & 0x7Fu8 <= 0x7Fu8) by (bit_vector);
        let rest = b.subrange(1, b.len() as int);
        assert forall|i: int| 0 <= i < rest.len() implies #[trigger] rest[i] < 128 by {
            assert(rest[i] == b[i + 1]);
        }
        lemma_ascii_valid(rest);
    }
}

/// Whether a value can be shown as text: every bulk string in it is valid
/// UTF-8.
pub open spec fn shown_defined(v: RespValue) -> bool
    decreases v,
{
    match v {
        RespValue::Bulk(Some(b)) => valid_utf8(b),
        RespValue::Array(Some(items)) => forall|i: int| 0 <= i < items.len() ==> shown_defined(#[trigger] items[i]),
        _ => true,
    }
}

/// The text of a value, as UTF-8 bytes: a string or number as its text, a
/// bulk string as its bytes, an array as `[ `, then for each element a
/// backspace, its text and `, `, then two backspaces and `]`; a null bulk
/// string or array as nothing.
pub open spec fn shown_spec(v: RespValue) -> Seq<u8>
    decreases v, 0int,
{
    match v {
        RespValue::Simple(s) => encode_utf8(s),
        RespValue::Error(s) => encode_utf8(s),
        RespValue::Integer(s) => encode_utf8(s),
        RespValue::Bulk(Some(b)) => b,
        RespValue::Array(Some(items)) => seq![91u8, 32u8] + shown_items(items, items.len() as int) + seq![8u8, 8u8, 93u8],
        _ => Seq::empty(),
    }
}

/// The texts of the first `k` elements of an array, each after a backspace
/// and followed by `, `.
pub open spec fn shown_items(items: Seq<RespValue>, k: int) -> Seq<u8>
    decreases items, k,
{
    if k <= 0 || k > items.len() {
        Seq::empty()
    } else {
        shown_items(items, k - 1) + seq![8u8] + shown_spec(items[k - 1]) + seq![44u8, 32u8]
    }
}

impl DataObjects {
    /// The text of the value, as UTF-8 bytes, as `shown_spec` describes;
    /// `None` when a bulk string in it is not valid UTF-8.
    pub fn shown(&self) -> (r: Option<Vec<u8>>)
        ensures
            r is Some <==> shown_defined(self@),
            r matches Some(b) ==> b@ == shown_spec(self@),
        decreases self,
    {
        match self {
            DataObjects::BasicString(s) => Some(vstd::slice::slice_to_vec(s.as_str().as_bytes())),
            DataObjects::Error(s) => Some(vstd::slice::slice_to_vec(s.as_str().as_bytes())),
            DataObjects::Integer(s) => Some(vstd::slice::slice_to_vec(s.as_str().as_bytes())),
            DataObjects::BulkString(Some(b)) => {
                if utf8_str(b.as_slice()).is_some() {
                    Some(vstd::slice::slice_to_vec(b.as_slice()))
                } else {
                    None
                }
            },
            DataObjects::BulkString(None) => Some(Vec::new()),
            DataObjects::Array(None) => Some(Vec::new()),
            DataObjects::Array(Some(v)) => {
                proof {
                    lemma_array_view(*v);
                }
                let ghost items = values_view(v@);
                let mut out: Vec<u8> = Vec::new();
                out.push(91u8);
                out.push(32u8);
                let mut i: usize = 0;
                assert(out@ =~= seq![91u8, 32u8] + shown_items(items, 0));
                #[verifier::loop_isolation(false)]
                while i < v.len()
                    invariant
                        i <= v@.len(),
                        items == values_view(v@),
                        self@ == RespValue::Array(Some(items)),
                        out@ == seq![91u8, 32u8] + shown_items(items, i as int),
                        forall|j: int| 0 <= j < i ==> shown_defined(#[trigger] items[j]),
                    decreases v@.len() - i,
                {
                    proof {
                        assert(decreases_to!(*self => v[i as int]));
                    }
                    match v[i].shown() {
                        Some(b) => {
                            let ghost before = out@;
                            out.push(8u8);
                            let mut j: usize = 0;
                            while j < b.len()
                                invariant
                                    j <= b@.len(),
                                    out@ == before + seq![8u8] + b@.subrange(0, j as int),
                                decreases b@.len() - j,
                            {
                                out.push(b[j]);
                                j += 1;
                                assert(out@ =~= before + seq![8u8] + b@.subrange(0, j as int));
                            }
                            out.push(44u8);
                            out.push(32u8);
                            assert(b@.subrange(0, b@.len() as int) =~= b@);
                            assert(items[i as int] == v@[i as int]@);
                            assert(out@ =~= seq![91u8, 32u8] + shown_items(items, i + 1));
                        },
                        None => {
                            assert(items[i as int] == v@[i as int]@);
                            assert(!shown_defined(items[i as int]));
                            assert(!shown_defined(self@));
                            return None;
                        },
                    }
                    i += 1;
                }
                out.push(8u8);
                out.push(8u8);
                out.push(93u8);
                assert(out@ =~= shown_spec(self@));
                Some(out)
            },
        }
    }
}

} // verus!
