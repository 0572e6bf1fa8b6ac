//! The mathematical model of a frame, and the predicates that the laws of
//! the codec are stated with.

use crate::text::is_text;
use vstd::prelude::*;

verus! {

/// What a frame is, apart from how it is stored: texts and payloads are
/// byte sequences (a text in its UTF-8 form), collections are sequences.
pub enum Value {
    /// One line of status text.
    SimpleString(Seq<u8>),
    /// One line of error text.
    Error(Seq<u8>),
    /// A signed 64-bit integer.
    Integer(i64),
    /// A binary-safe payload.
    BulkString(Seq<u8>),
    /// The absent bulk string; not the empty one.
    NullBulkString,
    /// Frames in order.
    Array(Seq<Value>),
    /// The protocol's null.
    Null,
    /// The absent array; not the empty one.
    NullArray,
    /// True or false.
    Boolean(bool),
    /// A floating-point number, held as the numeral that stands on the wire.
    Double(Seq<u8>),
    /// Reserved; it has no wire form.
    BigNumber(Seq<u8>),
    /// Keys with their frames, in ascending order of the keys.
    RespMap(Seq<(Seq<u8>, Value)>),
    /// Frames in order.
    RespSet(Seq<Value>),
}

/// How deep frames may nest: the decoder refuses a collection inside more
/// than this number of enclosing collections, itself counted.
pub const MAX_DEPTH: usize = 128;

/// `a` comes before `b` in lexicographic order of their bytes.
pub open spec fn key_before(a: Seq<u8>, b: Seq<u8>) -> bool
    decreases a.len(),
{
    if b.len() == 0 {
        false
    } else if a.len() == 0 {
        true
    } else if a[0] != b[0] {
        a[0] < b[0]
    } else {
        key_before(a.drop_first(), b.drop_first())
    }
}

/// The keys of `pairs` ascend strictly, so none occurs twice.
pub open spec fn keys_ascend(pairs: Seq<(Seq<u8>, Value)>) -> bool {
    forall|i: int, j: int|
        0 <= i < j < pairs.len() ==> key_before(#[trigger] pairs[i].0, #[trigger] pairs[j].0)
}

/// Every text in `v` fits on one line and is valid UTF-8, and the keys of
/// every map in it ascend.
pub open spec fn well_formed(v: Value) -> bool
    decreases v,
{
    match v {
        Value::SimpleString(s) => is_text(s),
        Value::Error(s) => is_text(s),
        Value::Double(s) => is_text(s),
        Value::Array(items) => forall|i: int|
            0 <= i < items.len() ==> well_formed(#[trigger] items[i]),
        Value::RespSet(items) => forall|i: int|
            0 <= i < items.len() ==> well_formed(#[trigger] items[i]),
        Value::RespMap(pairs) => keys_ascend(pairs) && forall|i: int|
            0 <= i < pairs.len() ==> is_text((#[trigger] pairs[i]).0) && well_formed(pairs[i].1),
        _ => true,
    }
}

/// `v` has a wire form: no reserved variant occurs in it.
pub open spec fn encodable(v: Value) -> bool
    decreases v,
{
    match v {
        Value::BigNumber(_) => false,
        Value::Array(items) => forall|i: int|
            0 <= i < items.len() ==> encodable(#[trigger] items[i]),
        Value::RespSet(items) => forall|i: int|
            0 <= i < items.len() ==> encodable(#[trigger] items[i]),
        Value::RespMap(pairs) => forall|i: int|
            0 <= i < pairs.len() ==> encodable((#[trigger] pairs[i]).1),
        _ => true,
    }
}

/// No map occurs in `v`. A map is written under the tag of an array, so
/// only such a value can be told from its bytes.
pub open spec fn map_free(v: Value) -> bool
    decreases v,
{
    match v {
        Value::RespMap(_) => false,
        Value::Array(items) => forall|i: int|
            0 <= i < items.len() ==> map_free(#[trigger] items[i]),
        Value::RespSet(items) => forall|i: int|
            0 <= i < items.len() ==> map_free(#[trigger] items[i]),
        _ => true,
    }
}

/// Every length and count in `v` can be written as a numeral that the
/// decoder reads: none exceeds the largest `i64`.
pub open spec fn lengths_fit(v: Value) -> bool
    decreases v,
{
    match v {
        Value::BulkString(b) => b.len() <= i64::MAX,
        Value::Array(items) => items.len() <= i64::MAX && forall|i: int|
            0 <= i < items.len() ==> lengths_fit(#[trigger] items[i]),
        Value::RespSet(items) => items.len() <= i64::MAX && forall|i: int|
            0 <= i < items.len() ==> lengths_fit(#[trigger] items[i]),
        Value::RespMap(pairs) => pairs.len() <= i64::MAX && forall|i: int|
            0 <= i < pairs.len() ==> lengths_fit((#[trigger] pairs[i]).1),
        _ => true,
    }
}

/// Collections in `v` nest at most `depth` deep.
pub open spec fn within_depth(v: Value, depth: nat) -> bool
    decreases depth,
{
    match v {
        Value::Array(items) => depth > 0 && forall|i: int|
            0 <= i < items.len() ==> within_depth(#[trigger] items[i], (depth - 1) as nat),
        Value::RespSet(items) => depth > 0 && forall|i: int|
            0 <= i < items.len() ==> within_depth(#[trigger] items[i], (depth - 1) as nat),
        Value::RespMap(pairs) => depth > 0 && forall|i: int|
            0 <= i < pairs.len() ==> within_depth((#[trigger] pairs[i]).1, (depth - 1) as nat),
        _ => true,
    }
}

} // verus!
