//! The encoder: the wire form of a value, and the functions that write it.

use crate::decimal::{decimal, push_decimal_i64, push_decimal_u64, PLUS};
use crate::error::EncodeError;
use crate::frame::{pair_views, views, RespArray, RespFrame, RespMap, RespSet};
use crate::scalar::{
    BulkString, RespDouble, RespNull, RespNullArray, RespNullBulkString, SimpleError,
    SimpleString,
};
use crate::text::{crlf, CR, LF};
use crate::decode::parse;
use crate::laws::law_round_trip;
use crate::value::{
    encodable, lengths_fit, map_free, well_formed, within_depth, Value, MAX_DEPTH,
};
use std::ops::Deref;
use vstd::prelude::*;

verus! {

/// Tag of a simple string, `+`.
pub const TAG_SIMPLE_STRING: u8 = 43;

/// Tag of a simple error, `-`.
pub const TAG_ERROR: u8 = 45;

/// Tag of an integer, `:`.
pub const TAG_INTEGER: u8 = 58;

/// Tag of a bulk string and of the absent bulk string, `$`.
pub const TAG_BULK_STRING: u8 = 36;

/// Tag of an array, of the absent array and of a map, `*`.
pub const TAG_ARRAY: u8 = 42;

/// Tag of the null, `_`.
pub const TAG_NULL: u8 = 95;

/// Tag of a boolean, `#`.
pub const TAG_BOOLEAN: u8 = 35;

/// Tag of a double, `,`.
pub const TAG_DOUBLE: u8 = 44;

/// Tag of a set, `~`.
pub const TAG_SET: u8 = 126;

/// A header line: the tag, the body and the terminator.
pub open spec fn line(tag: u8, body: Seq<u8>) -> Seq<u8> {
    seq![tag] + body + crlf()
}

/// The numeral of an integer frame: a non-negative number carries a `+`,
/// a negative one only its own `-`.
pub open spec fn signed_decimal(n: i64) -> Seq<u8> {
    if n >= 0 {
        seq![PLUS] + decimal(n as int)
    } else {
        decimal(n as int)
    }
}

/// The numeral `-1`, which marks the absent bulk string and the absent array.
pub open spec fn minus_one() -> Seq<u8> {
    seq![45u8, 49u8]
}

/// The wire form of `v`. A reserved variant has none; what this function
/// gives for a value that is not `encodable` means nothing.
pub open spec fn wire(v: Value) -> Seq<u8>
    decreases v, 0nat,
{
    match v {
        Value::SimpleString(s) => line(TAG_SIMPLE_STRING, s),
        Value::Error(s) => line(TAG_ERROR, s),
        Value::Integer(n) => line(TAG_INTEGER, signed_decimal(n)),
        Value::BulkString(b) => line(TAG_BULK_STRING, decimal(b.len() as int)) + b + crlf(),
        Value::NullBulkString => line(TAG_BULK_STRING, minus_one()),
        Value::Array(items) => line(TAG_ARRAY, decimal(items.len() as int)) + wire_items(
            items,
            items.len(),
        ),
        Value::Null => line(TAG_NULL, Seq::empty()),
        Value::NullArray => line(TAG_ARRAY, minus_one()),
        Value::Boolean(b) => line(
            TAG_BOOLEAN,
            if b {
                seq![116u8]
            } else {
                seq![102u8]
            },
        ),
        Value::Double(s) => line(TAG_DOUBLE, s),
        Value::BigNumber(_) => Seq::empty(),
        Value::RespMap(pairs) => line(TAG_ARRAY, decimal(pairs.len() as int)) + wire_pairs(
            pairs,
            pairs.len(),
        ),
        Value::RespSet(items) => line(TAG_SET, decimal(items.len() as int)) + wire_items(
            items,
            items.len(),
        ),
    }
}

/// The wire forms of the first `n` of `items`, one after the other.
pub open spec fn wire_items(items: Seq<Value>, n: nat) -> Seq<u8>
    decreases items, n,
{
    if n == 0 || n > items.len() {
        Seq::empty()
    } else {
        wire_items(items, (n - 1) as nat) + wire(items[n - 1])
    }
}

/// The wire forms of the first `n` of `pairs`, one after the other: each
/// key as a simple string, then its frame.
pub open spec fn wire_pairs(pairs: Seq<(Seq<u8>, Value)>, n: nat) -> Seq<u8>
    decreases pairs, n,
{
    if n == 0 || n > pairs.len() {
        Seq::empty()
    } else {
        wire_pairs(pairs, (n - 1) as nat) + line(TAG_SIMPLE_STRING, pairs[n - 1].0) + wire(
            pairs[n - 1].1,
        )
    }
}

/// Appends `bytes` to `out`.
pub fn push_bytes(out: &mut Vec<u8>, bytes: &[u8])
    ensures
        final(out)@ == old(out)@ + bytes@,
{
    out.extend_from_slice(bytes);
    assert(final(out)@ =~= old(out)@ + bytes@);
}

/// Appends a line terminator to `out`.
pub fn push_crlf(out: &mut Vec<u8>)
    ensures
        final(out)@ == old(out)@ + crlf(),
{
    out.push(CR);
    out.push(LF);
    assert(final(out)@ =~= old(out)@ + crlf());
}

/// Appends the header line of `tag` and `body` to `out`.
pub fn push_line(out: &mut Vec<u8>, tag: u8, body: &[u8])
    ensures
        final(out)@ == old(out)@ + line(tag, body@),
{
    out.push(tag);
    push_bytes(out, body);
    push_crlf(out);
    assert(final(out)@ =~= old(out)@ + line(tag, body@));
}

/// Appends the header line of `tag` and of the numeral of `count` to `out`.
pub fn push_count(out: &mut Vec<u8>, tag: u8, count: usize)
    ensures
        final(out)@ == old(out)@ + line(tag, decimal(count as int)),
{
    out.push(tag);
    push_decimal_u64(count as u64, out);
    push_crlf(out);
    assert(final(out)@ =~= old(out)@ + line(tag, decimal(count as int)));
}

/// Appends the wire form of `frame` to `out`. On an error `out` holds
/// what had been written before the reserved variant was met.
pub fn write_frame(frame: &RespFrame, out: &mut Vec<u8>) -> (done: Result<(), EncodeError>)
    ensures
        encodable(frame@) ==> done is Ok && final(out)@ == old(out)@ + wire(frame@),
        !encodable(frame@) ==> done == Err::<(), EncodeError>(EncodeError::UnsupportedVariant),
        done is Ok ==> well_formed(frame@),
    decreases frame@, 0nat,
{
    match frame {
        RespFrame::SimpleString(s) => {
            push_line(out, TAG_SIMPLE_STRING, s.as_bytes());
            Ok(())
        },
        RespFrame::Error(e) => {
            push_line(out, TAG_ERROR, e.as_bytes());
            Ok(())
        },
        RespFrame::Integer(n) => {
            write_integer(*n, out);
            Ok(())
        },
        RespFrame::BulkString(b) => {
            write_bulk(b.deref().as_slice(), out);
            Ok(())
        },
        RespFrame::NullBulkString(_) => {
            write_null_bulk(out);
            Ok(())
        },
        RespFrame::Array(a) => {
            let frames = a.deref();
            assert(frame@->Array_0 == views(frames@));
            push_count(out, TAG_ARRAY, frames.len());
            write_items(frames, out)
        },
        RespFrame::Null(_) => {
            write_null(out);
            Ok(())
        },
        RespFrame::NullArray(_) => {
            write_null_array(out);
            Ok(())
        },
        RespFrame::Boolean(b) => {
            write_boolean(*b, out);
            Ok(())
        },
        RespFrame::Double(d) => {
            push_line(out, TAG_DOUBLE, d.as_bytes());
            Ok(())
        },
        RespFrame::BigNumber(_) => Err(EncodeError::UnsupportedVariant),
        RespFrame::RespMap(m) => {
            let pairs = m.entries();
            assert(frame@->RespMap_0 == pair_views(pairs@));
            push_count(out, TAG_ARRAY, pairs.len());
            write_pairs(pairs, out)
        },
        RespFrame::RespSet(s) => {
            let frames = s.deref();
            assert(frame@->RespSet_0 == views(frames@));
            push_count(out, TAG_SET, frames.len());
            write_items(frames, out)
        },
    }
}

/// Appends the wire forms of `frames` to `out`, in order.
pub fn write_items(frames: &Vec<RespFrame>, out: &mut Vec<u8>) -> (done: Result<(), EncodeError>)
    ensures
        match done {
            Ok(_) => {
                &&& final(out)@ == old(out)@ + wire_items(views(frames@), frames@.len())
                &&& forall|i: int|
                    0 <= i < frames@.len() ==> encodable(#[trigger] views(frames@)[i])
                        && well_formed(views(frames@)[i])
            },
            Err(e) => {
                &&& e == EncodeError::UnsupportedVariant
                &&& exists|i: int| 0 <= i < frames@.len() && !encodable(#[trigger] views(frames@)[i])
            },
        },
    decreases views(frames@), 1nat,
{
    let ghost items = views(frames@);
    let mut i: usize = 0;
    while i < frames.len()
        invariant
            i <= frames@.len(),
            items == views(frames@),
            out@ == old(out)@ + wire_items(items, i as nat),
            forall|j: int| 0 <= j < i ==> encodable(#[trigger] items[j]) && well_formed(items[j]),
        decreases frames@.len() - i,
    {
        assert(items[i as int] == frames@[i as int]@);
        let ghost before = out@;
        match write_frame(&frames[i], out) {
            Ok(_) => {},
            Err(e) => {
                return Err(e);
            },
        }
        assert(out@ == before + wire(items[i as int]));
        assert(out@ =~= old(out)@ + wire_items(items, (i + 1) as nat));
        i = i + 1;
    }
    Ok(())
}

/// Appends the wire forms of `pairs` to `out`, in order: each key as a
/// simple string, then its frame.
pub fn write_pairs(pairs: &Vec<(SimpleString, RespFrame)>, out: &mut Vec<u8>) -> (done: Result<
    (),
    EncodeError,
>)
    ensures
        match done {
            Ok(_) => {
                &&& final(out)@ == old(out)@ + wire_pairs(pair_views(pairs@), pairs@.len())
                &&& forall|i: int|
                    0 <= i < pairs@.len() ==> encodable((#[trigger] pair_views(pairs@)[i]).1)
                        && well_formed(pair_views(pairs@)[i].1) && crate::text::is_text(
                        pair_views(pairs@)[i].0,
                    )
            },
            Err(e) => {
                &&& e == EncodeError::UnsupportedVariant
                &&& exists|i: int|
                    0 <= i < pairs@.len() && !encodable((#[trigger] pair_views(pairs@)[i]).1)
            },
        },
    decreases pair_views(pairs@), 1nat,
{
    let ghost items = pair_views(pairs@);
    let mut i: usize = 0;
    while i < pairs.len()
        invariant
            i <= pairs@.len(),
            items == pair_views(pairs@),
            out@ == old(out)@ + wire_pairs(items, i as nat),
            forall|j: int|
                0 <= j < i ==> encodable((#[trigger] items[j]).1) && well_formed(items[j].1)
                    && crate::text::is_text(items[j].0),
        decreases pairs@.len() - i,
    {
        assert(items[i as int] == (pairs@[i as int].0@, pairs@[i as int].1@));
        let ghost before = out@;
        push_line(out, TAG_SIMPLE_STRING, pairs[i].0.as_bytes());
        assert(decreases_to!(items => items[i as int]));
        assert(decreases_to!(items[i as int] => items[i as int].1));
        match write_frame(&pairs[i].1, out) {
            Ok(_) => {},
            Err(e) => {
                return Err(e);
            },
        }
        assert(out@ == before + line(TAG_SIMPLE_STRING, items[i as int].0) + wire(
            items[i as int].1,
        ));
        assert(out@ =~= old(out)@ + wire_pairs(items, (i + 1) as nat));
        i = i + 1;
    }
    Ok(())
}

/// Appends the wire form of the integer `n` to `out`.
pub fn write_integer(n: i64, out: &mut Vec<u8>)
    ensures
        final(out)@ == old(out)@ + wire(Value::Integer(n)),
{
    out.push(TAG_INTEGER);
    if n >= 0 {
        out.push(PLUS);
    }
    push_decimal_i64(n, out);
    push_crlf(out);
    assert(final(out)@ =~= old(out)@ + wire(Value::Integer(n)));
}

/// Appends the wire form of the bulk string `payload` to `out`.
pub fn write_bulk(payload: &[u8], out: &mut Vec<u8>)
    ensures
        final(out)@ == old(out)@ + wire(Value::BulkString(payload@)),
{
    push_count(out, TAG_BULK_STRING, payload.len());
    push_bytes(out, payload);
    push_crlf(out);
    assert(final(out)@ =~= old(out)@ + wire(Value::BulkString(payload@)));
}

/// Appends the wire form of the boolean `b` to `out`.
pub fn write_boolean(b: bool, out: &mut Vec<u8>)
    ensures
        final(out)@ == old(out)@ + wire(Value::Boolean(b)),
{
    out.push(TAG_BOOLEAN);
    if b {
        out.push(116u8);
    } else {
        out.push(102u8);
    }
    push_crlf(out);
    assert(final(out)@ =~= old(out)@ + wire(Value::Boolean(b)));
}

/// Appends the wire form of the null to `out`.
pub fn write_null(out: &mut Vec<u8>)
    ensures
        final(out)@ == old(out)@ + wire(Value::Null),
{
    out.push(TAG_NULL);
    push_crlf(out);
    assert(final(out)@ =~= old(out)@ + wire(Value::Null));
}

/// Appends the wire form of the absent bulk string to `out`.
pub fn write_null_bulk(out: &mut Vec<u8>)
    ensures
        final(out)@ == old(out)@ + wire(Value::NullBulkString),
{
    out.push(TAG_BULK_STRING);
    out.push(45u8);
    out.push(49u8);
    push_crlf(out);
    assert(final(out)@ =~= old(out)@ + wire(Value::NullBulkString));
}

/// Appends the wire form of the absent array to `out`.
pub fn write_null_array(out: &mut Vec<u8>)
    ensures
        final(out)@ == old(out)@ + wire(Value::NullArray),
{
    out.push(TAG_ARRAY);
    out.push(45u8);
    out.push(49u8);
    push_crlf(out);
    assert(final(out)@ =~= old(out)@ + wire(Value::NullArray));
}

/// What can be written on the wire.
pub trait RespEncode: Sized {
    /// The value that `self` stands for.
    spec fn value(&self) -> Value;

    /// The wire form of `self`, or the reason why it has none. Whatever is
    /// encoded is well formed.
    fn encode(self) -> (out: Result<Vec<u8>, EncodeError>)
        ensures
            encodable(self.value()) ==> out is Ok && out->Ok_0@ == wire(self.value()),
            !encodable(self.value()) ==> out == Err::<Vec<u8>, EncodeError>(
                EncodeError::UnsupportedVariant,
            ),
            out is Ok ==> well_formed(self.value()),
    ;
}

impl RespEncode for RespFrame {
    open spec fn value(&self) -> Value {
        self@
    }

    /// The wire form of the frame. Decoding it gives the frame back and
    /// takes all of its bytes, where the frame holds no map, nests no deeper
    /// than the decoder accepts and has no length beyond the largest `i64`.
    fn encode(self) -> (out: Result<Vec<u8>, EncodeError>)
        ensures
            out is Ok && map_free(self@) && lengths_fit(self@) && within_depth(
                self@,
                MAX_DEPTH as nat,
            ) ==> parse(out->Ok_0@) == Ok::<(Value, int), crate::error::DecodeError>(
                (self@, out->Ok_0@.len() as int),
            ),
    {
        let mut buf: Vec<u8> = Vec::new();
        match write_frame(&self, &mut buf) {
            Ok(_) => {
                assert(buf@ =~= wire(self@));
                proof {
                    if map_free(self@) && lengths_fit(self@) && within_depth(
                        self@,
                        MAX_DEPTH as nat,
                    ) {
                        law_round_trip(self@);
                    }
                }
                Ok(buf)
            },
            Err(e) => Err(e),
        }
    }
}

impl RespEncode for i64 {
    open spec fn value(&self) -> Value {
        Value::Integer(*self)
    }

    fn encode(self) -> (out: Result<Vec<u8>, EncodeError>) {
        let mut buf: Vec<u8> = Vec::new();
        write_integer(self, &mut buf);
        assert(buf@ =~= wire(Value::Integer(self)));
        Ok(buf)
    }
}

impl RespEncode for SimpleString {
    open spec fn value(&self) -> Value {
        Value::SimpleString(self@)
    }

    fn encode(self) -> (out: Result<Vec<u8>, EncodeError>) {
        let mut buf: Vec<u8> = Vec::new();
        push_line(&mut buf, TAG_SIMPLE_STRING, self.as_bytes());
        assert(buf@ =~= wire(Value::SimpleString(self@)));
        Ok(buf)
    }
}

impl RespEncode for SimpleError {
    open spec fn value(&self) -> Value {
        Value::Error(self@)
    }

    fn encode(self) -> (out: Result<Vec<u8>, EncodeError>) {
        let mut buf: Vec<u8> = Vec::new();
        push_line(&mut buf, TAG_ERROR, self.as_bytes());
        assert(buf@ =~= wire(Value::Error(self@)));
        Ok(buf)
    }
}

impl RespEncode for BulkString {
    open spec fn value(&self) -> Value {
        Value::BulkString(self@)
    }

    fn encode(self) -> (out: Result<Vec<u8>, EncodeError>) {
        let mut buf: Vec<u8> = Vec::new();
        write_bulk(self.deref().as_slice(), &mut buf);
        assert(buf@ =~= wire(Value::BulkString(self@)));
        Ok(buf)
    }
}

impl RespEncode for RespNullBulkString {
    open spec fn value(&self) -> Value {
        Value::NullBulkString
    }

    fn encode(self) -> (out: Result<Vec<u8>, EncodeError>) {
        let mut buf: Vec<u8> = Vec::new();
        write_null_bulk(&mut buf);
        assert(buf@ =~= wire(Value::NullBulkString));
        Ok(buf)
    }
}

impl RespEncode for RespArray {
    open spec fn value(&self) -> Value {
        Value::Array(self@)
    }

    fn encode(self) -> (out: Result<Vec<u8>, EncodeError>) {
        RespFrame::Array(self).encode()
    }
}

impl RespEncode for RespNullArray {
    open spec fn value(&self) -> Value {
        Value::NullArray
    }

    fn encode(self) -> (out: Result<Vec<u8>, EncodeError>) {
        let mut buf: Vec<u8> = Vec::new();
        write_null_array(&mut buf);
        assert(buf@ =~= wire(Value::NullArray));
        Ok(buf)
    }
}

impl RespEncode for RespNull {
    open spec fn value(&self) -> Value {
        Value::Null
    }

    fn encode(self) -> (out: Result<Vec<u8>, EncodeError>) {
        let mut buf: Vec<u8> = Vec::new();
        write_null(&mut buf);
        assert(buf@ =~= wire(Value::Null));
        Ok(buf)
    }
}

impl RespEncode for bool {
    open spec fn value(&self) -> Value {
        Value::Boolean(*self)
    }

    fn encode(self) -> (out: Result<Vec<u8>, EncodeError>) {
        let mut buf: Vec<u8> = Vec::new();
        write_boolean(self, &mut buf);
        assert(buf@ =~= wire(Value::Boolean(self)));
        Ok(buf)
    }
}

impl RespEncode for RespDouble {
    open spec fn value(&self) -> Value {
        Value::Double(self@)
    }

    fn encode(self) -> (out: Result<Vec<u8>, EncodeError>) {
        let mut buf: Vec<u8> = Vec::new();
        push_line(&mut buf, TAG_DOUBLE, self.as_bytes());
        assert(buf@ =~= wire(Value::Double(self@)));
        Ok(buf)
    }
}

impl RespEncode for RespMap {
    open spec fn value(&self) -> Value {
        Value::RespMap(self@)
    }

    fn encode(self) -> (out: Result<Vec<u8>, EncodeError>) {
        RespFrame::RespMap(self).encode()
    }
}

impl RespEncode for RespSet {
    open spec fn value(&self) -> Value {
        Value::RespSet(self@)
    }

    fn encode(self) -> (out: Result<Vec<u8>, EncodeError>) {
        RespFrame::RespSet(self).encode()
    }
}

} // verus!
