//! The decoder: what a buffer holds at an offset, and the functions that
//! read it.

use crate::decimal::{integer_value, parse_integer};
use crate::encode::{
    TAG_ARRAY, TAG_BOOLEAN, TAG_BULK_STRING, TAG_DOUBLE, TAG_ERROR, TAG_INTEGER, TAG_NULL,
    TAG_SET, TAG_SIMPLE_STRING,
};
use crate::error::{DecodeError, Malformed};
use crate::frame::{views, RespArray, RespFrame, RespSet};
use crate::scalar::{
    BulkString, RespDouble, RespNull, RespNullArray, RespNullBulkString, SimpleError,
    SimpleString,
};
use crate::text::{find_crlf, find_line_end, is_crlf_at, is_text, lemma_find_crlf_first, CR, LF};
use crate::value::{Value, MAX_DEPTH};
use vstd::prelude::*;
use vstd::slice::{slice_subrange, slice_to_vec};

verus! {

/// What the decoder finds: a value with the offset at which the next frame
/// starts, or the reason why there is none.
pub type Parsed = Result<(Value, int), DecodeError>;

/// What the decoder finds where several frames follow each other.
pub type ParsedItems = Result<(Seq<Value>, int), DecodeError>;

/// `b` is one of the nine tags.
pub open spec fn is_tag(b: u8) -> bool {
    b == TAG_SIMPLE_STRING || b == TAG_ERROR || b == TAG_INTEGER || b == TAG_BULK_STRING || b
        == TAG_ARRAY || b == TAG_NULL || b == TAG_BOOLEAN || b == TAG_DOUBLE || b == TAG_SET
}

/// Reading of a bulk string whose header ends before `start` and declares
/// `length` bytes.
pub open spec fn parse_bulk(buf: Seq<u8>, start: int, length: i64) -> Parsed {
    if length == -1 {
        Ok((Value::NullBulkString, start))
    } else if length < 0 {
        Err(DecodeError::Malformed(Malformed::NegativeLength))
    } else if buf.len() < start + length + 2 {
        Err(DecodeError::Incomplete)
    } else if !is_crlf_at(buf, start + length) {
        Err(DecodeError::Malformed(Malformed::MissingTerminator))
    } else {
        Ok((Value::BulkString(buf.subrange(start, start + length)), start + length + 2))
    }
}

/// Reading of a boolean from the body of its line.
pub open spec fn parse_boolean(body: Seq<u8>, next: int) -> Parsed {
    if body == seq![116u8] {
        Ok((Value::Boolean(true), next))
    } else if body == seq![102u8] {
        Ok((Value::Boolean(false), next))
    } else {
        Err(DecodeError::Malformed(Malformed::InvalidBoolean))
    }
}

/// The frame that starts at offset `pos` of `buf`, where collections may
/// still nest `depth` deep.
///
/// Every frame starts with a tag and a line. Until the terminator of that
/// line has arrived the frame is incomplete, whatever the line holds so far;
/// an unknown tag is refused at once.
pub open spec fn parse_at(buf: Seq<u8>, pos: int, depth: nat) -> Parsed
    decreases depth, 0nat,
{
    if pos < 0 || pos >= buf.len() {
        Err(DecodeError::Incomplete)
    } else if !is_tag(buf[pos]) {
        Err(DecodeError::Malformed(Malformed::UnknownTag))
    } else {
        match find_crlf(buf, pos + 1) {
            None => Err(DecodeError::Incomplete),
            Some(end) => {
                let tag = buf[pos];
                let body = buf.subrange(pos + 1, end);
                let next = end + 2;
                if tag == TAG_SIMPLE_STRING {
                    if is_text(body) {
                        Ok((Value::SimpleString(body), next))
                    } else {
                        Err(DecodeError::Malformed(Malformed::InvalidText))
                    }
                } else if tag == TAG_ERROR {
                    if is_text(body) {
                        Ok((Value::Error(body), next))
                    } else {
                        Err(DecodeError::Malformed(Malformed::InvalidText))
                    }
                } else if tag == TAG_DOUBLE {
                    if is_text(body) {
                        Ok((Value::Double(body), next))
                    } else {
                        Err(DecodeError::Malformed(Malformed::InvalidText))
                    }
                } else if tag == TAG_NULL {
                    if body.len() == 0 {
                        Ok((Value::Null, next))
                    } else {
                        Err(DecodeError::Malformed(Malformed::InvalidNull))
                    }
                } else if tag == TAG_BOOLEAN {
                    parse_boolean(body, next)
                } else {
                    match integer_value(body) {
                        None => Err(DecodeError::Malformed(Malformed::InvalidNumber)),
                        Some(n) => {
                            if tag == TAG_INTEGER {
                                Ok((Value::Integer(n), next))
                            } else if tag == TAG_BULK_STRING {
                                parse_bulk(buf, next, n)
                            } else if tag == TAG_ARRAY && n == -1 {
                                Ok((Value::NullArray, next))
                            } else if n < 0 {
                                Err(DecodeError::Malformed(Malformed::NegativeLength))
                            } else if depth == 0 {
                                Err(DecodeError::Malformed(Malformed::NestingTooDeep))
                            } else {
                                match parse_items(buf, next, n as nat, (depth - 1) as nat) {
                                    Err(e) => Err(e),
                                    Ok((items, after)) => if tag == TAG_ARRAY {
                                        Ok((Value::Array(items), after))
                                    } else {
                                        Ok((Value::RespSet(items), after))
                                    },
                                }
                            }
                        },
                    }
                }
            },
        }
    }
}

/// The `count` frames that follow each other from offset `pos` of `buf`.
/// The first that is incomplete or malformed decides.
pub open spec fn parse_items(buf: Seq<u8>, pos: int, count: nat, depth: nat) -> ParsedItems
    decreases depth, count + 1,
{
    if count == 0 {
        Ok((Seq::empty(), pos))
    } else {
        match parse_at(buf, pos, depth) {
            Err(e) => Err(e),
            Ok((first, next)) => prepend(first, parse_items(buf, next, (count - 1) as nat, depth)),
        }
    }
}

/// `rest` with `first` put before its frames.
pub open spec fn prepend(first: Value, rest: ParsedItems) -> ParsedItems {
    match rest {
        Err(e) => Err(e),
        Ok((items, after)) => Ok((seq![first] + items, after)),
    }
}

/// `rest` with `done` put before its frames.
pub open spec fn prepend_all(done: Seq<Value>, rest: ParsedItems) -> ParsedItems {
    match rest {
        Err(e) => Err(e),
        Ok((items, after)) => Ok((done + items, after)),
    }
}

/// The frame at the start of `buf`, with the number of bytes it takes.
pub open spec fn parse(buf: Seq<u8>) -> Parsed {
    parse_at(buf, 0, MAX_DEPTH as nat)
}

/// `out` is what the model finds.
pub open spec fn decoded_as(out: Result<(RespFrame, usize), DecodeError>, found: Parsed) -> bool {
    match out {
        Ok((frame, next)) => found == Ok::<(Value, int), DecodeError>((frame@, next as int)),
        Err(e) => found == Err::<(Value, int), DecodeError>(e),
    }
}

/// `out` is what the model finds where several frames follow each other.
pub open spec fn decoded_items_as(
    out: Result<(Vec<RespFrame>, usize), DecodeError>,
    found: ParsedItems,
) -> bool {
    match out {
        Ok((frames, next)) => found == Ok::<(Seq<Value>, int), DecodeError>(
            (views(frames@), next as int),
        ),
        Err(e) => found == Err::<(Seq<Value>, int), DecodeError>(e),
    }
}

/// Reads the frame that starts at offset `pos` of `buf`, where collections
/// may still nest `depth` deep, and gives it with the offset at which the
/// next frame starts.
pub fn decode_at(buf: &[u8], pos: usize, depth: usize) -> (out: Result<
    (RespFrame, usize),
    DecodeError,
>)
    ensures
        decoded_as(out, parse_at(buf@, pos as int, depth as nat)),
        out matches Ok((_, next)) ==> pos < next <= buf@.len(),
    decreases depth, 0nat,
{
    if pos >= buf.len() {
        return Err(DecodeError::Incomplete);
    }
    let tag = buf[pos];
    if !(tag == TAG_SIMPLE_STRING || tag == TAG_ERROR || tag == TAG_INTEGER || tag
        == TAG_BULK_STRING || tag == TAG_ARRAY || tag == TAG_NULL || tag == TAG_BOOLEAN || tag
        == TAG_DOUBLE || tag == TAG_SET) {
        return Err(DecodeError::Malformed(Malformed::UnknownTag));
    }
    let first = pos + 1;
    let end = match find_line_end(buf, first) {
        Some(end) => end,
        None => {
            return Err(DecodeError::Incomplete);
        },
    };
    proof {
        lemma_find_crlf_first(buf@, first as int);
    }
    let next = end + 2;
    if tag == TAG_SIMPLE_STRING {
        match SimpleString::from_utf8(slice_to_vec(slice_subrange(buf, first, end))) {
            Some(text) => Ok((RespFrame::SimpleString(text), next)),
            None => Err(DecodeError::Malformed(Malformed::InvalidText)),
        }
    } else if tag == TAG_ERROR {
        match SimpleError::from_utf8(slice_to_vec(slice_subrange(buf, first, end))) {
            Some(text) => Ok((RespFrame::Error(text), next)),
            None => Err(DecodeError::Malformed(Malformed::InvalidText)),
        }
    } else if tag == TAG_DOUBLE {
        match RespDouble::from_utf8(slice_to_vec(slice_subrange(buf, first, end))) {
            Some(numeral) => Ok((RespFrame::Double(numeral), next)),
            None => Err(DecodeError::Malformed(Malformed::InvalidText)),
        }
    } else if tag == TAG_NULL {
        if end == first {
            Ok((RespFrame::Null(RespNull), next))
        } else {
            Err(DecodeError::Malformed(Malformed::InvalidNull))
        }
    } else if tag == TAG_BOOLEAN {
        let ghost body = buf@.subrange(first as int, end as int);
        if end == first + 1 && buf[first] == 116u8 {
            assert(body =~= seq![116u8]);
            Ok((RespFrame::Boolean(true), next))
        } else if end == first + 1 && buf[first] == 102u8 {
            assert(body =~= seq![102u8]);
            Ok((RespFrame::Boolean(false), next))
        } else {
            assert(body != seq![116u8] && body != seq![102u8]) by {
                if body.len() == 1 {
                    assert(body[0] == buf@[first as int]);
                    assert(seq![116u8][0] == 116u8);
                    assert(seq![102u8][0] == 102u8);
                }
            }
            Err(DecodeError::Malformed(Malformed::InvalidBoolean))
        }
    } else {
        let n = match parse_integer(buf, first, end) {
            Some(n) => n,
            None => {
                return Err(DecodeError::Malformed(Malformed::InvalidNumber));
            },
        };
        if tag == TAG_INTEGER {
            Ok((RespFrame::Integer(n), next))
        } else if tag == TAG_BULK_STRING {
            decode_bulk(buf, next, n)
        } else if tag == TAG_ARRAY && n == -1 {
            Ok((RespFrame::NullArray(RespNullArray), next))
        } else if n < 0 {
            Err(DecodeError::Malformed(Malformed::NegativeLength))
        } else if depth == 0 {
            Err(DecodeError::Malformed(Malformed::NestingTooDeep))
        } else {
            match decode_items(buf, next, n as u64, depth - 1) {
                Err(e) => Err(e),
                Ok((frames, after)) => if tag == TAG_ARRAY {
                    Ok((RespFrame::Array(RespArray::new(frames)), after))
                } else {
                    Ok((RespFrame::RespSet(RespSet::new(frames)), after))
                },
            }
        }
    }
}

/// Reads the bulk string whose header ends before offset `start` of `buf`
/// and declares `length` bytes.
pub fn decode_bulk(buf: &[u8], start: usize, length: i64) -> (out: Result<
    (RespFrame, usize),
    DecodeError,
>)
    ensures
        decoded_as(out, parse_bulk(buf@, start as int, length)),
        out matches Ok((_, next)) ==> start <= next && (start <= buf@.len() ==> next
            <= buf@.len()),
{
    if length == -1 {
        return Ok((RespFrame::NullBulkString(RespNullBulkString), start));
    }
    if length < 0 {
        return Err(DecodeError::Malformed(Malformed::NegativeLength));
    }
    if start > buf.len() {
        return Err(DecodeError::Incomplete);
    }
    let available = buf.len() - start;
    if available < 2 || ((available - 2) as u64) < (length as u64) {
        return Err(DecodeError::Incomplete);
    }
    let stop = start + (length as usize);
    if buf[stop] != CR || buf[stop + 1] != LF {
        return Err(DecodeError::Malformed(Malformed::MissingTerminator));
    }
    let payload = slice_to_vec(slice_subrange(buf, start, stop));
    Ok((RespFrame::BulkString(BulkString::new(payload)), stop + 2))
}

/// Reads the `count` frames that follow each other from offset `pos` of
/// `buf`, and gives them with the offset at which the next frame starts.
pub fn decode_items(buf: &[u8], pos: usize, count: u64, depth: usize) -> (out: Result<
    (Vec<RespFrame>, usize),
    DecodeError,
>)
    ensures
        decoded_items_as(out, parse_items(buf@, pos as int, count as nat, depth as nat)),
        out matches Ok((_, next)) ==> pos <= next && (count > 0 ==> next <= buf@.len()),
    decreases depth, 1nat,
{
    let mut frames: Vec<RespFrame> = Vec::new();
    let mut cur: usize = pos;
    let mut i: u64 = 0;
    assert(views(frames@) =~= Seq::<Value>::empty());
    while i < count
        invariant
            i <= count,
            pos <= cur,
            i > 0 ==> cur <= buf@.len(),
            parse_items(buf@, pos as int, count as nat, depth as nat) == prepend_all(
                views(frames@),
                parse_items(buf@, cur as int, (count - i) as nat, depth as nat),
            ),
        decreases count - i,
    {
        let ghost done = views(frames@);
        let ghost rest = parse_items(buf@, cur as int, (count - i) as nat, depth as nat);
        match decode_at(buf, cur, depth) {
            Err(e) => {
                return Err(e);
            },
            Ok((frame, next)) => {
                let ghost tail = parse_items(
                    buf@,
                    next as int,
                    (count - i - 1) as nat,
                    depth as nat,
                );
                assert(rest == prepend(frame@, tail));
                frames.push(frame);
                assert(views(frames@) =~= done.push(frame@));
                assert(prepend_all(done, rest) == prepend_all(views(frames@), tail)) by {
                    if let Ok((items, after)) = tail {
                        assert(done + (seq![frame@] + items) =~= done.push(frame@) + items);
                    }
                }
                cur = next;
            },
        }
        i = i + 1;
    }
    assert(views(frames@) + Seq::<Value>::empty() =~= views(frames@));
    Ok((frames, cur))
}

/// A buffer of received bytes that a frame can be decoded from.
pub trait RespDecode: Sized {
    /// The bytes that the buffer holds.
    spec fn bytes(&self) -> Seq<u8>;

    /// Reads the frame at the start of `buf` and gives it with the number
    /// of bytes it takes. Nothing is kept between calls: where the frame is
    /// incomplete, decode the grown buffer from its start again.
    fn decode(buf: Self) -> (out: Result<(RespFrame, usize), DecodeError>)
        ensures
            decoded_as(out, parse(buf.bytes())),
    ;
}

impl<'a> RespDecode for &'a [u8] {
    open spec fn bytes(&self) -> Seq<u8> {
        self@
    }

    fn decode(buf: &'a [u8]) -> (out: Result<(RespFrame, usize), DecodeError>) {
        decode_at(buf, 0, MAX_DEPTH)
    }
}

impl<'a> RespDecode for &'a Vec<u8> {
    open spec fn bytes(&self) -> Seq<u8> {
        self@
    }

    fn decode(buf: &'a Vec<u8>) -> (out: Result<(RespFrame, usize), DecodeError>) {
        decode_at(buf.as_slice(), 0, MAX_DEPTH)
    }
}

} // verus!
