//! What holds of the decoder on a buffer that grows: a frame that has not
//! arrived in full is incomplete, and what was decided once stays decided.

use crate::decimal::decimal;
use crate::decode::{parse, parse_at, parse_items};
use crate::encode::{
    line, minus_one, signed_decimal, wire, wire_items, TAG_ARRAY, TAG_BOOLEAN, TAG_BULK_STRING,
    TAG_DOUBLE, TAG_ERROR, TAG_INTEGER, TAG_NULL, TAG_SET, TAG_SIMPLE_STRING,
};
use crate::error::DecodeError;
use crate::laws::{
    holds_at, lemma_header, lemma_length_decimal, lemma_minus_one, lemma_parse_wire_at,
    lemma_signed_decimal, lemma_wire_items_step,
};
use crate::text::{
    crlf, find_crlf, is_crlf_at, lemma_find_crlf_at, lemma_find_crlf_first, lemma_find_crlf_none,
    CR,
};
use crate::value::{encodable, lengths_fit, map_free, well_formed, within_depth, Value, MAX_DEPTH};
use vstd::prelude::*;

verus! {

/// `buf` ends inside `bytes`, which start at offset `pos`: what `buf` holds
/// from `pos` on is the beginning of `bytes`, and not all of them.
pub open spec fn cut_at(buf: Seq<u8>, pos: int, bytes: Seq<u8>) -> bool {
    0 <= pos <= buf.len() < pos + bytes.len() && buf.subrange(pos, buf.len() as int)
        == bytes.take(buf.len() - pos)
}

/// Where `buf` ends inside two runs of bytes, either it ends inside the
/// first, or the first stands there and it ends inside the second.
pub proof fn lemma_cut_at_parts(buf: Seq<u8>, pos: int, a: Seq<u8>, b: Seq<u8>)
    requires
        cut_at(buf, pos, a + b),
    ensures
        buf.len() < pos + a.len() ==> cut_at(buf, pos, a),
        buf.len() >= pos + a.len() ==> holds_at(buf, pos, a) && cut_at(buf, pos + a.len(), b),
{
    let have = buf.subrange(pos, buf.len() as int);
    let whole = a + b;
    if buf.len() < pos + a.len() {
        assert(have =~= a.take(buf.len() - pos)) by {
            assert forall|i: int| 0 <= i < have.len() implies have[i] == a[i] by {
                assert(have[i] == whole.take(buf.len() - pos)[i]);
            }
        }
    } else {
        assert(buf.subrange(pos, pos + a.len()) =~= a) by {
            assert forall|i: int| 0 <= i < a.len() implies buf[pos + i] == a[i] by {
                assert(have[i] == whole.take(buf.len() - pos)[i]);
            }
        }
        assert(buf.subrange(pos + a.len(), buf.len() as int) =~= b.take(
            buf.len() - pos - a.len(),
        )) by {
            assert forall|i: int| 0 <= i < buf.len() - pos - a.len() implies buf[pos + a.len() + i]
                == b[i] by {
                assert(have[a.len() + i] == whole.take(buf.len() - pos)[a.len() + i]);
            }
        }
    }
}

/// Where `buf` ends inside a header line, either nothing of the line has
/// arrived, or its tag has and its terminator has not.
pub proof fn lemma_header_cut(buf: Seq<u8>, pos: int, tag: u8, body: Seq<u8>)
    requires
        cut_at(buf, pos, line(tag, body)),
        forall|i: int| 0 <= i < body.len() ==> #[trigger] body[i] != CR,
    ensures
        pos < buf.len() ==> buf[pos] == tag,
        find_crlf(buf, pos + 1) is None,
{
    let head = line(tag, body);
    let have = buf.subrange(pos, buf.len() as int);
    if pos < buf.len() {
        assert(have[0] == head.take(buf.len() - pos)[0]);
    }
    assert forall|j: int| pos + 1 <= j implies !is_crlf_at(buf, j) by {
        if j + 1 < buf.len() {
            assert(have[j - pos] == head.take(buf.len() - pos)[j - pos]);
            assert(head[j - pos] == body[j - pos - 1]);
        }
    }
    lemma_find_crlf_none(buf, pos + 1);
}

/// Where `buf` ends inside a frame that starts at `pos`, the model finds
/// the frame incomplete.
pub proof fn lemma_parse_cut_at(buf: Seq<u8>, pos: int, v: Value, depth: nat)
    requires
        well_formed(v),
        encodable(v),
        map_free(v),
        lengths_fit(v),
        within_depth(v, depth),
        cut_at(buf, pos, wire(v)),
    ensures
        parse_at(buf, pos, depth) == Err::<(Value, int), DecodeError>(DecodeError::Incomplete),
    decreases v, 0nat,
{
    let none = Seq::<u8>::empty();
    match v {
        Value::SimpleString(s) => {
            lemma_header_cut(buf, pos, TAG_SIMPLE_STRING, s);
        },
        Value::Error(s) => {
            lemma_header_cut(buf, pos, TAG_ERROR, s);
        },
        Value::Double(s) => {
            lemma_header_cut(buf, pos, TAG_DOUBLE, s);
        },
        Value::Integer(n) => {
            lemma_signed_decimal(n);
            lemma_header_cut(buf, pos, TAG_INTEGER, signed_decimal(n));
        },
        Value::Null => {
            lemma_header_cut(buf, pos, TAG_NULL, none);
        },
        Value::Boolean(b) => {
            let body = if b {
                seq![116u8]
            } else {
                seq![102u8]
            };
            lemma_header_cut(buf, pos, TAG_BOOLEAN, body);
        },
        Value::NullBulkString => {
            lemma_minus_one();
            lemma_header_cut(buf, pos, TAG_BULK_STRING, minus_one());
        },
        Value::NullArray => {
            lemma_minus_one();
            lemma_header_cut(buf, pos, TAG_ARRAY, minus_one());
        },
        Value::BulkString(b) => {
            let numeral = decimal(b.len() as int);
            let head = line(TAG_BULK_STRING, numeral);
            lemma_length_decimal(b.len());
            assert(wire(v) =~= head + (b + crlf()));
            lemma_cut_at_parts(buf, pos, head, b + crlf());
            if buf.len() < pos + head.len() {
                lemma_header_cut(buf, pos, TAG_BULK_STRING, numeral);
            } else {
                assert(head + none =~= head);
                lemma_header(buf, pos, TAG_BULK_STRING, numeral, none);
            }
        },
        Value::Array(items) => {
            let numeral = decimal(items.len() as int);
            let head = line(TAG_ARRAY, numeral);
            let all = wire_items(items, items.len());
            lemma_length_decimal(items.len());
            lemma_cut_at_parts(buf, pos, head, all);
            if buf.len() < pos + head.len() {
                lemma_header_cut(buf, pos, TAG_ARRAY, numeral);
            } else {
                assert(head + none =~= head);
                lemma_header(buf, pos, TAG_ARRAY, numeral, none);
                lemma_parse_items_cut_at(buf, pos + head.len(), items, 0, (depth - 1) as nat);
            }
        },
        Value::RespSet(items) => {
            let numeral = decimal(items.len() as int);
            let head = line(TAG_SET, numeral);
            let all = wire_items(items, items.len());
            lemma_length_decimal(items.len());
            lemma_cut_at_parts(buf, pos, head, all);
            if buf.len() < pos + head.len() {
                lemma_header_cut(buf, pos, TAG_SET, numeral);
            } else {
                assert(head + none =~= head);
                lemma_header(buf, pos, TAG_SET, numeral, none);
                lemma_parse_items_cut_at(buf, pos + head.len(), items, 0, (depth - 1) as nat);
            }
        },
        Value::BigNumber(_) => {},
        Value::RespMap(_) => {},
    }
}

/// Where `buf` ends inside frames that follow each other from `pos` on,
/// behind the first `k` of them, the model finds the others incomplete.
pub proof fn lemma_parse_items_cut_at(
    buf: Seq<u8>,
    pos: int,
    items: Seq<Value>,
    k: nat,
    depth: nat,
)
    requires
        k <= items.len(),
        forall|i: int|
            0 <= i < items.len() ==> {
                &&& well_formed(#[trigger] items[i])
                &&& encodable(items[i])
                &&& map_free(items[i])
                &&& lengths_fit(items[i])
                &&& within_depth(items[i], depth)
            },
        cut_at(buf, pos, wire_items(items, items.len())),
        pos + wire_items(items, k).len() <= buf.len(),
    ensures
        parse_items(buf, pos + wire_items(items, k).len(), (items.len() - k) as nat, depth) == Err::<
            (Seq<Value>, int),
            DecodeError,
        >(DecodeError::Incomplete),
    decreases items, items.len() - k,
{
    let here = pos + wire_items(items, k).len();
    assert(k < items.len());
    lemma_wire_items_step(items, k);
    lemma_cut_items_at(buf, pos, items, items.len(), k);
    if here + wire(items[k as int]).len() <= buf.len() {
        lemma_parse_wire_at(buf, here, items[k as int], depth);
        lemma_parse_items_cut_at(buf, pos, items, k + 1, depth);
    } else {
        lemma_parse_cut_at(buf, here, items[k as int], depth);
    }
}

/// Where `buf` ends inside the wire forms of `n` frames that start at
/// `pos`, and not before frame `k`, that frame stands there or `buf` ends
/// inside it.
pub proof fn lemma_cut_items_at(buf: Seq<u8>, pos: int, items: Seq<Value>, n: nat, k: nat)
    requires
        k < n <= items.len(),
        cut_at(buf, pos, wire_items(items, n)),
        pos + wire_items(items, k).len() <= buf.len(),
    ensures
        pos + wire_items(items, k + 1).len() <= buf.len() ==> holds_at(
            buf,
            pos + wire_items(items, k).len(),
            wire(items[k as int]),
        ),
        pos + wire_items(items, k + 1).len() > buf.len() ==> cut_at(
            buf,
            pos + wire_items(items, k).len(),
            wire(items[k as int]),
        ),
    decreases n,
{
    let before = wire_items(items, (n - 1) as nat);
    let last = wire(items[n - 1]);
    assert(wire_items(items, n) == before + last);
    lemma_cut_at_parts(buf, pos, before, last);
    lemma_wire_items_step(items, k);
    if k < n - 1 {
        lemma_wire_items_grow(items, k + 1, (n - 1) as nat);
        if buf.len() < pos + before.len() {
            lemma_cut_items_at(buf, pos, items, (n - 1) as nat, k);
        } else {
            crate::laws::lemma_wire_items_at(buf, pos, items, (n - 1) as nat, k);
        }
    }
}

/// The wire forms of more frames are not shorter.
pub proof fn lemma_wire_items_grow(items: Seq<Value>, k: nat, n: nat)
    requires
        k <= n <= items.len(),
    ensures
        wire_items(items, k).len() <= wire_items(items, n).len(),
    decreases n,
{
    if k < n {
        lemma_wire_items_grow(items, k, (n - 1) as nat);
    }
}

/// While a frame has not arrived in full, the decoder finds it incomplete:
/// so it is of every beginning of a wire form that is not the whole.
pub proof fn law_incomplete_until_whole(v: Value, arrived: int)
    requires
        well_formed(v),
        encodable(v),
        map_free(v),
        lengths_fit(v),
        within_depth(v, MAX_DEPTH as nat),
        0 <= arrived < wire(v).len(),
    ensures
        parse(wire(v).take(arrived)) == Err::<(Value, int), DecodeError>(DecodeError::Incomplete),
{
    let buf = wire(v).take(arrived);
    assert(buf.subrange(0, buf.len() as int) =~= wire(v).take(buf.len() - 0));
    lemma_parse_cut_at(buf, 0, v, MAX_DEPTH as nat);
}

/// `short` is a beginning of `long`.
pub open spec fn begins(long: Seq<u8>, short: Seq<u8>) -> bool {
    short.len() <= long.len() && long.take(short.len() as int) == short
}

/// A terminator that was found is found again once more bytes have
/// arrived.
pub proof fn lemma_find_crlf_grown(short: Seq<u8>, long: Seq<u8>, from: int)
    requires
        begins(long, short),
        0 <= from,
        find_crlf(short, from) is Some,
    ensures
        find_crlf(long, from) == find_crlf(short, from),
{
    lemma_find_crlf_first(short, from);
    let at = find_crlf(short, from)->0;
    assert forall|j: int| from <= j <= at implies is_crlf_at(long, j) == is_crlf_at(short, j) by {
        assert(long.take(short.len() as int)[j] == short[j]);
        assert(long.take(short.len() as int)[j + 1] == short[j + 1]);
    }
    lemma_find_crlf_at(long, from, at);
}

/// What the model has decided at an offset, a frame or a breach of the
/// grammar, it decides again once more bytes have arrived.
pub proof fn lemma_parse_at_grown(short: Seq<u8>, long: Seq<u8>, pos: int, depth: nat)
    requires
        begins(long, short),
        parse_at(short, pos, depth) != Err::<(Value, int), DecodeError>(DecodeError::Incomplete),
    ensures
        parse_at(long, pos, depth) == parse_at(short, pos, depth),
    decreases depth, 0nat,
{
    let window = long.take(short.len() as int);
    assert(0 <= pos < short.len());
    assert(long[pos] == short[pos]) by {
        assert(window[pos] == short[pos]);
    }
    if crate::decode::is_tag(short[pos]) {
        lemma_find_crlf_grown(short, long, pos + 1);
        lemma_find_crlf_first(short, pos + 1);
        let end = find_crlf(short, pos + 1)->0;
        let next = end + 2;
        assert(long.subrange(pos + 1, end) =~= short.subrange(pos + 1, end)) by {
            assert forall|i: int| pos + 1 <= i < end implies long[i] == short[i] by {
                assert(window[i] == short[i]);
            }
        }
        let tag = short[pos];
        let body = short.subrange(pos + 1, end);
        if tag == TAG_BULK_STRING {
            if let Some(n) = crate::decimal::integer_value(body) {
                if n >= 0 {
                    let stop = next + n;
                    assert(is_crlf_at(long, stop) == is_crlf_at(short, stop)) by {
                        assert(window[stop] == short[stop]);
                        assert(window[stop + 1] == short[stop + 1]);
                    }
                    assert(long.subrange(next, stop) =~= short.subrange(next, stop)) by {
                        assert forall|i: int| next <= i < stop implies long[i] == short[i] by {
                            assert(window[i] == short[i]);
                        }
                    }
                }
            }
        } else if tag == TAG_ARRAY || tag == TAG_SET {
            if let Some(n) = crate::decimal::integer_value(body) {
                if n >= 0 && depth > 0 {
                    lemma_parse_items_grown(short, long, next, n as nat, (depth - 1) as nat);
                }
            }
        }
    }
}

/// What the model has decided of frames that follow each other, it
/// decides again once more bytes have arrived.
pub proof fn lemma_parse_items_grown(
    short: Seq<u8>,
    long: Seq<u8>,
    pos: int,
    count: nat,
    depth: nat,
)
    requires
        begins(long, short),
        parse_items(short, pos, count, depth) != Err::<(Seq<Value>, int), DecodeError>(
            DecodeError::Incomplete,
        ),
    ensures
        parse_items(long, pos, count, depth) == parse_items(short, pos, count, depth),
    decreases depth, count + 1,
{
    if count > 0 {
        lemma_parse_at_grown(short, long, pos, depth);
        if let Ok((first, next)) = parse_at(short, pos, depth) {
            lemma_parse_items_grown(short, long, next, (count - 1) as nat, depth);
        }
    }
}

/// Once the decoder has found a frame or a breach of the grammar, bytes
/// that arrive later change nothing: the same frame with the same length,
/// or the same breach, is found in the grown buffer.
pub proof fn law_decided_stays(buf: Seq<u8>, more: Seq<u8>)
    requires
        parse(buf) != Err::<(Value, int), DecodeError>(DecodeError::Incomplete),
    ensures
        parse(buf + more) == parse(buf),
{
    assert((buf + more).take(buf.len() as int) =~= buf);
    lemma_parse_at_grown(buf, buf + more, 0, MAX_DEPTH as nat);
}

/// A frame that the decoder finds ends within the buffer, and behind where
/// it starts.
pub proof fn lemma_parse_at_bounds(buf: Seq<u8>, pos: int, depth: nat)
    requires
        parse_at(buf, pos, depth) is Ok,
    ensures
        0 <= pos < parse_at(buf, pos, depth)->Ok_0.1 <= buf.len(),
    decreases depth, 0nat,
{
    lemma_find_crlf_first(buf, pos + 1);
    let end = find_crlf(buf, pos + 1)->0;
    let tag = buf[pos];
    let body = buf.subrange(pos + 1, end);
    if tag == TAG_ARRAY || tag == TAG_SET {
        if let Some(n) = crate::decimal::integer_value(body) {
            if n >= 0 && depth > 0 {
                lemma_parse_items_bounds(buf, end + 2, n as nat, (depth - 1) as nat);
            }
        }
    }
}

/// Frames that the decoder finds one after the other end within the
/// buffer.
pub proof fn lemma_parse_items_bounds(buf: Seq<u8>, pos: int, count: nat, depth: nat)
    requires
        parse_items(buf, pos, count, depth) is Ok,
        0 <= pos <= buf.len(),
    ensures
        pos <= parse_items(buf, pos, count, depth)->Ok_0.1 <= buf.len(),
        parse_items(buf, pos, count, depth)->Ok_0.0.len() == count,
    decreases depth, count + 1,
{
    if count > 0 {
        lemma_parse_at_bounds(buf, pos, depth);
        let next = parse_at(buf, pos, depth)->Ok_0.1;
        lemma_parse_items_bounds(buf, next, (count - 1) as nat, depth);
    }
}

/// The decoder never takes part of a frame: what it finds ends within the
/// buffer, takes at least one byte, and is found again, with the same
/// length, in the bytes it took alone.
pub proof fn law_whole_frames_only(buf: Seq<u8>)
    requires
        parse(buf) is Ok,
    ensures
        0 < parse(buf)->Ok_0.1 <= buf.len(),
        parse(buf.take(parse(buf)->Ok_0.1)) == parse(buf),
{
    lemma_parse_at_bounds(buf, 0, MAX_DEPTH as nat);
    let used = parse(buf)->Ok_0.1;
    let taken = buf.take(used);
    assert(buf.take(taken.len() as int) =~= taken);
    lemma_parse_at_shrunk(buf, taken, 0, MAX_DEPTH as nat);
}

/// A frame that the model finds is found again in every beginning of the
/// buffer that holds it whole.
pub proof fn lemma_parse_at_shrunk(long: Seq<u8>, short: Seq<u8>, pos: int, depth: nat)
    requires
        begins(long, short),
        parse_at(long, pos, depth) is Ok,
        parse_at(long, pos, depth)->Ok_0.1 <= short.len(),
    ensures
        parse_at(short, pos, depth) == parse_at(long, pos, depth),
    decreases depth, 0nat,
{
    let window = long.take(short.len() as int);
    lemma_parse_at_bounds(long, pos, depth);
    lemma_find_crlf_first(long, pos + 1);
    let end = find_crlf(long, pos + 1)->0;
    let next = end + 2;
    let tag = long[pos];
    let body = long.subrange(pos + 1, end);
    let last = parse_at(long, pos, depth)->Ok_0.1;
    assert(next <= last) by {
        if tag == TAG_ARRAY || tag == TAG_SET {
            if let Some(n) = crate::decimal::integer_value(body) {
                if n >= 0 && depth > 0 {
                    lemma_parse_items_bounds(long, next, n as nat, (depth - 1) as nat);
                }
            }
        }
    }
    assert(short[pos] == long[pos]) by {
        assert(window[pos] == short[pos]);
    }
    assert forall|j: int| pos + 1 <= j <= end implies is_crlf_at(short, j) == is_crlf_at(
        long,
        j,
    ) by {
        assert(window[j] == short[j]);
        assert(window[j + 1] == short[j + 1]);
    }
    lemma_find_crlf_at(short, pos + 1, end);
    assert(short.subrange(pos + 1, end) =~= body) by {
        assert forall|i: int| pos + 1 <= i < end implies long[i] == short[i] by {
            assert(window[i] == short[i]);
        }
    }
    if tag == TAG_BULK_STRING {
        if let Some(n) = crate::decimal::integer_value(body) {
            if n >= 0 {
                let stop = next + n;
                assert(is_crlf_at(long, stop) == is_crlf_at(short, stop)) by {
                    assert(window[stop] == short[stop]);
                    assert(window[stop + 1] == short[stop + 1]);
                }
                assert(long.subrange(next, stop) =~= short.subrange(next, stop)) by {
                    assert forall|i: int| next <= i < stop implies long[i] == short[i] by {
                        assert(window[i] == short[i]);
                    }
                }
            }
        }
    } else if tag == TAG_ARRAY || tag == TAG_SET {
        if let Some(n) = crate::decimal::integer_value(body) {
            if n >= 0 && depth > 0 {
                lemma_parse_items_shrunk(long, short, next, n as nat, (depth - 1) as nat);
            }
        }
    }
}

/// Frames that the model finds one after the other are found again in
/// every beginning of the buffer that holds them whole.
pub proof fn lemma_parse_items_shrunk(
    long: Seq<u8>,
    short: Seq<u8>,
    pos: int,
    count: nat,
    depth: nat,
)
    requires
        begins(long, short),
        0 <= pos <= long.len(),
        parse_items(long, pos, count, depth) is Ok,
        parse_items(long, pos, count, depth)->Ok_0.1 <= short.len(),
    ensures
        parse_items(short, pos, count, depth) == parse_items(long, pos, count, depth),
    decreases depth, count + 1,
{
    if count > 0 {
        lemma_parse_at_bounds(long, pos, depth);
        let next = parse_at(long, pos, depth)->Ok_0.1;
        lemma_parse_items_bounds(long, next, (count - 1) as nat, depth);
        lemma_parse_at_shrunk(long, short, pos, depth);
        lemma_parse_items_shrunk(long, short, next, (count - 1) as nat, depth);
    }
}

/// A frame that the model finds is one that can be encoded and found
/// again: it is well formed, has a wire form, holds no map, nests within
/// the depth that was left, and its lengths fit.
pub proof fn lemma_parsed_value(buf: Seq<u8>, pos: int, depth: nat)
    requires
        parse_at(buf, pos, depth) is Ok,
    ensures
        ({
            let v = parse_at(buf, pos, depth)->Ok_0.0;
            &&& well_formed(v)
            &&& encodable(v)
            &&& map_free(v)
            &&& lengths_fit(v)
            &&& within_depth(v, depth)
        }),
    decreases depth, 0nat,
{
    lemma_find_crlf_first(buf, pos + 1);
    let end = find_crlf(buf, pos + 1)->0;
    let tag = buf[pos];
    let body = buf.subrange(pos + 1, end);
    if tag == TAG_ARRAY || tag == TAG_SET {
        if let Some(n) = crate::decimal::integer_value(body) {
            if n >= 0 && depth > 0 {
                lemma_parsed_items(buf, end + 2, n as nat, (depth - 1) as nat);
                lemma_parse_items_bounds(buf, end + 2, n as nat, (depth - 1) as nat);
            }
        }
    }
}

/// Frames that the model finds one after the other are such frames too.
pub proof fn lemma_parsed_items(buf: Seq<u8>, pos: int, count: nat, depth: nat)
    requires
        parse_items(buf, pos, count, depth) is Ok,
    ensures
        ({
            let items = parse_items(buf, pos, count, depth)->Ok_0.0;
            forall|i: int|
                0 <= i < items.len() ==> {
                    &&& well_formed(#[trigger] items[i])
                    &&& encodable(items[i])
                    &&& map_free(items[i])
                    &&& lengths_fit(items[i])
                    &&& within_depth(items[i], depth)
                }
        }),
    decreases depth, count + 1,
{
    if count > 0 {
        lemma_parsed_value(buf, pos, depth);
        let first = parse_at(buf, pos, depth)->Ok_0.0;
        let next = parse_at(buf, pos, depth)->Ok_0.1;
        lemma_parsed_items(buf, next, (count - 1) as nat, depth);
        let rest = parse_items(buf, next, (count - 1) as nat, depth)->Ok_0.0;
        let items = parse_items(buf, pos, count, depth)->Ok_0.0;
        assert(items == seq![first] + rest);
        assert forall|i: int| 0 <= i < items.len() implies {
            &&& well_formed(#[trigger] items[i])
            &&& encodable(items[i])
            &&& map_free(items[i])
            &&& lengths_fit(items[i])
            &&& within_depth(items[i], depth)
        } by {
            if i > 0 {
                assert(items[i] == rest[i - 1]);
            }
        }
    }
}

/// Whatever the decoder finds can be encoded again, and decoding that
/// wire form gives the same frame.
pub proof fn law_decoded_round_trips(buf: Seq<u8>)
    requires
        parse(buf) is Ok,
    ensures
        well_formed(parse(buf)->Ok_0.0),
        encodable(parse(buf)->Ok_0.0),
        parse(wire(parse(buf)->Ok_0.0)) == Ok::<(Value, int), DecodeError>(
            (parse(buf)->Ok_0.0, wire(parse(buf)->Ok_0.0).len() as int),
        ),
{
    lemma_parsed_value(buf, 0, MAX_DEPTH as nat);
    crate::laws::law_round_trip(parse(buf)->Ok_0.0);
}

} // verus!
