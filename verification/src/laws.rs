//! What holds of the encoder and the decoder together.

use crate::decimal::{
    decimal, digits_value, integer_value, lemma_decimal_bytes, lemma_decimal_read_back,
    unsigned_part,
};
use crate::decode::{parse, parse_at, parse_items};
use crate::decode_map::{collect, parse_key, parse_map, parse_map_at, parse_pairs};
use crate::encode::{
    line, minus_one, signed_decimal, wire, wire_items, wire_pairs, TAG_ARRAY, TAG_BOOLEAN,
    TAG_BULK_STRING, TAG_DOUBLE, TAG_ERROR, TAG_INTEGER, TAG_NULL, TAG_SET, TAG_SIMPLE_STRING,
};
use crate::keys::{lemma_position, map_insert};
use crate::text::{crlf, find_crlf, is_crlf_at, is_text, lemma_find_crlf_at, CR};
use crate::value::{
    encodable, key_before, keys_ascend, lengths_fit, map_free, well_formed, within_depth, Value,
    MAX_DEPTH,
};
use vstd::prelude::*;

verus! {

/// `bytes` stand in `buf` from offset `pos` on.
pub open spec fn holds_at(buf: Seq<u8>, pos: int, bytes: Seq<u8>) -> bool {
    0 <= pos && pos + bytes.len() <= buf.len() && buf.subrange(pos, pos + bytes.len()) == bytes
}

/// Where two runs of bytes stand one after the other, each stands there.
pub proof fn lemma_holds_at_parts(buf: Seq<u8>, pos: int, a: Seq<u8>, b: Seq<u8>)
    requires
        holds_at(buf, pos, a + b),
    ensures
        holds_at(buf, pos, a),
        holds_at(buf, pos + a.len(), b),
{
    let whole = buf.subrange(pos, pos + (a + b).len());
    assert(buf.subrange(pos, pos + a.len()) =~= a) by {
        assert forall|i: int| 0 <= i < a.len() implies buf[pos + i] == a[i] by {
            assert(whole[i] == (a + b)[i]);
        }
    }
    assert(buf.subrange(pos + a.len(), pos + a.len() + b.len()) =~= b) by {
        assert forall|i: int| 0 <= i < b.len() implies buf[pos + a.len() + i] == b[i] by {
            assert(whole[a.len() + i] == (a + b)[a.len() + i]);
        }
    }
}

/// The numeral `-1` reads as -1.
pub proof fn lemma_minus_one()
    ensures
        integer_value(minus_one()) == Some(-1i64),
        forall|i: int| 0 <= i < minus_one().len() ==> #[trigger] minus_one()[i] != CR,
{
    let s = minus_one();
    let d = unsigned_part(s);
    assert(d =~= seq![49u8]);
    assert(d.drop_last() =~= Seq::<u8>::empty());
    reveal_with_fuel(digits_value, 2);
    assert(digits_value(d) == 1);
}

/// The numeral of an integer frame holds no carriage return and reads as
/// the integer.
pub proof fn lemma_signed_decimal(n: i64)
    ensures
        integer_value(signed_decimal(n)) == Some(n),
        forall|i: int| 0 <= i < signed_decimal(n).len() ==> #[trigger] signed_decimal(n)[i] != CR,
{
    lemma_decimal_read_back(n);
    let s = signed_decimal(n);
    assert forall|i: int| 0 <= i < s.len() implies #[trigger] s[i] != CR by {
        if n >= 0 {
            if i > 0 {
                lemma_decimal_bytes(n as int, i - 1);
                assert(s[i] == decimal(n as int)[i - 1]);
            }
        } else {
            lemma_decimal_bytes(n as int, i);
        }
    }
}

/// The numeral of a length holds no carriage return and reads as the
/// length.
pub proof fn lemma_length_decimal(n: nat)
    requires
        n <= i64::MAX,
    ensures
        integer_value(decimal(n as int)) == Some(n as i64),
        forall|i: int| 0 <= i < decimal(n as int).len() ==> #[trigger] decimal(n as int)[i] != CR,
{
    lemma_decimal_read_back(n as i64);
    let s = decimal(n as int);
    assert forall|i: int| 0 <= i < s.len() implies #[trigger] s[i] != CR by {
        lemma_decimal_bytes(n as int, i);
    }
}

/// Where a header line stands at `pos`, followed by `rest`: the tag is at
/// `pos`, the line ends where its body ends, and `rest` stands behind its
/// terminator.
pub proof fn lemma_header(buf: Seq<u8>, pos: int, tag: u8, body: Seq<u8>, rest: Seq<u8>)
    requires
        holds_at(buf, pos, line(tag, body) + rest),
        forall|i: int| 0 <= i < body.len() ==> #[trigger] body[i] != CR,
    ensures
        0 <= pos < buf.len(),
        buf[pos] == tag,
        find_crlf(buf, pos + 1) == Some(pos + 1 + body.len()),
        buf.subrange(pos + 1, pos + 1 + body.len()) == body,
        holds_at(buf, pos + body.len() + 3, rest),
        line(tag, body).len() == body.len() + 3,
{
    let head = line(tag, body);
    lemma_holds_at_parts(buf, pos, head, rest);
    let window = buf.subrange(pos, pos + head.len());
    assert(buf[pos] == tag) by {
        assert(window[0] == head[0]);
    }
    let at = pos + 1 + body.len();
    assert forall|j: int| pos + 1 <= j < at implies !is_crlf_at(buf, j) by {
        assert(window[j - pos] == head[j - pos]);
        assert(head[j - pos] == body[j - pos - 1]);
    }
    assert(is_crlf_at(buf, at)) by {
        assert(window[at - pos] == head[at - pos]);
        assert(window[at - pos + 1] == head[at - pos + 1]);
    }
    lemma_find_crlf_at(buf, pos + 1, at);
    assert(buf.subrange(pos + 1, at) =~= body) by {
        assert forall|i: int| 0 <= i < body.len() implies buf[pos + 1 + i] == body[i] by {
            assert(window[i + 1] == head[i + 1]);
        }
    }
}

/// The wire forms of the first `k + 1` frames are those of the first `k`
/// followed by that of frame `k`.
pub proof fn lemma_wire_items_step(items: Seq<Value>, k: nat)
    requires
        k < items.len(),
    ensures
        wire_items(items, k + 1) == wire_items(items, k) + wire(items[k as int]),
{
}

/// Where the wire forms of `n` frames stand at `pos`, that of frame `k`
/// stands behind those of the first `k`.
pub proof fn lemma_wire_items_at(buf: Seq<u8>, pos: int, items: Seq<Value>, n: nat, k: nat)
    requires
        k < n <= items.len(),
        holds_at(buf, pos, wire_items(items, n)),
    ensures
        holds_at(buf, pos + wire_items(items, k).len(), wire(items[k as int])),
    decreases n,
{
    let before = wire_items(items, (n - 1) as nat);
    let last = wire(items[n - 1]);
    assert(wire_items(items, n) == before + last);
    lemma_holds_at_parts(buf, pos, before, last);
    if k < n - 1 {
        lemma_wire_items_at(buf, pos, items, (n - 1) as nat, k);
    }
}

/// A frame that stands at `pos` is what the model finds there, and the
/// next frame starts behind it.
pub proof fn lemma_parse_wire_at(buf: Seq<u8>, pos: int, v: Value, depth: nat)
    requires
        well_formed(v),
        encodable(v),
        map_free(v),
        lengths_fit(v),
        within_depth(v, depth),
        holds_at(buf, pos, wire(v)),
    ensures
        parse_at(buf, pos, depth) == Ok::<(Value, int), crate::error::DecodeError>(
            (v, pos + wire(v).len()),
        ),
    decreases v, 0nat,
{
    let none = Seq::<u8>::empty();
    match v {
        Value::SimpleString(s) => {
            assert(wire(v) =~= line(TAG_SIMPLE_STRING, s) + none);
            lemma_header(buf, pos, TAG_SIMPLE_STRING, s, none);
        },
        Value::Error(s) => {
            assert(wire(v) =~= line(TAG_ERROR, s) + none);
            lemma_header(buf, pos, TAG_ERROR, s, none);
        },
        Value::Double(s) => {
            assert(wire(v) =~= line(TAG_DOUBLE, s) + none);
            lemma_header(buf, pos, TAG_DOUBLE, s, none);
        },
        Value::Integer(n) => {
            lemma_signed_decimal(n);
            assert(wire(v) =~= line(TAG_INTEGER, signed_decimal(n)) + none);
            lemma_header(buf, pos, TAG_INTEGER, signed_decimal(n), none);
        },
        Value::Null => {
            assert(wire(v) =~= line(TAG_NULL, none) + none);
            lemma_header(buf, pos, TAG_NULL, none, none);
        },
        Value::Boolean(b) => {
            let body = if b {
                seq![116u8]
            } else {
                seq![102u8]
            };
            assert(wire(v) =~= line(TAG_BOOLEAN, body) + none);
            lemma_header(buf, pos, TAG_BOOLEAN, body, none);
            assert(seq![116u8][0] != seq![102u8][0]);
        },
        Value::NullBulkString => {
            lemma_minus_one();
            assert(wire(v) =~= line(TAG_BULK_STRING, minus_one()) + none);
            lemma_header(buf, pos, TAG_BULK_STRING, minus_one(), none);
        },
        Value::NullArray => {
            lemma_minus_one();
            assert(wire(v) =~= line(TAG_ARRAY, minus_one()) + none);
            lemma_header(buf, pos, TAG_ARRAY, minus_one(), none);
        },
        Value::BulkString(b) => {
            let numeral = decimal(b.len() as int);
            lemma_length_decimal(b.len());
            assert(wire(v) =~= line(TAG_BULK_STRING, numeral) + (b + crlf()));
            lemma_header(buf, pos, TAG_BULK_STRING, numeral, b + crlf());
            let start = pos + numeral.len() + 3;
            lemma_holds_at_parts(buf, start, b, crlf());
            let window = buf.subrange(start + b.len(), start + b.len() + 2);
            assert(window[0] == crlf()[0] && window[1] == crlf()[1]);
            assert(is_crlf_at(buf, start + b.len()));
        },
        Value::Array(items) => {
            let numeral = decimal(items.len() as int);
            let all = wire_items(items, items.len());
            lemma_length_decimal(items.len());
            lemma_header(buf, pos, TAG_ARRAY, numeral, all);
            let start = pos + numeral.len() + 3;
            lemma_parse_items_at(buf, start, items, 0, (depth - 1) as nat);
            assert(items.skip(0) =~= items);
        },
        Value::RespSet(items) => {
            let numeral = decimal(items.len() as int);
            let all = wire_items(items, items.len());
            lemma_length_decimal(items.len());
            lemma_header(buf, pos, TAG_SET, numeral, all);
            let start = pos + numeral.len() + 3;
            lemma_parse_items_at(buf, start, items, 0, (depth - 1) as nat);
            assert(items.skip(0) =~= items);
        },
        Value::BigNumber(_) => {},
        Value::RespMap(_) => {},
    }
}

/// Frames that stand one after the other from `pos` on are what the model
/// finds there: from behind the first `k`, the others.
pub proof fn lemma_parse_items_at(buf: Seq<u8>, pos: int, items: Seq<Value>, k: nat, depth: nat)
    requires
        k <= items.len(),
        forall|i: int|
            0 <= i < items.len() ==> {
                &&& well_formed(#[trigger] items[i])
                &&& encodable(items[i])
                &&& map_free(items[i])
                &&& lengths_fit(items[i])
                &&& within_depth(items[i], depth)
            },
        holds_at(buf, pos, wire_items(items, items.len())),
    ensures
        parse_items(buf, pos + wire_items(items, k).len(), (items.len() - k) as nat, depth) == Ok::<
            (Seq<Value>, int),
            crate::error::DecodeError,
        >((items.skip(k as int), pos + wire_items(items, items.len()).len())),
    decreases items, items.len() - k,
{
    if k == items.len() {
        assert(items.skip(k as int) =~= Seq::<Value>::empty());
    } else {
        let here = pos + wire_items(items, k).len();
        lemma_wire_items_at(buf, pos, items, items.len(), k);
        lemma_parse_wire_at(buf, here, items[k as int], depth);
        lemma_wire_items_step(items, k);
        lemma_parse_items_at(buf, pos, items, k + 1, depth);
        assert(seq![items[k as int]] + items.skip((k + 1) as int) =~= items.skip(k as int));
    }
}

/// Decoding what was encoded gives the value back and takes exactly the
/// bytes of its wire form, whatever follows them in the buffer.
///
/// This holds of every well-formed value that has a wire form, holds no
/// map, nests no deeper than the decoder accepts and has no length beyond
/// the largest `i64`.
pub proof fn law_round_trip_in_stream(v: Value, more: Seq<u8>)
    requires
        well_formed(v),
        encodable(v),
        map_free(v),
        lengths_fit(v),
        within_depth(v, MAX_DEPTH as nat),
    ensures
        parse(wire(v) + more) == Ok::<(Value, int), crate::error::DecodeError>(
            (v, wire(v).len() as int),
        ),
{
    let buf = wire(v) + more;
    assert(buf.subrange(0, wire(v).len() as int) =~= wire(v));
    lemma_parse_wire_at(buf, 0, v, MAX_DEPTH as nat);
}

/// Decoding the wire form of a value gives the value back and takes all of
/// its bytes.
pub proof fn law_round_trip(v: Value)
    requires
        well_formed(v),
        encodable(v),
        map_free(v),
        lengths_fit(v),
        within_depth(v, MAX_DEPTH as nat),
    ensures
        parse(wire(v)) == Ok::<(Value, int), crate::error::DecodeError>((v, wire(v).len() as int)),
{
    law_round_trip_in_stream(v, Seq::empty());
    assert(wire(v) + Seq::<u8>::empty() =~= wire(v));
}

/// Entries whose keys ascend make the map that holds them in that order.
pub proof fn lemma_collect_ascending(pairs: Seq<(Seq<u8>, Value)>)
    requires
        keys_ascend(pairs),
    ensures
        collect(pairs) == pairs,
    decreases pairs.len(),
{
    if pairs.len() > 0 {
        let front = pairs.drop_last();
        let last = pairs.last();
        assert forall|i: int, j: int| 0 <= i < j < front.len() implies key_before(
            #[trigger] front[i].0,
            #[trigger] front[j].0,
        ) by {
            assert(front[i] == pairs[i] && front[j] == pairs[j]);
        }
        lemma_collect_ascending(front);
        assert forall|i: int| 0 <= i < front.len() implies key_before(
            (#[trigger] front[i]).0,
            last.0,
        ) by {
            assert(front[i] == pairs[i]);
        }
        lemma_position(front, last.0, front.len() as int);
        assert(map_insert(front, last.0, last.1) =~= pairs);
    } else {
        assert(pairs =~= Seq::<(Seq<u8>, Value)>::empty());
    }
}

/// Where the wire forms of `n` entries stand at `pos`, the key of entry
/// `k` stands behind those of the first `k`, and its frame behind the key.
pub proof fn lemma_wire_pairs_at(
    buf: Seq<u8>,
    pos: int,
    pairs: Seq<(Seq<u8>, Value)>,
    n: nat,
    k: nat,
)
    requires
        k < n <= pairs.len(),
        holds_at(buf, pos, wire_pairs(pairs, n)),
    ensures
        holds_at(
            buf,
            pos + wire_pairs(pairs, k).len(),
            line(TAG_SIMPLE_STRING, pairs[k as int].0),
        ),
        holds_at(
            buf,
            pos + wire_pairs(pairs, k).len() + line(TAG_SIMPLE_STRING, pairs[k as int].0).len(),
            wire(pairs[k as int].1),
        ),
    decreases n,
{
    let before = wire_pairs(pairs, (n - 1) as nat);
    let key = line(TAG_SIMPLE_STRING, pairs[n - 1].0);
    let value = wire(pairs[n - 1].1);
    assert(wire_pairs(pairs, n) == before + key + value);
    lemma_holds_at_parts(buf, pos, before + key, value);
    lemma_holds_at_parts(buf, pos, before, key);
    if k < n - 1 {
        lemma_wire_pairs_at(buf, pos, pairs, (n - 1) as nat, k);
    }
}

/// Entries that stand one after the other from `pos` on are what the model
/// finds there: from behind the first `k`, the others.
pub proof fn lemma_parse_pairs_at(
    buf: Seq<u8>,
    pos: int,
    pairs: Seq<(Seq<u8>, Value)>,
    k: nat,
    depth: nat,
)
    requires
        k <= pairs.len(),
        forall|i: int|
            0 <= i < pairs.len() ==> {
                &&& is_text((#[trigger] pairs[i]).0)
                &&& well_formed(pairs[i].1)
                &&& encodable(pairs[i].1)
                &&& map_free(pairs[i].1)
                &&& lengths_fit(pairs[i].1)
                &&& within_depth(pairs[i].1, depth)
            },
        holds_at(buf, pos, wire_pairs(pairs, pairs.len())),
    ensures
        parse_pairs(buf, pos + wire_pairs(pairs, k).len(), (pairs.len() - k) as nat, depth) == Ok::<
            (Seq<(Seq<u8>, Value)>, int),
            crate::error::DecodeError,
        >((pairs.skip(k as int), pos + wire_pairs(pairs, pairs.len()).len())),
    decreases pairs.len() - k,
{
    if k == pairs.len() {
        assert(pairs.skip(k as int) =~= Seq::<(Seq<u8>, Value)>::empty());
    } else {
        let here = pos + wire_pairs(pairs, k).len();
        let pair = pairs[k as int];
        lemma_wire_pairs_at(buf, pos, pairs, pairs.len(), k);
        assert(wire(Value::SimpleString(pair.0)) == line(TAG_SIMPLE_STRING, pair.0));
        lemma_parse_wire_at(buf, here, Value::SimpleString(pair.0), 0);
        let window = buf.subrange(here, here + line(TAG_SIMPLE_STRING, pair.0).len());
        assert(buf[here] == TAG_SIMPLE_STRING) by {
            assert(window[0] == line(TAG_SIMPLE_STRING, pair.0)[0]);
        }
        let after_key = here + line(TAG_SIMPLE_STRING, pair.0).len();
        assert(parse_key(buf, here) == Ok::<(Seq<u8>, int), crate::error::DecodeError>(
            (pair.0, after_key),
        ));
        lemma_parse_wire_at(buf, after_key, pair.1, depth);
        assert(wire_pairs(pairs, k + 1) == wire_pairs(pairs, k) + line(TAG_SIMPLE_STRING, pair.0)
            + wire(pair.1));
        lemma_parse_pairs_at(buf, pos, pairs, k + 1, depth);
        assert(seq![pair] + pairs.skip((k + 1) as int) =~= pairs.skip(k as int));
    }
}

/// Decoding, as a map, what was encoded from a map gives the map back and
/// takes exactly the bytes of its wire form, whatever follows them in the
/// buffer.
///
/// This holds of every well-formed map that has a wire form, holds no map
/// in its frames, nests no deeper than the decoder accepts and has no
/// length beyond the largest `i64`.
pub proof fn law_map_round_trip(pairs: Seq<(Seq<u8>, Value)>, more: Seq<u8>)
    requires
        well_formed(Value::RespMap(pairs)),
        encodable(Value::RespMap(pairs)),
        forall|i: int| 0 <= i < pairs.len() ==> map_free((#[trigger] pairs[i]).1),
        lengths_fit(Value::RespMap(pairs)),
        within_depth(Value::RespMap(pairs), MAX_DEPTH as nat),
    ensures
        parse_map(wire(Value::RespMap(pairs)) + more) == Ok::<
            (Seq<(Seq<u8>, Value)>, int),
            crate::error::DecodeError,
        >((pairs, wire(Value::RespMap(pairs)).len() as int)),
{
    let v = Value::RespMap(pairs);
    let buf = wire(v) + more;
    assert(holds_at(buf, 0, wire(v))) by {
        assert(buf.subrange(0, wire(v).len() as int) =~= wire(v));
    }
    lemma_parse_map_at(buf, 0, pairs, MAX_DEPTH as nat);
}

/// A map that stands at `pos` is what the model finds there.
pub proof fn lemma_parse_map_at(buf: Seq<u8>, pos: int, pairs: Seq<(Seq<u8>, Value)>, depth: nat)
    requires
        depth > 0,
        pairs.len() <= i64::MAX,
        keys_ascend(pairs),
        forall|i: int|
            0 <= i < pairs.len() ==> {
                &&& is_text((#[trigger] pairs[i]).0)
                &&& well_formed(pairs[i].1)
                &&& encodable(pairs[i].1)
                &&& map_free(pairs[i].1)
                &&& lengths_fit(pairs[i].1)
                &&& within_depth(pairs[i].1, (depth - 1) as nat)
            },
        holds_at(buf, pos, wire(Value::RespMap(pairs))),
    ensures
        parse_map_at(buf, pos, depth) == Ok::<
            (Seq<(Seq<u8>, Value)>, int),
            crate::error::DecodeError,
        >((pairs, pos + wire(Value::RespMap(pairs)).len())),
{
    let numeral = decimal(pairs.len() as int);
    let all = wire_pairs(pairs, pairs.len());
    lemma_length_decimal(pairs.len());
    lemma_header(buf, pos, TAG_ARRAY, numeral, all);
    let start = pos + numeral.len() + 3;
    lemma_parse_pairs_at(buf, start, pairs, 0, (depth - 1) as nat);
    assert(pairs.skip(0) =~= pairs);
    assert(wire_pairs(pairs, 0).len() == 0);
    lemma_collect_ascending(pairs);
}

} // verus!
