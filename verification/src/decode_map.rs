//! Decoding of maps. A map is written under the tag of an array, so the
//! decoder of frames reads it as one; whoever expects a map reads it here.

use crate::decimal::{integer_value, parse_integer};
use crate::decode::{decode_at, is_tag, parse_at};
use crate::encode::{TAG_ARRAY, TAG_SIMPLE_STRING};
use crate::error::{DecodeError, Malformed};
use crate::frame::{RespFrame, RespMap};
use crate::keys::map_insert;
use crate::text::{find_crlf, find_line_end, lemma_find_crlf_first};
use crate::value::{Value, MAX_DEPTH};
use vstd::prelude::*;

verus! {

/// Keys with their frames in the order of the wire, and the offset behind
/// them.
pub type ParsedPairs = Result<(Seq<(Seq<u8>, Value)>, int), DecodeError>;

/// What the decoder of maps finds: the entries in ascending order of their
/// keys, and the offset behind the map.
pub type ParsedMap = Result<(Seq<(Seq<u8>, Value)>, int), DecodeError>;

/// The map that comes of inserting `pairs` one after the other into the
/// empty map.
pub open spec fn collect(pairs: Seq<(Seq<u8>, Value)>) -> Seq<(Seq<u8>, Value)>
    decreases pairs.len(),
{
    if pairs.len() == 0 {
        Seq::empty()
    } else {
        map_insert(collect(pairs.drop_last()), pairs.last().0, pairs.last().1)
    }
}

/// The key that starts at offset `pos` of `buf`: a simple string.
pub open spec fn parse_key(buf: Seq<u8>, pos: int) -> Result<(Seq<u8>, int), DecodeError> {
    if pos < 0 || pos >= buf.len() {
        Err(DecodeError::Incomplete)
    } else if !is_tag(buf[pos]) {
        Err(DecodeError::Malformed(Malformed::UnknownTag))
    } else if buf[pos] != TAG_SIMPLE_STRING {
        Err(DecodeError::Malformed(Malformed::UnexpectedTag))
    } else {
        match parse_at(buf, pos, 0) {
            Ok((Value::SimpleString(key), next)) => Ok((key, next)),
            Ok(_) => Err(DecodeError::Malformed(Malformed::UnexpectedTag)),
            Err(e) => Err(e),
        }
    }
}

/// The `count` entries that follow each other from offset `pos` of `buf`:
/// each a key and a frame. The first part that is incomplete or malformed
/// decides.
pub open spec fn parse_pairs(buf: Seq<u8>, pos: int, count: nat, depth: nat) -> ParsedPairs
    decreases count,
{
    if count == 0 {
        Ok((Seq::empty(), pos))
    } else {
        match parse_key(buf, pos) {
            Err(e) => Err(e),
            Ok((key, after_key)) => match parse_at(buf, after_key, depth) {
                Err(e) => Err(e),
                Ok((value, next)) => prepend_pair(
                    (key, value),
                    parse_pairs(buf, next, (count - 1) as nat, depth),
                ),
            },
        }
    }
}

/// `rest` with `first` put before its entries.
pub open spec fn prepend_pair(first: (Seq<u8>, Value), rest: ParsedPairs) -> ParsedPairs {
    match rest {
        Err(e) => Err(e),
        Ok((pairs, after)) => Ok((seq![first] + pairs, after)),
    }
}

/// `rest` with `done` put before its entries.
pub open spec fn prepend_pairs(done: Seq<(Seq<u8>, Value)>, rest: ParsedPairs) -> ParsedPairs {
    match rest {
        Err(e) => Err(e),
        Ok((pairs, after)) => Ok((done + pairs, after)),
    }
}

/// The map that starts at offset `pos` of `buf`, where collections may
/// still nest `depth` deep: the tag of an array, the number of entries,
/// then each key as a simple string followed by its frame. Of two entries
/// with one key the later wins.
pub open spec fn parse_map_at(buf: Seq<u8>, pos: int, depth: nat) -> ParsedMap {
    if pos < 0 || pos >= buf.len() {
        Err(DecodeError::Incomplete)
    } else if !is_tag(buf[pos]) {
        Err(DecodeError::Malformed(Malformed::UnknownTag))
    } else if buf[pos] != TAG_ARRAY {
        Err(DecodeError::Malformed(Malformed::UnexpectedTag))
    } else {
        match find_crlf(buf, pos + 1) {
            None => Err(DecodeError::Incomplete),
            Some(end) => match integer_value(buf.subrange(pos + 1, end)) {
                None => Err(DecodeError::Malformed(Malformed::InvalidNumber)),
                Some(n) => if n < 0 {
                    Err(DecodeError::Malformed(Malformed::NegativeLength))
                } else if depth == 0 {
                    Err(DecodeError::Malformed(Malformed::NestingTooDeep))
                } else {
                    collected(parse_pairs(buf, end + 2, n as nat, (depth - 1) as nat))
                },
            },
        }
    }
}

/// The map that the entries of `found` make.
pub open spec fn collected(found: ParsedPairs) -> ParsedMap {
    match found {
        Err(e) => Err(e),
        Ok((pairs, after)) => Ok((collect(pairs), after)),
    }
}

/// The map at the start of `buf`, with the number of bytes it takes.
pub open spec fn parse_map(buf: Seq<u8>) -> ParsedMap {
    parse_map_at(buf, 0, MAX_DEPTH as nat)
}

/// `out` is what the model finds.
pub open spec fn decoded_map_as(out: Result<(RespMap, usize), DecodeError>, found: ParsedMap) -> bool {
    match out {
        Ok((map, next)) => found == Ok::<(Seq<(Seq<u8>, Value)>, int), DecodeError>(
            (map@, next as int),
        ),
        Err(e) => found == Err::<(Seq<(Seq<u8>, Value)>, int), DecodeError>(e),
    }
}

/// Reads the map that starts at offset `pos` of `buf`, where collections
/// may still nest `depth` deep, and gives it with the offset behind it.
pub fn decode_map_at(buf: &[u8], pos: usize, depth: usize) -> (out: Result<
    (RespMap, usize),
    DecodeError,
>)
    ensures
        decoded_map_as(out, parse_map_at(buf@, pos as int, depth as nat)),
        out matches Ok((_, next)) ==> pos < next <= buf@.len(),
{
    if pos >= buf.len() {
        return Err(DecodeError::Incomplete);
    }
    let tag = buf[pos];
    if tag != TAG_ARRAY {
        if known_tag(tag) {
            return Err(DecodeError::Malformed(Malformed::UnexpectedTag));
        }
        return Err(DecodeError::Malformed(Malformed::UnknownTag));
    }
    let first = pos + 1;
    let end = match find_line_end(buf, first) {
        Some(end) => end,
        None => {
            return Err(DecodeError::Incomplete);
        },
    };
    proof {
        lemma_find_crlf_first(buf@, first as int);
    }
    let count = match parse_integer(buf, first, end) {
        Some(n) => n,
        None => {
            return Err(DecodeError::Malformed(Malformed::InvalidNumber));
        },
    };
    if count < 0 {
        return Err(DecodeError::Malformed(Malformed::NegativeLength));
    }
    if depth == 0 {
        return Err(DecodeError::Malformed(Malformed::NestingTooDeep));
    }
    let start = end + 2;
    let inner = depth - 1;
    let mut map = RespMap::new();
    let mut cur: usize = start;
    let mut i: u64 = 0;
    let ghost mut done: Seq<(Seq<u8>, Value)> = Seq::empty();
    while i < count as u64
        invariant
            0 <= count,
            i <= count,
            start <= cur <= buf@.len(),
            map@ == collect(done),
            parse_map_at(buf@, pos as int, depth as nat) == collected(
                parse_pairs(buf@, start as int, count as nat, inner as nat),
            ),
            parse_pairs(buf@, start as int, count as nat, inner as nat) == prepend_pairs(
                done,
                parse_pairs(buf@, cur as int, (count - i) as nat, inner as nat),
            ),
        decreases count - i,
    {
        let ghost rest = parse_pairs(buf@, cur as int, (count - i) as nat, inner as nat);
        if cur >= buf.len() {
            return Err(DecodeError::Incomplete);
        }
        if buf[cur] != TAG_SIMPLE_STRING {
            if known_tag(buf[cur]) {
                return Err(DecodeError::Malformed(Malformed::UnexpectedTag));
            }
            return Err(DecodeError::Malformed(Malformed::UnknownTag));
        }
        let (key, after_key) = match decode_at(buf, cur, 0) {
            Ok((RespFrame::SimpleString(key), after_key)) => (key, after_key),
            Ok(_) => {
                return Err(DecodeError::Malformed(Malformed::UnexpectedTag));
            },
            Err(e) => {
                return Err(e);
            },
        };
        let (value, next) = match decode_at(buf, after_key, inner) {
            Ok(found) => found,
            Err(e) => {
                return Err(e);
            },
        };
        proof {
            let tail = parse_pairs(buf@, next as int, (count - i - 1) as nat, inner as nat);
            let pair = (key@, value@);
            assert(rest == prepend_pair(pair, tail));
            let grown = done.push(pair);
            assert(grown.drop_last() =~= done);
            assert(prepend_pairs(done, rest) == prepend_pairs(grown, tail)) by {
                if let Ok((pairs, after)) = tail {
                    assert(done + (seq![pair] + pairs) =~= grown + pairs);
                }
            }
            done = grown;
        }
        map.insert(key, value);
        cur = next;
        i = i + 1;
    }
    assert(done + Seq::<(Seq<u8>, Value)>::empty() =~= done);
    Ok((map, cur))
}

/// Tells whether `b` is one of the nine tags.
pub fn known_tag(b: u8) -> (known: bool)
    ensures
        known == is_tag(b),
{
    b == TAG_SIMPLE_STRING || b == crate::encode::TAG_ERROR || b == crate::encode::TAG_INTEGER
        || b == crate::encode::TAG_BULK_STRING || b == TAG_ARRAY || b == crate::encode::TAG_NULL
        || b == crate::encode::TAG_BOOLEAN || b == crate::encode::TAG_DOUBLE || b
        == crate::encode::TAG_SET
}

/// Reads the map at the start of `buf` and gives it with the number of
/// bytes it takes.
pub fn decode_map(buf: &[u8]) -> (out: Result<(RespMap, usize), DecodeError>)
    ensures
        decoded_map_as(out, parse_map(buf@)),
{
    decode_map_at(buf, 0, MAX_DEPTH)
}

} // verus!
