//! Lines and text: the terminator that ends every header, where a line ends
//! in a buffer, and which bytes may stand in a one-line text.

use vstd::prelude::*;
use vstd::utf8::{encode_utf8, valid_utf8};

verus! {

/// ASCII carriage return.
pub const CR: u8 = 13;

/// ASCII line feed.
pub const LF: u8 = 10;

/// The two bytes that end a line.
pub open spec fn crlf() -> Seq<u8> {
    seq![CR, LF]
}

/// A terminator stands at offset `at` of `buf`.
pub open spec fn is_crlf_at(buf: Seq<u8>, at: int) -> bool {
    0 <= at && at + 1 < buf.len() && buf[at] == CR && buf[at + 1] == LF
}

/// The offset of the first terminator at or after `from`, if there is one.
pub open spec fn find_crlf(buf: Seq<u8>, from: int) -> Option<int>
    decreases buf.len() - from,
{
    if from < 0 || from + 1 >= buf.len() {
        None
    } else if buf[from] == CR && buf[from + 1] == LF {
        Some(from)
    } else {
        find_crlf(buf, from + 1)
    }
}

/// Neither a carriage return nor a line feed occurs in `s`.
pub open spec fn single_line(s: Seq<u8>) -> bool {
    forall|i: int| 0 <= i < s.len() ==> #[trigger] s[i] != CR && s[i] != LF
}

/// `s` is the UTF-8 form of a text that fits on one line.
pub open spec fn is_text(s: Seq<u8>) -> bool {
    single_line(s) && valid_utf8(s)
}

/// What `find_crlf` returns is the first terminator from `from` on, and it
/// returns nothing only where there is none.
pub proof fn lemma_find_crlf_first(buf: Seq<u8>, from: int)
    requires
        0 <= from,
    ensures
        match find_crlf(buf, from) {
            Some(at) => from <= at && is_crlf_at(buf, at) && forall|j: int|
                from <= j < at ==> !is_crlf_at(buf, j),
            None => forall|j: int| from <= j ==> !is_crlf_at(buf, j),
        },
    decreases buf.len() - from,
{
    if from + 1 >= buf.len() {
    } else if buf[from] == CR && buf[from + 1] == LF {
    } else {
        lemma_find_crlf_first(buf, from + 1);
    }
}

/// A terminator with none before it is the one that `find_crlf` returns.
pub proof fn lemma_find_crlf_at(buf: Seq<u8>, from: int, at: int)
    requires
        0 <= from <= at,
        is_crlf_at(buf, at),
        forall|j: int| from <= j < at ==> !is_crlf_at(buf, j),
    ensures
        find_crlf(buf, from) == Some(at),
    decreases at - from,
{
    if from < at {
        assert(!is_crlf_at(buf, from));
        lemma_find_crlf_at(buf, from + 1, at);
    }
}

/// Where no terminator follows, `find_crlf` returns nothing.
pub proof fn lemma_find_crlf_none(buf: Seq<u8>, from: int)
    requires
        0 <= from,
        forall|j: int| from <= j ==> !is_crlf_at(buf, j),
    ensures
        find_crlf(buf, from) is None,
{
    lemma_find_crlf_first(buf, from);
    if let Some(at) = find_crlf(buf, from) {
        assert(is_crlf_at(buf, at));
    }
}

/// Finds the first line terminator in `buf` at or after `from`.
pub fn find_line_end(buf: &[u8], from: usize) -> (at: Option<usize>)
    ensures
        match at {
            Some(i) => find_crlf(buf@, from as int) == Some(i as int),
            None => find_crlf(buf@, from as int) is None,
        },
{
    let n = buf.len();
    let mut i: usize = from;
    while i < n && n - i >= 2
        invariant
            from <= i,
            n == buf@.len(),
            find_crlf(buf@, from as int) == find_crlf(buf@, i as int),
        decreases n - i,
    {
        if buf[i] == CR && buf[i + 1] == LF {
            return Some(i);
        }
        i = i + 1;
    }
    None
}

/// Tells whether neither a carriage return nor a line feed occurs in
/// `buf[start..end]`.
pub fn is_single_line(buf: &[u8], start: usize, end: usize) -> (ok: bool)
    requires
        start <= end <= buf@.len(),
    ensures
        ok == single_line(buf@.subrange(start as int, end as int)),
{
    let ghost s = buf@.subrange(start as int, end as int);
    let mut i: usize = start;
    while i < end
        invariant
            start <= i <= end <= buf@.len(),
            s == buf@.subrange(start as int, end as int),
            forall|j: int| 0 <= j < i - start ==> #[trigger] s[j] != CR && s[j] != LF,
        decreases end - i,
    {
        if buf[i] == CR || buf[i] == LF {
            assert(s[i - start] == buf@[i as int]);
            return false;
        }
        assert(s[i - start] == buf@[i as int]);
        i = i + 1;
    }
    true
}

/// `String::from_utf8`: a string is returned exactly for valid UTF-8, and
/// its bytes are then the bytes given.
#[verifier::external_body]
pub(crate) fn string_from_utf8(bytes: Vec<u8>) -> (text: Option<String>)
    ensures
        text is Some <==> valid_utf8(bytes@),
        text is Some ==> encode_utf8(text->0@) == bytes@,
{
    String::from_utf8(bytes).ok()
}

} // verus!
