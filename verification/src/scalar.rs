//! The frames that hold no other frame, as they are stored, each with its
//! view in the model.

use crate::text::{is_single_line, is_text, single_line, string_from_utf8};
use vstd::prelude::*;
use vstd::slice::slice_to_vec;
use vstd::std_specs::cmp::PartialEqSpecImpl;
use vstd::utf8::{encode_utf8, encode_utf8_decode_utf8, encode_utf8_valid_utf8};

verus! {

/// One line of status text: a string without carriage return or line feed.
#[derive(Debug)]
pub struct SimpleString(String);

impl View for SimpleString {
    type V = Seq<u8>;

    /// The text in UTF-8.
    closed spec fn view(&self) -> Seq<u8> {
        encode_utf8(self.0@)
    }
}

impl SimpleString {
    #[verifier::type_invariant]
    spec fn fits_one_line(&self) -> bool {
        single_line(encode_utf8(self.0@))
    }

    /// Takes `text` as a status line, unless it holds a carriage return or
    /// a line feed.
    pub fn new(text: String) -> (made: Option<SimpleString>)
        ensures
            made is Some <==> single_line(encode_utf8(text@)),
            made is Some ==> made->0@ == encode_utf8(text@),
    {
        let bytes = text.as_str().as_bytes();
        assert(bytes@.subrange(0, bytes@.len() as int) =~= bytes@);
        if is_single_line(bytes, 0, bytes.len()) {
            Some(SimpleString(text))
        } else {
            None
        }
    }

    /// Takes `bytes` as the UTF-8 form of a status line, unless they are not
    /// valid UTF-8 or hold a carriage return or a line feed.
    pub fn from_utf8(bytes: Vec<u8>) -> (made: Option<SimpleString>)
        ensures
            made is Some <==> is_text(bytes@),
            made is Some ==> made->0@ == bytes@,
    {
        assert(bytes@.subrange(0, bytes@.len() as int) =~= bytes@);
        if !is_single_line(bytes.as_slice(), 0, bytes.len()) {
            return None;
        }
        match string_from_utf8(bytes) {
            Some(text) => Some(SimpleString(text)),
            None => None,
        }
    }

    /// The text in UTF-8; it fits on one line.
    pub fn as_bytes(&self) -> (bytes: &[u8])
        ensures
            bytes@ == self@,
            is_text(self@),
    {
        proof {
            use_type_invariant(self);
            encode_utf8_valid_utf8(self.0@);
        }
        self.0.as_str().as_bytes()
    }
}

impl std::ops::Deref for SimpleString {
    type Target = String;

    fn deref(&self) -> (text: &String)
        ensures
            encode_utf8(text@) == self@,
    {
        &self.0
    }
}

impl Clone for SimpleString {
    fn clone(&self) -> (copy: SimpleString)
        ensures
            copy@ == self@,
    {
        proof {
            use_type_invariant(self);
        }
        SimpleString(self.0.clone())
    }
}

impl PartialEq for SimpleString {
    fn eq(&self, other: &SimpleString) -> (same: bool) {
        proof {
            encode_utf8_decode_utf8(self.0@);
            encode_utf8_decode_utf8(other.0@);
        }
        self.0 == other.0
    }
}

impl PartialEqSpecImpl for SimpleString {
    open spec fn obeys_eq_spec() -> bool {
        true
    }

    open spec fn eq_spec(&self, other: &SimpleString) -> bool {
        self@ == other@
    }
}

/// One line of error text: a string without carriage return or line feed.
#[derive(Debug)]
pub struct SimpleError(String);

impl View for SimpleError {
    type V = Seq<u8>;

    /// The text in UTF-8.
    closed spec fn view(&self) -> Seq<u8> {
        encode_utf8(self.0@)
    }
}

impl SimpleError {
    #[verifier::type_invariant]
    spec fn fits_one_line(&self) -> bool {
        single_line(encode_utf8(self.0@))
    }

    /// Takes `text` as an error line, unless it holds a carriage return or
    /// a line feed.
    pub fn new(text: String) -> (made: Option<SimpleError>)
        ensures
            made is Some <==> single_line(encode_utf8(text@)),
            made is Some ==> made->0@ == encode_utf8(text@),
    {
        let bytes = text.as_str().as_bytes();
        assert(bytes@.subrange(0, bytes@.len() as int) =~= bytes@);
        if is_single_line(bytes, 0, bytes.len()) {
            Some(SimpleError(text))
        } else {
            None
        }
    }

    /// Takes `bytes` as the UTF-8 form of a error line, unless they are not
    /// valid UTF-8 or hold a carriage return or a line feed.
    pub fn from_utf8(bytes: Vec<u8>) -> (made: Option<SimpleError>)
        ensures
            made is Some <==> is_text(bytes@),
            made is Some ==> made->0@ == bytes@,
    {
        assert(bytes@.subrange(0, bytes@.len() as int) =~= bytes@);
        if !is_single_line(bytes.as_slice(), 0, bytes.len()) {
            return None;
        }
        match string_from_utf8(bytes) {
            Some(text) => Some(SimpleError(text)),
            None => None,
        }
    }

    /// The text in UTF-8; it fits on one line.
    pub fn as_bytes(&self) -> (bytes: &[u8])
        ensures
            bytes@ == self@,
            is_text(self@),
    {
        proof {
            use_type_invariant(self);
            encode_utf8_valid_utf8(self.0@);
        }
        self.0.as_str().as_bytes()
    }
}

impl std::ops::Deref for SimpleError {
    type Target = String;

    fn deref(&self) -> (text: &String)
        ensures
            encode_utf8(text@) == self@,
    {
        &self.0
    }
}

impl Clone for SimpleError {
    fn clone(&self) -> (copy: SimpleError)
        ensures
            copy@ == self@,
    {
        proof {
            use_type_invariant(self);
        }
        SimpleError(self.0.clone())
    }
}

impl PartialEq for SimpleError {
    fn eq(&self, other: &SimpleError) -> (same: bool) {
        proof {
            encode_utf8_decode_utf8(self.0@);
            encode_utf8_decode_utf8(other.0@);
        }
        self.0 == other.0
    }
}

impl PartialEqSpecImpl for SimpleError {
    open spec fn obeys_eq_spec() -> bool {
        true
    }

    open spec fn eq_spec(&self, other: &SimpleError) -> bool {
        self@ == other@
    }
}

/// A floating-point number, held as the numeral that stands on the wire
/// after the tag: a string without carriage return or line feed.
#[derive(Debug)]
pub struct RespDouble(String);

impl View for RespDouble {
    type V = Seq<u8>;

    /// The numeral in UTF-8.
    closed spec fn view(&self) -> Seq<u8> {
        encode_utf8(self.0@)
    }
}

impl RespDouble {
    #[verifier::type_invariant]
    spec fn fits_one_line(&self) -> bool {
        single_line(encode_utf8(self.0@))
    }

    /// Takes `numeral` as it is, unless it holds a carriage return or a
    /// line feed.
    pub fn from_text(numeral: String) -> (made: Option<RespDouble>)
        ensures
            made is Some <==> single_line(encode_utf8(numeral@)),
            made is Some ==> made->0@ == encode_utf8(numeral@),
    {
        let bytes = numeral.as_str().as_bytes();
        assert(bytes@.subrange(0, bytes@.len() as int) =~= bytes@);
        if is_single_line(bytes, 0, bytes.len()) {
            Some(RespDouble(numeral))
        } else {
            None
        }
    }

    /// The numeral.
    pub fn text(&self) -> (numeral: &String)
        ensures
            encode_utf8(numeral@) == self@,
    {
        &self.0
    }

    /// Takes `bytes` as the UTF-8 form of a numeral, unless they are not
    /// valid UTF-8 or hold a carriage return or a line feed.
    pub fn from_utf8(bytes: Vec<u8>) -> (made: Option<RespDouble>)
        ensures
            made is Some <==> is_text(bytes@),
            made is Some ==> made->0@ == bytes@,
    {
        assert(bytes@.subrange(0, bytes@.len() as int) =~= bytes@);
        if !is_single_line(bytes.as_slice(), 0, bytes.len()) {
            return None;
        }
        match string_from_utf8(bytes) {
            Some(text) => Some(RespDouble(text)),
            None => None,
        }
    }

    /// The numeral in UTF-8; it fits on one line.
    pub fn as_bytes(&self) -> (bytes: &[u8])
        ensures
            bytes@ == self@,
            is_text(self@),
    {
        proof {
            use_type_invariant(self);
            encode_utf8_valid_utf8(self.0@);
        }
        self.0.as_str().as_bytes()
    }
}

impl Clone for RespDouble {
    fn clone(&self) -> (copy: RespDouble)
        ensures
            copy@ == self@,
    {
        proof {
            use_type_invariant(self);
        }
        RespDouble(self.0.clone())
    }
}

impl PartialEq for RespDouble {
    fn eq(&self, other: &RespDouble) -> (same: bool) {
        proof {
            encode_utf8_decode_utf8(self.0@);
            encode_utf8_decode_utf8(other.0@);
        }
        self.0 == other.0
    }
}

impl PartialEqSpecImpl for RespDouble {
    open spec fn obeys_eq_spec() -> bool {
        true
    }

    open spec fn eq_spec(&self, other: &RespDouble) -> bool {
        self@ == other@
    }
}

/// A binary-safe payload.
#[derive(Debug)]
pub struct BulkString(Vec<u8>);

impl View for BulkString {
    type V = Seq<u8>;

    /// The payload.
    closed spec fn view(&self) -> Seq<u8> {
        self.0@
    }
}

impl BulkString {
    /// Takes `payload` as it is.
    pub fn new(payload: Vec<u8>) -> (made: BulkString)
        ensures
            made@ == payload@,
    {
        BulkString(payload)
    }
}

impl std::ops::Deref for BulkString {
    type Target = Vec<u8>;

    fn deref(&self) -> (payload: &Vec<u8>)
        ensures
            payload@ == self@,
    {
        &self.0
    }
}

impl Clone for BulkString {
    fn clone(&self) -> (copy: BulkString)
        ensures
            copy@ == self@,
    {
        BulkString(slice_to_vec(self.0.as_slice()))
    }
}

impl PartialEq for BulkString {
    fn eq(&self, other: &BulkString) -> (same: bool) {
        same_bytes(self.0.as_slice(), other.0.as_slice())
    }
}

impl PartialEqSpecImpl for BulkString {
    open spec fn obeys_eq_spec() -> bool {
        true
    }

    open spec fn eq_spec(&self, other: &BulkString) -> bool {
        self@ == other@
    }
}

/// Tells whether two byte strings are the same.
pub fn same_bytes(a: &[u8], b: &[u8]) -> (same: bool)
    ensures
        same == (a@ == b@),
{
    if a.len() != b.len() {
        return false;
    }
    let mut i: usize = 0;
    while i < a.len()
        invariant
            i <= a@.len(),
            a@.len() == b@.len(),
            forall|j: int| 0 <= j < i ==> a@[j] == b@[j],
        decreases a@.len() - i,
    {
        if a[i] != b[i] {
            return false;
        }
        i = i + 1;
    }
    assert(a@ =~= b@);
    true
}

/// The protocol's null.
#[derive(Debug, Clone, Copy, PartialEq, Eq, Structural)]
pub struct RespNull;

/// The absent array.
#[derive(Debug, Clone, Copy, PartialEq, Eq, Structural)]
pub struct RespNullArray;

/// The absent bulk string.
#[derive(Debug, Clone, Copy, PartialEq, Eq, Structural)]
pub struct RespNullBulkString;

} // verus!
