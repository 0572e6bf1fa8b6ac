//! The frame of the protocol and the collections of frames, as they are
//! stored, each with its view in the model.

use crate::scalar::{
    same_bytes, BulkString, RespDouble, RespNull, RespNullArray, RespNullBulkString, SimpleError,
    SimpleString,
};
use crate::keys::{
    key_order, lemma_insert_ascends, lemma_position, map_get, map_insert, position, KeyOrder,
};
use crate::value::{key_before, keys_ascend, Value};
use vstd::prelude::*;
use vstd::slice::slice_to_vec;
use vstd::std_specs::cmp::PartialEqSpecImpl;

verus! {

broadcast use vstd::std_specs::vec::group_vec_axioms;

/// Frames in order.
#[derive(Debug)]
pub struct RespArray(Vec<RespFrame>);

/// Frames in order, under the tag of a set. Nothing is removed from them:
/// a frame may occur twice.
#[derive(Debug)]
pub struct RespSet(Vec<RespFrame>);

/// Frames under their keys. The keys ascend in lexicographic order of their
/// bytes, whatever the order in which they were inserted, and none occurs
/// twice.
#[derive(Debug)]
pub struct RespMap(Vec<(SimpleString, RespFrame)>);

/// One frame of the protocol.
#[derive(Debug)]
pub enum RespFrame {
    SimpleString(SimpleString),
    Error(SimpleError),
    Integer(i64),
    BulkString(BulkString),
    NullBulkString(RespNullBulkString),
    Array(RespArray),
    Null(RespNull),
    NullArray(RespNullArray),
    Boolean(bool),
    Double(RespDouble),
    /// Reserved: it has no wire form yet.
    BigNumber(Vec<u8>),
    RespMap(RespMap),
    RespSet(RespSet),
}

/// The views of `frames`, in order.
pub open spec fn views(frames: Seq<RespFrame>) -> Seq<Value>
    decreases frames,
{
    Seq::new(
        frames.len(),
        |i: int|
            if 0 <= i < frames.len() {
                frames[i]@
            } else {
                Value::Null
            },
    )
}

/// The views of `pairs`, in order.
pub open spec fn pair_views(pairs: Seq<(SimpleString, RespFrame)>) -> Seq<(Seq<u8>, Value)>
    decreases pairs,
{
    Seq::new(
        pairs.len(),
        |i: int|
            if 0 <= i < pairs.len() {
                (pairs[i].0@, pairs[i].1@)
            } else {
                (Seq::empty(), Value::Null)
            },
    )
}

impl View for RespArray {
    type V = Seq<Value>;

    closed spec fn view(&self) -> Seq<Value>
        decreases self,
    {
        views(self.0@)
    }
}

impl View for RespSet {
    type V = Seq<Value>;

    closed spec fn view(&self) -> Seq<Value>
        decreases self,
    {
        views(self.0@)
    }
}

impl View for RespMap {
    type V = Seq<(Seq<u8>, Value)>;

    closed spec fn view(&self) -> Seq<(Seq<u8>, Value)>
        decreases self,
    {
        pair_views(self.0@)
    }
}

impl View for RespFrame {
    type V = Value;

    open spec fn view(&self) -> Value
        decreases self,
    {
        match self {
            RespFrame::SimpleString(s) => Value::SimpleString(s@),
            RespFrame::Error(e) => Value::Error(e@),
            RespFrame::Integer(n) => Value::Integer(*n),
            RespFrame::BulkString(b) => Value::BulkString(b@),
            RespFrame::NullBulkString(_) => Value::NullBulkString,
            RespFrame::Array(a) => Value::Array(a@),
            RespFrame::Null(_) => Value::Null,
            RespFrame::NullArray(_) => Value::NullArray,
            RespFrame::Boolean(b) => Value::Boolean(*b),
            RespFrame::Double(d) => Value::Double(d@),
            RespFrame::BigNumber(b) => Value::BigNumber(b@),
            RespFrame::RespMap(m) => Value::RespMap(m@),
            RespFrame::RespSet(s) => Value::RespSet(s@),
        }
    }
}

impl RespArray {
    /// Takes `frames` as they are.
    pub fn new(frames: Vec<RespFrame>) -> (made: RespArray)
        ensures
            made@ == views(frames@),
    {
        RespArray(frames)
    }
}

impl std::ops::Deref for RespArray {
    type Target = Vec<RespFrame>;

    fn deref(&self) -> (frames: &Vec<RespFrame>)
        ensures
            views(frames@) == self@,
    {
        &self.0
    }
}

impl RespSet {
    /// Takes `frames` as they are.
    pub fn new(frames: Vec<RespFrame>) -> (made: RespSet)
        ensures
            made@ == views(frames@),
    {
        RespSet(frames)
    }
}

impl std::ops::Deref for RespSet {
    type Target = Vec<RespFrame>;

    fn deref(&self) -> (frames: &Vec<RespFrame>)
        ensures
            views(frames@) == self@,
    {
        &self.0
    }
}

impl RespMap {
    #[verifier::type_invariant]
    spec fn sorted(&self) -> bool {
        forall|i: int, j: int|
            0 <= i < j < self.0@.len() ==> key_before(
                (#[trigger] self.0@[i]).0@,
                (#[trigger] self.0@[j]).0@,
            )
    }

    /// The empty map.
    pub fn new() -> (made: RespMap)
        ensures
            made@ == Seq::<(Seq<u8>, Value)>::empty(),
    {
        let made = RespMap(Vec::new());
        assert(made@ =~= Seq::<(Seq<u8>, Value)>::empty());
        made
    }

    /// The number of entries.
    pub fn len(&self) -> (n: usize)
        ensures
            n == self@.len(),
    {
        self.0.len()
    }

    /// Finds where `key` belongs, and tells whether it is there.
    fn locate(&self, key: &[u8]) -> (place: (usize, bool))
        ensures
            place.0 == position(self@, key@),
            place.1 == (place.0 < self@.len() && self@[place.0 as int].0 == key@),
            place.0 <= self.0@.len(),
    {
        let mut i: usize = 0;
        while i < self.0.len()
            invariant
                i <= self.0@.len(),
                forall|j: int| 0 <= j < i ==> key_before((#[trigger] self@[j]).0, key@),
            decreases self.0@.len() - i,
        {
            assert(self@[i as int].0 == self.0@[i as int].0@);
            match key_order(self.0[i].0.as_bytes(), key) {
                KeyOrder::Before => {},
                KeyOrder::Same => {
                    proof {
                        crate::keys::lemma_key_before_irreflexive(key@);
                        lemma_position(self@, key@, i as int);
                    }
                    return (i, true);
                },
                KeyOrder::After => {
                    proof {
                        crate::keys::lemma_key_before_asymmetric(key@, self@[i as int].0);
                        lemma_position(self@, key@, i as int);
                    }
                    return (i, false);
                },
            }
            i = i + 1;
        }
        proof {
            lemma_position(self@, key@, i as int);
        }
        (i, false)
    }

    /// The frame under `key`, if there is one.
    pub fn get(&self, key: &SimpleString) -> (found: Option<&RespFrame>)
        ensures
            match found {
                Some(frame) => map_get(self@, key@) == Some(frame@),
                None => map_get(self@, key@) is None,
            },
    {
        let (at, present) = self.locate(key.as_bytes());
        if present {
            Some(&self.0[at].1)
        } else {
            None
        }
    }

    /// Puts `value` under `key`, at the place where the key belongs, and
    /// gives back the frame that was under that key before, if any: the
    /// last write wins.
    pub fn insert(&mut self, key: SimpleString, value: RespFrame) -> (previous: Option<RespFrame>)
        ensures
            final(self)@ == map_insert(old(self)@, key@, value@),
            match previous {
                Some(frame) => map_get(old(self)@, key@) == Some(frame@),
                None => map_get(old(self)@, key@) is None,
            },
    {
        proof {
            use_type_invariant(&*self);
        }
        let (at, present) = self.locate(key.as_bytes());
        let ghost before = self.0@;
        let ghost wanted = map_insert(self@, key@, value@);
        proof {
            assert(keys_ascend(self@)) by {
                assert forall|i: int, j: int| 0 <= i < j < self@.len() implies key_before(
                    #[trigger] self@[i].0,
                    #[trigger] self@[j].0,
                ) by {
                    assert(self@[i].0 == before[i].0@ && self@[j].0 == before[j].0@);
                }
            }
            lemma_insert_ascends(self@, key@, value@);
        }
        let mut taken = RespMap(Vec::new());
        std::mem::swap(self, &mut taken);
        let RespMap(mut entries) = taken;
        assert(entries@ == before);
        if present {
            let mut entry = (key, value);
            proof {
                let after = before.update(at as int, entry);
                assert(pair_views(after) =~= wanted);
                assert forall|i: int, j: int| 0 <= i < j < after.len() implies key_before(
                    (#[trigger] after[i]).0@,
                    (#[trigger] after[j]).0@,
                ) by {
                    assert(wanted[i].0 == after[i].0@ && wanted[j].0 == after[j].0@);
                }
            }
            std::mem::swap(&mut entries[at], &mut entry);
            *self = RespMap(entries);
            Some(entry.1)
        } else {
            proof {
                let after = before.insert(at as int, (key, value));
                assert(pair_views(after) =~= wanted);
                assert forall|i: int, j: int| 0 <= i < j < after.len() implies key_before(
                    (#[trigger] after[i]).0@,
                    (#[trigger] after[j]).0@,
                ) by {
                    assert(wanted[i].0 == after[i].0@ && wanted[j].0 == after[j].0@);
                }
            }
            entries.insert(at, (key, value));
            *self = RespMap(entries);
            None
        }
    }

    /// The entries, in ascending order of their keys.
    pub fn entries(&self) -> (pairs: &Vec<(SimpleString, RespFrame)>)
        ensures
            pair_views(pairs@) == self@,
            keys_ascend(self@),
    {
        proof {
            use_type_invariant(self);
        }
        &self.0
    }
}

/// Tells whether the frames of `a` and of `b` are the same, one by one.
pub fn same_frames(a: &Vec<RespFrame>, b: &Vec<RespFrame>) -> (same: bool)
    ensures
        same == (views(a@) == views(b@)),
    decreases a, 1nat,
{
    if a.len() != b.len() {
        assert(views(a@).len() != views(b@).len());
        return false;
    }
    let mut i: usize = 0;
    while i < a.len()
        invariant
            i <= a@.len(),
            a@.len() == b@.len(),
            forall|j: int| 0 <= j < i ==> a@[j]@ == b@[j]@,
        decreases a@.len() - i,
    {
        if !a[i].same_as(&b[i]) {
            assert(views(a@)[i as int] != views(b@)[i as int]);
            return false;
        }
        i = i + 1;
    }
    assert(views(a@) =~= views(b@));
    true
}

/// Tells whether the entries of `a` and of `b` are the same, one by one.
pub fn same_pairs(a: &Vec<(SimpleString, RespFrame)>, b: &Vec<(SimpleString, RespFrame)>) -> (same:
    bool)
    ensures
        same == (pair_views(a@) == pair_views(b@)),
    decreases a, 1nat,
{
    if a.len() != b.len() {
        assert(pair_views(a@).len() != pair_views(b@).len());
        return false;
    }
    let mut i: usize = 0;
    while i < a.len()
        invariant
            i <= a@.len(),
            a@.len() == b@.len(),
            forall|j: int| 0 <= j < i ==> a@[j].0@ == b@[j].0@ && a@[j].1@ == b@[j].1@,
        decreases a@.len() - i,
    {
        assert(decreases_to!(a => a@[i as int]));
        assert(decreases_to!(a@[i as int] => a@[i as int].1));
        if !same_bytes(a[i].0.as_bytes(), b[i].0.as_bytes()) || !a[i].1.same_as(&b[i].1) {
            assert(pair_views(a@)[i as int] != pair_views(b@)[i as int]);
            return false;
        }
        i = i + 1;
    }
    assert(pair_views(a@) =~= pair_views(b@));
    true
}

impl RespFrame {
    /// Tells whether `self` and `other` are the same frame: of one variant
    /// and with the same payload, frame by frame.
    pub fn same_as(&self, other: &RespFrame) -> (same: bool)
        ensures
            same == (self@ == other@),
        decreases self, 0nat,
    {
        match (self, other) {
            (RespFrame::SimpleString(a), RespFrame::SimpleString(b)) => same_bytes(
                a.as_bytes(),
                b.as_bytes(),
            ),
            (RespFrame::Error(a), RespFrame::Error(b)) => same_bytes(a.as_bytes(), b.as_bytes()),
            (RespFrame::Integer(a), RespFrame::Integer(b)) => *a == *b,
            (RespFrame::BulkString(a), RespFrame::BulkString(b)) => a == b,
            (RespFrame::NullBulkString(_), RespFrame::NullBulkString(_)) => true,
            (RespFrame::Array(a), RespFrame::Array(b)) => {
                assert(self->Array_0 == *a);
                same_frames(&a.0, &b.0)
            },
            (RespFrame::Null(_), RespFrame::Null(_)) => true,
            (RespFrame::NullArray(_), RespFrame::NullArray(_)) => true,
            (RespFrame::Boolean(a), RespFrame::Boolean(b)) => *a == *b,
            (RespFrame::Double(a), RespFrame::Double(b)) => same_bytes(a.as_bytes(), b.as_bytes()),
            (RespFrame::BigNumber(a), RespFrame::BigNumber(b)) => same_bytes(
                a.as_slice(),
                b.as_slice(),
            ),
            (RespFrame::RespMap(a), RespFrame::RespMap(b)) => {
                assert(self->RespMap_0 == *a);
                same_pairs(&a.0, &b.0)
            },
            (RespFrame::RespSet(a), RespFrame::RespSet(b)) => {
                assert(self->RespSet_0 == *a);
                same_frames(&a.0, &b.0)
            },
            _ => false,
        }
    }
}

impl PartialEq for RespFrame {
    fn eq(&self, other: &RespFrame) -> (same: bool) {
        self.same_as(other)
    }
}

impl PartialEqSpecImpl for RespFrame {
    open spec fn obeys_eq_spec() -> bool {
        true
    }

    open spec fn eq_spec(&self, other: &RespFrame) -> bool {
        self@ == other@
    }
}

impl PartialEq for RespArray {
    fn eq(&self, other: &RespArray) -> (same: bool) {
        same_frames(&self.0, &other.0)
    }
}

impl PartialEqSpecImpl for RespArray {
    open spec fn obeys_eq_spec() -> bool {
        true
    }

    open spec fn eq_spec(&self, other: &RespArray) -> bool {
        self@ == other@
    }
}

impl PartialEq for RespSet {
    fn eq(&self, other: &RespSet) -> (same: bool) {
        same_frames(&self.0, &other.0)
    }
}

impl PartialEqSpecImpl for RespSet {
    open spec fn obeys_eq_spec() -> bool {
        true
    }

    open spec fn eq_spec(&self, other: &RespSet) -> bool {
        self@ == other@
    }
}

impl PartialEq for RespMap {
    fn eq(&self, other: &RespMap) -> (same: bool) {
        same_pairs(&self.0, &other.0)
    }
}

impl PartialEqSpecImpl for RespMap {
    open spec fn obeys_eq_spec() -> bool {
        true
    }

    open spec fn eq_spec(&self, other: &RespMap) -> bool {
        self@ == other@
    }
}

/// Copies `frames`, one by one.
pub fn copy_frames(frames: &Vec<RespFrame>) -> (copy: Vec<RespFrame>)
    ensures
        views(copy@) == views(frames@),
    decreases frames, 1nat,
{
    let mut copy: Vec<RespFrame> = Vec::new();
    let mut i: usize = 0;
    while i < frames.len()
        invariant
            i <= frames@.len(),
            copy@.len() == i,
            forall|j: int| 0 <= j < i ==> copy@[j]@ == frames@[j]@,
        decreases frames@.len() - i,
    {
        copy.push(frames[i].copy());
        i = i + 1;
    }
    assert(views(copy@) =~= views(frames@));
    copy
}

/// Copies `pairs`, one by one.
pub fn copy_pairs(pairs: &Vec<(SimpleString, RespFrame)>) -> (copy: Vec<(SimpleString, RespFrame)>)
    ensures
        pair_views(copy@) == pair_views(pairs@),
        copy@.len() == pairs@.len(),
        forall|j: int| 0 <= j < pairs@.len() ==> (#[trigger] copy@[j]).0@ == pairs@[j].0@,
    decreases pairs, 1nat,
{
    let mut copy: Vec<(SimpleString, RespFrame)> = Vec::new();
    let mut i: usize = 0;
    while i < pairs.len()
        invariant
            i <= pairs@.len(),
            copy@.len() == i,
            forall|j: int|
                0 <= j < i ==> (#[trigger] copy@[j]).0@ == pairs@[j].0@ && copy@[j].1@
                    == pairs@[j].1@,
        decreases pairs@.len() - i,
    {
        assert(decreases_to!(pairs => pairs@[i as int]));
        assert(decreases_to!(pairs@[i as int] => pairs@[i as int].1));
        copy.push((pairs[i].0.clone(), pairs[i].1.copy()));
        i = i + 1;
    }
    assert(pair_views(copy@) =~= pair_views(pairs@));
    copy
}

impl RespFrame {
    /// A copy of the frame.
    pub fn copy(&self) -> (copy: RespFrame)
        ensures
            copy@ == self@,
        decreases self, 0nat,
    {
        match self {
            RespFrame::SimpleString(s) => RespFrame::SimpleString(s.clone()),
            RespFrame::Error(e) => RespFrame::Error(e.clone()),
            RespFrame::Integer(n) => RespFrame::Integer(*n),
            RespFrame::BulkString(b) => RespFrame::BulkString(b.clone()),
            RespFrame::NullBulkString(_) => RespFrame::NullBulkString(RespNullBulkString),
            RespFrame::Array(a) => {
                assert(self->Array_0 == *a);
                RespFrame::Array(RespArray(copy_frames(&a.0)))
            },
            RespFrame::Null(_) => RespFrame::Null(RespNull),
            RespFrame::NullArray(_) => RespFrame::NullArray(RespNullArray),
            RespFrame::Boolean(b) => RespFrame::Boolean(*b),
            RespFrame::Double(d) => RespFrame::Double(d.clone()),
            RespFrame::BigNumber(b) => RespFrame::BigNumber(slice_to_vec(b.as_slice())),
            RespFrame::RespMap(m) => {
                assert(self->RespMap_0 == *m);
                proof {
                    use_type_invariant(m);
                }
                RespFrame::RespMap(RespMap(copy_pairs(&m.0)))
            },
            RespFrame::RespSet(s) => {
                assert(self->RespSet_0 == *s);
                RespFrame::RespSet(RespSet(copy_frames(&s.0)))
            },
        }
    }
}

impl Clone for RespFrame {
    fn clone(&self) -> (copy: RespFrame)
        ensures
            copy@ == self@,
    {
        self.copy()
    }
}

impl Clone for RespArray {
    fn clone(&self) -> (copy: RespArray)
        ensures
            copy@ == self@,
    {
        RespArray(copy_frames(&self.0))
    }
}

impl Clone for RespSet {
    fn clone(&self) -> (copy: RespSet)
        ensures
            copy@ == self@,
    {
        RespSet(copy_frames(&self.0))
    }
}

impl Clone for RespMap {
    fn clone(&self) -> (copy: RespMap)
        ensures
            copy@ == self@,
    {
        proof {
            use_type_invariant(self);
        }
        RespMap(copy_pairs(&self.0))
    }
}

} // verus!
