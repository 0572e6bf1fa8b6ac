//! The order of map keys: bytes compared lexicographically, and where a
//! key belongs among keys that ascend.

use crate::value::{key_before, keys_ascend, Value};
use vstd::prelude::*;

verus! {

/// How one key stands to another.
#[derive(Debug, Clone, Copy, PartialEq, Eq, Structural)]
pub enum KeyOrder {
    /// It comes first.
    Before,
    /// They are the same key.
    Same,
    /// It comes last.
    After,
}

/// No key comes before itself.
pub proof fn lemma_key_before_irreflexive(a: Seq<u8>)
    ensures
        !key_before(a, a),
    decreases a.len(),
{
    if a.len() > 0 {
        lemma_key_before_irreflexive(a.drop_first());
    }
}

/// Of two keys at most one comes before the other.
pub proof fn lemma_key_before_asymmetric(a: Seq<u8>, b: Seq<u8>)
    ensures
        !(key_before(a, b) && key_before(b, a)),
    decreases a.len(),
{
    if a.len() > 0 && b.len() > 0 && a[0] == b[0] {
        lemma_key_before_asymmetric(a.drop_first(), b.drop_first());
    }
}

/// Of two different keys one comes before the other.
pub proof fn lemma_key_before_total(a: Seq<u8>, b: Seq<u8>)
    ensures
        a == b || key_before(a, b) || key_before(b, a),
    decreases a.len(),
{
    if a.len() > 0 && b.len() > 0 && a[0] == b[0] {
        lemma_key_before_total(a.drop_first(), b.drop_first());
        if a.drop_first() == b.drop_first() {
            assert(a =~= seq![a[0]] + a.drop_first());
            assert(b =~= seq![b[0]] + b.drop_first());
        }
    } else if a.len() == 0 && b.len() == 0 {
        assert(a =~= b);
    }
}

/// What comes before a key comes before all that the key comes before.
pub proof fn lemma_key_before_transitive(a: Seq<u8>, b: Seq<u8>, c: Seq<u8>)
    requires
        key_before(a, b),
        key_before(b, c),
    ensures
        key_before(a, c),
    decreases a.len(),
{
    if a.len() > 0 && a[0] == b[0] && b[0] == c[0] {
        lemma_key_before_transitive(a.drop_first(), b.drop_first(), c.drop_first());
    }
}

/// Compares two keys.
pub fn key_order(a: &[u8], b: &[u8]) -> (order: KeyOrder)
    ensures
        order is Before <==> key_before(a@, b@),
        order is Same <==> a@ == b@,
        order is After <==> key_before(b@, a@),
{
    proof {
        lemma_key_before_irreflexive(a@);
        lemma_key_before_asymmetric(a@, b@);
    }
    let mut i: usize = 0;
    assert(a@.skip(0) =~= a@ && b@.skip(0) =~= b@);
    while i < a.len() && i < b.len()
        invariant
            i <= a@.len(),
            i <= b@.len(),
            a@.take(i as int) == b@.take(i as int),
            key_before(a@, b@) == key_before(a@.skip(i as int), b@.skip(i as int)),
            key_before(b@, a@) == key_before(b@.skip(i as int), a@.skip(i as int)),
        decreases a@.len() - i,
    {
        let x = a[i];
        let y = b[i];
        assert(a@.skip(i as int)[0] == x && b@.skip(i as int)[0] == y);
        if x < y {
            assert(a@ != b@);
            return KeyOrder::Before;
        }
        if x > y {
            assert(a@ != b@);
            return KeyOrder::After;
        }
        assert(a@.skip(i as int).drop_first() =~= a@.skip(i + 1));
        assert(b@.skip(i as int).drop_first() =~= b@.skip(i + 1));
        assert(a@.take(i + 1) =~= a@.take(i as int).push(x));
        assert(b@.take(i + 1) =~= b@.take(i as int).push(y));
        i = i + 1;
    }
    if i < b.len() {
        assert(a@.skip(i as int).len() == 0);
        assert(a@ != b@);
        KeyOrder::Before
    } else if i < a.len() {
        assert(b@.skip(i as int).len() == 0);
        assert(a@ != b@);
        KeyOrder::After
    } else {
        assert(a@ =~= a@.take(i as int));
        assert(b@ =~= b@.take(i as int));
        KeyOrder::Same
    }
}

/// Where `key` belongs among `pairs`: behind the keys that come before it.
pub open spec fn position(pairs: Seq<(Seq<u8>, Value)>, key: Seq<u8>) -> int
    decreases pairs.len(),
{
    if pairs.len() == 0 || !key_before(pairs[0].0, key) {
        0
    } else {
        1 + position(pairs.drop_first(), key)
    }
}

/// The frame that `pairs` hold under `key`, if any.
pub open spec fn map_get(pairs: Seq<(Seq<u8>, Value)>, key: Seq<u8>) -> Option<Value> {
    let at = position(pairs, key);
    if at < pairs.len() && pairs[at].0 == key {
        Some(pairs[at].1)
    } else {
        None
    }
}

/// `pairs` with `value` under `key`: in place of what was under that key,
/// or else at the place where the key belongs.
pub open spec fn map_insert(pairs: Seq<(Seq<u8>, Value)>, key: Seq<u8>, value: Value) -> Seq<
    (Seq<u8>, Value),
> {
    let at = position(pairs, key);
    if at < pairs.len() && pairs[at].0 == key {
        pairs.update(at, (key, value))
    } else {
        pairs.insert(at, (key, value))
    }
}

/// The place of a key is the one index with only earlier keys before it
/// and no earlier key at it.
pub proof fn lemma_position(pairs: Seq<(Seq<u8>, Value)>, key: Seq<u8>, at: int)
    requires
        0 <= at <= pairs.len(),
        forall|i: int| 0 <= i < at ==> key_before((#[trigger] pairs[i]).0, key),
        at < pairs.len() ==> !key_before(pairs[at].0, key),
    ensures
        position(pairs, key) == at,
    decreases pairs.len(),
{
    if at > 0 {
        assert(key_before(pairs[0].0, key));
        let rest = pairs.drop_first();
        assert forall|i: int| 0 <= i < at - 1 implies key_before((#[trigger] rest[i]).0, key) by {
            assert(rest[i] == pairs[i + 1]);
        }
        lemma_position(rest, key, at - 1);
    }
}

/// Around the place of a key, among keys that ascend: the keys before it
/// come before the key, those from it on do not, and those behind a place
/// that holds the key itself come after the key.
pub proof fn lemma_position_splits(pairs: Seq<(Seq<u8>, Value)>, key: Seq<u8>)
    requires
        keys_ascend(pairs),
    ensures
        0 <= position(pairs, key) <= pairs.len(),
        forall|i: int| 0 <= i < position(pairs, key) ==> key_before((#[trigger] pairs[i]).0, key),
        forall|i: int|
            position(pairs, key) <= i < pairs.len() ==> !key_before((#[trigger] pairs[i]).0, key),
    decreases pairs.len(),
{
    if pairs.len() == 0 {
    } else if !key_before(pairs[0].0, key) {
        assert forall|i: int| 0 <= i < pairs.len() implies !key_before(
            (#[trigger] pairs[i]).0,
            key,
        ) by {
            if i > 0 && key_before(pairs[i].0, key) {
                lemma_key_before_transitive(pairs[0].0, pairs[i].0, key);
            }
        }
    } else {
        let rest = pairs.drop_first();
        assert(keys_ascend(rest)) by {
            assert forall|i: int, j: int| 0 <= i < j < rest.len() implies key_before(
                #[trigger] rest[i].0,
                #[trigger] rest[j].0,
            ) by {
                assert(rest[i] == pairs[i + 1] && rest[j] == pairs[j + 1]);
            }
        }
        lemma_position_splits(rest, key);
        let at = position(pairs, key);
        assert forall|i: int| 0 <= i < at implies key_before((#[trigger] pairs[i]).0, key) by {
            if i > 0 {
                assert(pairs[i] == rest[i - 1]);
            }
        }
        assert forall|i: int| at <= i < pairs.len() implies !key_before(
            (#[trigger] pairs[i]).0,
            key,
        ) by {
            assert(pairs[i] == rest[i - 1]);
        }
    }
}

/// Inserting into keys that ascend leaves keys that ascend.
pub proof fn lemma_insert_ascends(pairs: Seq<(Seq<u8>, Value)>, key: Seq<u8>, value: Value)
    requires
        keys_ascend(pairs),
    ensures
        keys_ascend(map_insert(pairs, key, value)),
{
    lemma_position_splits(pairs, key);
    let at = position(pairs, key);
    let after = map_insert(pairs, key, value);
    let replaced = at < pairs.len() && pairs[at].0 == key;
    assert forall|i: int, j: int| 0 <= i < j < after.len() implies key_before(
        #[trigger] after[i].0,
        #[trigger] after[j].0,
    ) by {
        if replaced {
            assert(after[i].0 == pairs[i].0 && after[j].0 == pairs[j].0);
        } else {
            let pi = if i < at {
                i
            } else {
                i - 1
            };
            let pj = if j < at {
                j
            } else {
                j - 1
            };
            if i == at {
                assert(after[j] == pairs[pj]);
                lemma_key_before_total(key, pairs[pj].0);
                if pj > at {
                    lemma_key_before_total(key, pairs[at].0);
                    lemma_key_before_transitive(key, pairs[at].0, pairs[pj].0);
                }
            } else if j == at {
                assert(after[i] == pairs[pi]);
            } else {
                assert(after[i] == pairs[pi] && after[j] == pairs[pj]);
            }
        }
    }
}

/// After an insertion the key holds the new frame, and every other key
/// holds what it held.
pub proof fn law_get_after_insert(
    pairs: Seq<(Seq<u8>, Value)>,
    key: Seq<u8>,
    value: Value,
    other: Seq<u8>,
)
    requires
        keys_ascend(pairs),
    ensures
        map_get(map_insert(pairs, key, value), key) == Some(value),
        other != key ==> map_get(map_insert(pairs, key, value), other) == map_get(pairs, other),
{
    lemma_position_splits(pairs, key);
    lemma_position_splits(pairs, other);
    lemma_key_before_irreflexive(key);
    let at = position(pairs, key);
    let q = position(pairs, other);
    let after = map_insert(pairs, key, value);
    let replaced = at < pairs.len() && pairs[at].0 == key;
    assert(position(after, key) == at) by {
        assert forall|i: int| 0 <= i < at implies key_before((#[trigger] after[i]).0, key) by {
            assert(after[i] == pairs[i]);
        }
        lemma_position(after, key, at);
    }
    if other != key {
        lemma_key_before_total(key, other);
        lemma_key_before_asymmetric(key, other);
        if replaced {
            assert forall|i: int| 0 <= i < q implies key_before((#[trigger] after[i]).0, other) by {
                assert(after[i].0 == pairs[i].0);
            }
            if q < pairs.len() {
                assert(after[q].0 == pairs[q].0);
            }
            lemma_position(after, other, q);
        } else if key_before(other, key) {
            if q > at {
                assert(key_before(pairs[at].0, other));
                lemma_key_before_transitive(pairs[at].0, other, key);
            }
            assert forall|i: int| 0 <= i < q implies key_before((#[trigger] after[i]).0, other) by {
                assert(after[i] == pairs[i]);
            }
            if q < at {
                assert(after[q] == pairs[q]);
            } else if q < pairs.len() {
                if pairs[q].0 == other {
                    assert(key_before(pairs[at].0, key));
                }
            }
            lemma_position(after, other, q);
        } else {
            if q < at {
                assert(key_before(pairs[q].0, key));
                lemma_key_before_transitive(pairs[q].0, key, other);
            }
            assert forall|i: int| 0 <= i < q + 1 implies key_before(
                (#[trigger] after[i]).0,
                other,
            ) by {
                if i < at {
                    assert(after[i] == pairs[i]);
                } else if i > at {
                    assert(after[i] == pairs[i - 1]);
                }
            }
            if q < pairs.len() {
                assert(after[q + 1] == pairs[q]);
            }
            lemma_position(after, other, q + 1);
        }
    }
}

/// Among keys that ascend, each key holds its own frame.
pub proof fn lemma_get_own(pairs: Seq<(Seq<u8>, Value)>, i: int)
    requires
        keys_ascend(pairs),
        0 <= i < pairs.len(),
    ensures
        position(pairs, pairs[i].0) == i,
        map_get(pairs, pairs[i].0) == Some(pairs[i].1),
{
    lemma_key_before_irreflexive(pairs[i].0);
    lemma_position(pairs, pairs[i].0, i);
}

/// Keys that ascend still ascend without the first.
pub proof fn lemma_rest_ascends(pairs: Seq<(Seq<u8>, Value)>)
    requires
        keys_ascend(pairs),
        pairs.len() > 0,
    ensures
        keys_ascend(pairs.drop_first()),
{
    let rest = pairs.drop_first();
    assert forall|i: int, j: int| 0 <= i < j < rest.len() implies key_before(
        #[trigger] rest[i].0,
        #[trigger] rest[j].0,
    ) by {
        assert(rest[i] == pairs[i + 1] && rest[j] == pairs[j + 1]);
    }
}

/// Without its first entry a map holds nothing under the first key, and
/// under every other key what it held.
pub proof fn lemma_get_in_rest(pairs: Seq<(Seq<u8>, Value)>, key: Seq<u8>)
    requires
        keys_ascend(pairs),
        pairs.len() > 0,
    ensures
        map_get(pairs.drop_first(), key) == if key == pairs[0].0 {
            None
        } else {
            map_get(pairs, key)
        },
{
    let rest = pairs.drop_first();
    lemma_rest_ascends(pairs);
    lemma_position_splits(rest, key);
    lemma_key_before_irreflexive(key);
    let at = position(rest, key);
    if key_before(pairs[0].0, key) {
        if at < rest.len() {
            assert(rest[at] == pairs[at + 1]);
        }
    } else {
        lemma_key_before_total(pairs[0].0, key);
        if at < rest.len() && rest[at].0 == key {
            assert(rest[at] == pairs[at + 1]);
            assert(key_before(pairs[0].0, pairs[at + 1].0));
        }
    }
}

/// Two maps that hold the same frame under every key are the same map.
pub proof fn lemma_same_lookups(p: Seq<(Seq<u8>, Value)>, q: Seq<(Seq<u8>, Value)>)
    requires
        keys_ascend(p),
        keys_ascend(q),
        forall|key: Seq<u8>| #[trigger] map_get(p, key) == map_get(q, key),
    ensures
        p == q,
    decreases p.len(),
{
    if p.len() == 0 {
        if q.len() > 0 {
            lemma_get_own(q, 0);
            assert(map_get(p, q[0].0) == map_get(q, q[0].0));
        }
        assert(p =~= q);
    } else {
        lemma_get_own(p, 0);
        assert(map_get(p, p[0].0) == map_get(q, p[0].0));
        lemma_position_splits(q, p[0].0);
        let j = position(q, p[0].0);
        assert(0 <= j < q.len() && q[j].0 == p[0].0 && q[j].1 == p[0].1);
        lemma_get_own(q, 0);
        assert(map_get(p, q[0].0) == map_get(q, q[0].0));
        lemma_position_splits(p, q[0].0);
        let i = position(p, q[0].0);
        assert(0 <= i < p.len() && p[i].0 == q[0].0);
        if j > 0 {
            assert(key_before(q[0].0, q[j].0));
            lemma_key_before_irreflexive(p[0].0);
            if i > 0 {
                assert(key_before(p[0].0, p[i].0));
                lemma_key_before_asymmetric(p[0].0, p[i].0);
            }
        }
        assert(p[0] == q[0]);
        let p_rest = p.drop_first();
        let q_rest = q.drop_first();
        lemma_rest_ascends(p);
        lemma_rest_ascends(q);
        assert forall|key: Seq<u8>| #[trigger] map_get(p_rest, key) == map_get(q_rest, key) by {
            lemma_get_in_rest(p, key);
            lemma_get_in_rest(q, key);
            assert(map_get(p, key) == map_get(q, key));
        }
        lemma_same_lookups(p_rest, q_rest);
        assert(p =~= seq![p[0]] + p_rest);
        assert(q =~= seq![q[0]] + q_rest);
    }
}

/// The order in which two different keys are inserted does not matter.
pub proof fn law_insertion_order(
    pairs: Seq<(Seq<u8>, Value)>,
    key1: Seq<u8>,
    value1: Value,
    key2: Seq<u8>,
    value2: Value,
)
    requires
        keys_ascend(pairs),
        key1 != key2,
    ensures
        map_insert(map_insert(pairs, key1, value1), key2, value2) == map_insert(
            map_insert(pairs, key2, value2),
            key1,
            value1,
        ),
{
    let first1 = map_insert(pairs, key1, value1);
    let first2 = map_insert(pairs, key2, value2);
    let a = map_insert(first1, key2, value2);
    let b = map_insert(first2, key1, value1);
    lemma_insert_ascends(pairs, key1, value1);
    lemma_insert_ascends(pairs, key2, value2);
    lemma_insert_ascends(first1, key2, value2);
    lemma_insert_ascends(first2, key1, value1);
    assert forall|key: Seq<u8>| #[trigger] map_get(a, key) == map_get(b, key) by {
        law_get_after_insert(pairs, key1, value1, key);
        law_get_after_insert(pairs, key2, value2, key);
        law_get_after_insert(first1, key2, value2, key);
        law_get_after_insert(first2, key1, value1, key);
    }
    lemma_same_lookups(a, b);
}

/// A key that is inserted twice holds what was inserted last.
pub proof fn law_last_write_wins(
    pairs: Seq<(Seq<u8>, Value)>,
    key: Seq<u8>,
    value1: Value,
    value2: Value,
)
    requires
        keys_ascend(pairs),
    ensures
        map_insert(map_insert(pairs, key, value1), key, value2) == map_insert(pairs, key, value2),
{
    let first = map_insert(pairs, key, value1);
    let a = map_insert(first, key, value2);
    let b = map_insert(pairs, key, value2);
    lemma_insert_ascends(pairs, key, value1);
    lemma_insert_ascends(pairs, key, value2);
    lemma_insert_ascends(first, key, value2);
    assert forall|other: Seq<u8>| #[trigger] map_get(a, other) == map_get(b, other) by {
        law_get_after_insert(pairs, key, value1, other);
        law_get_after_insert(pairs, key, value2, other);
        law_get_after_insert(first, key, value2, other);
    }
    lemma_same_lookups(a, b);
}

} // verus!
