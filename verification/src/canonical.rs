//! The canonical text of a JSON value: keys in order, `cache_control` left out.

use vstd::prelude::*;
use vstd::string::StringExecFns;

use crate::json;
use crate::json::{JsonModel, JsonValue, quote};
use crate::text;
use crate::text::{characters, same};

verus! {

/// Whether text `a` comes before text `b`, character by character.
pub open spec fn precedes(a: Seq<char>, b: Seq<char>) -> bool
    decreases a.len(),
{
    if b.len() == 0 {
        false
    } else if a.len() == 0 {
        true
    } else {
        a[0] < b[0] || (a[0] == b[0] && precedes(a.drop_first(), b.drop_first()))
    }
}

/// No text comes before itself.
proof fn lemma_irreflexive(a: Seq<char>)
    ensures
        !precedes(a, a),
    decreases a.len(),
{
    if a.len() > 0 {
        lemma_irreflexive(a.drop_first());
    }
}

/// What comes before an earlier text comes before the later one.
proof fn lemma_transitive(a: Seq<char>, b: Seq<char>, c: Seq<char>)
    requires
        precedes(a, b),
        precedes(b, c),
    ensures
        precedes(a, c),
    decreases a.len(),
{
    if a.len() > 0 && a[0] == b[0] && b[0] == c[0] {
        lemma_transitive(a.drop_first(), b.drop_first(), c.drop_first());
    }
}

/// Of two different texts, one comes before the other.
proof fn lemma_total(a: Seq<char>, b: Seq<char>)
    ensures
        precedes(a, b) || a == b || precedes(b, a),
    decreases a.len(),
{
    if a.len() == 0 || b.len() == 0 {
        if a.len() == b.len() {
            assert(a == b);
        }
    } else if a[0] == b[0] {
        lemma_total(a.drop_first(), b.drop_first());
        if a.drop_first() == b.drop_first() {
            assert(a == seq![a[0]] + a.drop_first());
            assert(b == seq![b[0]] + b.drop_first());
        }
    }
}

/// Whether text `a` comes before text `b`.
fn comes_before(a: &str, b: &str) -> (before: bool)
    ensures
        before == precedes(a@, b@),
{
    let left: Vec<char> = characters(a);
    let right: Vec<char> = characters(b);
    let mut i: usize = 0;
    proof {
        assert(a@.skip(0) == a@);
        assert(b@.skip(0) == b@);
    }
    while i < left.len() && i < right.len() && left[i] == right[i]
        invariant
            i <= left.len(),
            i <= right.len(),
            left@ == a@,
            right@ == b@,
            precedes(a@, b@) == precedes(a@.skip(i as int), b@.skip(i as int)),
        decreases left.len() - i,
    {
        proof {
            assert(a@.skip(i as int).drop_first() == a@.skip(i + 1));
            assert(b@.skip(i as int).drop_first() == b@.skip(i + 1));
        }
        i += 1;
    }
    i < right.len() && (i == left.len() || left[i] < right[i])
}

/// Whether each text of a row comes before all that follow it.
pub open spec fn ascending(keys: Seq<Seq<char>>) -> bool {
    forall|i: int, j: int|
        0 <= i < j < keys.len() ==> precedes(#[trigger] keys[i], #[trigger] keys[j])
}

/// The texts of a set, in ascending order.
pub open spec fn in_order(keys: Set<Seq<char>>) -> Seq<Seq<char>> {
    choose|row: Seq<Seq<char>>| ascending(row) && row.to_set() == keys
}

/// Two ascending rows of the same texts are the same row.
proof fn lemma_one_order(a: Seq<Seq<char>>, b: Seq<Seq<char>>)
    requires
        ascending(a),
        ascending(b),
        a.to_set() == b.to_set(),
    ensures
        a == b,
    decreases a.len(),
{
    if a.len() == 0 {
        if b.len() > 0 {
            assert(b.to_set().contains(b[0]));
            assert(a.to_set().contains(b[0]));
        }
        assert(a == b);
    } else {
        assert(a.to_set().contains(a.last()));
        assert(b.to_set().contains(a.last()));
        let j = choose|j: int| 0 <= j < b.len() && b[j] == a.last();
        assert(b.to_set().contains(b.last()));
        assert(a.to_set().contains(b.last()));
        let i = choose|i: int| 0 <= i < a.len() && a[i] == b.last();
        if j < b.len() - 1 {
            assert(precedes(b[j], b[b.len() - 1]));
            if i < a.len() - 1 {
                assert(precedes(a[i], a[a.len() - 1]));
                lemma_transitive(a.last(), b.last(), a.last());
            }
            lemma_irreflexive(a.last());
            assert(false);
        }
        assert(a.last() == b.last());
        let left = a.drop_last();
        let right = b.drop_last();
        assert forall|key: Seq<char>| left.to_set().contains(key) implies right.to_set().contains(
            key,
        ) by {
            let k = choose|k: int| 0 <= k < left.len() && left[k] == key;
            assert(a[k] == key);
            assert(a.to_set().contains(key));
            assert(b.to_set().contains(key));
            let l = choose|l: int| 0 <= l < b.len() && b[l] == key;
            if l == b.len() - 1 {
                assert(precedes(a[k], a[a.len() - 1]));
                lemma_irreflexive(key);
            }
            assert(right[l] == key);
        }
        assert forall|key: Seq<char>| right.to_set().contains(key) implies left.to_set().contains(
            key,
        ) by {
            let k = choose|k: int| 0 <= k < right.len() && right[k] == key;
            assert(b[k] == key);
            assert(b.to_set().contains(key));
            assert(a.to_set().contains(key));
            let l = choose|l: int| 0 <= l < a.len() && a[l] == key;
            if l == a.len() - 1 {
                assert(precedes(b[k], b[b.len() - 1]));
                lemma_irreflexive(key);
            }
            assert(left[l] == key);
        }
        assert(left.to_set() == right.to_set());
        lemma_one_order(left, right);
        assert(a == left.push(a.last()));
        assert(b == right.push(b.last()));
    }
}

/// The canonical text of a JSON value. The members of an object stand in the order of
/// their keys, without the member `cache_control`; there is no white space.
pub open spec fn canonical(json: JsonModel) -> Seq<char>
    decreases json, 0nat,
{
    match json {
        JsonModel::Null => "null"@,
        JsonModel::Bool(b) => if b {
            "true"@
        } else {
            "false"@
        },
        JsonModel::Number(text) => text,
        JsonModel::Text(text) => json::quoted(text),
        JsonModel::Array(items) => seq!['['] + canonical_items(items) + seq![']'],
        JsonModel::Object(members) => seq!['{'] + canonical_members(
            members,
            in_order(members.dom().remove("cache_control"@)),
        ) + seq!['}'],
    }
}

/// The canonical texts of a row of values, with commas between them.
pub open spec fn canonical_items(items: Seq<JsonModel>) -> Seq<char>
    decreases items, 0nat,
{
    if items.len() == 0 {
        Seq::empty()
    } else {
        after_comma(canonical_items(items.drop_last()), items.len() > 1) + canonical(items.last())
    }
}

/// The members of an object with the given keys, with commas between them.
pub open spec fn canonical_members(
    members: Map<Seq<char>, JsonModel>,
    keys: Seq<Seq<char>>,
) -> Seq<char>
    decreases members, keys.len(),
{
    if keys.len() == 0 {
        Seq::empty()
    } else {
        after_comma(canonical_members(members, keys.drop_last()), keys.len() > 1) + json::quoted(
            keys.last(),
        ) + seq![':'] + (if members.dom().finite() && members.contains_key(keys.last()) {
            canonical(members[keys.last()])
        } else {
            Seq::empty()
        })
    }
}

/// A text, followed by a comma where something stands before.
pub open spec fn after_comma(text: Seq<char>, comma: bool) -> Seq<char> {
    if comma {
        text.push(',')
    } else {
        text
    }
}

/// Whether two values hold the same but for `cache_control` members, at any depth.
pub open spec fn same_content(a: JsonModel, b: JsonModel) -> bool
    decreases a,
{
    match (a, b) {
        (JsonModel::Array(x), JsonModel::Array(y)) => {
            &&& x.len() == y.len()
            &&& forall|i: int| 0 <= i < x.len() ==> same_content(#[trigger] x[i], y[i])
        },
        (JsonModel::Object(x), JsonModel::Object(y)) => {
            &&& x.dom().finite()
            &&& y.dom().finite()
            &&& x.dom().remove("cache_control"@) == y.dom().remove("cache_control"@)
            &&& forall|key: Seq<char>| #[trigger]
                x.contains_key(key) && key != "cache_control"@ ==> same_content(x[key], y[key])
        },
        _ => a == b,
    }
}

/// Values that hold the same but for `cache_control`, whatever the order of their keys,
/// have the same canonical text.
pub proof fn law_canonical_ignores_cache_control(a: JsonModel, b: JsonModel)
    requires
        same_content(a, b),
    ensures
        canonical(a) == canonical(b),
    decreases a, 0nat,
{
    match (a, b) {
        (JsonModel::Array(x), JsonModel::Array(y)) => {
            lemma_same_items(x, y);
        },
        (JsonModel::Object(x), JsonModel::Object(y)) => {
            let keys = x.dom().remove("cache_control"@);
            lemma_order_exists(keys);
            let row = in_order(keys);
            assert forall|i: int| 0 <= i < row.len() implies keys.contains(#[trigger] row[i]) by {
                assert(row.to_set().contains(row[i]));
            }
            lemma_same_members(x, y, row);
        },
        _ => {},
    }
}

/// Rows of values that hold the same but for `cache_control` have the same text.
proof fn lemma_same_items(x: Seq<JsonModel>, y: Seq<JsonModel>)
    requires
        x.len() == y.len(),
        forall|i: int| 0 <= i < x.len() ==> same_content(#[trigger] x[i], y[i]),
    ensures
        canonical_items(x) == canonical_items(y),
    decreases x, 0nat,
{
    if x.len() > 0 {
        assert forall|i: int| 0 <= i < x.drop_last().len() implies same_content(
            #[trigger] x.drop_last()[i],
            y.drop_last()[i],
        ) by {
            assert(same_content(x[i], y[i]));
        }
        lemma_same_items(x.drop_last(), y.drop_last());
        assert(same_content(x[x.len() - 1], y[x.len() - 1]));
        law_canonical_ignores_cache_control(x[x.len() - 1], y[x.len() - 1]);
    }
}

/// Members that hold the same but for `cache_control` have the same text.
proof fn lemma_same_members(
    x: Map<Seq<char>, JsonModel>,
    y: Map<Seq<char>, JsonModel>,
    keys: Seq<Seq<char>>,
)
    requires
        x.dom().finite(),
        y.dom().finite(),
        x.dom().remove("cache_control"@) == y.dom().remove("cache_control"@),
        forall|key: Seq<char>| #[trigger]
            x.contains_key(key) && key != "cache_control"@ ==> same_content(x[key], y[key]),
        forall|i: int|
            0 <= i < keys.len() ==> x.dom().remove("cache_control"@).contains(#[trigger] keys[i]),
    ensures
        canonical_members(x, keys) == canonical_members(y, keys),
    decreases x, keys.len(),
{
    if keys.len() > 0 {
        let key = keys.last();
        assert(x.dom().remove("cache_control"@).contains(keys[keys.len() - 1]));
        assert(y.dom().remove("cache_control"@).contains(key));
        assert(x.contains_key(key) && key != "cache_control"@);
        lemma_same_members(x, y, keys.drop_last());
        law_canonical_ignores_cache_control(x[key], y[key]);
    }
}

/// The texts of a finite set can be put in ascending order.
proof fn lemma_order_exists(keys: Set<Seq<char>>)
    requires
        keys.finite(),
    ensures
        ascending(in_order(keys)),
        in_order(keys).to_set() == keys,
    decreases keys.len(),
{
    let row = lemma_some_order(keys);
    assert(ascending(row) && row.to_set() == keys);
}

/// An ascending row of the texts of a finite set.
proof fn lemma_some_order(keys: Set<Seq<char>>) -> (row: Seq<Seq<char>>)
    requires
        keys.finite(),
    ensures
        ascending(row),
        row.to_set() == keys,
    decreases keys.len(),
{
    if keys.len() == 0 {
        let row: Seq<Seq<char>> = Seq::empty();
        assert(keys =~= Set::empty());
        assert(row.to_set() =~= keys);
        row
    } else {
        let key = keys.choose();
        let rest = lemma_some_order(keys.remove(key));
        assert forall|i: int| 0 <= i < rest.len() implies #[trigger] rest[i] != key by {
            assert(rest.to_set().contains(rest[i]));
        }
        let at = lemma_place(rest, key);
        let row = rest.insert(at, key);
        assert forall|i: int, j: int| 0 <= i < j < row.len() implies precedes(
            #[trigger] row[i],
            #[trigger] row[j],
        ) by {
            let u = if i < at { i } else { i - 1 };
            let w = if j < at { j } else { j - 1 };
            if i != at && j != at {
                assert(precedes(rest[u], rest[w]));
            }
        }
        assert forall|k: Seq<char>| row.to_set().contains(k) <==> keys.contains(k) by {
            if row.to_set().contains(k) {
                let i = choose|i: int| 0 <= i < row.len() && row[i] == k;
                if i < at {
                    assert(rest.to_set().contains(rest[i]));
                } else if i > at {
                    assert(rest.to_set().contains(rest[i - 1]));
                }
            }
            if keys.contains(k) {
                if k == key {
                    assert(row[at] == k);
                } else {
                    assert(rest.to_set().contains(k));
                    let i = choose|i: int| 0 <= i < rest.len() && rest[i] == k;
                    if i < at {
                        assert(row[i] == k);
                    } else {
                        assert(row[i + 1] == k);
                    }
                }
            }
        }
        assert(row.to_set() =~= keys);
        row
    }
}

/// The place of a new text in an ascending row.
proof fn lemma_place(row: Seq<Seq<char>>, key: Seq<char>) -> (at: int)
    requires
        ascending(row),
        forall|i: int| 0 <= i < row.len() ==> #[trigger] row[i] != key,
    ensures
        0 <= at <= row.len(),
        forall|i: int| 0 <= i < at ==> precedes(#[trigger] row[i], key),
        forall|i: int| at <= i < row.len() ==> precedes(key, #[trigger] row[i]),
    decreases row.len(),
{
    if row.len() == 0 {
        0
    } else {
        let last = row[row.len() - 1];
        lemma_total(last, key);
        if precedes(last, key) {
            assert forall|i: int| 0 <= i < row.len() implies precedes(#[trigger] row[i], key) by {
                if i < row.len() - 1 {
                    lemma_transitive(row[i], last, key);
                }
            }
            row.len() as int
        } else {
            let front = row.drop_last();
            let at = lemma_place(front, key);
            assert forall|i: int| at <= i < row.len() implies precedes(key, #[trigger] row[i]) by {
                if i < front.len() {
                    assert(precedes(key, front[i]));
                }
            }
            assert forall|i: int| 0 <= i < at implies precedes(#[trigger] row[i], key) by {
                assert(precedes(front[i], key));
            }
            at
        }
    }
}

/// The keys of the members that a list of positions points to.
spec fn keys_at(members: Seq<(String, JsonValue)>, order: Seq<usize>) -> Seq<Seq<char>> {
    Seq::new(order.len(), |k: int| members[order[k] as int].0@)
}

/// Whether a list of positions points, in the order of their keys, to the members that
/// count among the first `n`, but for `cache_control`.
spec fn ordered(members: Seq<(String, JsonValue)>, order: Seq<usize>, n: int) -> bool {
    let held = json::object_model(members.take(n));
    let keys = keys_at(members, order);
    &&& forall|k: int| 0 <= k < order.len() ==> 0 <= #[trigger] order[k] < n
    &&& ascending(keys)
    &&& forall|key: Seq<char>| #[trigger]
        keys.contains(key) <==> held.contains_key(key) && key != "cache_control"@
    &&& forall|k: int|
        0 <= k < order.len() ==> held[#[trigger] keys[k]] == members[order[k] as int].1.model()
}

/// The positions of the members that count, in the order of their keys, but for
/// `cache_control`.
fn member_order(members: &Vec<(String, JsonValue)>) -> (order: Vec<usize>)
    ensures
        ordered(members@, order@, members.len() as int),
{
    let mut order: Vec<usize> = Vec::new();
    let mut i: usize = 0;
    proof {
        assert(keys_at(members@, order@) == Seq::<Seq<char>>::empty());
    }
    while i < members.len()
        invariant
            i <= members.len(),
            ordered(members@, order@, i as int),
        decreases members.len() - i,
    {
        let ghost keys = keys_at(members@, order@);
        let ghost key = members@[i as int].0@;
        let ghost before = order@;
        proof {
            assert(members@.take(i + 1).drop_last() == members@.take(i as int));
            assert(members@.take(i + 1).last() == members@[i as int]);
        }
        if !same(members[i].0.as_str(), "cache_control") {
            let mut at: usize = 0;
            while at < order.len() && comes_before(
                members[order[at]].0.as_str(),
                members[i].0.as_str(),
            )
                invariant
                    i < members.len(),
                    at <= order.len(),
                    order@ == before,
                    keys == keys_at(members@, order@),
                    key == members@[i as int].0@,
                    forall|k: int| 0 <= k < order.len() ==> 0 <= #[trigger] order[k] < i,
                    forall|k: int| 0 <= k < at ==> precedes(#[trigger] keys[k], key),
                decreases order.len() - at,
            {
                proof {
                    assert(keys[at as int] == members@[order[at as int] as int].0@);
                }
                at += 1;
            }
            if at < order.len() && same(members[order[at]].0.as_str(), members[i].0.as_str()) {
                proof {
                    assert(keys[at as int] == key);
                }
                order.set(at, i);
                proof {
                    lemma_replaced(members@, before, i as int, at as int);
                    assert(order@ == before.update(at as int, i));
                }
            } else {
                proof {
                    if at < order.len() {
                        assert(keys[at as int] == members@[order[at as int] as int].0@);
                        lemma_total(keys[at as int], key);
                    }
                }
                order.insert(at, i);
                proof {
                    lemma_inserted(members@, before, i as int, at as int);
                }
            }
        } else {
            proof {
                let held = json::object_model(members@.take(i as int));
                assert forall|k: int| 0 <= k < order@.len() implies json::object_model(
                    members@.take(i + 1),
                )[#[trigger] keys[k]] == members@[order@[k] as int].1.model() by {
                    assert(keys.contains(keys[k]));
                    assert(held[keys[k]] == members@[order@[k] as int].1.model());
                }
            }
        }
        i += 1;
    }
    order
}

/// A later member takes the place of an earlier one with the same key.
proof fn lemma_replaced(members: Seq<(String, JsonValue)>, order: Seq<usize>, i: int, at: int)
    requires
        0 <= i < members.len(),
        i <= usize::MAX,
        0 <= at < order.len(),
        ordered(members, order, i),
        keys_at(members, order)[at] == members[i].0@,
    ensures
        ordered(members, order.update(at, i as usize), i + 1),
{
    let keys = keys_at(members, order);
    let next = order.update(at, i as usize);
    let held = json::object_model(members.take(i));
    assert(members.take(i + 1).drop_last() == members.take(i));
    assert(members.take(i + 1).last() == members[i]);
    assert(keys_at(members, next) == keys);
    assert(keys.contains(keys[at]));
    assert forall|k: int| 0 <= k < next.len() implies json::object_model(members.take(i + 1))[#[trigger] keys[k]]
        == members[next[k] as int].1.model() by {
        assert(held[keys[k]] == members[order[k] as int].1.model());
        if k < at {
            assert(precedes(keys[k], keys[at]));
            lemma_irreflexive(keys[at]);
        } else if k > at {
            assert(precedes(keys[at], keys[k]));
            lemma_irreflexive(keys[at]);
        }
    }
}

/// A member with a new key takes its place between the others.
proof fn lemma_inserted(members: Seq<(String, JsonValue)>, order: Seq<usize>, i: int, at: int)
    requires
        0 <= i < members.len(),
        i <= usize::MAX,
        0 <= at <= order.len(),
        ordered(members, order, i),
        members[i].0@ != "cache_control"@,
        forall|k: int| 0 <= k < at ==> precedes(#[trigger] keys_at(members, order)[k], members[i].0@),
        at < order.len() ==> precedes(members[i].0@, keys_at(members, order)[at]),
    ensures
        ordered(members, order.insert(at, i as usize), i + 1),
{
    let keys = keys_at(members, order);
    let key = members[i].0@;
    let next = order.insert(at, i as usize);
    let row = keys_at(members, next);
    let held = json::object_model(members.take(i));
    assert(members.take(i + 1).drop_last() == members.take(i));
    assert(members.take(i + 1).last() == members[i]);
    assert(row == keys.insert(at, key));
    assert forall|k: int| at <= k < keys.len() implies precedes(key, #[trigger] keys[k]) by {
        if k > at {
            assert(precedes(keys[at], keys[k]));
            lemma_transitive(key, keys[at], keys[k]);
        }
    }
    assert forall|k: int, l: int| 0 <= k < l < row.len() implies precedes(
        #[trigger] row[k],
        #[trigger] row[l],
    ) by {
        let u = if k < at { k } else { k - 1 };
        let w = if l < at { l } else { l - 1 };
        if k != at && l != at {
            assert(precedes(keys[u], keys[w]));
        } else if k == at {
            assert(precedes(key, keys[w]));
        } else {
            assert(precedes(keys[u], key));
        }
    }
    assert forall|k: Seq<char>| #[trigger] row.contains(k) <==> json::object_model(
        members.take(i + 1),
    ).contains_key(k) && k != "cache_control"@ by {
        if row.contains(k) {
            let n = choose|n: int| 0 <= n < row.len() && row[n] == k;
            if n < at {
                assert(keys.contains(keys[n]));
            } else if n > at {
                assert(keys.contains(keys[n - 1]));
            }
        }
        if json::object_model(members.take(i + 1)).contains_key(k) && k != "cache_control"@ {
            if k == key {
                assert(row[at] == k);
            } else {
                assert(keys.contains(k));
                let n = choose|n: int| 0 <= n < keys.len() && keys[n] == k;
                if n < at {
                    assert(row[n] == k);
                } else {
                    assert(row[n + 1] == k);
                }
            }
        }
    }
    assert forall|k: int| 0 <= k < next.len() implies json::object_model(members.take(i + 1))[#[trigger] row[k]]
        == members[next[k] as int].1.model() by {
        if k != at {
            let u = if k < at { k } else { k - 1 };
            assert(row[k] == keys[u]);
            assert(held[keys[u]] == members[order[u] as int].1.model());
            lemma_irreflexive(key);
        }
    }
}

/// Appends the canonical text of a value.
pub fn write_canonical_json(buf: &mut String, value: &JsonValue)
    ensures
        final(buf)@ == old(buf)@ + canonical(value@),
    decreases value,
{
    let ghost start = buf@;
    match value {
        JsonValue::Null => buf.append("null"),
        JsonValue::Bool(b) => buf.append(
            if *b {
                "true"
            } else {
                "false"
            },
        ),
        JsonValue::Number(text) => buf.append(text.as_str()),
        JsonValue::Text(text) => buf.append(quote(text.as_str()).as_str()),
        JsonValue::Array(items) => {
            let ghost models = json::array_model(items@);
            buf.push('[');
            let mut i: usize = 0;
            proof {
                json::lemma_array_model(items@);
                assert(models.take(0) == Seq::<JsonModel>::empty());
                assert(buf@ == start + seq!['[']);
            }
            while i < items.len()
                invariant
                    i <= items.len(),
                    value is Array,
                    *items == value->Array_0,
                    models == json::array_model(items@),
                    models.len() == items.len(),
                    forall|k: int| 0 <= k < items.len() ==> #[trigger] models[k] == items@[k].model(),
                    buf@ == start + seq!['['] + canonical_items(models.take(i as int)),
                decreases items.len() - i,
            {
                if i > 0 {
                    buf.push(',');
                }
                proof {
                    assert(decreases_to!(value => value->Array_0));
                    assert(decreases_to!(items => items@));
                    assert(decreases_to!(items@ => items@[i as int]));
                    assert(models.take(i + 1).drop_last() == models.take(i as int));
                    assert(models.take(i + 1).last() == models[i as int]);
                    assert(buf@ == start + seq!['['] + after_comma(
                        canonical_items(models.take(i as int)),
                        i > 0,
                    ));
                }
                write_canonical_json(buf, &items[i]);
                i += 1;
            }
            buf.push(']');
            proof {
                assert(models.take(i as int) == models);
                assert(buf@ == start + canonical(value@));
            }
        },
        JsonValue::Object(members) => {
            let ghost held = json::object_model(members@);
            buf.push('{');
            let order: Vec<usize> = member_order(members);
            let ghost keys = keys_at(members@, order@);
            let mut i: usize = 0;
            proof {
                json::lemma_object_model(members@);
                assert(members@.take(members.len() as int) == members@);
                assert(keys.to_set() =~= held.dom().remove("cache_control"@));
                assert(ascending(keys) && keys.to_set() == held.dom().remove("cache_control"@));
                lemma_one_order(keys, in_order(held.dom().remove("cache_control"@)));
                assert(keys.take(0) == Seq::<Seq<char>>::empty());
                assert(buf@ == start + seq!['{']);
                assert forall|k: int| 0 <= k < keys.len() implies held.contains_key(
                    #[trigger] keys[k],
                ) by {
                    assert(keys.contains(keys[k]));
                }
            }
            while i < order.len()
                invariant
                    i <= order.len(),
                    value is Object,
                    *members == value->Object_0,
                    held == json::object_model(members@),
                    held.dom().finite(),
                    keys == keys_at(members@, order@),
                    forall|k: int| 0 <= k < order.len() ==> 0 <= #[trigger] order[k] < members.len(),
                    forall|k: int|
                        0 <= k < keys.len() ==> held[#[trigger] keys[k]]
                            == members@[order[k] as int].1.model(),
                    forall|k: int| 0 <= k < keys.len() ==> held.contains_key(#[trigger] keys[k]),
                    buf@ == start + seq!['{'] + canonical_members(held, keys.take(i as int)),
                decreases order.len() - i,
            {
                let at: usize = order[i];
                let ghost done = canonical_members(held, keys.take(i as int));
                if i > 0 {
                    buf.push(',');
                }
                proof {
                    assert(buf@ == start + seq!['{'] + after_comma(done, i > 0));
                    assert(keys[i as int] == members@[at as int].0@);
                    assert(held[keys[i as int]] == members@[at as int].1.model());
                    assert(decreases_to!(value => value->Object_0));
                    assert(decreases_to!(members => members@));
                    assert(decreases_to!(members@ => members@[at as int]));
                    assert(decreases_to!(members@[at as int] => members@[at as int].1));
                    assert(keys.take(i + 1).drop_last() == keys.take(i as int));
                    assert(keys.take(i + 1).last() == keys[i as int]);
                }
                buf.append(quote(members[at].0.as_str()).as_str());
                buf.push(':');
                proof {
                    assert(buf@ == start + seq!['{'] + (after_comma(done, i > 0) + json::quoted(
                        keys[i as int],
                    ) + seq![':']));
                }
                write_canonical_json(buf, &members[at].1);
                proof {
                    assert(buf@ == start + seq!['{'] + canonical_members(held, keys.take(i + 1)));
                }
                i += 1;
            }
            buf.push('}');
            proof {
                assert(keys.take(i as int) == keys);
                assert(buf@ == start + canonical(value@));
            }
        },
    }
}

/// The canonical text of a value.
pub fn canonicalize_cache_value(value: &JsonValue) -> (text: String)
    ensures
        text@ == canonical(value@),
{
    let mut buf: String = String::new();
    write_canonical_json(&mut buf, value);
    proof {
        assert(buf@ == canonical(value@));
    }
    buf
}

/// Whether a character can stand in a number.
pub open spec fn number_char(c: char) -> bool {
    text::digit(c) || c == '-' || c == '+' || c == '.' || c == 'e' || c == 'E'
}

/// Whether a text can be a number: a digit or a minus sign comes first, and nothing stands
/// in it that cannot stand in a number.
pub open spec fn number_text(number: Seq<char>) -> bool {
    &&& number.len() > 0
    &&& text::digit(number[0]) || number[0] == '-'
    &&& forall|i: int| 0 <= i < number.len() ==> number_char(#[trigger] number[i])
}

/// Whether every number in a value, but for those under `cache_control`, is written as one,
/// and every object has finitely many members.
pub open spec fn readable(json: JsonModel) -> bool
    decreases json,
{
    match json {
        JsonModel::Number(number) => number_text(number),
        JsonModel::Array(items) => forall|i: int|
            0 <= i < items.len() ==> readable(#[trigger] items[i]),
        JsonModel::Object(members) => {
            &&& members.dom().finite()
            &&& forall|key: Seq<char>| #[trigger]
                members.contains_key(key) && key != "cache_control"@ ==> readable(members[key])
        },
        _ => true,
    }
}

/// What can follow a value: nothing, a comma or a closing bracket.
spec fn ends(rest: Seq<char>) -> bool {
    rest.len() == 0 || rest[0] == ',' || rest[0] == ']' || rest[0] == '}'
}

/// A number ends where something follows that cannot stand in it.
proof fn lemma_number_apart(s: Seq<char>, x: Seq<char>, t: Seq<char>, y: Seq<char>)
    requires
        number_text(s),
        number_text(t),
        ends(x),
        ends(y),
        s + x == t + y,
    ensures
        s == t,
        x == y,
{
    let left = s + x;
    let right = t + y;
    assert(left.len() == s.len() + x.len() && right.len() == t.len() + y.len());
    if s.len() < t.len() {
        assert(left[s.len() as int] == x[0]);
        assert(right[s.len() as int] == t[s.len() as int]);
    }
    if t.len() < s.len() {
        assert(right[t.len() as int] == y[0]);
        assert(left[t.len() as int] == s[t.len() as int]);
    }
    assert(left.take(s.len() as int) == s);
    assert(right.take(t.len() as int) == t);
    json::lemma_after_prefix(s, x, y);
}

/// The first character of a value's text.
spec fn first_of(json: JsonModel) -> char {
    match json {
        JsonModel::Null => 'n',
        JsonModel::Bool(b) => if b {
            't'
        } else {
            'f'
        },
        JsonModel::Number(number) => number[0],
        JsonModel::Text(_) => '"',
        JsonModel::Array(_) => '[',
        JsonModel::Object(_) => '{',
    }
}

proof fn lemma_first(json: JsonModel)
    requires
        readable(json),
    ensures
        canonical(json).len() > 0,
        canonical(json)[0] == first_of(json),
{
    reveal_strlit("null");
    reveal_strlit("true");
    reveal_strlit("false");
}

/// The rest of a row of values after its first.
spec fn further_items(items: Seq<JsonModel>) -> Seq<char> {
    if items.len() == 0 {
        Seq::empty()
    } else {
        seq![','] + canonical_items(items)
    }
}

proof fn lemma_items_first(items: Seq<JsonModel>)
    requires
        items.len() > 0,
    ensures
        canonical_items(items) == canonical(items[0]) + further_items(items.drop_first()),
    decreases items.len(),
{
    let front = items.drop_last();
    if items.len() == 1 {
        assert(front == Seq::<JsonModel>::empty());
        assert(canonical_items(front) == Seq::<char>::empty());
        assert(items.drop_first() == Seq::<JsonModel>::empty());
        assert(canonical_items(items) =~= canonical(items[0]) + further_items(items.drop_first()));
    } else {
        lemma_items_first(front);
        let rest = items.drop_first();
        assert(front.drop_first() == rest.drop_last());
        assert(rest.last() == items.last());
        if rest.len() == 1 {
            assert(rest.drop_last() == Seq::<JsonModel>::empty());
            assert(canonical_items(rest.drop_last()) == Seq::<char>::empty());
        }
        assert(canonical_items(items) =~= canonical(items[0]) + further_items(rest));
    }
}

/// The text of one member.
spec fn member_text(members: Map<Seq<char>, JsonModel>, key: Seq<char>) -> Seq<char> {
    json::quoted(key) + seq![':'] + (if members.dom().finite() && members.contains_key(key) {
        canonical(members[key])
    } else {
        Seq::empty()
    })
}

/// The rest of a row of members after its first.
spec fn further_members(members: Map<Seq<char>, JsonModel>, keys: Seq<Seq<char>>) -> Seq<char> {
    if keys.len() == 0 {
        Seq::empty()
    } else {
        seq![','] + canonical_members(members, keys)
    }
}

proof fn lemma_members_first(members: Map<Seq<char>, JsonModel>, keys: Seq<Seq<char>>)
    requires
        keys.len() > 0,
    ensures
        canonical_members(members, keys) == member_text(members, keys[0]) + further_members(
            members,
            keys.drop_first(),
        ),
    decreases keys.len(),
{
    let front = keys.drop_last();
    if keys.len() == 1 {
        assert(front == Seq::<Seq<char>>::empty());
        assert(canonical_members(members, front) == Seq::<char>::empty());
        assert(keys.drop_first() == Seq::<Seq<char>>::empty());
        assert(canonical_members(members, keys) =~= member_text(members, keys[0])
            + further_members(members, keys.drop_first()));
    } else {
        lemma_members_first(members, front);
        let rest = keys.drop_first();
        assert(front.drop_first() == rest.drop_last());
        assert(rest.last() == keys.last());
        if rest.len() == 1 {
            assert(rest.drop_last() == Seq::<Seq<char>>::empty());
            assert(canonical_members(members, rest.drop_last()) == Seq::<char>::empty());
        }
        assert(canonical_members(members, keys) =~= member_text(members, keys[0])
            + further_members(members, rest));
    }
}

/// What follows the first member of an object.
spec fn after_member(
    members: Map<Seq<char>, JsonModel>,
    keys: Seq<Seq<char>>,
    rest: Seq<char>,
) -> Seq<char> {
    further_members(members, keys.drop_first()) + seq!['}'] + rest
}

/// The text of an object's members starts with the first key and its value.
proof fn lemma_members_split(
    members: Map<Seq<char>, JsonModel>,
    keys: Seq<Seq<char>>,
    rest: Seq<char>,
)
    requires
        members.dom().finite(),
        keys.len() > 0,
        members.contains_key(keys[0]),
    ensures
        canonical_members(members, keys) + seq!['}'] + rest == json::quoted(keys[0]) + (seq![':']
            + (canonical(members[keys[0]]) + after_member(members, keys, rest))),
        ends(after_member(members, keys, rest)),
        keys.len() == 1 ==> after_member(members, keys, rest) == seq!['}'] + rest,
        keys.len() > 1 ==> after_member(members, keys, rest) == seq![','] + (canonical_members(
            members,
            keys.drop_first(),
        ) + seq!['}'] + rest),
{
    let after = after_member(members, keys, rest);
    lemma_members_first(members, keys);
    assert(canonical_members(members, keys) + seq!['}'] + rest =~= json::quoted(keys[0]) + (
    seq![':'] + (canonical(members[keys[0]]) + after)));
    if keys.len() == 1 {
        assert(after =~= seq!['}'] + rest);
    } else {
        assert(after =~= seq![','] + (canonical_members(members, keys.drop_first()) + seq!['}']
            + rest));
    }
}

/// The text of a value tells what the value holds, and where it ends.
proof fn lemma_apart(a: JsonModel, x: Seq<char>, b: JsonModel, y: Seq<char>)
    requires
        readable(a),
        readable(b),
        ends(x),
        ends(y),
        canonical(a) + x == canonical(b) + y,
    ensures
        same_content(a, b),
        x == y,
    decreases a, 0nat,
{
    let left = canonical(a) + x;
    let right = canonical(b) + y;
    lemma_first(a);
    lemma_first(b);
    assert(left[0] == first_of(a));
    assert(right[0] == first_of(b));
    match (a, b) {
        (JsonModel::Number(s), JsonModel::Number(t)) => {
            lemma_number_apart(s, x, t, y);
        },
        (JsonModel::Text(s), JsonModel::Text(t)) => {
            json::law_strings_are_unambiguous(s, x, t, y);
        },
        (JsonModel::Array(p), JsonModel::Array(q)) => {
            let u = canonical_items(p) + seq![']'] + x;
            let v = canonical_items(q) + seq![']'] + y;
            assert(left =~= seq!['['] + u);
            assert(right =~= seq!['['] + v);
            json::lemma_after_prefix(seq!['['], u, v);
            lemma_items_apart(p, x, q, y);
        },
        (JsonModel::Object(p), JsonModel::Object(q)) => {
            let cc = "cache_control"@;
            let ks = in_order(p.dom().remove(cc));
            let ls = in_order(q.dom().remove(cc));
            lemma_order_exists(p.dom().remove(cc));
            lemma_order_exists(q.dom().remove(cc));
            let u = canonical_members(p, ks) + seq!['}'] + x;
            let v = canonical_members(q, ls) + seq!['}'] + y;
            assert(left =~= seq!['{'] + u);
            assert(right =~= seq!['{'] + v);
            json::lemma_after_prefix(seq!['{'], u, v);
            assert forall|i: int| 0 <= i < ks.len() implies p.dom().remove(cc).contains(
                #[trigger] ks[i],
            ) by {
                assert(ks.to_set().contains(ks[i]));
            }
            assert forall|i: int| 0 <= i < ls.len() implies q.dom().remove(cc).contains(
                #[trigger] ls[i],
            ) by {
                assert(ls.to_set().contains(ls[i]));
            }
            lemma_members_apart(p, ks, x, q, ls, y);
            assert forall|key: Seq<char>| #[trigger]
                p.contains_key(key) && key != cc implies same_content(p[key], q[key]) by {
                assert(p.dom().remove(cc).contains(key));
                assert(ks.to_set().contains(key));
                let i = choose|i: int| 0 <= i < ks.len() && ks[i] == key;
                assert(same_content(p[ks[i]], q[ks[i]]));
            }
        },
        _ => {
            assert(canonical(a) == canonical(b));
            json::lemma_after_prefix(canonical(a), x, y);
        },
    }
}

proof fn lemma_items_apart(p: Seq<JsonModel>, x: Seq<char>, q: Seq<JsonModel>, y: Seq<char>)
    requires
        forall|i: int| 0 <= i < p.len() ==> readable(#[trigger] p[i]),
        forall|i: int| 0 <= i < q.len() ==> readable(#[trigger] q[i]),
        canonical_items(p) + seq![']'] + x == canonical_items(q) + seq![']'] + y,
    ensures
        p.len() == q.len(),
        forall|i: int| 0 <= i < p.len() ==> same_content(#[trigger] p[i], q[i]),
        x == y,
    decreases p, 0nat,
{
    let left = canonical_items(p) + seq![']'] + x;
    let right = canonical_items(q) + seq![']'] + y;
    if p.len() == 0 && q.len() == 0 {
        assert(left == seq![']'] + x);
        assert(right == seq![']'] + y);
        json::lemma_after_prefix(seq![']'], x, y);
    } else if p.len() == 0 {
        lemma_items_first(q);
        lemma_first(q[0]);
        assert(left[0] == ']');
        assert(right[0] == canonical(q[0])[0]);
    } else if q.len() == 0 {
        lemma_items_first(p);
        lemma_first(p[0]);
        assert(right[0] == ']');
        assert(left[0] == canonical(p[0])[0]);
    } else {
        lemma_items_first(p);
        lemma_items_first(q);
        let pr = p.drop_first();
        let qr = q.drop_first();
        let u = further_items(pr) + seq![']'] + x;
        let v = further_items(qr) + seq![']'] + y;
        assert(left =~= canonical(p[0]) + u);
        assert(right =~= canonical(q[0]) + v);
        assert(u[0] == (if pr.len() == 0 { ']' } else { ',' }));
        assert(v[0] == (if qr.len() == 0 { ']' } else { ',' }));
        assert(decreases_to!(p => p[0]));
        lemma_apart(p[0], u, q[0], v);
        assert forall|i: int| 0 <= i < pr.len() implies readable(#[trigger] pr[i]) by {
            assert(pr[i] == p[i + 1]);
        }
        assert forall|i: int| 0 <= i < qr.len() implies readable(#[trigger] qr[i]) by {
            assert(qr[i] == q[i + 1]);
        }
        if pr.len() == 0 {
            assert(u == seq![']'] + x);
            assert(v == seq![']'] + y);
            json::lemma_after_prefix(seq![']'], x, y);
        } else {
            let s = canonical_items(pr) + seq![']'] + x;
            let t = canonical_items(qr) + seq![']'] + y;
            assert(u =~= seq![','] + s);
            assert(v =~= seq![','] + t);
            json::lemma_after_prefix(seq![','], s, t);
            assert(decreases_to!(p => p.subrange(1, p.len() as int)));
            assert(pr == p.subrange(1, p.len() as int));
            lemma_items_apart(pr, x, qr, y);
        }
        assert forall|i: int| 0 <= i < p.len() implies same_content(#[trigger] p[i], q[i]) by {
            if i > 0 {
                assert(pr[i - 1] == p[i]);
                assert(qr[i - 1] == q[i]);
            }
        }
    }
}

proof fn lemma_members_apart(
    p: Map<Seq<char>, JsonModel>,
    ks: Seq<Seq<char>>,
    x: Seq<char>,
    q: Map<Seq<char>, JsonModel>,
    ls: Seq<Seq<char>>,
    y: Seq<char>,
)
    requires
        p.dom().finite(),
        q.dom().finite(),
        forall|key: Seq<char>| #[trigger]
            p.contains_key(key) && key != "cache_control"@ ==> readable(p[key]),
        forall|key: Seq<char>| #[trigger]
            q.contains_key(key) && key != "cache_control"@ ==> readable(q[key]),
        forall|i: int|
            0 <= i < ks.len() ==> p.dom().remove("cache_control"@).contains(#[trigger] ks[i]),
        forall|i: int|
            0 <= i < ls.len() ==> q.dom().remove("cache_control"@).contains(#[trigger] ls[i]),
        canonical_members(p, ks) + seq!['}'] + x == canonical_members(q, ls) + seq!['}'] + y,
    ensures
        ks == ls,
        forall|i: int| 0 <= i < ks.len() ==> same_content(p[#[trigger] ks[i]], q[ks[i]]),
        x == y,
    decreases p, ks.len(),
{
    let left = canonical_members(p, ks) + seq!['}'] + x;
    let right = canonical_members(q, ls) + seq!['}'] + y;
    if ks.len() == 0 && ls.len() == 0 {
        assert(left == seq!['}'] + x);
        assert(right == seq!['}'] + y);
        json::lemma_after_prefix(seq!['}'], x, y);
        assert(ks == ls);
    } else if ks.len() == 0 {
        lemma_members_first(q, ls);
        assert(left[0] == '}');
        assert(right[0] == '"');
    } else if ls.len() == 0 {
        lemma_members_first(p, ks);
        assert(right[0] == '}');
        assert(left[0] == '"');
    } else {
        let k = ks[0];
        let l = ls[0];
        let kr = ks.drop_first();
        let lr = ls.drop_first();
        assert(p.dom().remove("cache_control"@).contains(ks[0]));
        assert(q.dom().remove("cache_control"@).contains(ls[0]));
        assert(p.contains_key(k) && k != "cache_control"@);
        assert(q.contains_key(l) && l != "cache_control"@);
        lemma_members_split(p, ks, x);
        lemma_members_split(q, ls, y);
        let u = after_member(p, ks, x);
        let v = after_member(q, ls, y);
        let s = canonical(p[k]) + u;
        let t = canonical(q[l]) + v;
        json::law_strings_are_unambiguous(k, seq![':'] + s, l, seq![':'] + t);
        json::lemma_after_prefix(seq![':'], s, t);
        lemma_apart(p[k], u, q[l], v);
        assert(kr.len() == ks.len() - 1 && lr.len() == ls.len() - 1);
        assert((kr.len() == 0) == (u[0] == '}'));
        assert((lr.len() == 0) == (v[0] == '}'));
        assert forall|i: int| 0 <= i < kr.len() implies p.dom().remove("cache_control"@).contains(
            #[trigger] kr[i],
        ) by {
            assert(kr[i] == ks[i + 1]);
        }
        assert forall|i: int| 0 <= i < lr.len() implies q.dom().remove("cache_control"@).contains(
            #[trigger] lr[i],
        ) by {
            assert(lr[i] == ls[i + 1]);
        }
        if kr.len() == 0 {
            json::lemma_after_prefix(seq!['}'], x, y);
            assert(kr == lr);
        } else {
            let e = canonical_members(p, kr) + seq!['}'] + x;
            let f = canonical_members(q, lr) + seq!['}'] + y;
            json::lemma_after_prefix(seq![','], e, f);
            lemma_members_apart(p, kr, x, q, lr, y);
        }
        assert(ks == seq![k] + kr);
        assert(ls == seq![l] + lr);
        assert forall|i: int| 0 <= i < ks.len() implies same_content(
            p[#[trigger] ks[i]],
            q[ks[i]],
        ) by {
            if i > 0 {
                assert(kr[i - 1] == ks[i]);
            }
        }
    }
}

/// A value without its `cache_control` members, at any depth.
pub open spec fn stripped(json: JsonModel) -> JsonModel
    decreases json,
{
    match json {
        JsonModel::Array(items) => JsonModel::Array(
            Seq::new(
                items.len(),
                |i: int|
                    if 0 <= i < items.len() {
                        stripped(items[i])
                    } else {
                        JsonModel::Null
                    },
            ),
        ),
        JsonModel::Object(members) => JsonModel::Object(
            Map::new(
                |key: Seq<char>| members.contains_key(key) && key != "cache_control"@,
                |key: Seq<char>|
                    if members.dom().finite() && members.contains_key(key) {
                        stripped(members[key])
                    } else {
                        JsonModel::Null
                    },
            ),
        ),
        _ => json,
    }
}

/// Values that hold the same but for `cache_control` are the same without it, and the other
/// way round.
proof fn lemma_stripped(a: JsonModel, b: JsonModel)
    requires
        readable(a),
        readable(b),
    ensures
        same_content(a, b) <==> stripped(a) == stripped(b),
    decreases a,
{
    match (a, b) {
        (JsonModel::Array(p), JsonModel::Array(q)) => {
            let s = stripped(a)->Array_0;
            let t = stripped(b)->Array_0;
            assert forall|i: int| 0 <= i < p.len() && p.len() == q.len() implies (same_content(
                #[trigger] p[i],
                q[i],
            ) <==> s[i] == t[i]) by {
                lemma_stripped(p[i], q[i]);
            }
            if same_content(a, b) {
                assert(s =~= t);
            }
            if s == t {
                assert(s.len() == p.len() && t.len() == q.len());
            }
        },
        (JsonModel::Object(p), JsonModel::Object(q)) => {
            let cc = "cache_control"@;
            let s = stripped(a)->Object_0;
            let t = stripped(b)->Object_0;
            assert(s.dom() =~= p.dom().remove(cc));
            assert(t.dom() =~= q.dom().remove(cc));
            assert forall|key: Seq<char>| #[trigger]
                p.contains_key(key) && q.contains_key(key) && key != cc implies (same_content(
                p[key],
                q[key],
            ) <==> s[key] == t[key]) by {
                lemma_stripped(p[key], q[key]);
            }
            if same_content(a, b) {
                assert forall|key: Seq<char>| #[trigger] s.contains_key(key) implies s[key]
                    == t[key] by {
                    assert(p.dom().remove(cc).contains(key));
                    assert(p.contains_key(key) && q.contains_key(key));
                }
                assert(s =~= t);
            }
            if s == t {
                assert forall|key: Seq<char>| #[trigger]
                    p.contains_key(key) && key != cc implies same_content(p[key], q[key]) by {
                    assert(p.dom().remove(cc).contains(key));
                    assert(q.dom().remove(cc).contains(key));
                    assert(q.contains_key(key));
                }
            }
        },
        _ => {},
    }
}

/// The canonical text tells what a value holds: two values have the same text exactly where
/// they are the same without their `cache_control` members. The order of keys is no part of
/// a value, the order of items is.
pub proof fn law_canonical_tells_content(a: JsonModel, b: JsonModel)
    requires
        readable(a),
        readable(b),
    ensures
        canonical(a) == canonical(b) <==> stripped(a) == stripped(b),
        canonical(a) == canonical(b) <==> same_content(a, b),
{
    lemma_stripped(a, b);
    if same_content(a, b) {
        law_canonical_ignores_cache_control(a, b);
    }
    if canonical(a) == canonical(b) {
        lemma_apart(a, Seq::empty(), b, Seq::empty());
    }
}

/// What is stripped holds what the value holds.
proof fn lemma_stripped_content(json: JsonModel)
    requires
        readable(json),
    ensures
        same_content(json, stripped(json)),
        readable(stripped(json)),
    decreases json,
{
    match json {
        JsonModel::Array(items) => {
            let s = stripped(json)->Array_0;
            assert forall|i: int| 0 <= i < items.len() implies same_content(
                #[trigger] items[i],
                s[i],
            ) by {
                lemma_stripped_content(items[i]);
            }
            assert forall|i: int| 0 <= i < s.len() implies readable(#[trigger] s[i]) by {
                lemma_stripped_content(items[i]);
            }
        },
        JsonModel::Object(members) => {
            let cc = "cache_control"@;
            let s = stripped(json)->Object_0;
            assert(s.dom() =~= members.dom().remove(cc));
            assert(s.dom().remove(cc) =~= members.dom().remove(cc));
            assert forall|key: Seq<char>| #[trigger]
                members.contains_key(key) && key != cc implies same_content(
                members[key],
                s[key],
            ) by {
                lemma_stripped_content(members[key]);
            }
            assert forall|key: Seq<char>| #[trigger]
                s.contains_key(key) && key != cc implies readable(s[key]) by {
                lemma_stripped_content(members[key]);
            }
        },
        _ => {},
    }
}

/// The canonical text is that of the value without its `cache_control` members, from which
/// nothing more can be stripped.
pub proof fn law_canonical_text_is_of_the_stripped(json: JsonModel)
    requires
        readable(json),
    ensures
        canonical(stripped(json)) == canonical(json),
        stripped(stripped(json)) == stripped(json),
{
    lemma_stripped_content(json);
    law_canonical_ignores_cache_control(json, stripped(json));
    lemma_stripped(json, stripped(json));
}

/// A text comes before another where it differs first in a smaller character, or is the
/// beginning of a longer one.
pub proof fn law_keys_go_by_their_characters(a: Seq<char>, b: Seq<char>)
    ensures
        precedes(a, b) <==> exists|at: int|
            0 <= at <= a.len() && at < b.len() && #[trigger] a.take(at) == b.take(at) && (at
                == a.len() || a[at] < b[at]),
    decreases a.len(),
{
    if b.len() > 0 && a.len() > 0 {
        let x = a.drop_first();
        let y = b.drop_first();
        law_keys_go_by_their_characters(x, y);
        if precedes(a, b) {
            if a[0] < b[0] {
                assert(a.take(0) =~= b.take(0));
            } else {
                let at = choose|at: int|
                    0 <= at <= x.len() && at < y.len() && #[trigger] x.take(at) == y.take(at) && (at
                        == x.len() || x[at] < y[at]);
                assert(a.take(at + 1) =~= seq![a[0]] + x.take(at));
                assert(b.take(at + 1) =~= seq![b[0]] + y.take(at));
                assert(a.take(at + 1) == b.take(at + 1));
            }
        }
        if exists|at: int|
            0 <= at <= a.len() && at < b.len() && #[trigger] a.take(at) == b.take(at) && (at
                == a.len() || a[at] < b[at]) {
            let at = choose|at: int|
                0 <= at <= a.len() && at < b.len() && #[trigger] a.take(at) == b.take(at) && (at
                    == a.len() || a[at] < b[at]);
            if at > 0 {
                assert(a.take(at)[0] == a[0] && b.take(at)[0] == b[0]);
                assert(x.take(at - 1) =~= a.take(at).drop_first());
                assert(y.take(at - 1) =~= b.take(at).drop_first());
                assert(x.take(at - 1) == y.take(at - 1));
            }
        }
    } else if b.len() > 0 {
        assert(a.take(0) =~= b.take(0));
    }
}

/// The text of a simple value is the value itself: `null`, `true`, `false`, a number as it
/// is written, a text as a JSON string.
pub proof fn law_simple_values_are_written_plainly(number: Seq<char>, text: Seq<char>)
    ensures
        canonical(JsonModel::Null) == "null"@,
        canonical(JsonModel::Bool(true)) == "true"@,
        canonical(JsonModel::Bool(false)) == "false"@,
        canonical(JsonModel::Number(number)) == number,
        canonical(JsonModel::Text(text)) == json::quoted(text),
{
}

/// An array is written item by item, in order, with commas between them and brackets
/// around: one more item stands before the closing bracket, behind a comma if it is not the
/// first.
pub proof fn law_arrays_are_written_in_order(items: Seq<JsonModel>, item: JsonModel)
    ensures
        canonical(JsonModel::Array(Seq::empty())) == seq!['[', ']'],
        items.len() == 0 ==> canonical(JsonModel::Array(items.push(item))) == seq!['['] + canonical(
            item,
        ) + seq![']'],
        items.len() > 0 ==> canonical(JsonModel::Array(items.push(item))) == canonical(
            JsonModel::Array(items),
        ).drop_last() + seq![','] + canonical(item) + seq![']'],
{
    let none = Seq::<JsonModel>::empty();
    assert(canonical_items(none) == Seq::<char>::empty());
    assert(canonical(JsonModel::Array(none)) =~= seq!['[', ']']);
    let more = items.push(item);
    assert(more.drop_last() =~= items);
    assert(more.last() == item);
    if items.len() == 0 {
        assert(items =~= none);
        assert(canonical(JsonModel::Array(more)) =~= seq!['['] + canonical(item) + seq![']']);
    } else {
        assert(canonical(JsonModel::Array(items)).drop_last() =~= seq!['['] + canonical_items(
            items,
        ));
        assert(canonical(JsonModel::Array(more)) =~= canonical(
            JsonModel::Array(items),
        ).drop_last() + seq![','] + canonical(item) + seq![']']);
    }
}

/// An object is written member by member, in the order of the keys, with commas between
/// them and braces around, and without `cache_control`: a member whose key comes after all
/// others stands before the closing brace, behind a comma if it is not the first.
pub proof fn law_objects_are_written_by_key(
    members: Map<Seq<char>, JsonModel>,
    key: Seq<char>,
    value: JsonModel,
)
    requires
        members.dom().finite(),
        key != "cache_control"@,
        forall|k: Seq<char>| #[trigger]
            members.contains_key(k) && k != "cache_control"@ ==> precedes(k, key),
    ensures
        ({
            let entry = json::quoted(key) + seq![':'] + canonical(value);
            let more = canonical(JsonModel::Object(members.insert(key, value)));
            let empty = forall|k: Seq<char>| #[trigger]
                members.contains_key(k) ==> k == "cache_control"@;
            &&& empty ==> canonical(JsonModel::Object(members)) == seq!['{', '}']
            &&& empty ==> more == seq!['{'] + entry + seq!['}']
            &&& !empty ==> more == canonical(JsonModel::Object(members)).drop_last() + seq![',']
                + entry + seq!['}']
        }),
{
    let cc = "cache_control"@;
    let keys = members.dom().remove(cc);
    let grown = members.insert(key, value);
    let entry = json::quoted(key) + seq![':'] + canonical(value);
    lemma_irreflexive(key);
    assert(!keys.contains(key)) by {
        if keys.contains(key) {
            assert(members.contains_key(key));
            assert(precedes(key, key));
        }
    }
    assert(grown.dom().remove(cc) =~= keys.insert(key));
    lemma_order_exists(keys);
    lemma_order_exists(keys.insert(key));
    let row = in_order(keys);
    let longer = row.push(key);
    assert forall|i: int| 0 <= i < row.len() implies keys.contains(#[trigger] row[i]) by {
        assert(row.to_set().contains(row[i]));
    }
    assert forall|i: int, j: int| 0 <= i < j < longer.len() implies precedes(
        #[trigger] longer[i],
        #[trigger] longer[j],
    ) by {
        if j == row.len() {
            assert(keys.contains(row[i]));
            assert(members.contains_key(row[i]));
        } else {
            assert(precedes(row[i], row[j]));
        }
    }
    assert forall|k: Seq<char>| longer.to_set().contains(k) <==> keys.insert(key).contains(k) by {
        if longer.to_set().contains(k) {
            let i = choose|i: int| 0 <= i < longer.len() && longer[i] == k;
            if i < row.len() {
                assert(keys.contains(row[i]));
            }
        }
        if keys.contains(k) {
            assert(row.to_set().contains(k));
            let i = choose|i: int| 0 <= i < row.len() && row[i] == k;
            assert(longer[i] == k);
        }
        if k == key {
            assert(longer[row.len() as int] == key);
        }
    }
    assert(longer.to_set() =~= keys.insert(key));
    lemma_one_order(longer, in_order(keys.insert(key)));
    lemma_members_agree(members, grown, row);
    assert(longer.drop_last() =~= row);
    assert(longer.last() == key);
    assert(grown[key] == value);
    if row.len() > 0 {
        assert(keys.contains(row[0]));
        assert(members.contains_key(row[0]));
        assert(canonical(JsonModel::Object(members)).drop_last() =~= seq!['{']
            + canonical_members(members, row));
        assert(canonical(JsonModel::Object(grown)) =~= canonical(
            JsonModel::Object(members),
        ).drop_last() + seq![','] + entry + seq!['}']);
    } else {
        assert forall|k: Seq<char>| #[trigger] members.contains_key(k) implies k == cc by {
            if k != cc {
                assert(keys.contains(k));
                assert(row.to_set().contains(k));
            }
        }
        assert(canonical_members(members, row) =~= Seq::<char>::empty());
        assert(canonical(JsonModel::Object(members)) =~= seq!['{', '}']);
        assert(canonical(JsonModel::Object(grown)) =~= seq!['{'] + entry + seq!['}']);
    }
}

/// The members with the given keys are written alike in two objects that agree on them.
proof fn lemma_members_agree(
    a: Map<Seq<char>, JsonModel>,
    b: Map<Seq<char>, JsonModel>,
    keys: Seq<Seq<char>>,
)
    requires
        a.dom().finite(),
        b.dom().finite(),
        forall|i: int|
            0 <= i < keys.len() ==> a.contains_key(#[trigger] keys[i]) && b.contains_key(keys[i])
                && a[keys[i]] == b[keys[i]],
    ensures
        canonical_members(a, keys) == canonical_members(b, keys),
    decreases keys.len(),
{
    if keys.len() > 0 {
        let front = keys.drop_last();
        assert forall|i: int| 0 <= i < front.len() implies a.contains_key(#[trigger] front[i])
            && b.contains_key(front[i]) && a[front[i]] == b[front[i]] by {
            assert(keys[i] == front[i]);
        }
        lemma_members_agree(a, b, front);
        assert(keys.last() == keys[keys.len() - 1]);
    }
}

/// What stands under `cache_control` in an object is not written.
pub proof fn law_cache_control_is_not_written(members: Map<Seq<char>, JsonModel>, value: JsonModel)
    requires
        members.dom().finite(),
    ensures
        canonical(JsonModel::Object(members.insert("cache_control"@, value))) == canonical(
            JsonModel::Object(members.remove("cache_control"@)),
        ),
{
    let cc = "cache_control"@;
    let a = members.insert(cc, value);
    let b = members.remove(cc);
    assert(a.dom().remove(cc) =~= b.dom().remove(cc));
    let keys = a.dom().remove(cc);
    lemma_order_exists(keys);
    let row = in_order(keys);
    assert forall|i: int| 0 <= i < row.len() implies a.contains_key(#[trigger] row[i])
        && b.contains_key(row[i]) && a[row[i]] == b[row[i]] by {
        assert(row.to_set().contains(row[i]));
    }
    lemma_members_agree(a, b, row);
}

}
