//! JSON values as the dashboard reads result files, and the paths from the
//! root of a value to each of its leaves.

use serde_json::Value;
use vstd::prelude::*;

verus! {

/// A JSON value. Numbers are kept as the text `serde_json` renders them in,
/// and the members of an object in the order they come.
pub enum Json {
    Null,
    Bool(bool),
    Number(String),
    String(String),
    Array(Vec<Json>),
    Object(Vec<(String, Json)>),
}

/// The JSON value of `serde_json`; opaque to the verified code, which only
/// takes it over into a `Json`.
#[verifier::external_type_specification]
#[verifier::external_body]
pub struct ExValue(Value);

/// The value that `serde_json` parses the text into, taken over into a
/// `Json` (see `parse_json`); `None` where the text is not JSON.
pub uninterp spec fn parsed_json(text: Seq<char>) -> Option<Json>;

/// `serde_json::from_str::<serde_json::Value>(text)`, with the value taken
/// over into a `Json` (`json_of_value`); `None` where `serde_json` refuses
/// the text. Which value a text gives is `serde_json`'s grammar, named
/// `parsed_json` and not stated here.
#[verifier::external_body]
pub fn parse_json(text: &String) -> (value: Option<Json>)
    ensures
        value == parsed_json(text@),
{
    serde_json::from_str::<Value>(text).ok().map(json_of_value)
}

/// A `serde_json::Value` taken over into a `Json`, variant by variant: the
/// fields move over, a number as the text `serde_json` renders it in, the
/// members of an object in the order the map gives them. It is the
/// conversion half of `parse_json` and is only called from there.
#[verifier::external_body]
fn json_of_value(value: Value) -> Json {
    match value {
        Value::Null => Json::Null,
        Value::Bool(b) => Json::Bool(b),
        Value::Number(n) => Json::Number(n.to_string()),
        Value::String(s) => Json::String(s),
        Value::Array(items) => Json::Array(items.into_iter().map(json_of_value).collect()),
        Value::Object(members) => Json::Object(members.into_iter().map(|(k, v)| (k, json_of_value(v))).collect()),
    }
}

/// The texts of a sequence of strings.
pub open spec fn texts(v: Seq<String>) -> Seq<Seq<char>> {
    v.map_values(|s: String| s@)
}

/// The text of a boolean, as `to_string` writes it.
pub open spec fn bool_text(b: bool) -> Seq<char> {
    if b {
        "true"@
    } else {
        "false"@
    }
}

/// The value holds no `null`.
pub open spec fn null_free(value: Json) -> bool
    decreases value,
{
    match value {
        Json::Null => false,
        Json::Array(items) => items_null_free(items@),
        Json::Object(members) => members_null_free(members@),
        _ => true,
    }
}

/// No item holds a `null`.
pub open spec fn items_null_free(items: Seq<Json>) -> bool
    decreases items,
{
    if items.len() == 0 {
        true
    } else {
        items_null_free(items.drop_last()) && null_free(items.last())
    }
}

/// No member holds a `null`.
pub open spec fn members_null_free(members: Seq<(String, Json)>) -> bool
    decreases members,
{
    if members.len() == 0 {
        true
    } else {
        members_null_free(members.drop_last()) && null_free(members.last().1)
    }
}

/// The paths to the leaves of `value`, each after `path`, in the order of
/// the members and items: the keys of the members on the way down, then the
/// leaf as text. Items of an array add no key.
pub open spec fn json_paths(value: Json, path: Seq<Seq<char>>) -> Seq<Seq<Seq<char>>>
    decreases value,
{
    match value {
        Json::Null => Seq::empty(),
        Json::Bool(b) => seq![path.push(bool_text(b))],
        Json::Number(n) => seq![path.push(n@)],
        Json::String(s) => seq![path.push(s@)],
        Json::Array(items) => items_paths(items@, path),
        Json::Object(members) => members_paths(members@, path),
    }
}

/// The paths of each item, after `path`, one item after the other.
pub open spec fn items_paths(items: Seq<Json>, path: Seq<Seq<char>>) -> Seq<Seq<Seq<char>>>
    decreases items,
{
    if items.len() == 0 {
        Seq::empty()
    } else {
        items_paths(items.drop_last(), path) + json_paths(items.last(), path)
    }
}

/// The paths of each member, after `path` and its key, one member after the
/// other.
pub open spec fn members_paths(members: Seq<(String, Json)>, path: Seq<Seq<char>>) -> Seq<Seq<Seq<char>>>
    decreases members,
{
    if members.len() == 0 {
        Seq::empty()
    } else {
        members_paths(members.drop_last(), path) + json_paths(members.last().1, path.push(members.last().0@))
    }
}

/// A copy of the list of strings.
fn copy_strings(v: &Vec<String>) -> (c: Vec<String>)
    ensures
        texts(c@) == texts(v@),
{
    let mut c: Vec<String> = Vec::new();
    let mut k: usize = 0;
    while k < v.len()
        invariant
            k <= v@.len(),
            c@ == v@.take(k as int),
        decreases v.len() - k,
    {
        c.push(v[k].clone());
        k = k + 1;
        assert(c@ =~= v@.take(k as int));
    }
    assert(v@.take(v@.len() as int) =~= v@);
    c
}

/// The text of a boolean, as `to_string` writes it.
fn bool_to_string(b: bool) -> (s: String)
    ensures
        s@ == bool_text(b),
{
    if b {
        String::from_str("true")
    } else {
        String::from_str("false")
    }
}

/// Appends to `result` the paths to the leaves of `value`, after `path`,
/// which it leaves as it found it; the value holds no `null`.
#[verifier::loop_isolation(false)]
pub fn subpath(value: &Json, path: &mut Vec<String>, result: &mut Vec<Vec<String>>)
    requires
        null_free(*value),
    ensures
        texts(final(path)@) == texts(old(path)@),
        final(result)@.map_values(|p: Vec<String>| texts(p@)) == old(result)@.map_values(
            |p: Vec<String>| texts(p@),
        ) + json_paths(*value, texts(old(path)@)),
    decreases value,
{
    let ghost before = result@.map_values(|p: Vec<String>| texts(p@));
    let ghost prefix = texts(path@);
    match value {
        Json::Object(members) => {
            let mut k: usize = 0;
            while k < members.len()
                invariant
                    k <= members@.len(),
                    members_null_free(members@),
                    texts(path@) == prefix,
                    result@.map_values(|p: Vec<String>| texts(p@)) == before + members_paths(members@.take(k as int), prefix),
                decreases members.len() - k,
            {
                let (key, member) = &members[k];
                proof {
                    lemma_members_null_free(members@, k as int);
                    assert(members@.take(k + 1).drop_last() =~= members@.take(k as int));
                    assert(members@.take(k + 1).last() == members@[k as int]);
                }
                let ghost inner = path@;
                path.push(key.clone());
                proof {
                    assert(texts(path@) =~= prefix.push(key@));
                }
                proof {
                    assert(decreases_to!(*value => members@[k as int].1));
                }
                subpath(member, path, result);
                let ghost pushed = path@;
                path.pop();
                proof {
                    assert(texts(pushed) == prefix.push(key@));
                    assert(path@ =~= pushed.drop_last());
                    assert(texts(path@) =~= texts(pushed).drop_last());
                    assert(texts(path@) =~= prefix);
                }
                k = k + 1;
                proof {
                    assert(result@.map_values(|p: Vec<String>| texts(p@)) =~= before + members_paths(members@.take(k as int), prefix));
                }
            }
            assert(members@.take(members@.len() as int) =~= members@);
        },
        Json::Array(items) => {
            let mut k: usize = 0;
            while k < items.len()
                invariant
                    k <= items@.len(),
                    items_null_free(items@),
                    texts(path@) == prefix,
                    result@.map_values(|p: Vec<String>| texts(p@)) == before + items_paths(items@.take(k as int), prefix),
                decreases items.len() - k,
            {
                proof {
                    lemma_items_null_free(items@, k as int);
                    assert(items@.take(k + 1).drop_last() =~= items@.take(k as int));
                    assert(items@.take(k + 1).last() == items@[k as int]);
                }
                proof {
                    assert(decreases_to!(*value => items@[k as int]));
                }
                subpath(&items[k], path, result);
                k = k + 1;
                proof {
                    assert(result@.map_values(|p: Vec<String>| texts(p@)) =~= before + items_paths(items@.take(k as int), prefix));
                }
            }
            assert(items@.take(items@.len() as int) =~= items@);
        },
        Json::String(s) => {
            let mut row = copy_strings(path);
            row.push(s.clone());
            result.push(row);
            proof {
                assert(texts(row@) =~= prefix.push(s@));
                assert(result@.map_values(|p: Vec<String>| texts(p@)) =~= before + seq![prefix.push(s@)]);
            }
        },
        Json::Number(n) => {
            let mut row = copy_strings(path);
            row.push(n.clone());
            result.push(row);
            proof {
                assert(texts(row@) =~= prefix.push(n@));
                assert(result@.map_values(|p: Vec<String>| texts(p@)) =~= before + seq![prefix.push(n@)]);
            }
        },
        Json::Bool(b) => {
            let mut row = copy_strings(path);
            row.push(bool_to_string(*b));
            result.push(row);
            proof {
                assert(texts(row@) =~= prefix.push(bool_text(*b)));
                assert(result@.map_values(|p: Vec<String>| texts(p@)) =~= before + seq![prefix.push(bool_text(*b))]);
            }
        },
        Json::Null => {
            assert(false);
        },
    }
}

/// Whether the value holds no `null`.
#[verifier::loop_isolation(false)]
pub fn is_null_free(value: &Json) -> (b: bool)
    ensures
        b == null_free(*value),
    decreases value,
{
    match value {
        Json::Null => false,
        Json::Array(items) => {
            let mut k: usize = 0;
            while k < items.len()
                invariant
                    k <= items@.len(),
                    items_null_free(items@.take(k as int)),
                decreases items.len() - k,
            {
                proof {
                    assert(decreases_to!(*value => items@[k as int]));
                }
                let free = is_null_free(&items[k]);
                proof {
                    assert(items@.take(k + 1).drop_last() =~= items@.take(k as int));
                    assert(items@.take(k + 1).last() == items@[k as int]);
                }
                if !free {
                    proof {
                        if items_null_free(items@) {
                            lemma_items_null_free(items@, k as int);
                        }
                    }
                    return false;
                }
                k = k + 1;
            }
            assert(items@.take(items@.len() as int) =~= items@);
            true
        },
        Json::Object(members) => {
            let mut k: usize = 0;
            while k < members.len()
                invariant
                    k <= members@.len(),
                    members_null_free(members@.take(k as int)),
                decreases members.len() - k,
            {
                proof {
                    assert(decreases_to!(*value => members@[k as int].1));
                }
                let free = is_null_free(&members[k].1);
                proof {
                    assert(members@.take(k + 1).drop_last() =~= members@.take(k as int));
                    assert(members@.take(k + 1).last() == members@[k as int]);
                }
                if !free {
                    proof {
                        if members_null_free(members@) {
                            lemma_members_null_free(members@, k as int);
                        }
                    }
                    return false;
                }
                k = k + 1;
            }
            assert(members@.take(members@.len() as int) =~= members@);
            true
        },
        _ => true,
    }
}

/// Every member of a `null`-free list of members is `null`-free.
proof fn lemma_members_null_free(members: Seq<(String, Json)>, k: int)
    requires
        members_null_free(members),
        0 <= k < members.len(),
    ensures
        null_free(members[k].1),
    decreases members.len(),
{
    if k < members.len() - 1 {
        lemma_members_null_free(members.drop_last(), k);
    }
}

/// Every item of a `null`-free list of items is `null`-free.
proof fn lemma_items_null_free(items: Seq<Json>, k: int)
    requires
        items_null_free(items),
        0 <= k < items.len(),
    ensures
        null_free(items[k]),
    decreases items.len(),
{
    if k < items.len() - 1 {
        lemma_items_null_free(items.drop_last(), k);
    }
}

/// The paths from the root of `value` to each of its leaves (see
/// `json_paths`); the value holds no `null`.
pub fn collect_paths_from_json(value: &Json) -> (paths: Vec<Vec<String>>)
    requires
        null_free(*value),
    ensures
        paths@.map_values(|p: Vec<String>| texts(p@)) == json_paths(*value, Seq::empty()),
{
    let mut paths: Vec<Vec<String>> = Vec::new();
    let mut path: Vec<String> = Vec::new();
    proof {
        assert(texts(path@) =~= Seq::<Seq<char>>::empty());
    }
    subpath(value, &mut path, &mut paths);
    proof {
        assert(paths@.map_values(|p: Vec<String>| texts(p@)) =~= json_paths(*value, Seq::empty()));
    }
    paths
}

/// The text of a leaf: a boolean, a number or a string.
pub open spec fn leaf_text(value: Json) -> Seq<char> {
    match value {
        Json::Bool(b) => bool_text(b),
        Json::Number(n) => n@,
        Json::String(s) => s@,
        _ => Seq::empty(),
    }
}

/// The text of a leaf, as a key; the value is a boolean, a number or a
/// string.
pub fn shallow_json_to_key(value: &Json) -> (key: String)
    requires
        value is Bool || value is Number || value is String,
    ensures
        key@ == leaf_text(*value),
{
    match value {
        Json::Bool(b) => bool_to_string(*b),
        Json::Number(n) => n.clone(),
        Json::String(s) => s.clone(),
        _ => {
            assert(false);
            String::new()
        },
    }
}

} // verus!
