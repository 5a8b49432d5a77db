//! Saving and loading models as JSON: the plain `vocab` + `merges` shape,
//! and a HuggingFace `tokenizer.json` shape. The JSON text itself is read
//! and written by `serde_json`: reading goes from text to plain values (the
//! members of an object, the items of an array, a string, a number), and
//! writing builds a `Json` tree of the library that `serde_json` renders,
//! stated by what reading the text back gives.
//!
//! `serde_json` (with its `preserve_order` feature) reads an object into a
//! map that keeps the members in the order of the text and one member per
//! key, so a key given twice counts once, with its last value, at the place
//! where it first occurs.
use serde_json::Value;
use vstd::prelude::*;

use crate::bpe::{find_token, token_index};
use crate::seqs::{str_pairs, strs};
use crate::text::{push_char, str_chars};

verus! {

#[verifier::external_type_specification]
#[verifier::external_body]
pub struct ExJsonValue(serde_json::Value);

#[verifier::external_type_specification]
#[verifier::external_body]
#[verifier::reject_recursive_types(K)]
#[verifier::reject_recursive_types(V)]
pub struct ExJsonMap<K, V>(serde_json::Map<K, V>);

#[verifier::external_type_specification]
#[verifier::external_body]
pub struct ExJsonError(serde_json::Error);

// ---------------------------------------------------------------------------
// serde_json, one call each
// ---------------------------------------------------------------------------
/// The members of the JSON object written in `text`, in the order in which
/// their keys first occur (a key given twice keeps its last value), each
/// value written back out as compact JSON text; `None` when `text` is not a
/// JSON object.
pub uninterp spec fn json_object_members(text: Seq<char>) -> Option<Seq<(Seq<char>, Seq<char>)>>;

/// The items of the JSON array written in `text`, each written back out as
/// compact JSON text; `None` when `text` is not a JSON array.
pub uninterp spec fn json_array_items(text: Seq<char>) -> Option<Seq<Seq<char>>>;

/// The string that the JSON text `text` holds; `None` when it is not a JSON
/// string.
pub uninterp spec fn json_string_value(text: Seq<char>) -> Option<Seq<char>>;

/// The number that the JSON text `text` holds; `None` when it is not a JSON
/// number that fits a `u64`.
pub uninterp spec fn json_u64_value(text: Seq<char>) -> Option<u64>;

/// `serde_json::from_str::<Map<String, Value>>`, each member's value turned
/// back into its text with `Value`'s `Display` (compact JSON). The result
/// is named by `json_object_members`.
#[verifier::external_body]
fn json_members(text: &str) -> (r: Result<Vec<(String, String)>, serde_json::Error>)
    ensures
        r is Ok <==> json_object_members(text@) is Some,
        r matches Ok(ms) ==> Some(str_pairs(ms@)) == json_object_members(text@),
{
    serde_json::from_str::<serde_json::Map<String, Value>>(text).map(
        |m| m.into_iter().map(|(k, v)| (k, v.to_string())).collect(),
    )
}

/// `serde_json::from_str::<Vec<Value>>`, each item turned back into its
/// text with `Value`'s `Display` (compact JSON). The result is named by
/// `json_array_items`.
#[verifier::external_body]
fn json_items(text: &str) -> (r: Result<Vec<String>, serde_json::Error>)
    ensures
        r is Ok <==> json_array_items(text@) is Some,
        r matches Ok(items) ==> Some(strs(items@)) == json_array_items(text@),
{
    serde_json::from_str::<Vec<Value>>(text).map(|v| v.iter().map(|x| x.to_string()).collect())
}

/// `serde_json::from_str::<String>`. The result is named by
/// `json_string_value`.
#[verifier::external_body]
fn json_str(text: &str) -> (r: Result<String, serde_json::Error>)
    ensures
        r is Ok <==> json_string_value(text@) is Some,
        r matches Ok(t) ==> Some(t@) == json_string_value(text@),
{
    serde_json::from_str::<String>(text)
}

/// `serde_json::from_str::<u64>`. The result is named by `json_u64_value`.
#[verifier::external_body]
fn json_uint(text: &str) -> (r: Result<u64, serde_json::Error>)
    ensures
        r is Ok <==> json_u64_value(text@) is Some,
        r matches Ok(n) ==> Some(n) == json_u64_value(text@),
{
    serde_json::from_str::<u64>(text)
}

// ---------------------------------------------------------------------------
// Writing: a JSON tree of the library, rendered by serde_json
// ---------------------------------------------------------------------------
/// A JSON document as the library writes it.
pub enum Json {
    Str(String),
    Num(u64),
    Bool(bool),
    Arr(Vec<Json>),
    Obj(Vec<(String, Json)>),
}

/// No key occurs twice among the members `ms`.
pub open spec fn keys_distinct(ms: Seq<(String, Json)>) -> bool {
    forall|i: int, j: int| 0 <= i < j < ms.len() ==> #[trigger] ms[i].0@ != #[trigger] ms[j].0@
}

/// Reading the JSON text `text` gives back the document `doc`: a string
/// reads as its string, a number as its number, an array as its items, each
/// read back in turn, and an object whose keys are distinct as its members,
/// each value found under its key and read back in turn. An array or an
/// object does not read as a string, and an object does not read as an array.
pub open spec fn reads_back(text: Seq<char>, doc: Json) -> bool
    decreases doc,
{
    match doc {
        Json::Str(s) => json_string_value(text) == Some(s@),
        Json::Num(n) => json_u64_value(text) == Some(n),
        Json::Bool(b) => true,
        Json::Arr(xs) => {
            &&& json_string_value(text) is None
            &&& match json_array_items(text) {
                Some(items) => items_read_back(items, xs@),
                None => false,
            }
        },
        Json::Obj(ms) => {
            &&& json_string_value(text) is None
            &&& json_array_items(text) is None
            &&& keys_distinct(ms@) ==> match json_object_members(text) {
                Some(fs) => {
                    &&& fs.len() == ms@.len()
                    &&& forall|i: int, j: int|
                        0 <= i < j < fs.len() ==> #[trigger] fs[i].0 != #[trigger] fs[j].0
                    &&& forall|j: int|
                        0 <= j < fs.len() ==> exists|i: int|
                            0 <= i < ms@.len() && #[trigger] ms@[i].0@ == #[trigger] fs[j].0
                    &&& members_read_back(fs, ms@)
                },
                None => false,
            }
        },
    }
}

/// Each item text reads back as the document at its place.
pub open spec fn items_read_back(items: Seq<Seq<char>>, xs: Seq<Json>) -> bool
    decreases xs,
{
    if xs.len() == 0 {
        items.len() == 0
    } else {
        &&& items.len() == xs.len()
        &&& reads_back(items.last(), xs.last())
        &&& items_read_back(items.drop_last(), xs.drop_last())
    }
}

/// The value of each member of `ms` is found under its key in `fs` and
/// reads back as that member's value.
pub open spec fn members_read_back(fs: Seq<(Seq<char>, Seq<char>)>, ms: Seq<(String, Json)>) -> bool
    decreases ms,
{
    if ms.len() == 0 {
        true
    } else {
        &&& match member(fs, ms.last().0@) {
            Some(t) => reads_back(t, ms.last().1),
            None => false,
        }
        &&& members_read_back(fs, ms.drop_last())
    }
}

/// `doc` as a `serde_json::Value`, variant for variant: a string as
/// `Value::String`, a number as `Value::from(u64)`, a boolean as
/// `Value::Bool`, an array as `Value::Array` and an object as
/// `Value::Object` of a `Map` (so a key given twice keeps its last value).
#[verifier::external_body]
fn json_value(doc: &Json) -> Value {
    match doc {
        Json::Str(s) => Value::String(s.clone()),
        Json::Num(n) => Value::from(*n),
        Json::Bool(b) => Value::Bool(*b),
        Json::Arr(xs) => Value::Array(xs.iter().map(json_value).collect()),
        Json::Obj(ms) => Value::Object(ms.iter().map(|(k, v)| (k.clone(), json_value(v))).collect()),
    }
}

/// The arrays and objects of `doc` are nested at most `d` deep.
pub open spec fn nested_within(doc: Json, d: nat) -> bool
    decreases doc,
{
    match doc {
        Json::Arr(xs) => d > 0 && items_within(xs@, (d - 1) as nat),
        Json::Obj(ms) => d > 0 && members_within(ms@, (d - 1) as nat),
        _ => true,
    }
}

/// Each of `xs` is nested at most `d` deep.
pub open spec fn items_within(xs: Seq<Json>, d: nat) -> bool
    decreases xs,
{
    if xs.len() == 0 {
        true
    } else {
        nested_within(xs.last(), d) && items_within(xs.drop_last(), d)
    }
}

/// The value of each of `ms` is nested at most `d` deep.
pub open spec fn members_within(ms: Seq<(String, Json)>, d: nat) -> bool
    decreases ms,
{
    if ms.len() == 0 {
        true
    } else {
        nested_within(ms.last().1, d) && members_within(ms.drop_last(), d)
    }
}

/// The deepest nesting that `json_render` is given: `serde_json`'s reader
/// refuses documents nested 128 deep or more (its recursion limit), so
/// what is written stays well below.
pub open spec fn render_depth() -> nat {
    64
}

/// `serde_json::to_string_pretty` of `doc` as a `Value`. Its source
/// serializes a `Value` into memory, which cannot fail (map keys are
/// strings, numbers are `u64`), so the result is `Ok`. The text is stated
/// by what reading it gives back: `serde_json` writes strings with escapes
/// that its reader undoes, numbers in decimal, arrays item by item and
/// objects member by member (a `Map` keeps one member per key), and its
/// readers take each back to the same value, within their recursion limit
/// of 128 nested arrays and objects, which `doc` stays below.
#[verifier::external_body]
fn json_render(doc: &Json) -> (r: Result<String, serde_json::Error>)
    requires
        nested_within(*doc, render_depth()),
    ensures
        r is Ok,
        reads_back(r->Ok_0@, *doc),
{
    serde_json::to_string_pretty(&json_value(doc))
}

/// `<serde_json::Error as serde::de::Error>::custom`: an error with message `msg`.
#[verifier::external_body]
fn json_error(msg: &str) -> serde_json::Error {
    <serde_json::Error as serde::de::Error>::custom(msg)
}

// ---------------------------------------------------------------------------
// The library's side of the two file shapes
// ---------------------------------------------------------------------------
/// Some entry has id `k`.
pub open spec fn names_id<A>(entries: Seq<(A, u64)>, k: int) -> bool {
    exists|i: int| 0 <= i < entries.len() && entries[i].1 == k
}

/// The entries name every index below their number exactly once.
pub open spec fn ids_fill<A>(entries: Seq<(A, u64)>) -> bool {
    &&& forall|i: int| 0 <= i < entries.len() ==> (#[trigger] entries[i].1) < entries.len()
    &&& forall|i: int, j: int|
        0 <= i < j < entries.len() ==> #[trigger] entries[i].1 != #[trigger] entries[j].1
    &&& forall|k: int| 0 <= k < entries.len() ==> #[trigger] names_id(entries, k)
}

/// The tokens of `(token, id)` entries placed at their ids, when the ids
/// name every index exactly once.
pub fn vocab_from_ids(entries: &Vec<(String, u64)>) -> (r: Option<Vec<String>>)
    ensures
        r is Some <==> ids_fill(entries@),
        r matches Some(v) ==> v@.len() == entries@.len() && forall|i: int|
            0 <= i < entries@.len() ==> #[trigger] v@[entries@[i].1 as int]@ == entries@[i].0@,
{
    let n = entries.len();
    let mut slots: Vec<Option<String>> = Vec::new();
    let mut k: usize = 0;
    while k < n
        invariant
            0 <= k <= n,
            n == entries@.len(),
            slots@.len() == k,
            forall|j: int| 0 <= j < k ==> slots@[j] is None,
        decreases n - k,
    {
        slots.push(None);
        k = k + 1;
    }
    let mut i: usize = 0;
    while i < n
        invariant
            0 <= i <= n,
            n == entries@.len(),
            slots@.len() == n,
            forall|j: int| 0 <= j < i ==> (#[trigger] entries@[j].1) < n,
            forall|j: int, l: int| 0 <= j < l < i ==> #[trigger] entries@[j].1 != #[trigger] entries@[l].1,
            forall|j: int|
                0 <= j < i ==> #[trigger] slots@[entries@[j].1 as int] == Some(entries@[j].0),
            forall|s: int|
                0 <= s < n ==> (#[trigger] slots@[s] is Some <==> exists|j: int|
                    0 <= j < i && entries@[j].1 == s),
        decreases n - i,
    {
        let id = entries[i].1;
        if id >= n as u64 {
            return None;
        }
        let idx = id as usize;
        match &slots[idx] {
            Some(_) => {
                proof {
                    let j = choose|j: int| 0 <= j < i && entries@[j].1 == idx;
                    assert(entries@[j].1 == entries@[i as int].1);
                }
                return None;
            },
            None => {},
        }
        let ghost before = slots@;
        slots.set(idx, Some(entries[i].0.clone()));
        proof {
            assert forall|j: int| 0 <= j < i + 1 implies #[trigger] slots@[entries@[j].1 as int]
                == Some(entries@[j].0) by {
                if j < i {
                    assert(entries@[j].1 != entries@[i as int].1);
                }
            }
            assert forall|s: int| 0 <= s < n implies (#[trigger] slots@[s] is Some <==> exists|j: int|
                0 <= j < i + 1 && entries@[j].1 == s) by {
                if s != idx {
                    assert(slots@[s] == before[s]);
                    if exists|j: int| 0 <= j < i + 1 && entries@[j].1 == s {
                        let j = choose|j: int| 0 <= j < i + 1 && entries@[j].1 == s;
                        assert(j < i);
                    }
                } else {
                    assert(entries@[i as int].1 == s);
                }
            }
        }
        i = i + 1;
    }
    let mut v: Vec<String> = Vec::new();
    let mut s: usize = 0;
    while s < n
        invariant
            0 <= s <= n,
            n == entries@.len(),
            slots@.len() == n,
            v@.len() == s,
            forall|j: int| 0 <= j < n ==> (#[trigger] entries@[j].1) < n,
            forall|j: int| 0 <= j < n ==> #[trigger] slots@[entries@[j].1 as int] == Some(entries@[j].0),
            forall|t: int|
                0 <= t < n ==> (#[trigger] slots@[t] is Some <==> exists|j: int|
                    0 <= j < n && entries@[j].1 == t),
            forall|t: int| 0 <= t < s ==> Some(#[trigger] v@[t]) == slots@[t],
        decreases n - s,
    {
        match &slots[s] {
            Some(tok) => {
                v.push(tok.clone());
            },
            None => {
                proof {
                    assert(!(exists|j: int| 0 <= j < n && entries@[j].1 == s));
                    assert(!ids_fill(entries@)) by {
                        if ids_fill(entries@) {
                            assert(names_id(entries@, s as int));
                        }
                    }
                }
                return None;
            },
        }
        s = s + 1;
    }
    proof {
        assert forall|t: int| 0 <= t < n implies #[trigger] names_id(entries@, t) by {
            assert(Some(v@[t]) == slots@[t]);
            assert(slots@[t] is Some);
        }
        assert forall|j: int| 0 <= j < entries@.len() implies #[trigger] v@[entries@[j].1 as int]@
            == entries@[j].0@ by {
            let t = entries@[j].1 as int;
            assert(Some(v@[t]) == slots@[t]);
        }
    }
    Some(v)
}

/// `s` split at its first space: the text before it and the text after it.
pub fn split_rule(s: &String) -> (r: Option<(String, String)>)
    ensures
        r is Some <==> s@.contains(' '),
        r matches Some(p) ==> s@ == p.0@ + seq![' '] + p.1@ && !p.0@.contains(' '),
{
    let cs = str_chars(s.as_str());
    let mut a = String::new();
    let mut i: usize = 0;
    while i < cs.len()
        invariant
            0 <= i <= cs@.len(),
            cs@ == s@,
            a@ == cs@.take(i as int),
            !a@.contains(' '),
        decreases cs@.len() - i,
    {
        if cs[i] == ' ' {
            let mut b = String::new();
            let mut j: usize = i + 1;
            while j < cs.len()
                invariant
                    i < j <= cs@.len(),
                    cs@ == s@,
                    b@ == cs@.subrange(i + 1, j as int),
                decreases cs@.len() - j,
            {
                push_char(&mut b, cs[j]);
                j = j + 1;
                assert(b@ =~= cs@.subrange(i + 1, j as int));
            }
            assert(s@ =~= a@ + seq![' '] + b@);
            return Some((a, b));
        }
        push_char(&mut a, cs[i]);
        i = i + 1;
        assert(a@ =~= cs@.take(i as int));
    }
    assert(cs@.take(i as int) =~= s@);
    None
}

/// `s` split at its first space: the text before it and the text after it.
pub open spec fn split_at_space(s: Seq<char>) -> Option<(Seq<char>, Seq<char>)>
    decreases s.len(),
{
    if s.len() == 0 {
        None
    } else if s[0] == ' ' {
        Some((Seq::empty(), s.drop_first()))
    } else {
        match split_at_space(s.drop_first()) {
            Some(p) => Some((seq![s[0]] + p.0, p.1)),
            None => None,
        }
    }
}

proof fn lemma_split_at_space(s: Seq<char>, a: Seq<char>, b: Seq<char>)
    requires
        s == a + seq![' '] + b,
        !a.contains(' '),
    ensures
        split_at_space(s) == Some((a, b)),
    decreases a.len(),
{
    if a.len() == 0 {
        assert(s.drop_first() =~= b);
        assert(a =~= Seq::<char>::empty());
    } else {
        assert(a[0] != ' ');
        assert(!a.drop_first().contains(' ')) by {
            if a.drop_first().contains(' ') {
                let i = choose|i: int| 0 <= i < a.drop_first().len() && a.drop_first()[i] == ' ';
                assert(a[i + 1] == ' ');
            }
        }
        assert(s.drop_first() =~= a.drop_first() + seq![' '] + b);
        lemma_split_at_space(s.drop_first(), a.drop_first(), b);
        assert(seq![s[0]] + a.drop_first() =~= a);
    }
}

proof fn lemma_no_space(s: Seq<char>)
    requires
        !s.contains(' '),
    ensures
        split_at_space(s) is None,
    decreases s.len(),
{
    if s.len() > 0 {
        assert(s[0] != ' ');
        assert(!s.drop_first().contains(' ')) by {
            if s.drop_first().contains(' ') {
                let i = choose|i: int| 0 <= i < s.drop_first().len() && s.drop_first()[i] == ' ';
                assert(s[i + 1] == ' ');
            }
        }
        lemma_no_space(s.drop_first());
    }
}

/// The value of the member `key` of an object's members (the first one with
/// that key).
pub open spec fn member(ms: Seq<(Seq<char>, Seq<char>)>, key: Seq<char>) -> Option<Seq<char>>
    decreases ms.len(),
{
    if ms.len() == 0 {
        None
    } else if ms[0].0 == key {
        Some(ms[0].1)
    } else {
        member(ms.drop_first(), key)
    }
}

/// The list of strings that the JSON text `text` holds: an array whose
/// items are all strings.
pub open spec fn json_string_list(text: Seq<char>) -> Option<Seq<Seq<char>>> {
    match json_array_items(text) {
        Some(items) => if forall|i: int| 0 <= i < items.len() ==> (#[trigger] json_string_value(items[i])) is Some {
            Some(Seq::new(items.len(), |i: int| json_string_value(items[i])->0))
        } else {
            None
        },
        None => None,
    }
}

/// The pair of strings that the JSON text `text` holds: an array of exactly
/// two strings.
pub open spec fn json_string_pair(text: Seq<char>) -> Option<(Seq<char>, Seq<char>)> {
    match json_array_items(text) {
        Some(items) => if items.len() == 2 && json_string_value(items[0]) is Some && json_string_value(
            items[1],
        ) is Some {
            Some((json_string_value(items[0])->0, json_string_value(items[1])->0))
        } else {
            None
        },
        None => None,
    }
}

/// The merge rule that the JSON text `item` holds: a pair of strings, or,
/// when `spaced`, also one string with the two tokens split by a space.
pub open spec fn json_rule(item: Seq<char>, spaced: bool) -> Option<(Seq<char>, Seq<char>)> {
    if spaced && json_string_value(item) is Some {
        split_at_space(json_string_value(item)->0)
    } else {
        json_string_pair(item)
    }
}

/// The merge rules that the JSON text `text` holds: an array of rules.
pub open spec fn json_rules(text: Seq<char>, spaced: bool) -> Option<Seq<(Seq<char>, Seq<char>)>> {
    match json_array_items(text) {
        Some(items) => if forall|i: int| 0 <= i < items.len() ==> (#[trigger] json_rule(items[i], spaced)) is Some {
            Some(Seq::new(items.len(), |i: int| json_rule(items[i], spaced)->0))
        } else {
            None
        },
        None => None,
    }
}

/// The first member of `ms` whose key is `key`.
fn member_text(ms: &Vec<(String, String)>, key: &String) -> (r: Option<String>)
    ensures
        match r {
            Some(t) => member(str_pairs(ms@), key@) == Some(t@),
            None => member(str_pairs(ms@), key@) is None,
        },
{
    let ghost all = str_pairs(ms@);
    let mut i: usize = 0;
    assert(all.skip(0) =~= all);
    while i < ms.len()
        invariant
            0 <= i <= ms@.len(),
            all == str_pairs(ms@),
            member(all, key@) == member(all.skip(i as int), key@),
        decreases ms@.len() - i,
    {
        assert(all.skip(i as int)[0] == all[i as int]);
        if ms[i].0 == *key {
            return Some(ms[i].1.clone());
        }
        assert(all.skip(i as int).drop_first() =~= all.skip(i + 1));
        i = i + 1;
    }
    assert(all.skip(i as int).len() == 0);
    None
}

/// The list of strings that the JSON text `text` holds.
fn read_strings(text: &str) -> (r: Result<Vec<String>, serde_json::Error>)
    ensures
        r is Ok <==> json_string_list(text@) is Some,
        r matches Ok(v) ==> Some(strs(v@)) == json_string_list(text@),
{
    let items = json_items(text)?;
    let ghost its = strs(items@);
    let mut out: Vec<String> = Vec::new();
    let mut i: usize = 0;
    while i < items.len()
        invariant
            0 <= i <= items@.len(),
            its == strs(items@),
            Some(its) == json_array_items(text@),
            out@.len() == i,
            forall|j: int| 0 <= j < i ==> (#[trigger] json_string_value(its[j])) == Some(out@[j]@),
        decreases items@.len() - i,
    {
        match json_str(items[i].as_str()) {
            Ok(t) => {
                out.push(t);
            },
            Err(e) => {
                assert(json_string_value(its[i as int]) is None);
                return Err(e);
            },
        }
        i = i + 1;
    }
    assert(strs(out@) =~= Seq::new(its.len(), |j: int| json_string_value(its[j])->0));
    Ok(out)
}

/// The pair of strings that the JSON text `text` holds.
fn read_pair(text: &str) -> (r: Result<(String, String), serde_json::Error>)
    ensures
        r is Ok <==> json_string_pair(text@) is Some,
        r matches Ok(p) ==> Some((p.0@, p.1@)) == json_string_pair(text@),
{
    let items = json_items(text)?;
    if items.len() != 2 {
        return Err(json_error("invalid length: expected a tuple of size 2"));
    }
    let a = json_str(items[0].as_str())?;
    let b = json_str(items[1].as_str())?;
    Ok((a, b))
}

/// The merge rules that the JSON text `text` holds.
fn read_pairs(text: &str, spaced: bool) -> (r: Result<Vec<(String, String)>, serde_json::Error>)
    ensures
        r is Ok <==> json_rules(text@, spaced) is Some,
        r matches Ok(v) ==> Some(str_pairs(v@)) == json_rules(text@, spaced),
{
    let items = json_items(text)?;
    let ghost its = strs(items@);
    let mut out: Vec<(String, String)> = Vec::new();
    let mut i: usize = 0;
    while i < items.len()
        invariant
            0 <= i <= items@.len(),
            its == strs(items@),
            Some(its) == json_array_items(text@),
            out@.len() == i,
            forall|j: int|
                0 <= j < i ==> (#[trigger] json_rule(its[j], spaced)) == Some((out@[j].0@, out@[j].1@)),
        decreases items@.len() - i,
    {
        let item = items[i].as_str();
        let as_string = if spaced {
            match json_str(item) {
                Ok(t) => Some(t),
                Err(_) => None,
            }
        } else {
            None
        };
        match as_string {
            Some(t) => match split_rule(&t) {
                Some(p) => {
                    proof {
                        lemma_split_at_space(t@, p.0@, p.1@);
                    }
                    out.push(p);
                },
                None => {
                    proof {
                        lemma_no_space(t@);
                        assert(json_rule(its[i as int], spaced) is None);
                    }
                    return Err(json_error("invalid merge: expected two tokens"));
                },
            },
            None => {
                match read_pair(item) {
                    Ok(p) => {
                        out.push(p);
                    },
                    Err(e) => {
                        assert(json_rule(its[i as int], spaced) is None);
                        return Err(e);
                    },
                }
            },
        }
        i = i + 1;
    }
    assert(str_pairs(out@) =~= Seq::new(its.len(), |j: int| json_rule(its[j], spaced)->0));
    Ok(out)
}

/// `j` is the string `s`.
pub open spec fn is_str(j: Json, s: Seq<char>) -> bool {
    j matches Json::Str(t) && t@ == s
}

/// `j` is an array of the strings `ss`.
pub open spec fn is_string_array(j: Json, ss: Seq<Seq<char>>) -> bool {
    &&& j matches Json::Arr(xs)
    &&& j->Arr_0@.len() == ss.len()
    &&& forall|i: int|
        0 <= i < ss.len() ==> is_str(#[trigger] j->Arr_0@[i], ss[i])
}

/// `j` is an array of the pairs `ps`, each an array of two strings.
pub open spec fn is_pair_array(j: Json, ps: Seq<(Seq<char>, Seq<char>)>) -> bool {
    &&& j matches Json::Arr(xs)
    &&& j->Arr_0@.len() == ps.len()
    &&& forall|i: int| 0 <= i < ps.len() ==> #[trigger] is_pair(j->Arr_0@[i], ps[i])
}

/// `j` is an array of the two strings of `p`.
pub open spec fn is_pair(j: Json, p: (Seq<char>, Seq<char>)) -> bool {
    &&& j matches Json::Arr(ys)
    &&& j->Arr_0@.len() == 2
    &&& is_str(j->Arr_0@[0], p.0)
    &&& is_str(j->Arr_0@[1], p.1)
}

proof fn lemma_items_read_back(items: Seq<Seq<char>>, xs: Seq<Json>)
    requires
        items_read_back(items, xs),
    ensures
        items.len() == xs.len(),
        forall|i: int| 0 <= i < xs.len() ==> #[trigger] reads_back(items[i], xs[i]),
    decreases xs.len(),
{
    if xs.len() > 0 {
        lemma_items_read_back(items.drop_last(), xs.drop_last());
        assert forall|i: int| 0 <= i < xs.len() implies #[trigger] reads_back(items[i], xs[i]) by {
            if i < xs.len() - 1 {
                assert(items.drop_last()[i] == items[i]);
                assert(xs.drop_last()[i] == xs[i]);
            }
        }
    }
}

/// Reading back an array of strings gives the strings.
proof fn lemma_read_string_array(t: Seq<char>, j: Json, ss: Seq<Seq<char>>)
    requires
        reads_back(t, j),
        is_string_array(j, ss),
    ensures
        json_string_list(t) == Some(ss),
{
    let xs = j->Arr_0@;
    let items = json_array_items(t)->0;
    lemma_items_read_back(items, xs);
    assert forall|i: int| 0 <= i < items.len() implies (#[trigger] json_string_value(items[i])) == Some(
        ss[i],
    ) by {
        assert(reads_back(items[i], xs[i]));
        assert(is_str(xs[i], ss[i]));
    }
    assert(Seq::new(items.len(), |i: int| json_string_value(items[i])->0) =~= ss);
}

/// Reading back an array of pairs gives the pairs as rules.
proof fn lemma_read_pair_array(t: Seq<char>, j: Json, ps: Seq<(Seq<char>, Seq<char>)>, spaced: bool)
    requires
        reads_back(t, j),
        is_pair_array(j, ps),
    ensures
        json_rules(t, spaced) == Some(ps),
{
    let xs = j->Arr_0@;
    let items = json_array_items(t)->0;
    lemma_items_read_back(items, xs);
    assert forall|i: int| 0 <= i < items.len() implies (#[trigger] json_rule(items[i], spaced)) == Some(
        ps[i],
    ) by {
        assert(reads_back(items[i], xs[i]));
        assert(is_pair(xs[i], ps[i]));
        let ys = xs[i]->Arr_0@;
        let its = json_array_items(items[i])->0;
        lemma_items_read_back(its, ys);
        assert(reads_back(its[0], ys[0]));
        assert(reads_back(its[1], ys[1]));
    }
    assert(Seq::new(items.len(), |i: int| json_rule(items[i], spaced)->0) =~= ps);
}

/// What `member` finds is a member with that key, and it finds one when
/// there is one.
proof fn lemma_member(fs: Seq<(Seq<char>, Seq<char>)>, key: Seq<char>)
    ensures
        member(fs, key) matches Some(t) ==> exists|j: int|
            0 <= j < fs.len() && fs[j].0 == key && #[trigger] fs[j].1 == t,
        (exists|j: int| 0 <= j < fs.len() && #[trigger] fs[j].0 == key) ==> member(fs, key) is Some,
    decreases fs.len(),
{
    if fs.len() > 0 {
        lemma_member(fs.drop_first(), key);
        if member(fs.drop_first(), key) is Some && fs[0].0 != key {
            let j = choose|j: int|
                0 <= j < fs.drop_first().len() && fs.drop_first()[j].0 == key && #[trigger] fs.drop_first()[j].1
                    == member(fs.drop_first(), key)->0;
            assert(fs[j + 1] == fs.drop_first()[j]);
        }
        if exists|j: int| 0 <= j < fs.len() && #[trigger] fs[j].0 == key {
            let j = choose|j: int| 0 <= j < fs.len() && #[trigger] fs[j].0 == key;
            if j > 0 && fs[0].0 != key {
                assert(fs.drop_first()[j - 1].0 == key);
            }
        }
    }
}

/// With distinct keys, `member` finds each member under its own key.
proof fn lemma_member_distinct(fs: Seq<(Seq<char>, Seq<char>)>, j: int)
    requires
        0 <= j < fs.len(),
        forall|a: int, b: int| 0 <= a < b < fs.len() ==> #[trigger] fs[a].0 != #[trigger] fs[b].0,
    ensures
        member(fs, fs[j].0) == Some(fs[j].1),
    decreases j,
{
    if j > 0 {
        assert(fs[0].0 != fs[j].0);
        let rest = fs.drop_first();
        assert forall|a: int, b: int| 0 <= a < b < rest.len() implies #[trigger] rest[a].0 != #[trigger] rest[b].0 by {
            assert(fs[a + 1].0 != fs[b + 1].0);
        }
        lemma_member_distinct(rest, j - 1);
        assert(rest[j - 1] == fs[j]);
    }
}

proof fn lemma_members_read_back(fs: Seq<(Seq<char>, Seq<char>)>, ms: Seq<(String, Json)>)
    requires
        members_read_back(fs, ms),
    ensures
        forall|i: int|
            0 <= i < ms.len() ==> member(fs, (#[trigger] ms[i]).0@) is Some && reads_back(
                member(fs, ms[i].0@)->0,
                ms[i].1,
            ),
    decreases ms.len(),
{
    if ms.len() > 0 {
        lemma_members_read_back(fs, ms.drop_last());
        assert forall|i: int| 0 <= i < ms.len() implies member(fs, (#[trigger] ms[i]).0@) is Some
            && reads_back(member(fs, ms[i].0@)->0, ms[i].1) by {
            if i < ms.len() - 1 {
                assert(ms.drop_last()[i] == ms[i]);
            }
        }
    }
}

/// Reading back an object with distinct keys: its members are found, each
/// under its key, and read back; the text's members have distinct keys,
/// each the key of a member of `doc`.
proof fn lemma_read_object(t: Seq<char>, doc: Json)
    requires
        reads_back(t, doc),
        doc is Obj,
        keys_distinct(doc->Obj_0@),
    ensures
        json_object_members(t) is Some,
        json_object_members(t)->0.len() == doc->Obj_0@.len(),
        forall|a: int, b: int|
            0 <= a < b < json_object_members(t)->0.len() ==> #[trigger] json_object_members(t)->0[a].0
                != #[trigger] json_object_members(t)->0[b].0,
        forall|j: int|
            0 <= j < json_object_members(t)->0.len() ==> exists|i: int|
                0 <= i < doc->Obj_0@.len() && #[trigger] doc->Obj_0@[i].0@ == #[trigger] json_object_members(
                    t,
                )->0[j].0,
        forall|i: int|
            0 <= i < doc->Obj_0@.len() ==> member(json_object_members(t)->0, (#[trigger] doc->Obj_0@[i]).0@)
                is Some && reads_back(member(json_object_members(t)->0, doc->Obj_0@[i].0@)->0, doc->Obj_0@[i].1),
{
    lemma_members_read_back(json_object_members(t)->0, doc->Obj_0@);
}

/// The entries of a vocabulary object: each comes from a member and is no
/// listed special token, each member that is no listed special token gives
/// one, and no two have the same token.
proof fn lemma_hf_entries(fields: Seq<(Seq<char>, Seq<char>)>, sp: Seq<(Seq<char>, u64)>)
    requires
        ids_parse(fields),
        forall|a: int, b: int| 0 <= a < b < fields.len() ==> #[trigger] fields[a].0 != #[trigger] fields[b].0,
    ensures
        forall|e: int|
            0 <= e < hf_entries(fields, sp).len() ==> exists|j: int|
                0 <= j < fields.len() && #[trigger] fields[j].0 == (#[trigger] hf_entries(fields, sp)[e]).0
                    && json_u64_value(fields[j].1) == Some(hf_entries(fields, sp)[e].1)
                    && !sp.contains(hf_entries(fields, sp)[e]),
        forall|j: int|
            0 <= j < fields.len() && !sp.contains((fields[j].0, json_u64_value(fields[j].1)->0)) ==> hf_entries(
                fields,
                sp,
            ).contains((#[trigger] fields[j].0, json_u64_value(fields[j].1)->0)),
        forall|a: int, b: int|
            0 <= a < b < hf_entries(fields, sp).len() ==> (#[trigger] hf_entries(fields, sp)[a]).0 != (
            #[trigger] hf_entries(fields, sp)[b]).0,
    decreases fields.len(),
{
    if fields.len() > 0 {
        let pre = fields.drop_last();
        let f = fields.last();
        let n1 = fields.len() - 1;
        assert(ids_parse(pre)) by {
            assert forall|i: int| 0 <= i < pre.len() implies (#[trigger] json_u64_value(pre[i].1)) is Some by {
                assert(pre[i] == fields[i]);
                assert(json_u64_value(fields[i].1) is Some);
            }
        }
        assert forall|a: int, b: int| 0 <= a < b < pre.len() implies #[trigger] pre[a].0 != #[trigger] pre[b].0 by {
            assert(fields[a].0 != fields[b].0);
        }
        lemma_hf_entries(pre, sp);
        let es0 = hf_entries(pre, sp);
        let es = hf_entries(fields, sp);
        assert(json_u64_value(fields[n1].1) is Some);
        let d = json_u64_value(f.1)->0;
        assert forall|e: int| 0 <= e < es.len() implies exists|j: int|
            0 <= j < fields.len() && #[trigger] fields[j].0 == (#[trigger] es[e]).0 && json_u64_value(fields[j].1)
                == Some(es[e].1) && !sp.contains(es[e]) by {
            if e < es0.len() {
                assert(es[e] == es0[e]);
                let j = choose|j: int|
                    0 <= j < pre.len() && #[trigger] pre[j].0 == (#[trigger] es0[e]).0 && json_u64_value(pre[j].1)
                        == Some(es0[e].1) && !sp.contains(es0[e]);
                assert(fields[j] == pre[j]);
            } else {
                assert(es[e] == (f.0, d));
                assert(fields[n1] == f);
            }
        }
        assert forall|j: int|
            0 <= j < fields.len() && !sp.contains((fields[j].0, json_u64_value(fields[j].1)->0)) implies es.contains(
            (#[trigger] fields[j].0, json_u64_value(fields[j].1)->0),
        ) by {
            if j < n1 {
                assert(pre[j] == fields[j]);
                let k = choose|k: int| 0 <= k < es0.len() && es0[k] == (pre[j].0, json_u64_value(pre[j].1)->0);
                assert(es[k] == es0[k]);
            } else {
                assert(es[es.len() - 1] == (f.0, d));
            }
        }
        assert forall|a: int, b: int| 0 <= a < b < es.len() implies (#[trigger] es[a]).0 != (#[trigger] es[b]).0 by {
            if b < es0.len() {
                assert(es[a] == es0[a]);
                assert(es[b] == es0[b]);
            } else {
                assert(es[a] == es0[a]);
                let j = choose|j: int|
                    0 <= j < pre.len() && #[trigger] pre[j].0 == (#[trigger] es0[a]).0 && json_u64_value(pre[j].1)
                        == Some(es0[a].1) && !sp.contains(es0[a]);
                assert(fields[j].0 != fields[n1].0);
            }
        }
    }
}

/// A vocabulary object whose members are the keys `keys`, each with its
/// index as id, gives back the first `n` keys as the vocabulary when the
/// listed special tokens are exactly the members from `n` on.
proof fn lemma_hf_vocab(
    fields: Seq<(Seq<char>, Seq<char>)>,
    keys: Seq<Seq<char>>,
    sp: Seq<(Seq<char>, u64)>,
    n: nat,
)
    requires
        n <= keys.len() <= u64::MAX + 1,
        forall|a: int, b: int| 0 <= a < b < fields.len() ==> #[trigger] fields[a].0 != #[trigger] fields[b].0,
        forall|j: int| 0 <= j < fields.len() ==> exists|i: int| 0 <= i < keys.len() && #[trigger] keys[i] == #[trigger] fields[j].0,
        forall|i: int|
            0 <= i < keys.len() ==> member(fields, #[trigger] keys[i]) is Some && json_u64_value(
                member(fields, keys[i])->0,
            ) == Some(i as u64),
        forall|i: int| 0 <= i < keys.len() ==> (sp.contains((#[trigger] keys[i], i as u64)) <==> i >= n),
    ensures
        ids_parse(fields),
        ids_fill(hf_entries(fields, sp)),
        vocab_by_ids(hf_entries(fields, sp)) == keys.take(n as int),
{
    // each member has the index of its key as id
    assert forall|j: int| 0 <= j < fields.len() implies exists|i: int|
        0 <= i < keys.len() && keys[i] == fields[j].0 && #[trigger] json_u64_value(fields[j].1) == Some(i as u64) by {
        let i = choose|i: int| 0 <= i < keys.len() && #[trigger] keys[i] == #[trigger] fields[j].0;
        lemma_member_distinct(fields, j);
    }
    assert(ids_parse(fields));
    lemma_hf_entries(fields, sp);
    let es = hf_entries(fields, sp);
    // every entry is (keys[i], i) for an i below n
    assert forall|e: int| 0 <= e < es.len() implies exists|i: int|
        0 <= i < n && #[trigger] es[e] == (keys[i], i as u64) by {
        let j = choose|j: int|
            0 <= j < fields.len() && #[trigger] fields[j].0 == (#[trigger] es[e]).0 && json_u64_value(fields[j].1)
                == Some(es[e].1) && !sp.contains(es[e]);
        let i = choose|i: int|
            0 <= i < keys.len() && keys[i] == fields[j].0 && #[trigger] json_u64_value(fields[j].1) == Some(
                i as u64,
            );
        assert(es[e] == (keys[i], i as u64));
        assert(!sp.contains((keys[i], i as u64)));
    }
    // every (keys[k], k) below n is an entry
    assert forall|k: int| 0 <= k < n implies es.contains((#[trigger] keys[k], k as u64)) by {
        lemma_member(fields, keys[k]);
        let j = choose|j: int|
            0 <= j < fields.len() && fields[j].0 == keys[k] && #[trigger] fields[j].1 == member(fields, keys[k])->0;
        assert(!sp.contains((keys[k], k as u64)));
        assert(json_u64_value(fields[j].1)->0 == k as u64);
        assert(!sp.contains((fields[j].0, json_u64_value(fields[j].1)->0)));
    }
    // so there are exactly n entries
    let p = Seq::new(n, |k: int| (keys[k], k as u64));
    assert(es.no_duplicates()) by {
        assert forall|a: int, b: int| 0 <= a < es.len() && 0 <= b < es.len() && a != b implies es[a] != es[b] by {
            if a < b {
                assert(es[a].0 != es[b].0);
            } else {
                assert(es[b].0 != es[a].0);
            }
        }
    }
    assert(p.no_duplicates());
    assert(es.to_set() =~= p.to_set()) by {
        assert forall|x: (Seq<char>, u64)| es.to_set().contains(x) implies p.to_set().contains(x) by {
            let e = choose|e: int| 0 <= e < es.len() && es[e] == x;
            let i = choose|i: int| 0 <= i < n && #[trigger] es[e] == (keys[i], i as u64);
            assert(p[i] == x);
        }
        assert forall|x: (Seq<char>, u64)| p.to_set().contains(x) implies es.to_set().contains(x) by {
            let k = choose|k: int| 0 <= k < p.len() && p[k] == x;
            assert(es.contains((keys[k], k as u64)));
        }
    }
    es.unique_seq_to_set();
    p.unique_seq_to_set();
    assert(es.len() == n);
    // ids number the entries 0, 1, 2, ...
    assert forall|e: int| 0 <= e < es.len() implies (#[trigger] es[e].1) < es.len() by {
        let i = choose|i: int| 0 <= i < n && #[trigger] es[e] == (keys[i], i as u64);
    }
    assert forall|a: int, b: int| 0 <= a < b < es.len() implies #[trigger] es[a].1 != #[trigger] es[b].1 by {
        let i = choose|i: int| 0 <= i < n && #[trigger] es[a] == (keys[i], i as u64);
        let i2 = choose|i: int| 0 <= i < n && #[trigger] es[b] == (keys[i], i as u64);
        assert(es[a].0 != es[b].0);
    }
    assert forall|k: int| 0 <= k < es.len() implies #[trigger] names_id(es, k) by {
        assert(es.contains((keys[k], k as u64)));
        let e = choose|e: int| 0 <= e < es.len() && es[e] == (keys[k], k as u64);
        assert(es[e].1 == k);
    }
    assert(ids_fill(es));
    assert forall|k: int| 0 <= k < n implies #[trigger] vocab_by_ids(es)[k] == keys[k] by {
        assert(names_id(es, k));
        let e = choose|e: int| 0 <= e < es.len() && es[e].1 == k;
        let i = choose|i: int| 0 <= i < n && #[trigger] es[e] == (keys[i], i as u64);
        assert(i == k);
    }
    assert(vocab_by_ids(es) =~= keys.take(n as int));
}

/// The members of the vocabulary object `model.vocab` of a HuggingFace
/// document.
pub open spec fn hf_vocab_members(text: Seq<char>) -> Option<Seq<(Seq<char>, Seq<char>)>> {
    match json_object_members(text) {
        Some(doc) => match member(doc, "model"@) {
            Some(model) => match json_object_members(model) {
                Some(mm) => match member(mm, "vocab"@) {
                    Some(vt) => json_object_members(vt),
                    None => None,
                },
                None => None,
            },
            None => None,
        },
        None => None,
    }
}

/// The id that the vocabulary object of a HuggingFace document gives `<unk>`.
pub open spec fn hf_unk_id(text: Seq<char>) -> Option<u64> {
    match hf_vocab_members(text) {
        Some(fs) => match member(fs, "<unk>"@) {
            Some(t) => json_u64_value(t),
            None => None,
        },
        None => None,
    }
}

/// The special tokens that a HuggingFace document lists under `added_tokens`.
pub open spec fn hf_listed(text: Seq<char>) -> Seq<(Seq<char>, u64)> {
    match json_object_members(text) {
        Some(doc) => hf_specials(doc),
        None => Seq::empty(),
    }
}

/// `m` is the member `key` with the number `i`.
pub open spec fn is_id_member(m: (String, Json), key: Seq<char>, i: int) -> bool {
    &&& m.0@ == key
    &&& m.1 is Num
    &&& m.1->Num_0 == i
}

/// Reading back the document that `hf_json` builds gives its vocabulary
/// and rules.
proof fn lemma_hf_json_reads(
    r: Seq<char>,
    doc_json: Json,
    dv: Seq<(String, Json)>,
    mj: Json,
    mo: Seq<(String, Json)>,
    vj: Json,
    vo: Seq<(String, Json)>,
    pj: Json,
    ad: Seq<Json>,
    tok_json: Json,
    keys: Seq<Seq<char>>,
    v: Seq<Seq<char>>,
    ps: Seq<(Seq<char>, Seq<char>)>,
    absent: bool,
)
    requires
        reads_back(r, doc_json),
        doc_json is Obj,
        doc_json->Obj_0@ == dv,
        dv.len() == 3,
        dv[0].0@ == "added_tokens"@,
        dv[0].1 is Arr,
        dv[0].1->Arr_0@ == ad,
        dv[1].0@ == "model"@,
        dv[1].1 == mj,
        dv[2].0@ == "version"@,
        mj is Obj,
        mj->Obj_0@ == mo,
        mo.len() == 4,
        mo[0].0@ == "merges"@,
        mo[0].1 == pj,
        mo[1].0@ == "type"@,
        mo[2].0@ == "unk_token"@,
        mo[3].0@ == "vocab"@,
        mo[3].1 == vj,
        vj is Obj,
        vj->Obj_0@ == vo,
        is_pair_array(pj, ps),
        vo.len() == keys.len(),
        keys.len() <= u64::MAX + 1,
        forall|k: int| 0 <= k < keys.len() ==> #[trigger] is_id_member(vo[k], keys[k], k),
        forall|i: int, j: int| 0 <= i < j < v.len() ==> v[i] != v[j],
        absent ==> keys == v.push("<unk>"@) && !v.contains("<unk>"@) && ad.len() == 1 && ad[0] == tok_json,
        absent ==> tok_json is Obj && tok_json->Obj_0@.len() == 3,
        absent ==> tok_json->Obj_0@[0].0@ == "content"@ && is_str(tok_json->Obj_0@[0].1, "<unk>"@),
        absent ==> tok_json->Obj_0@[1].0@ == "id"@ && tok_json->Obj_0@[1].1 is Num
            && tok_json->Obj_0@[1].1->Num_0 == v.len(),
        absent ==> tok_json->Obj_0@[2].0@ == "special"@,
        !absent ==> keys == v && ad.len() == 0,
    ensures
        hf_model(r) == Some((v, ps)),
        absent ==> hf_unk_id(r) == Some(v.len() as u64) && hf_listed(r) == seq![("<unk>"@, v.len() as u64)],
        !absent ==> forall|k: int| 0 <= k < v.len() && v[k] == "<unk>"@ ==> hf_unk_id(r) == Some(k as u64),
{
    reveal_strlit("added_tokens");
    reveal_strlit("model");
    reveal_strlit("version");
    reveal_strlit("merges");
    reveal_strlit("type");
    reveal_strlit("unk_token");
    reveal_strlit("vocab");
    reveal_strlit("content");
    reveal_strlit("id");
    reveal_strlit("special");
    reveal_strlit("<unk>");
    let n = v.len();
    // the document
    assert("added_tokens"@.len() == 12 && "model"@.len() == 5 && "version"@.len() == 7);
    assert("merges"@.len() == 6 && "type"@.len() == 4 && "unk_token"@.len() == 9 && "vocab"@.len() == 5);
    assert(keys_distinct(dv)) by {
        assert forall|a: int, b: int| 0 <= a < b < dv.len() implies #[trigger] dv[a].0@ != #[trigger] dv[b].0@ by {
            assert(dv[a].0@.len() != dv[b].0@.len());
        }
    }
    lemma_read_object(r, doc_json);
    let dfs = json_object_members(r)->0;
    assert(dv[1] == dv[1]);
    assert(dv[0] == dv[0]);
    let mt = member(dfs, "model"@)->0;
    assert(reads_back(mt, mj));
    // the model
    assert(keys_distinct(mo)) by {
        assert forall|a: int, b: int| 0 <= a < b < mo.len() implies #[trigger] mo[a].0@ != #[trigger] mo[b].0@ by {
            assert(mo[a].0@.len() != mo[b].0@.len());
        }
    }
    lemma_read_object(mt, mj);
    let mm = json_object_members(mt)->0;
    assert(mo[3] == mo[3]);
    assert(mo[0] == mo[0]);
    let vt = member(mm, "vocab"@)->0;
    let mtext = member(mm, "merges"@)->0;
    assert(reads_back(vt, vj));
    assert(reads_back(mtext, pj));
    // the vocabulary object
    assert forall|a: int, b: int| 0 <= a < b < keys.len() implies keys[a] != keys[b] by {
        if absent && b == n {
            assert(keys[b] == "<unk>"@);
            assert(keys[a] == v[a]);
            assert(v.contains(v[a]));
        } else if absent {
            assert(keys[a] == v[a] && keys[b] == v[b]);
        }
    }
    assert(keys_distinct(vo)) by {
        assert forall|a: int, b: int| 0 <= a < b < vo.len() implies #[trigger] vo[a].0@ != #[trigger] vo[b].0@ by {
            assert(is_id_member(vo[a], keys[a], a));
            assert(is_id_member(vo[b], keys[b], b));
        }
    }
    lemma_read_object(vt, vj);
    let fields = json_object_members(vt)->0;
    assert forall|j: int| 0 <= j < fields.len() implies exists|i: int|
        0 <= i < keys.len() && #[trigger] keys[i] == #[trigger] fields[j].0 by {
        let i = choose|i: int| 0 <= i < vo.len() && #[trigger] vo[i].0@ == #[trigger] fields[j].0;
        assert(is_id_member(vo[i], keys[i], i));
    }
    assert forall|i: int| 0 <= i < keys.len() implies member(fields, #[trigger] keys[i]) is Some
        && json_u64_value(member(fields, keys[i])->0) == Some(i as u64) by {
        assert(is_id_member(vo[i], keys[i], i));
        assert(vo[i] == vo[i]);
        assert(reads_back(member(fields, vo[i].0@)->0, vo[i].1));
    }
    // the special tokens
    assert(dv[0].0@ == "added_tokens"@);
    let at = member(dfs, "added_tokens"@)->0;
    assert(reads_back(at, dv[0].1));
    let items = json_array_items(at)->0;
    lemma_items_read_back(items, ad);
    let sp = hf_specials(dfs);
    assert(specials_upto(items, 0) =~= Seq::<(Seq<char>, u64)>::empty());
    if absent {
        let tm = tok_json->Obj_0@;
        assert(reads_back(items[0], tok_json));
        assert(tm[0].0@[0] != tm[2].0@[0]);
        assert(keys_distinct(tm));
        lemma_read_object(items[0], tok_json);
        let ims = json_object_members(items[0])->0;
        assert(tm[0] == tm[0]);
        assert(tm[1] == tm[1]);
        assert(reads_back(member(ims, "content"@)->0, tm[0].1));
        assert(reads_back(member(ims, "id"@)->0, tm[1].1));
        assert(special_token(items[0]) == Some(("<unk>"@, n as u64)));
        assert(sp =~= seq![("<unk>"@, n as u64)]);
        assert forall|i: int| 0 <= i < keys.len() implies (sp.contains((#[trigger] keys[i], i as u64)) <==> i
            >= n) by {
            if i < n {
                if sp.contains((keys[i], i as u64)) {
                    assert(sp[0] == (keys[i], i as u64));
                }
            } else {
                assert(keys[i] == "<unk>"@);
                assert(sp[0] == (keys[i], i as u64));
            }
        }
    } else {
        assert(sp =~= Seq::<(Seq<char>, u64)>::empty());
    }
    lemma_hf_vocab(fields, keys, sp, n);
    lemma_read_pair_array(mtext, pj, ps, true);
    assert(keys.take(n as int) =~= v);
    assert(hf_vocab_members(r) == Some(fields));
    if absent {
        assert(keys[n as int] == "<unk>"@);
        assert(hf_listed(r) == sp);
    } else {
        assert forall|k: int| 0 <= k < v.len() && v[k] == "<unk>"@ implies hf_unk_id(r) == Some(k as u64) by {
            assert(keys[k] == "<unk>"@);
        }
    }
}

proof fn lemma_items_within(xs: Seq<Json>, d: nat)
    requires
        forall|i: int| 0 <= i < xs.len() ==> nested_within(#[trigger] xs[i], d),
    ensures
        items_within(xs, d),
    decreases xs.len(),
{
    if xs.len() > 0 {
        assert forall|i: int| 0 <= i < xs.drop_last().len() implies nested_within(#[trigger] xs.drop_last()[i], d) by {
            assert(xs.drop_last()[i] == xs[i]);
        }
        lemma_items_within(xs.drop_last(), d);
        assert(nested_within(xs[xs.len() - 1], d));
    }
}

proof fn lemma_members_within(ms: Seq<(String, Json)>, d: nat)
    requires
        forall|i: int| 0 <= i < ms.len() ==> nested_within((#[trigger] ms[i]).1, d),
    ensures
        members_within(ms, d),
    decreases ms.len(),
{
    if ms.len() > 0 {
        assert forall|i: int| 0 <= i < ms.drop_last().len() implies nested_within((#[trigger] ms.drop_last()[i]).1, d) by {
            assert(ms.drop_last()[i] == ms[i]);
        }
        lemma_members_within(ms.drop_last(), d);
        assert(nested_within(ms[ms.len() - 1].1, d));
    }
}

/// An array of strings is nested one deep.
proof fn lemma_string_array_within(j: Json, ss: Seq<Seq<char>>, d: nat)
    requires
        is_string_array(j, ss),
        d > 0,
    ensures
        nested_within(j, d),
{
    let xs = j->Arr_0@;
    assert forall|i: int| 0 <= i < xs.len() implies nested_within(#[trigger] xs[i], (d - 1) as nat) by {
        assert(is_str(xs[i], ss[i]));
    }
    lemma_items_within(xs, (d - 1) as nat);
}

/// An array of pairs of strings is nested two deep.
proof fn lemma_pair_array_within(j: Json, ps: Seq<(Seq<char>, Seq<char>)>, d: nat)
    requires
        is_pair_array(j, ps),
        d > 1,
    ensures
        nested_within(j, d),
{
    let xs = j->Arr_0@;
    assert forall|i: int| 0 <= i < xs.len() implies nested_within(#[trigger] xs[i], (d - 1) as nat) by {
        assert(is_pair(xs[i], ps[i]));
        let ys = xs[i]->Arr_0@;
        assert forall|k: int| 0 <= k < ys.len() implies nested_within(#[trigger] ys[k], (d - 2) as nat) by {
            assert(k == 0 || k == 1);
            assert(is_str(ys[0], ps[i].0));
            assert(is_str(ys[1], ps[i].1));
        }
        lemma_items_within(ys, (d - 2) as nat);
    }
    lemma_items_within(xs, (d - 1) as nat);
}

/// The strings `items` as a JSON array.
fn json_strings(items: &Vec<String>) -> (j: Json)
    ensures
        is_string_array(j, strs(items@)),
{
    let mut xs: Vec<Json> = Vec::new();
    let mut i: usize = 0;
    while i < items.len()
        invariant
            0 <= i <= items@.len(),
            xs@.len() == i,
            forall|k: int| 0 <= k < i ==> is_str(#[trigger] xs@[k], items@[k]@),
        decreases items@.len() - i,
    {
        xs.push(Json::Str(items[i].clone()));
        i = i + 1;
    }
    Json::Arr(xs)
}

/// The pairs `pairs` as a JSON array of two-string arrays.
fn json_pairs(pairs: &Vec<(String, String)>) -> (j: Json)
    ensures
        is_pair_array(j, str_pairs(pairs@)),
{
    let mut xs: Vec<Json> = Vec::new();
    let mut i: usize = 0;
    while i < pairs.len()
        invariant
            0 <= i <= pairs@.len(),
            xs@.len() == i,
            forall|k: int| 0 <= k < i ==> #[trigger] is_pair(xs@[k], (pairs@[k].0@, pairs@[k].1@)),
        decreases pairs@.len() - i,
    {
        let mut pair: Vec<Json> = Vec::new();
        pair.push(Json::Str(pairs[i].0.clone()));
        pair.push(Json::Str(pairs[i].1.clone()));
        xs.push(Json::Arr(pair));
        i = i + 1;
    }
    Json::Arr(xs)
}

/// `doc` as JSON text.
fn render(doc: &Json) -> (r: String)
    requires
        nested_within(*doc, render_depth()),
    ensures
        reads_back(r@, *doc),
{
    match json_render(doc) {
        Ok(s) => s,
        Err(_) => String::new(),
    }
}

/// The special token that the HuggingFace shape requires in its vocabulary.
fn unk_token() -> (s: String)
    ensures
        s@ == "<unk>"@,
{
    "<unk>".to_owned()
}

/// The JSON text `text` is an object with exactly the members `vocab` and
/// `merges`.
pub open spec fn is_plain_object(text: Seq<char>) -> bool {
    &&& json_object_members(text) is Some
    &&& json_object_members(text)->0.len() == 2
    &&& {
        let fs = json_object_members(text)->0;
        ||| fs[0].0 == "merges"@ && fs[1].0 == "vocab"@
        ||| fs[0].0 == "vocab"@ && fs[1].0 == "merges"@
    }
}

/// `vocab` + `merges` as JSON: an object with the members `vocab` (the
/// tokens) and `merges` (each rule an array of two tokens); reading it as a
/// plain model gives them back.
pub(crate) fn plain_json(vocab: &Vec<String>, merges: &Vec<(String, String)>) -> (r: String)
    ensures
        is_plain_object(r@),
        plain_model(r@) == Some((strs(vocab@), str_pairs(merges@))),
{
    let merges_key = "merges".to_owned();
    let vocab_key = "vocab".to_owned();
    let mut ms: Vec<(String, Json)> = Vec::new();
    ms.push((vocab_key, json_strings(vocab)));
    ms.push((merges_key, json_pairs(merges)));
    let ghost m = ms@;
    let doc = Json::Obj(ms);
    proof {
        lemma_string_array_within(m[0].1, strs(vocab@), 63);
        lemma_pair_array_within(m[1].1, str_pairs(merges@), 63);
        lemma_members_within(m, 63);
    }
    let r = render(&doc);
    proof {
        reveal_strlit("merges");
        reveal_strlit("vocab");
        assert(m[0].0@ == "vocab"@);
        assert(m[1].0@ == "merges"@);
        assert(m[0].0@ != m[1].0@);
        assert(keys_distinct(m));
        let fs = json_object_members(r@)->0;
        assert(m.drop_last().drop_last() =~= Seq::<(String, Json)>::empty());
        assert(members_read_back(fs, m.drop_last()));
        let tv = member(fs, "vocab"@)->0;
        let tm = member(fs, "merges"@)->0;
        assert(reads_back(tv, m[0].1));
        assert(reads_back(tm, m[1].1));
        assert(plain_parts(r@) == Some((tv, tm)));
        lemma_read_object(r@, doc);
        assert forall|j: int| 0 <= j < fs.len() implies fs[j].0 == "merges"@ || fs[j].0 == "vocab"@ by {
            let i = choose|i: int| 0 <= i < m.len() && #[trigger] m[i].0@ == #[trigger] fs[j].0;
        }
        assert(fs[0].0 != fs[1].0);
        lemma_read_string_array(tv, m[0].1, strs(vocab@));
        lemma_read_pair_array(tm, m[1].1, str_pairs(merges@), false);
    }
    r
}

/// The texts of the `vocab` and `merges` parts of a plain model document:
/// the members of those names of an object, or the two items of an array.
pub open spec fn plain_parts(text: Seq<char>) -> Option<(Seq<char>, Seq<char>)> {
    match json_array_items(text) {
        Some(items) => if items.len() == 2 {
            Some((items[0], items[1]))
        } else {
            None
        },
        None => match json_object_members(text) {
            Some(ms) => match (member(ms, "vocab"@), member(ms, "merges"@)) {
                (Some(v), Some(m)) => Some((v, m)),
                _ => None,
            },
            None => None,
        },
    }
}

/// The vocabulary and rules that a plain model document holds.
pub open spec fn plain_model(text: Seq<char>) -> Option<
    (Seq<Seq<char>>, Seq<(Seq<char>, Seq<char>)>),
> {
    match plain_parts(text) {
        Some(parts) => match (json_string_list(parts.0), json_rules(parts.1, false)) {
            (Some(v), Some(m)) => Some((v, m)),
            _ => None,
        },
        None => None,
    }
}

/// `vocab` + `merges` read from JSON, as an object or as a two-element array.
pub(crate) fn read_plain_json(json: &str) -> (r: Result<
    (Vec<String>, Vec<(String, String)>),
    serde_json::Error,
>)
    ensures
        r is Ok <==> plain_model(json@) is Some,
        r matches Ok(p) ==> Some((strs(p.0@), str_pairs(p.1@))) == plain_model(json@),
{
    let (vocab_t, merges_t) = match json_items(json) {
        Ok(items) => {
            if items.len() != 2 {
                return Err(json_error("invalid length: expected struct RawModel with 2 elements"));
            }
            (items[0].clone(), items[1].clone())
        },
        Err(_) => {
            let ms = json_members(json)?;
            let vocab_key = "vocab".to_owned();
            let merges_key = "merges".to_owned();
            let vocab_t = match member_text(&ms, &vocab_key) {
                Some(x) => x,
                None => {
                    return Err(json_error("missing field `vocab`"));
                },
            };
            let merges_t = match member_text(&ms, &merges_key) {
                Some(x) => x,
                None => {
                    return Err(json_error("missing field `merges`"));
                },
            };
            (vocab_t, merges_t)
        },
    };
    assert(plain_parts(json@) == Some((vocab_t@, merges_t@)));
    let vocab = read_strings(vocab_t.as_str())?;
    let merges = read_pairs(merges_t.as_str(), false)?;
    Ok((vocab, merges))
}

/// A model in the HuggingFace `tokenizer.json` shape: `model.vocab` is an
/// object from token to id, `model.merges` a list of token pairs, and the
/// vocabulary holds `<unk>` (added after the learned tokens, and listed
/// under `added_tokens`, when no learned token is `<unk>`).
pub(crate) fn hf_json(vocab: &Vec<String>, merges: &Vec<(String, String)>) -> (r: String)
    ensures
        (forall|i: int, j: int| 0 <= i < j < vocab@.len() ==> vocab@[i]@ != vocab@[j]@) ==> hf_model(r@)
            == Some((strs(vocab@), str_pairs(merges@))),
        (forall|i: int, j: int| 0 <= i < j < vocab@.len() ==> vocab@[i]@ != vocab@[j]@) && !strs(
            vocab@,
        ).contains("<unk>"@) ==> hf_unk_id(r@) == Some(vocab@.len() as u64) && hf_listed(r@) == seq![
            ("<unk>"@, vocab@.len() as u64),
        ],
        (forall|i: int, j: int| 0 <= i < j < vocab@.len() ==> vocab@[i]@ != vocab@[j]@) ==> forall|k: int|
            0 <= k < vocab@.len() && vocab@[k]@ == "<unk>"@ ==> hf_unk_id(r@) == Some(k as u64),
{
    let unk = unk_token();
    let n = vocab.len();
    let mut vocab_obj: Vec<(String, Json)> = Vec::new();
    let mut i: usize = 0;
    while i < n
        invariant
            n == vocab@.len(),
            0 <= i <= n,
            vocab_obj@.len() == i,
            forall|k: int| 0 <= k < i ==> #[trigger] is_id_member(vocab_obj@[k], vocab@[k]@, k),
        decreases n - i,
    {
        vocab_obj.push((vocab[i].clone(), Json::Num(i as u64)));
        i = i + 1;
    }
    let ghost mut keys: Seq<Seq<char>> = strs(vocab@);
    let mut added: Vec<Json> = Vec::new();
    let absent = find_token(vocab, &unk).is_none();
    let ghost mut tok_json: Json = Json::Bool(true);
    if absent {
        vocab_obj.push((unk.clone(), Json::Num(n as u64)));
        proof {
            keys = keys.push(unk@);
        }
        let mut tok: Vec<(String, Json)> = Vec::new();
        tok.push(("content".to_owned(), Json::Str(unk.clone())));
        tok.push(("id".to_owned(), Json::Num(n as u64)));
        tok.push(("special".to_owned(), Json::Bool(true)));
        let t = Json::Obj(tok);
        proof {
            tok_json = t;
        }
        added.push(t);
    }
    let ghost vo = vocab_obj@;
    let ghost ad = added@;
    let pairs_json = json_pairs(merges);
    let ghost pj = pairs_json;
    let vocab_json = Json::Obj(vocab_obj);
    let ghost vj = vocab_json;
    let mut model: Vec<(String, Json)> = Vec::new();
    model.push(("merges".to_owned(), pairs_json));
    model.push(("type".to_owned(), Json::Str("BPE".to_owned())));
    model.push(("unk_token".to_owned(), Json::Str(unk)));
    model.push(("vocab".to_owned(), vocab_json));
    let ghost mo = model@;
    let model_json = Json::Obj(model);
    let ghost mj = model_json;
    let mut doc: Vec<(String, Json)> = Vec::new();
    doc.push(("added_tokens".to_owned(), Json::Arr(added)));
    doc.push(("model".to_owned(), model_json));
    doc.push(("version".to_owned(), Json::Str("1.0".to_owned())));
    let ghost dv = doc@;
    let doc_json = Json::Obj(doc);
    proof {
        assert forall|k: int| 0 <= k < vo.len() implies nested_within((#[trigger] vo[k]).1, 61) by {
            assert(is_id_member(vo[k], keys[k], k));
        }
        lemma_members_within(vo, 61);
        lemma_pair_array_within(pj, str_pairs(merges@), 62);
        lemma_members_within(mo, 62);
        if absent {
            lemma_members_within(tok_json->Obj_0@, 61);
        }
        lemma_items_within(ad, 62);
        lemma_members_within(dv, 63);
    }
    let r = render(&doc_json);
    proof {
        if forall|i: int, j: int| 0 <= i < j < vocab@.len() ==> vocab@[i]@ != vocab@[j]@ {
            let v = strs(vocab@);
            if absent {
                if v.contains("<unk>"@) {
                    let k = choose|k: int| 0 <= k < v.len() && v[k] == "<unk>"@;
                    crate::train::lemma_contains_token_index(v, "<unk>"@, k);
                }
            } else {
                crate::bpe::lemma_token_index(v, "<unk>"@);
                let k = token_index(v, "<unk>"@)->0;
                assert(v[k as int] == "<unk>"@);
            }
            lemma_hf_json_reads(
                r@,
                doc_json,
                dv,
                mj,
                mo,
                vj,
                vo,
                pj,
                ad,
                tok_json,
                keys,
                v,
                str_pairs(merges@),
                absent,
            );
            assert forall|k: int| 0 <= k < vocab@.len() && vocab@[k]@ == "<unk>"@ implies hf_unk_id(r@) == Some(
                k as u64,
            ) by {
                assert(v[k] == "<unk>"@);
                if absent {
                    assert(v.contains("<unk>"@));
                }
            }
        }
    }
    r
}

/// The special token that the JSON text `item` of `added_tokens` lists: an
/// object with a string `content` and a number `id`.
pub open spec fn special_token(item: Seq<char>) -> Option<(Seq<char>, u64)> {
    match json_object_members(item) {
        Some(ms) => match (member(ms, "content"@), member(ms, "id"@)) {
            (Some(c), Some(d)) => match (json_string_value(c), json_u64_value(d)) {
                (Some(c), Some(d)) => Some((c, d)),
                _ => None,
            },
            _ => None,
        },
        None => None,
    }
}

/// The special tokens listed by the first `n` items.
pub open spec fn specials_upto(items: Seq<Seq<char>>, n: nat) -> Seq<(Seq<char>, u64)>
    decreases n,
{
    if n == 0 {
        Seq::empty()
    } else {
        let s = specials_upto(items, (n - 1) as nat);
        match special_token(items[n - 1]) {
            Some(p) => s.push(p),
            None => s,
        }
    }
}

/// The special tokens that a document's `added_tokens` lists (items that
/// are no such token are passed over).
pub open spec fn hf_specials(doc: Seq<(Seq<char>, Seq<char>)>) -> Seq<(Seq<char>, u64)> {
    match member(doc, "added_tokens"@) {
        Some(a) => match json_array_items(a) {
            Some(items) => specials_upto(items, items.len()),
            None => Seq::empty(),
        },
        None => Seq::empty(),
    }
}

/// Every member of a vocabulary object has a number as its value.
pub open spec fn ids_parse(fields: Seq<(Seq<char>, Seq<char>)>) -> bool {
    forall|i: int| 0 <= i < fields.len() ==> (#[trigger] json_u64_value(fields[i].1)) is Some
}

/// The `(token, id)` entries of a vocabulary object, the listed special
/// tokens left out.
pub open spec fn hf_entries(
    fields: Seq<(Seq<char>, Seq<char>)>,
    sp: Seq<(Seq<char>, u64)>,
) -> Seq<(Seq<char>, u64)>
    decreases fields.len(),
{
    if fields.len() == 0 {
        Seq::empty()
    } else {
        let es = hf_entries(fields.drop_last(), sp);
        let f = fields.last();
        match json_u64_value(f.1) {
            Some(d) => if sp.contains((f.0, d)) {
                es
            } else {
                es.push((f.0, d))
            },
            None => es,
        }
    }
}

/// The tokens of entries placed at their ids.
pub open spec fn vocab_by_ids(es: Seq<(Seq<char>, u64)>) -> Seq<Seq<char>> {
    Seq::new(es.len(), |k: int| es[choose|i: int| 0 <= i < es.len() && es[i].1 == k].0)
}

/// The vocabulary and rules of a HuggingFace document, from the members of
/// its vocabulary object, its special tokens and the text of its rules.
pub open spec fn hf_from_parts(
    fields: Seq<(Seq<char>, Seq<char>)>,
    sp: Seq<(Seq<char>, u64)>,
    mt: Seq<char>,
) -> Option<(Seq<Seq<char>>, Seq<(Seq<char>, Seq<char>)>)> {
    let es = hf_entries(fields, sp);
    if ids_parse(fields) && ids_fill(es) {
        match json_rules(mt, true) {
            Some(rules) => Some((vocab_by_ids(es), rules)),
            None => None,
        }
    } else {
        None
    }
}

/// The vocabulary and rules that a HuggingFace `tokenizer.json` document
/// holds: the entries of the object `model.vocab` (the special tokens of
/// `added_tokens` left out) must number the tokens 0, 1, 2, ..., and
/// `model.merges` must be a list of rules, each a pair of tokens or one
/// string with the two tokens split by a space.
pub open spec fn hf_model(text: Seq<char>) -> Option<(Seq<Seq<char>>, Seq<(Seq<char>, Seq<char>)>)> {
    match json_object_members(text) {
        Some(doc) => match member(doc, "model"@) {
            Some(model) => match json_object_members(model) {
                Some(mm) => match (member(mm, "vocab"@), member(mm, "merges"@)) {
                    (Some(vt), Some(mt)) => match json_object_members(vt) {
                        Some(fields) => hf_from_parts(fields, hf_specials(doc), mt),
                        None => None,
                    },
                    _ => None,
                },
                None => None,
            },
            None => None,
        },
        None => None,
    }
}

/// The text of each `(token, id)` entry.
pub open spec fn entry_views(e: Seq<(String, u64)>) -> Seq<(Seq<char>, u64)> {
    Seq::new(e.len(), |i: int| (e[i].0@, e[i].1))
}

proof fn lemma_ids_fill_views(e: Seq<(String, u64)>)
    ensures
        ids_fill(e) == ids_fill(entry_views(e)),
{
    let ev = entry_views(e);
    assert forall|k: int| names_id(e, k) == names_id(ev, k) by {
        if names_id(e, k) {
            let i = choose|i: int| 0 <= i < e.len() && e[i].1 == k;
            assert(ev[i].1 == k);
        }
        if names_id(ev, k) {
            let i = choose|i: int| 0 <= i < ev.len() && ev[i].1 == k;
            assert(e[i].1 == k);
        }
    }
    if ids_fill(e) {
        assert forall|i: int, j: int| 0 <= i < j < ev.len() implies #[trigger] ev[i].1 != #[trigger] ev[j].1 by {
            assert(e[i].1 != e[j].1);
        }
        assert forall|i: int| 0 <= i < ev.len() implies (#[trigger] ev[i].1) < ev.len() by {
            assert(e[i].1 < e.len());
        }
        assert forall|k: int| 0 <= k < ev.len() implies #[trigger] names_id(ev, k) by {
            assert(names_id(e, k));
        }
    }
    if ids_fill(ev) {
        assert forall|i: int, j: int| 0 <= i < j < e.len() implies #[trigger] e[i].1 != #[trigger] e[j].1 by {
            assert(ev[i].1 != ev[j].1);
        }
        assert forall|i: int| 0 <= i < e.len() implies (#[trigger] e[i].1) < e.len() by {
            assert(ev[i].1 < ev.len());
        }
        assert forall|k: int| 0 <= k < e.len() implies #[trigger] names_id(e, k) by {
            assert(names_id(ev, k));
        }
    }
}

proof fn lemma_vocab_by_ids(e: Seq<(String, u64)>, v: Seq<String>)
    requires
        ids_fill(e),
        v.len() == e.len(),
        forall|i: int| 0 <= i < e.len() ==> #[trigger] v[e[i].1 as int]@ == e[i].0@,
    ensures
        strs(v) == vocab_by_ids(entry_views(e)),
{
    let ev = entry_views(e);
    assert forall|k: int| 0 <= k < v.len() implies #[trigger] strs(v)[k] == vocab_by_ids(ev)[k] by {
        assert(names_id(e, k));
        let i = choose|i: int| 0 <= i < e.len() && e[i].1 == k;
        assert(ev[i].1 == k);
        let j = choose|j: int| 0 <= j < ev.len() && ev[j].1 == k;
        if i < j {
            assert(e[i].1 != e[j].1);
        } else if j < i {
            assert(e[j].1 != e[i].1);
        }
        assert(v[e[i].1 as int]@ == e[i].0@);
    }
    assert(strs(v) =~= vocab_by_ids(ev));
}

/// The special token that the JSON text `item` lists, if any.
fn special_token_of(item: &String) -> (r: Option<(String, u64)>)
    ensures
        match r {
            Some(p) => special_token(item@) == Some((p.0@, p.1)),
            None => special_token(item@) is None,
        },
{
    let ms = match json_members(item.as_str()) {
        Ok(ms) => ms,
        Err(_) => {
            return None;
        },
    };
    let content_key = "content".to_owned();
    let id_key = "id".to_owned();
    let c = match member_text(&ms, &content_key) {
        Some(c) => c,
        None => {
            return None;
        },
    };
    let d = match member_text(&ms, &id_key) {
        Some(d) => d,
        None => {
            return None;
        },
    };
    let c = match json_str(c.as_str()) {
        Ok(c) => c,
        Err(_) => {
            return None;
        },
    };
    let d = match json_uint(d.as_str()) {
        Ok(d) => d,
        Err(_) => {
            return None;
        },
    };
    Some((c, d))
}

/// A model read from the HuggingFace `tokenizer.json` shape: the tokens of
/// `model.vocab` placed at their ids (the entries listed under
/// `added_tokens` left out), and the rules of `model.merges`, each a pair
/// of tokens or one string with the two tokens split by a space.
pub(crate) fn read_hf_json(json: &str) -> (r: Result<
    (Vec<String>, Vec<(String, String)>),
    serde_json::Error,
>)
    ensures
        r is Ok <==> hf_model(json@) is Some,
        r matches Ok(p) ==> Some((strs(p.0@), str_pairs(p.1@))) == hf_model(json@),
{
    let doc = json_members(json)?;
    let model_key = "model".to_owned();
    let vocab_key = "vocab".to_owned();
    let merges_key = "merges".to_owned();
    let added_key = "added_tokens".to_owned();
    let model_t = match member_text(&doc, &model_key) {
        Some(x) => x,
        None => {
            return Err(json_error("missing field `model`"));
        },
    };
    let mm = json_members(model_t.as_str())?;
    let vocab_t = match member_text(&mm, &vocab_key) {
        Some(x) => x,
        None => {
            return Err(json_error("missing field `model.vocab`"));
        },
    };
    let merges_t = match member_text(&mm, &merges_key) {
        Some(x) => x,
        None => {
            return Err(json_error("missing field `model.merges`"));
        },
    };
    let fields = match json_members(vocab_t.as_str()) {
        Ok(f) => f,
        Err(_) => {
            return Err(json_error("invalid type: `model.vocab` must be an object"));
        },
    };
    let ghost dv = str_pairs(doc@);
    let ghost fs = str_pairs(fields@);
    // Special tokens added on top of the learned vocabulary.
    let mut special: Vec<(String, u64)> = Vec::new();
    match member_text(&doc, &added_key) {
        Some(list) => match json_items(list.as_str()) {
            Ok(items) => {
                let ghost its = strs(items@);
                let mut i: usize = 0;
                while i < items.len()
                    invariant
                        0 <= i <= items@.len(),
                        its == strs(items@),
                        entry_views(special@) == specials_upto(its, i as nat),
                    decreases items@.len() - i,
                {
                    let ghost before = entry_views(special@);
                    match special_token_of(&items[i]) {
                        Some(p) => {
                            special.push(p);
                            assert(entry_views(special@) =~= before.push((p.0@, p.1)));
                        },
                        None => {},
                    }
                    i = i + 1;
                }
            },
            Err(_) => {},
        },
        None => {},
    }
    let ghost sp = entry_views(special@);
    assert(sp == hf_specials(dv));
    assert(hf_model(json@) == hf_from_parts(fs, sp, merges_t@));
    let mut entries: Vec<(String, u64)> = Vec::new();
    let mut i: usize = 0;
    assert(fs.take(0) =~= Seq::<(Seq<char>, Seq<char>)>::empty());
    assert(entry_views(entries@) =~= Seq::<(Seq<char>, u64)>::empty());
    while i < fields.len()
        invariant
            0 <= i <= fields@.len(),
            fs == str_pairs(fields@),
            sp == entry_views(special@),
            hf_model(json@) == hf_from_parts(fs, sp, merges_t@),
            entry_views(entries@) == hf_entries(fs.take(i as int), sp),
            forall|j: int| 0 <= j < i ==> (#[trigger] json_u64_value(fs[j].1)) is Some,
        decreases fields@.len() - i,
    {
        let id = match json_uint(fields[i].1.as_str()) {
            Ok(d) => d,
            Err(e) => {
                assert(json_u64_value(fs[i as int].1) is None);
                return Err(e);
            },
        };
        let mut is_special = false;
        let mut k: usize = 0;
        while k < special.len()
            invariant
                0 <= k <= special@.len(),
                i < fields@.len(),
                fs == str_pairs(fields@),
                sp == entry_views(special@),
                is_special <==> exists|kk: int| 0 <= kk < k && #[trigger] sp[kk] == (fs[i as int].0, id),
            decreases special@.len() - k,
        {
            if special[k].1 == id && special[k].0 == fields[i].0 {
                is_special = true;
            }
            assert(sp[k as int] == (special@[k as int].0@, special@[k as int].1));
            k = k + 1;
        }
        let ghost pre = fs.take(i + 1);
        assert(pre.drop_last() =~= fs.take(i as int));
        assert(pre.last() == fs[i as int]);
        let ghost before = entry_views(entries@);
        if !is_special {
            entries.push((fields[i].0.clone(), id));
            assert(entry_views(entries@) =~= before.push((fs[i as int].0, id)));
        } else {
            assert(sp.contains((fs[i as int].0, id)));
        }
        i = i + 1;
    }
    assert(fs.take(i as int) =~= fs);
    let vocab = match vocab_from_ids(&entries) {
        Some(v) => v,
        None => {
            proof {
                lemma_ids_fill_views(entries@);
            }
            return Err(json_error("invalid vocab: ids must number the tokens 0, 1, 2, ..."));
        },
    };
    proof {
        lemma_ids_fill_views(entries@);
        lemma_vocab_by_ids(entries@, vocab@);
    }
    let merges = read_pairs(merges_t.as_str(), true)?;
    Ok((vocab, merges))
}

} // verus!
