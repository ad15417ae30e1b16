//! Loading game data from JSON, and a registry of game data keyed by string
//! identifiers.

use serde::de::DeserializeOwned;
use vstd::prelude::*;

use crate::text::push_str;

verus! {

// ---------------------------------------------------------------------------
// JSON through serde_json
// ---------------------------------------------------------------------------

/// A parsed JSON document.
#[verifier::external_type_specification]
#[verifier::external_body]
pub struct ExJsonValue(serde_json::Value);

/// A serde_json error.
#[verifier::external_type_specification]
#[verifier::external_body]
pub struct ExJsonError(serde_json::Error);

/// The values of a JSON text that is an array, or `None` when the text is not
/// a JSON array, as serde_json parses it.
pub uninterp spec fn json_array_items(json: Seq<char>) -> Option<Seq<serde_json::Value>>;

/// The member `key` of a JSON object, or `None` when the value is not an
/// object or has no such member.
pub uninterp spec fn json_member(value: serde_json::Value, key: Seq<char>) -> Option<serde_json::Value>;

/// The text of a JSON string, or `None` when the value is not a string.
pub uninterp spec fn json_string_text(value: serde_json::Value) -> Option<Seq<char>>;

/// The identifier of an item: its member `key`, when that is a string.
pub open spec fn json_id(value: serde_json::Value, key: Seq<char>) -> Option<Seq<char>> {
    match json_member(value, key) {
        Some(m) => json_string_text(m),
        None => None,
    }
}

/// `serde_json::from_str::<Vec<Value>>`: parses a JSON array. Claims that
/// the outcome depends on the text alone, as the name `json_array_items`; the
/// error's content is left undescribed.
#[verifier::external_body]
fn parse_json_array(json: &str) -> (res: Result<Vec<serde_json::Value>, serde_json::Error>)
    ensures
        match res {
            Ok(items) => json_array_items(json@) == Some(items@),
            Err(_) => json_array_items(json@) is None,
        },
{
    serde_json::from_str(json)
}

/// `serde_json::Value::get` with a string key, cloning the member found.
/// Claims the result is the name `json_member` of the value and key.
#[verifier::external_body]
pub(crate) fn value_member(value: &serde_json::Value, key: &str) -> (res: Option<serde_json::Value>)
    ensures
        res == json_member(*value, key@),
{
    value.get(key).cloned()
}

/// `serde_json::Value::as_str`, copied into a `String`. Claims the result is
/// the name `json_string_text` of the value.
#[verifier::external_body]
fn value_string(value: &serde_json::Value) -> (res: Option<String>)
    ensures
        match res {
            Some(s) => json_string_text(*value) == Some(s@),
            None => json_string_text(*value) is None,
        },
{
    value.as_str().map(|s| s.to_string())
}

/// `serde_json::from_value::<T>`: converts a parsed value into `T` with
/// `T`'s `Deserialize` impl. Nothing is claimed: the outcome depends on that
/// impl, which is the caller's.
#[verifier::external_body]
pub(crate) fn value_into<T: DeserializeOwned>(value: serde_json::Value) -> (res: Result<T, serde_json::Error>) {
    serde_json::from_value(value)
}

/// `serde_json::from_str::<T>`: parses a JSON text into `T` with `T`'s
/// `Deserialize` impl. Nothing is claimed: the outcome depends on that impl.
#[verifier::external_body]
pub(crate) fn parse_json_as<T: DeserializeOwned>(json: &str) -> (res: Result<T, serde_json::Error>) {
    serde_json::from_str(json)
}

/// The description serde_json gives of an error: its `Display` text.
pub uninterp spec fn json_error_text(e: serde_json::Error) -> Seq<char>;

/// The `Display` text of a serde_json error, through `ToString`. Claims the
/// text is the name `json_error_text` of the error.
#[verifier::external_body]
pub(crate) fn error_text(e: &serde_json::Error) -> (res: String)
    ensures
        res@ == json_error_text(*e),
{
    e.to_string()
}

/// The message for a document that does not parse: the prefix followed by
/// serde_json's description of the error.
pub open spec fn parse_error_text(e: serde_json::Error) -> Seq<char> {
    "JSON parse error: "@ + json_error_text(e)
}

/// The message for a document that does not parse, from its error.
pub(crate) fn parse_error_message(e: &serde_json::Error) -> (res: String)
    ensures
        res@ == parse_error_text(*e),
        is_parse_error(res@),
{
    let detail = error_text(e);
    let mut msg = String::new();
    push_str(&mut msg, "JSON parse error: ");
    push_str(&mut msg, detail.as_str());
    proof {
        assert(msg@ == "JSON parse error: "@ + detail@);
    }
    msg
}

/// The outcome of parsing a document: the parsed value, or the parse-error
/// message for serde_json's error.
pub fn json_outcome<T>(parsed: Result<T, serde_json::Error>) -> (res: Result<T, String>)
    ensures
        match parsed {
            Ok(v) => res == Ok::<T, String>(v),
            Err(e) => res matches Err(msg) && msg@ == parse_error_text(e),
        },
{
    match parsed {
        Ok(v) => Ok(v),
        Err(e) => Err(parse_error_message(&e)),
    }
}

/// The message for a document that does not parse: the prefix below
/// followed by serde_json's description.
pub open spec fn is_parse_error(msg: Seq<char>) -> bool {
    exists|detail: Seq<char>| msg == "JSON parse error: "@ + detail
}

/// The message for an item without a string identifier.
pub open spec fn missing_id_message(id_field: Seq<char>) -> Seq<char> {
    "Missing or invalid '"@ + id_field + "' field"@
}

/// The message for an item that does not convert: names the item, followed
/// by serde_json's description.
pub open spec fn is_item_error(msg: Seq<char>, id: Seq<char>) -> bool {
    exists|detail: Seq<char>| msg == "Failed to parse item '"@ + id + "': "@ + detail
}

/// Parse JSON text into `T`, describing a failure as a parse error.
pub fn load_embedded_json<T: DeserializeOwned>(json_str: &str) -> (res: Result<T, String>)
    ensures
        res matches Err(msg) ==> is_parse_error(msg@),
{
    json_outcome(parse_json_as(json_str))
}

/// Item `i` is the first one whose loading failed, with message `msg`: the
/// items before it have string identifiers, and it has none, or it did not
/// convert.
pub open spec fn first_failure(items: Seq<serde_json::Value>, id_field: Seq<char>, msg: Seq<char>, i: int) -> bool {
    &&& 0 <= i < items.len()
    &&& forall|j: int| 0 <= j < i ==> json_id(#[trigger] items[j], id_field) is Some
    &&& match json_id(items[i], id_field) {
        None => msg == missing_id_message(id_field),
        Some(id) => is_item_error(msg, id),
    }
}

/// The string identifiers of the items, each once, in the order they first
/// appear; items without one are passed over.
pub open spec fn distinct_ids(items: Seq<serde_json::Value>, id_field: Seq<char>) -> Seq<Seq<char>>
    decreases items.len(),
{
    if items.len() == 0 {
        seq![]
    } else {
        let ids = distinct_ids(items.drop_last(), id_field);
        match json_id(items.last(), id_field) {
            Some(k) => if ids.contains(k) {
                ids
            } else {
                ids.push(k)
            },
            None => ids,
        }
    }
}

/// The identifiers of entries, in order.
pub open spec fn entry_keys<T>(entries: Seq<(String, T)>) -> Seq<Seq<char>> {
    entries.map_values(|e: (String, T)| e.0@)
}

/// Keying succeeded with `entries`: every item has a string identifier, and
/// the entries hold each identifier once, in the order of its first item.
/// (The item an entry holds is the one converted from the last item with
/// its identifier: a later item replaces an earlier one.)
pub open spec fn keyed_entries<T>(items: Seq<serde_json::Value>, id_field: Seq<char>, entries: Seq<(String, T)>) -> bool {
    &&& forall|i: int| 0 <= i < items.len() ==> json_id(#[trigger] items[i], id_field) is Some
    &&& entry_keys(entries) == distinct_ids(items, id_field)
}

/// The outcome of keying parsed items by `id_field`: the keyed entries, or
/// the message for the first item that has no string identifier or does not
/// convert.
pub open spec fn keyed_by_id<T>(
    items: Seq<serde_json::Value>,
    id_field: Seq<char>,
    res: Result<Vec<(String, T)>, String>,
) -> bool {
    match res {
        Ok(entries) => keyed_entries(items, id_field, entries@),
        Err(msg) => exists|i: int| #[trigger] first_failure(items, id_field, msg@, i),
    }
}

/// Loading succeeded with `entries`: the document is an array and the
/// entries pair each item's string identifier, in order, with the item.
pub open spec fn loaded_entries<T>(json: Seq<char>, id_field: Seq<char>, entries: Seq<(String, T)>) -> bool {
    match json_array_items(json) {
        Some(items) => keyed_entries(items, id_field, entries),
        None => false,
    }
}

/// Loading failed with message `msg`, which describes the first problem met.
pub open spec fn load_failure(json: Seq<char>, id_field: Seq<char>, msg: Seq<char>) -> bool {
    match json_array_items(json) {
        None => is_parse_error(msg),
        Some(items) => exists|i: int| #[trigger] first_failure(items, id_field, msg, i),
    }
}

/// The outcome of loading an array of items keyed by `id_field`.
pub open spec fn loaded_by_id<T>(json: Seq<char>, id_field: Seq<char>, res: Result<Vec<(String, T)>, String>) -> bool {
    match res {
        Ok(entries) => loaded_entries(json, id_field, entries@),
        Err(msg) => load_failure(json, id_field, msg@),
    }
}

proof fn lemma_failure_keyed<T>(items: Seq<serde_json::Value>, id_field: Seq<char>, msg: String, i: int)
    requires
        first_failure(items, id_field, msg@, i),
    ensures
        keyed_by_id(items, id_field, Err::<Vec<(String, T)>, String>(msg)),
{
    let r = Err::<Vec<(String, T)>, String>(msg);
    assert(r->Err_0@ == msg@);
    assert(keyed_by_id(items, id_field, r));
}

/// `item` is what converting `value` with `serde_json::from_value` gave.
pub closed spec fn converted_from<T: DeserializeOwned>(value: serde_json::Value, item: T) -> bool {
    call_ensures(value_into::<T>, (value,), Ok::<T, serde_json::Error>(item))
}

/// Item `i` is the last of the first `upto` items whose identifier is `k`.
pub open spec fn last_with_id(items: Seq<serde_json::Value>, id_field: Seq<char>, k: Seq<char>, i: int, upto: int) -> bool {
    &&& 0 <= i < upto <= items.len()
    &&& json_id(items[i], id_field) == Some(k)
    &&& forall|j: int| i < j < upto ==> json_id(#[trigger] items[j], id_field) != Some(k)
}

/// The entry holds the item converted from the last of the first `upto`
/// items that carries the entry's identifier.
pub open spec fn entry_from_last<T>(
    items: Seq<serde_json::Value>,
    id_field: Seq<char>,
    entry: (String, T),
    upto: int,
    conv: spec_fn(serde_json::Value, T) -> bool,
) -> bool {
    exists|i: int| #[trigger] last_with_id(items, id_field, entry.0@, i, upto) && conv(items[i], entry.1)
}

/// Each entry holds the item converted from the last of the first `upto`
/// items that carries the entry's identifier.
pub open spec fn entries_from_last<T>(
    items: Seq<serde_json::Value>,
    id_field: Seq<char>,
    entries: Seq<(String, T)>,
    upto: int,
    conv: spec_fn(serde_json::Value, T) -> bool,
) -> bool {
    forall|e: int| 0 <= e < entries.len() ==> entry_from_last(items, id_field, #[trigger] entries[e], upto, conv)
}

/// The document is an array, and each entry holds the item converted from
/// its last element that carries the entry's identifier.
pub open spec fn loaded_from_last<T: DeserializeOwned>(json: Seq<char>, id_field: Seq<char>, entries: Seq<(String, T)>) -> bool {
    match json_array_items(json) {
        Some(items) => entries_from_last(items, id_field, entries, items.len() as int, |v: serde_json::Value, t: T| converted_from(v, t)),
        None => false,
    }
}

/// Loading keys each identifier once and misses none: the identifiers of
/// the entries are distinct, and an identifier is among them exactly when
/// some item carries it.
pub proof fn law_each_id_once(items: Seq<serde_json::Value>, id_field: Seq<char>)
    ensures
        distinct_ids(items, id_field).no_duplicates(),
        forall|k: Seq<char>|
            #[trigger] distinct_ids(items, id_field).contains(k) <==> exists|i: int|
                0 <= i < items.len() && json_id(#[trigger] items[i], id_field) == Some(k),
    decreases items.len(),
{
    lemma_distinct_ids_unique(items, id_field);
    if items.len() > 0 {
        let init = items.drop_last();
        law_each_id_once(init, id_field);
        let ids = distinct_ids(init, id_field);
        assert forall|k: Seq<char>|
            #[trigger] distinct_ids(items, id_field).contains(k) <==> exists|i: int|
                0 <= i < items.len() && json_id(#[trigger] items[i], id_field) == Some(k) by {
            let r = distinct_ids(items, id_field);
            if r.contains(k) {
                if ids.contains(k) {
                    let i = choose|i: int| 0 <= i < init.len() && json_id(#[trigger] init[i], id_field) == Some(k);
                    assert(items[i] == init[i]);
                } else {
                    assert(json_id(items[items.len() - 1], id_field) == Some(k)) by {
                        let j = choose|j: int| 0 <= j < r.len() && r[j] == k;
                        if j < ids.len() {
                            assert(r[j] == ids[j]);
                        }
                    }
                }
            }
            if exists|i: int| 0 <= i < items.len() && json_id(#[trigger] items[i], id_field) == Some(k) {
                let i = choose|i: int| 0 <= i < items.len() && json_id(#[trigger] items[i], id_field) == Some(k);
                if i < init.len() {
                    assert(init[i] == items[i]);
                    assert(ids.contains(k));
                    let j = choose|j: int| 0 <= j < ids.len() && ids[j] == k;
                    if let Some(k2) = json_id(items.last(), id_field) {
                        if !ids.contains(k2) {
                            assert(ids.push(k2)[j] == k);
                        }
                    }
                } else {
                    if ids.contains(k) {
                        let j = choose|j: int| 0 <= j < ids.len() && ids[j] == k;
                    } else {
                        assert(ids.push(k)[ids.len() as int] == k);
                    }
                }
            }
        }
    }
}

/// Identifiers listed once each have no repeats.
proof fn lemma_distinct_ids_unique(items: Seq<serde_json::Value>, id_field: Seq<char>)
    ensures
        distinct_ids(items, id_field).no_duplicates(),
    decreases items.len(),
{
    if items.len() > 0 {
        lemma_distinct_ids_unique(items.drop_last(), id_field);
        let ids = distinct_ids(items.drop_last(), id_field);
        if let Some(k) = json_id(items.last(), id_field) {
            if !ids.contains(k) {
                let n = ids.push(k);
                assert forall|a: int, b: int| 0 <= a < b < n.len() implies n[a] != n[b] by {
                    if b == ids.len() {
                        assert(n[a] == ids[a]);
                    }
                }
            }
        }
    }
}

/// Key parsed JSON items by their string member `id_field`, converting each
/// item into `T`, in the order of the items; an item whose identifier came
/// before replaces the earlier one's entry. Stops at the first item without
/// a string identifier, or the first that does not convert.
pub fn items_by_id<T: DeserializeOwned>(items: Vec<serde_json::Value>, id_field: &str) -> (res: Result<
    Vec<(String, T)>,
    String,
>)
    ensures
        keyed_by_id(items@, id_field@, res),
        res matches Ok(entries) ==> entries_from_last(items@, id_field@, entries@, items@.len() as int, |v: serde_json::Value, t: T| converted_from(v, t)),
{
    let ghost all = items@;
    let mut entries: Vec<(String, T)> = Vec::new();
    let mut pending = items;
    let mut rest: Vec<serde_json::Value> = Vec::new();
    let n = pending.len();
    while pending.len() > 0
        invariant
            all == items@,
            n == all.len(),
            pending@.len() + rest@.len() == n,
            pending@ == all.take(pending@.len() as int),
            forall|j: int| 0 <= j < rest@.len() ==> #[trigger] rest@[j] == all[n - 1 - j],
        decreases pending@.len(),
    {
        let ghost before = pending@;
        let v = pending.pop().unwrap();
        proof {
            assert(v == all[before.len() - 1]);
            assert(pending@ =~= all.take(pending@.len() as int));
        }
        rest.push(v);
    }
    let mut i: usize = 0;
    while i < n
        invariant
            all == items@,
            n == all.len(),
            i <= n,
            rest@.len() == n - i,
            forall|j: int| 0 <= j < n - i ==> #[trigger] rest@[j] == all[n - 1 - j],
            forall|j: int| 0 <= j < i ==> json_id(#[trigger] all[j], id_field@) is Some,
            entry_keys(entries@) == distinct_ids(all.take(i as int), id_field@),
            entries_from_last(all, id_field@, entries@, i as int, |v: serde_json::Value, t: T| converted_from(v, t)),
        decreases n - i,
    {
        let value = rest.pop().unwrap();
        let ghost gv = value;
        proof {
            assert(value == all[i as int]);
        }
        let id = match value_member(&value, id_field) {
            Some(m) => value_string(&m),
            None => None,
        };
        let id = match id {
            Some(id) => id,
            None => {
                let mut msg = String::new();
                push_str(&mut msg, "Missing or invalid '");
                push_str(&mut msg, id_field);
                push_str(&mut msg, "' field");
                proof {
                    assert(msg@ == missing_id_message(id_field@));
                    assert(json_id(all[i as int], id_field@) is None);
                    assert(first_failure(all, id_field@, msg@, i as int));
                    lemma_failure_keyed::<T>(all, id_field@, msg, i as int);
                }
                return Err(msg);
            },
        };
        match value_into(value) {
            Ok(item) => {
                let ghost keys = entry_keys(entries@);
                proof {
                    assert(all.take(i + 1).drop_last() =~= all.take(i as int));
                    assert(all.take(i + 1).last() == all[i as int]);
                    assert(json_id(all[i as int], id_field@) == Some(id@));
                }
                let mut j: usize = 0;
                let mut found = false;
                while j < entries.len()
                    invariant_except_break
                        !found,
                    invariant
                        keys == entry_keys(entries@),
                        j <= entries@.len(),
                        forall|jj: int| 0 <= jj < j ==> keys[jj] != id@,
                    ensures
                        found ==> j < entries@.len() && keys[j as int] == id@,
                        !found ==> j == entries@.len(),
                    decreases entries.len() - j,
                {
                    if entries[j].0 == id {
                        proof {
                            assert(keys[j as int] == entries@[j as int].0@);
                        }
                        found = true;
                        break;
                    }
                    j += 1;
                }
                let ghost gid = id@;
                let ghost gitem = item;
                proof {
                    assert(converted_from(all[i as int], gitem));
                }
                if found {
                    let ghost old_entries = entries@;
                    entries.set(j, (id, item));
                    proof {
                        assert(keys[j as int] == id@);
                        assert(keys.contains(id@));
                        assert(entry_keys(entries@) =~= keys);
                        lemma_distinct_ids_unique(all.take(i as int), id_field@);
                        assert forall|e: int| 0 <= e < entries@.len() implies entry_from_last(
                            all,
                            id_field@,
                            #[trigger] entries@[e],
                            i + 1,
                            |v: serde_json::Value, t: T| converted_from(v, t),
                        ) by {
                            if e == j {
                                assert(last_with_id(all, id_field@, entries@[e].0@, i as int, i + 1));
                            } else {
                                assert(entries@[e] == old_entries[e]);
                                assert(keys[e] != keys[j as int]);
                                assert(entry_from_last(all, id_field@, old_entries[e], i as int, |v: serde_json::Value, t: T| converted_from(v, t)));
                                let ie = choose|ii: int|
                                    #[trigger] last_with_id(all, id_field@, old_entries[e].0@, ii, i as int)
                                        && converted_from(all[ii], old_entries[e].1);
                                assert(last_with_id(all, id_field@, entries@[e].0@, ie, i + 1));
                            }
                        }
                        assert(entries_from_last(all, id_field@, entries@, i + 1, |v: serde_json::Value, t: T| converted_from(v, t)));
                    }
                } else {
                    let ghost old_entries = entries@;
                    entries.push((id, item));
                    proof {
                        assert(!keys.contains(id@)) by {
                            if keys.contains(id@) {
                                let jj = choose|jj: int| 0 <= jj < keys.len() && keys[jj] == id@;
                                assert(keys[jj] != id@);
                            }
                        }
                        assert(entry_keys(entries@) =~= keys.push(id@));
                        assert forall|e: int| 0 <= e < entries@.len() implies entry_from_last(
                            all,
                            id_field@,
                            #[trigger] entries@[e],
                            i + 1,
                            |v: serde_json::Value, t: T| converted_from(v, t),
                        ) by {
                            if e == old_entries.len() {
                                assert(last_with_id(all, id_field@, entries@[e].0@, i as int, i + 1));
                            } else {
                                assert(entries@[e] == old_entries[e]);
                                assert(keys[e] == old_entries[e].0@);
                                assert(entry_from_last(all, id_field@, old_entries[e], i as int, |v: serde_json::Value, t: T| converted_from(v, t)));
                                let ie = choose|ii: int|
                                    #[trigger] last_with_id(all, id_field@, old_entries[e].0@, ii, i as int)
                                        && converted_from(all[ii], old_entries[e].1);
                                assert(last_with_id(all, id_field@, entries@[e].0@, ie, i + 1));
                            }
                        }
                        assert(entries_from_last(all, id_field@, entries@, i + 1, |v: serde_json::Value, t: T| converted_from(v, t)));
                    }
                }
            },
            Err(e) => {
                let detail = error_text(&e);
                let mut msg = String::new();
                push_str(&mut msg, "Failed to parse item '");
                push_str(&mut msg, id.as_str());
                push_str(&mut msg, "': ");
                push_str(&mut msg, detail.as_str());
                proof {
                    assert(msg@ == "Failed to parse item '"@ + id@ + "': "@ + detail@);
                    assert(json_id(all[i as int], id_field@) == Some(id@));
                    assert(first_failure(all, id_field@, msg@, i as int));
                    lemma_failure_keyed::<T>(all, id_field@, msg, i as int);
                }
                return Err(msg);
            },
        }
        i += 1;
    }
    Ok(entries)
}

/// Load an array of JSON objects, keying each by its string member
/// `id_field`: one entry per identifier, in the order identifiers first
/// appear, holding the last item with that identifier.
pub fn load_embedded_json_map<T: DeserializeOwned>(json_str: &str, id_field: &str) -> (res: Result<
    Vec<(String, T)>,
    String,
>)
    ensures
        loaded_by_id(json_str@, id_field@, res),
        res matches Ok(entries) ==> loaded_from_last(json_str@, id_field@, entries@),
{
    let items = match parse_json_array(json_str) {
        Ok(items) => items,
        Err(e) => {
            return Err(parse_error_message(&e));
        },
    };
    let ghost all = items@;
    let res = items_by_id(items, id_field);
    proof {
        assert(json_array_items(json_str@) == Some(all));
        if res is Err {
            let msg = res->Err_0;
            let i = choose|i: int| #[trigger] first_failure(all, id_field@, msg@, i);
            assert(first_failure(json_array_items(json_str@)->Some_0, id_field@, msg@, i));
        }
    }
    res
}

/// The map that inserting `entries` in order into an empty map produces:
/// a later entry with the same key replaces an earlier one.
pub open spec fn entries_map<T>(entries: Seq<(String, T)>) -> Map<Seq<char>, T>
    decreases entries.len(),
{
    if entries.len() == 0 {
        Map::empty()
    } else {
        entries_map(entries.drop_last()).insert(entries.last().0@, entries.last().1)
    }
}

/// No two entries share a key.
pub open spec fn distinct_keys<T>(entries: Seq<(String, T)>) -> bool {
    forall|i: int, j: int| 0 <= i < j < entries.len() ==> entries[i].0@ != entries[j].0@
}

proof fn lemma_entries_lookup<T>(entries: Seq<(String, T)>, k: Seq<char>)
    requires
        distinct_keys(entries),
    ensures
        entries_map(entries).contains_key(k) <==> exists|i: int| 0 <= i < entries.len() && #[trigger] entries[i].0@ == k,
        forall|i: int|
            0 <= i < entries.len() && #[trigger] entries[i].0@ == k ==> entries_map(entries)[k] == entries[i].1,
    decreases entries.len(),
{
    if entries.len() > 0 {
        let prefix = entries.drop_last();
        assert(distinct_keys(prefix)) by {
            assert forall|i: int, j: int| 0 <= i < j < prefix.len() implies prefix[i].0@ != prefix[j].0@ by {
                assert(prefix[i] == entries[i] && prefix[j] == entries[j]);
            }
        }
        lemma_entries_lookup(prefix, k);
        if entries_map(entries).contains_key(k) && entries.last().0@ != k {
            let i = choose|i: int| 0 <= i < prefix.len() && #[trigger] prefix[i].0@ == k;
            assert(entries[i] == prefix[i]);
        }
        if exists|i: int| 0 <= i < entries.len() && #[trigger] entries[i].0@ == k {
            let i = choose|i: int| 0 <= i < entries.len() && #[trigger] entries[i].0@ == k;
            if i < entries.len() - 1 {
                assert(prefix[i] == entries[i]);
            }
        }
        assert forall|i: int| 0 <= i < entries.len() && #[trigger] entries[i].0@ == k implies entries_map(
            entries,
        )[k] == entries[i].1 by {
            if i < entries.len() - 1 {
                assert(prefix[i] == entries[i]);
            }
        }
    }
}

proof fn lemma_entries_len<T>(entries: Seq<(String, T)>)
    requires
        distinct_keys(entries),
    ensures
        entries_map(entries).dom().finite(),
        entries_map(entries).dom().len() == entries.len(),
    decreases entries.len(),
{
    if entries.len() > 0 {
        let prefix = entries.drop_last();
        assert(distinct_keys(prefix)) by {
            assert forall|i: int, j: int| 0 <= i < j < prefix.len() implies prefix[i].0@ != prefix[j].0@ by {
                assert(prefix[i] == entries[i] && prefix[j] == entries[j]);
            }
        }
        lemma_entries_len(prefix);
        lemma_entries_lookup(prefix, entries.last().0@);
        if entries_map(prefix).contains_key(entries.last().0@) {
            let i = choose|i: int| 0 <= i < prefix.len() && #[trigger] prefix[i].0@ == entries.last().0@;
            assert(entries[i] == prefix[i]);
        }
    }
}

proof fn lemma_entries_update<T>(entries: Seq<(String, T)>, i: int, k: String, v: T)
    requires
        distinct_keys(entries),
        0 <= i < entries.len(),
        entries[i].0@ == k@,
    ensures
        distinct_keys(entries.update(i, (k, v))),
        entries_map(entries.update(i, (k, v))) == entries_map(entries).insert(k@, v),
{
    let s2 = entries.update(i, (k, v));
    assert(distinct_keys(s2)) by {
        assert forall|a: int, b: int| 0 <= a < b < s2.len() implies s2[a].0@ != s2[b].0@ by {
            if a != i && b != i {
                assert(s2[a] == entries[a] && s2[b] == entries[b]);
            } else if a == i {
                assert(s2[b] == entries[b]);
            } else {
                assert(s2[a] == entries[a]);
            }
        }
    }
    lemma_entries_lookup(entries, k@);
    lemma_entries_lookup(s2, k@);
    assert forall|key: Seq<char>| #[trigger] entries_map(s2).contains_key(key) == entries_map(entries).insert(
        k@,
        v,
    ).contains_key(key) by {
        lemma_entries_lookup(entries, key);
        lemma_entries_lookup(s2, key);
        if key != k@ {
            if exists|j: int| 0 <= j < s2.len() && #[trigger] s2[j].0@ == key {
                let j = choose|j: int| 0 <= j < s2.len() && #[trigger] s2[j].0@ == key;
                assert(entries[j] == s2[j]);
            }
            if exists|j: int| 0 <= j < entries.len() && #[trigger] entries[j].0@ == key {
                let j = choose|j: int| 0 <= j < entries.len() && #[trigger] entries[j].0@ == key;
                assert(entries[j] == s2[j]);
            }
        } else {
            assert(s2[i].0@ == key);
        }
    }
    assert forall|key: Seq<char>| #[trigger] entries_map(s2).contains_key(key) implies entries_map(s2)[key]
        == entries_map(entries).insert(k@, v)[key] by {
        lemma_entries_lookup(entries, key);
        lemma_entries_lookup(s2, key);
        if key == k@ {
            assert(s2[i].0@ == key);
        } else {
            let j = choose|j: int| 0 <= j < s2.len() && #[trigger] s2[j].0@ == key;
            assert(entries[j] == s2[j]);
        }
    }
    assert(entries_map(s2) =~= entries_map(entries).insert(k@, v));
}

proof fn lemma_entries_remove<T>(entries: Seq<(String, T)>, i: int)
    requires
        distinct_keys(entries),
        0 <= i < entries.len(),
    ensures
        distinct_keys(entries.remove(i)),
        entries_map(entries.remove(i)) == entries_map(entries).remove(entries[i].0@),
{
    let s2 = entries.remove(i);
    let k = entries[i].0@;
    assert forall|j: int| 0 <= j < s2.len() implies #[trigger] s2[j] == (if j < i { entries[j] } else { entries[j + 1] }) by {
    }
    assert(distinct_keys(s2)) by {
        assert forall|a: int, b: int| 0 <= a < b < s2.len() implies s2[a].0@ != s2[b].0@ by {
            let a2 = if a < i { a } else { a + 1 };
            let b2 = if b < i { b } else { b + 1 };
            assert(s2[a] == entries[a2] && s2[b] == entries[b2]);
        }
    }
    assert forall|key: Seq<char>| #[trigger] entries_map(s2).contains_key(key) == entries_map(entries).remove(
        k,
    ).contains_key(key) by {
        lemma_entries_lookup(entries, key);
        lemma_entries_lookup(s2, key);
        if exists|j: int| 0 <= j < s2.len() && #[trigger] s2[j].0@ == key {
            let j = choose|j: int| 0 <= j < s2.len() && #[trigger] s2[j].0@ == key;
            let j2 = if j < i { j } else { j + 1 };
            assert(entries[j2] == s2[j]);
        }
        if key != k && exists|j: int| 0 <= j < entries.len() && #[trigger] entries[j].0@ == key {
            let j = choose|j: int| 0 <= j < entries.len() && #[trigger] entries[j].0@ == key;
            let j2 = if j < i { j } else { j - 1 };
            assert(s2[j2] == entries[j]);
        }
    }
    assert forall|key: Seq<char>| #[trigger] entries_map(s2).contains_key(key) implies entries_map(s2)[key]
        == entries_map(entries).remove(k)[key] by {
        lemma_entries_lookup(entries, key);
        lemma_entries_lookup(s2, key);
        let j = choose|j: int| 0 <= j < s2.len() && #[trigger] s2[j].0@ == key;
        let j2 = if j < i { j } else { j + 1 };
        assert(entries[j2] == s2[j]);
    }
    assert(entries_map(s2) =~= entries_map(entries).remove(k));
}

/// Registry for game data that can be loaded from multiple sources.
#[derive(Debug)]
pub struct DataRegistry<T> {
    data: Vec<(String, T)>,
}

impl<T> DataRegistry<T> {
    #[verifier::type_invariant]
    spec fn keys_distinct(&self) -> bool {
        distinct_keys(self.data@)
    }
}

impl<T> View for DataRegistry<T> {
    type V = Map<Seq<char>, T>;

    /// The items by identifier.
    closed spec fn view(&self) -> Map<Seq<char>, T> {
        entries_map(self.data@)
    }
}

impl<T: Clone> DataRegistry<T> {
    /// Create an empty registry.
    pub fn new() -> (res: Self)
        ensures
            res@ == Map::<Seq<char>, T>::empty(),
    {
        DataRegistry { data: Vec::new() }
    }

    /// The position of the entry with identifier `id`.
    fn find(&self, id: &str) -> (res: Option<usize>)
        ensures
            match res {
                Some(i) => i < self.data@.len() && self.data@[i as int].0@ == id@,
                None => forall|i: int| 0 <= i < self.data@.len() ==> #[trigger] self.data@[i].0@ != id@,
            },
    {
        let target: String = id.to_owned();
        let mut i: usize = 0;
        while i < self.data.len()
            invariant
                i <= self.data@.len(),
                target@ == id@,
                forall|j: int| 0 <= j < i ==> #[trigger] self.data@[j].0@ != id@,
            decreases self.data@.len() - i,
        {
            if self.data[i].0 == target {
                return Some(i);
            }
            i += 1;
        }
        None
    }

    /// Create a registry from identifier and item pairs; a later pair
    /// replaces an earlier one with the same identifier.
    pub fn from_map(data: Vec<(String, T)>) -> (res: Self)
        ensures
            res@ == entries_map(data@),
    {
        let mut reg = Self::new();
        let mut rest = data;
        let ghost all = rest@;
        let n = rest.len();
        let mut items: Vec<(String, T)> = Vec::new();
        while rest.len() > 0
            invariant
                all.len() == n,
                rest@ + items@.reverse() == all,
            decreases rest@.len(),
        {
            let e = rest.pop().unwrap();
            items.push(e);
            proof {
                assert(rest@ + items@.reverse() =~= all);
            }
        }
        proof {
            assert(items@.reverse() =~= all);
        }
        while items.len() > 0
            invariant
                reg@ == entries_map(all.take(all.len() - items@.len())),
                items@.reverse() == all.skip(all.len() - items@.len()),
                items@.len() <= all.len(),
            decreases items@.len(),
        {
            let ghost before = items@;
            let (k, v) = items.pop().unwrap();
            proof {
                let m = all.len() - before.len();
                assert(before.reverse()[0] == before.last());
                assert(all.skip(m)[0] == all[m]);
                assert(all.take(m + 1).drop_last() =~= all.take(m));
                assert(items@.reverse() =~= all.skip(m + 1)) by {
                    assert forall|j: int| 0 <= j < items@.len() implies items@.reverse()[j] == all.skip(m + 1)[j] by {
                        assert(before.reverse()[j + 1] == all.skip(m)[j + 1]);
                    }
                }
            }
            reg.insert(k, v);
        }
        proof {
            assert(all.take(all.len() as int) =~= all);
        }
        reg
    }

    /// The item with identifier `id`.
    pub fn get(&self, id: &str) -> (res: Option<&T>)
        ensures
            match res {
                Some(v) => self@.contains_key(id@) && *v == self@[id@],
                None => !self@.contains_key(id@),
            },
    {
        proof {
            use_type_invariant(self);
            lemma_entries_lookup(self.data@, id@);
        }
        match self.find(id) {
            Some(i) => Some(&self.data[i].1),
            None => None,
        }
    }

    /// Whether an item has identifier `id`.
    pub fn contains(&self, id: &str) -> (res: bool)
        ensures
            res == self@.contains_key(id@),
    {
        proof {
            use_type_invariant(self);
            lemma_entries_lookup(self.data@, id@);
        }
        self.find(id).is_some()
    }

    /// Every identifier, each once.
    pub fn ids(&self) -> (res: Vec<&String>)
        ensures
            res@.len() == self@.dom().len(),
            forall|i: int, j: int| 0 <= i < j < res@.len() ==> res@[i]@ != res@[j]@,
            forall|k: Seq<char>| self@.contains_key(k) <==> exists|i: int| 0 <= i < res@.len() && #[trigger] res@[i]@ == k,
    {
        proof {
            use_type_invariant(self);
            lemma_entries_len(self.data@);
        }
        let mut res: Vec<&String> = Vec::new();
        let mut i: usize = 0;
        while i < self.data.len()
            invariant
                i <= self.data@.len(),
                res@.len() == i,
                forall|j: int| 0 <= j < i ==> #[trigger] res@[j] == &self.data@[j].0,
            decreases self.data@.len() - i,
        {
            res.push(&self.data[i].0);
            i += 1;
        }
        proof {
            use_type_invariant(self);
            assert forall|k: Seq<char>| self@.contains_key(k) <==> exists|i: int|
                0 <= i < res@.len() && #[trigger] res@[i]@ == k by {
                lemma_entries_lookup(self.data@, k);
                if self@.contains_key(k) {
                    let i = choose|i: int| 0 <= i < self.data@.len() && #[trigger] self.data@[i].0@ == k;
                    assert(res@[i]@ == k);
                }
                if exists|i: int| 0 <= i < res@.len() && #[trigger] res@[i]@ == k {
                    let i = choose|i: int| 0 <= i < res@.len() && #[trigger] res@[i]@ == k;
                    assert(self.data@[i].0@ == k);
                }
            }
        }
        res
    }

    /// Every identifier with its item, each identifier once.
    pub fn iter(&self) -> (res: Vec<(&String, &T)>)
        ensures
            res@.len() == self@.dom().len(),
            forall|i: int, j: int| 0 <= i < j < res@.len() ==> res@[i].0@ != res@[j].0@,
            forall|i: int| 0 <= i < res@.len() ==> self@.contains_key((#[trigger] res@[i]).0@) && *res@[i].1 == self@[res@[i].0@],
            forall|k: Seq<char>| self@.contains_key(k) ==> exists|i: int| 0 <= i < res@.len() && #[trigger] res@[i].0@ == k,
    {
        proof {
            use_type_invariant(self);
            lemma_entries_len(self.data@);
        }
        let mut res: Vec<(&String, &T)> = Vec::new();
        let mut i: usize = 0;
        while i < self.data.len()
            invariant
                i <= self.data@.len(),
                res@.len() == i,
                forall|j: int| 0 <= j < i ==> #[trigger] res@[j] == (&self.data@[j].0, &self.data@[j].1),
            decreases self.data@.len() - i,
        {
            res.push((&self.data[i].0, &self.data[i].1));
            i += 1;
        }
        proof {
            use_type_invariant(self);
            assert forall|j: int| 0 <= j < res@.len() implies self@.contains_key((#[trigger] res@[j]).0@) && *res@[j].1
                == self@[res@[j].0@] by {
                lemma_entries_lookup(self.data@, self.data@[j].0@);
            }
            assert forall|k: Seq<char>| self@.contains_key(k) implies exists|i: int|
                0 <= i < res@.len() && #[trigger] res@[i].0@ == k by {
                lemma_entries_lookup(self.data@, k);
                let i = choose|i: int| 0 <= i < self.data@.len() && #[trigger] self.data@[i].0@ == k;
                assert(res@[i].0@ == k);
            }
        }
        res
    }

    /// The number of items.
    pub fn len(&self) -> (res: usize)
        ensures
            res == self@.dom().len(),
    {
        proof {
            use_type_invariant(self);
            lemma_entries_len(self.data@);
        }
        self.data.len()
    }

    /// Whether the registry holds no item.
    pub fn is_empty(&self) -> (res: bool)
        ensures
            res == (self@.dom().len() == 0),
    {
        proof {
            use_type_invariant(self);
            lemma_entries_len(self.data@);
        }
        self.data.len() == 0
    }

    /// Insert an item, replacing any item with the same identifier.
    pub fn insert(&mut self, id: String, item: T)
        ensures
            final(self)@ == old(self)@.insert(id@, item),
    {
        proof {
            use_type_invariant(&*self);
        }
        let found = self.find(id.as_str());
        let mut data: Vec<(String, T)> = Vec::new();
        std::mem::swap(&mut data, &mut self.data);
        match found {
            Some(i) => {
                proof {
                    lemma_entries_update(data@, i as int, id, item);
                }
                data.set(i, (id, item));
            },
            None => {
                proof {
                    assert(distinct_keys(data@.push((id, item)))) by {
                        let s2 = data@.push((id, item));
                        assert forall|a: int, b: int| 0 <= a < b < s2.len() implies s2[a].0@ != s2[b].0@ by {
                            assert(s2[a] == data@[a]);
                            if b < data@.len() {
                                assert(s2[b] == data@[b]);
                            }
                        }
                    }
                    assert(data@.push((id, item)).drop_last() =~= data@);
                }
                data.push((id, item));
            },
        }
        self.data = data;
    }

    /// Remove the item with identifier `id`, returning it.
    pub fn remove(&mut self, id: &str) -> (res: Option<T>)
        ensures
            match res {
                Some(v) => old(self)@.contains_key(id@) && v == old(self)@[id@],
                None => !old(self)@.contains_key(id@),
            },
            final(self)@ == old(self)@.remove(id@),
    {
        proof {
            use_type_invariant(&*self);
            lemma_entries_lookup(self.data@, id@);
        }
        match self.find(id) {
            Some(i) => {
                let mut data: Vec<(String, T)> = Vec::new();
                std::mem::swap(&mut data, &mut self.data);
                proof {
                    lemma_entries_remove(data@, i as int);
                }
                let (_, v) = data.remove(i);
                self.data = data;
                Some(v)
            },
            None => {
                proof {
                    assert(old(self)@.remove(id@) =~= old(self)@);
                }
                None
            },
        }
    }

    /// Merge another registry into this one; its items replace items with the
    /// same identifier.
    pub fn merge(&mut self, other: DataRegistry<T>)
        ensures
            final(self)@ == old(self)@.union_prefer_right(other@),
    {
        proof {
            use_type_invariant(&other);
        }
        let ghost theirs = other.data@;
        let mut rest = other.data;
        while rest.len() > 0
            invariant
                distinct_keys(theirs),
                rest@.len() <= theirs.len(),
                rest@ == theirs.take(rest@.len() as int),
                self@ == old(self)@.union_prefer_right(entries_map(theirs) .remove_keys(
                    entries_map(rest@).dom(),
                )),
            decreases rest@.len(),
        {
            let ghost before = rest@;
            let (k, v) = rest.pop().unwrap();
            proof {
                assert(rest@ =~= theirs.take(rest@.len() as int));
                assert(before =~= rest@.push((k, v)));
                lemma_entries_lookup(theirs, k@);
                lemma_entries_lookup(before, k@);
                assert(theirs[rest@.len() as int] == (k, v));
                assert(before.drop_last() =~= rest@);
                assert(distinct_keys(before)) by {
                    assert forall|a: int, b: int| 0 <= a < b < before.len() implies before[a].0@ != before[b].0@ by {
                        assert(before[a] == theirs[a] && before[b] == theirs[b]);
                    }
                }
                lemma_entries_lookup(rest@, k@);
                assert(!entries_map(rest@).contains_key(k@)) by {
                    if entries_map(rest@).contains_key(k@) {
                        let j = choose|j: int| 0 <= j < rest@.len() && #[trigger] rest@[j].0@ == k@;
                        assert(before[j] == rest@[j]);
                    }
                }
                assert(entries_map(theirs)[k@] == v);
                assert(old(self)@.union_prefer_right(entries_map(theirs).remove_keys(entries_map(rest@).dom()))
                    =~= old(self)@.union_prefer_right(entries_map(theirs).remove_keys(entries_map(before).dom())).insert(
                    k@,
                    v,
                ));
            }
            self.insert(k, v);
        }
        proof {
            assert(entries_map(theirs).remove_keys(Set::empty()) =~= entries_map(theirs));
        }
    }
}

/// After `insert`, `get` finds the inserted item under its identifier, and
/// every other identifier keeps what it had.
pub proof fn law_registry_get_after_insert<T>(r: DataRegistry<T>, id: Seq<char>, item: T, other: Seq<char>)
    ensures
        r@.insert(id, item).contains_key(id),
        r@.insert(id, item)[id] == item,
        other != id ==> r@.insert(id, item).contains_key(other) == r@.contains_key(other),
        other != id && r@.contains_key(other) ==> r@.insert(id, item)[other] == r@[other],
{
}

/// After `remove`, the identifier is gone and every other identifier keeps
/// what it had.
pub proof fn law_registry_remove_forgets<T>(r: DataRegistry<T>, id: Seq<char>, other: Seq<char>)
    ensures
        !r@.remove(id).contains_key(id),
        other != id ==> r@.remove(id).contains_key(other) == r@.contains_key(other),
        other != id && r@.contains_key(other) ==> r@.remove(id)[other] == r@[other],
{
}

/// After `merge`, an identifier holds the incoming item when the other
/// registry has one, and keeps its own otherwise.
pub proof fn law_merge_prefers_incoming<T>(mine: DataRegistry<T>, theirs: DataRegistry<T>, id: Seq<char>)
    ensures
        theirs@.contains_key(id) ==> mine@.union_prefer_right(theirs@)[id] == theirs@[id],
        !theirs@.contains_key(id) ==> mine@.union_prefer_right(theirs@).contains_key(id) == mine@.contains_key(id),
        !theirs@.contains_key(id) && mine@.contains_key(id) ==> mine@.union_prefer_right(theirs@)[id] == mine@[id],
{
}

impl<T: Clone> Clone for DataRegistry<T> {
    /// A registry with the same identifiers, each item cloned.
    fn clone(&self) -> (res: Self)
        ensures
            res@.dom() == self@.dom(),
            forall|k: Seq<char>| #[trigger] self@.contains_key(k) ==> cloned(self@[k], res@[k]),
    {
        proof {
            use_type_invariant(self);
        }
        let mut data: Vec<(String, T)> = Vec::new();
        let mut i: usize = 0;
        while i < self.data.len()
            invariant
                distinct_keys(self.data@),
                i <= self.data@.len(),
                data@.len() == i,
                forall|j: int| 0 <= j < i ==> (#[trigger] data@[j]).0 == self.data@[j].0 && cloned(self.data@[j].1, data@[j].1),
            decreases self.data@.len() - i,
        {
            let k = self.data[i].0.clone();
            let v = self.data[i].1.clone();
            data.push((k, v));
            i += 1;
        }
        proof {
            assert(distinct_keys(data@)) by {
                assert forall|a: int, b: int| 0 <= a < b < data@.len() implies data@[a].0@ != data@[b].0@ by {
                    assert(data@[a].0 == self.data@[a].0);
                    assert(data@[b].0 == self.data@[b].0);
                }
            }
            assert forall|k: Seq<char>| #[trigger] entries_map(data@).contains_key(k) == entries_map(self.data@).contains_key(k) by {
                lemma_entries_lookup(data@, k);
                lemma_entries_lookup(self.data@, k);
                if exists|j: int| 0 <= j < data@.len() && #[trigger] data@[j].0@ == k {
                    let j = choose|j: int| 0 <= j < data@.len() && #[trigger] data@[j].0@ == k;
                    assert(self.data@[j].0@ == k);
                }
                if exists|j: int| 0 <= j < self.data@.len() && #[trigger] self.data@[j].0@ == k {
                    let j = choose|j: int| 0 <= j < self.data@.len() && #[trigger] self.data@[j].0@ == k;
                    assert(data@[j].0@ == k);
                }
            }
            assert(entries_map(data@).dom() =~= entries_map(self.data@).dom());
            assert forall|k: Seq<char>| #[trigger] entries_map(self.data@).contains_key(k) implies cloned(
                entries_map(self.data@)[k],
                entries_map(data@)[k],
            ) by {
                lemma_entries_lookup(data@, k);
                lemma_entries_lookup(self.data@, k);
                let j = choose|j: int| 0 <= j < self.data@.len() && #[trigger] self.data@[j].0@ == k;
                assert(data@[j].0@ == k);
            }
        }
        DataRegistry { data }
    }
}

impl<T: Clone + DeserializeOwned> DataRegistry<T> {
    /// Load a registry from an embedded JSON array of objects keyed by their
    /// string member `id_field`; a later item replaces an earlier one with the
    /// same identifier.
    pub fn from_embedded_json(json_str: &str, id_field: &str) -> (res: Result<Self, String>)
        ensures
            match res {
                Ok(reg) => exists|entries: Vec<(String, T)>|
                    #[trigger] loaded_by_id(json_str@, id_field@, Ok::<Vec<(String, T)>, String>(entries))
                        && reg@ == entries_map(entries@) && loaded_from_last(json_str@, id_field@, entries@),
                Err(msg) => loaded_by_id(json_str@, id_field@, Err::<Vec<(String, T)>, String>(msg)),
            },
    {
        match load_embedded_json_map(json_str, id_field) {
            Ok(entries) => {
                let ghost e = entries;
                let reg = Self::from_map(entries);
                proof {
                    assert(loaded_by_id(json_str@, id_field@, Ok::<Vec<(String, T)>, String>(e)));
                }
                Ok(reg)
            },
            Err(msg) => Err(msg),
        }
    }
}

impl<T: Clone> Default for DataRegistry<T> {
    fn default() -> (res: Self)
        ensures
            res@ == Map::<Seq<char>, T>::empty(),
    {
        Self::new()
    }
}

} // verus!
