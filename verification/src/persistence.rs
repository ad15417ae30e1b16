//! Naming for saved data (the file a key is stored under, the key of a save
//! slot), save-slot metadata, and reading the version a save records.

use serde::de::DeserializeOwned;
use serde::Serialize;
use vstd::prelude::*;

use crate::data_loader::{
    error_text, is_parse_error, json_error_text, json_member, parse_error_message, parse_json_as, value_into,
    value_member,
};
use crate::text::{lemma_text_lt_trans, lemma_text_total, push_char, push_str, str_lt, text_le, text_lt};

verus! {

/// Characters that cannot appear in a file name are replaced by `_`.
pub open spec fn sanitize_char(c: char) -> char {
    if c == '/' || c == '\\' || c == ':' || c == '*' || c == '?' || c == '"' || c == '<' || c == '>'
        || c == '|' {
        '_'
    } else {
        c
    }
}

/// `key` with every character unusable in a file name replaced by `_`.
pub open spec fn sanitized(key: Seq<char>) -> Seq<char> {
    key.map_values(|c: char| sanitize_char(c))
}

/// The extension of JSON files.
pub open spec fn json_ext() -> Seq<char> {
    seq!['.', 'j', 's', 'o', 'n']
}

/// `s` ends with `.json`.
pub open spec fn ends_with_json(s: Seq<char>) -> bool {
    s.len() >= 5 && s.skip(s.len() - 5) == json_ext()
}

/// The file name a key is stored under: the sanitized key, with `.json`
/// appended unless it already ends so.
pub open spec fn key_file(key: Seq<char>) -> Seq<char> {
    let s = sanitized(key);
    if ends_with_json(s) {
        s
    } else {
        s + json_ext()
    }
}

/// The storage key of a save slot: `save_` followed by the slot name.
pub open spec fn slot_key_of(slot_name: Seq<char>) -> Seq<char> {
    seq!['s', 'a', 'v', 'e', '_'] + slot_name
}

fn sanitize_one(c: char) -> (res: char)
    ensures
        res == sanitize_char(c),
{
    if c == '/' || c == '\\' || c == ':' || c == '*' || c == '?' || c == '"' || c == '<' || c == '>'
        || c == '|' {
        '_'
    } else {
        c
    }
}

/// Replace the characters of `key` that cannot appear in a file name
/// (`/ \ : * ? " < > |`) with `_`.
pub fn sanitize_key(key: &str) -> (res: String)
    ensures
        res@ == sanitized(key@),
        res@.len() == key@.len(),
        forall|i: int|
            0 <= i < key@.len() ==> #[trigger] res@[i] == (if unsafe_in_file_name(key@[i]) {
                '_'
            } else {
                key@[i]
            }),
{
    let n = key.unicode_len();
    let mut res = String::new();
    let mut i: usize = 0;
    while i < n
        invariant
            n == key@.len(),
            i <= n,
            res@ == sanitized(key@.take(i as int)),
        decreases n - i,
    {
        let c = key.get_char(i);
        push_char(&mut res, sanitize_one(c));
        i += 1;
        proof {
            assert(sanitized(key@.take(i as int)) =~= sanitized(key@.take(i - 1)).push(sanitize_char(c)));
        }
    }
    proof {
        assert(key@.take(n as int) =~= key@);
        law_sanitize_keeps_safe_chars(key@);
    }
    res
}

/// The file name a key is stored under: the sanitized key, with `.json`
/// appended unless it already ends with it.
pub fn key_file_name(key: &str) -> (res: String)
    ensures
        res@ == key_file(key@),
{
    let mut s = sanitize_key(key);
    let n = s.as_str().unicode_len();
    let mut has_ext = false;
    if n >= 5 {
        let t = s.as_str();
        has_ext = t.get_char(n - 5) == '.' && t.get_char(n - 4) == 'j' && t.get_char(n - 3) == 's'
            && t.get_char(n - 2) == 'o' && t.get_char(n - 1) == 'n';
        proof {
            if has_ext {
                assert(s@.skip(n - 5) =~= json_ext());
            } else {
                if s@.skip(n - 5) == json_ext() {
                    assert(s@.skip(n - 5)[0] == s@[n - 5]);
                    assert(s@.skip(n - 5)[1] == s@[n - 4]);
                    assert(s@.skip(n - 5)[2] == s@[n - 3]);
                    assert(s@.skip(n - 5)[3] == s@[n - 2]);
                    assert(s@.skip(n - 5)[4] == s@[n - 1]);
                }
            }
        }
    }
    if !has_ext {
        push_char(&mut s, '.');
        push_char(&mut s, 'j');
        push_char(&mut s, 's');
        push_char(&mut s, 'o');
        push_char(&mut s, 'n');
        proof {
            assert(s@ =~= sanitized(key@) + json_ext());
        }
    }
    s
}

/// The storage key of a save slot: `save_` followed by the slot name.
pub fn slot_key(slot_name: &str) -> (res: String)
    ensures
        res@ == slot_key_of(slot_name@),
{
    let mut s = String::new();
    push_char(&mut s, 's');
    push_char(&mut s, 'a');
    push_char(&mut s, 'v');
    push_char(&mut s, 'e');
    push_char(&mut s, '_');
    push_str(&mut s, slot_name);
    proof {
        assert(s@ =~= slot_key_of(slot_name@));
    }
    s
}

/// The file name of a save slot: its storage key followed by `.json`.
pub fn slot_file_name(slot_name: &str) -> (res: String)
    ensures
        res@ == slot_key_of(slot_name@) + json_ext(),
{
    let mut s = slot_key(slot_name);
    push_char(&mut s, '.');
    push_char(&mut s, 'j');
    push_char(&mut s, 's');
    push_char(&mut s, 'o');
    push_char(&mut s, 'n');
    proof {
        assert(s@ =~= slot_key_of(slot_name@) + json_ext());
    }
    s
}

/// The name of the temporary file a save is first written to: a dot, the
/// target's file name (`save` when it has none), and `.tmp`.
pub open spec fn temp_name_of(file_name: Option<Seq<char>>) -> Seq<char> {
    let base = match file_name {
        Some(f) => f,
        None => seq!['s', 'a', 'v', 'e'],
    };
    seq!['.'] + base + seq!['.', 't', 'm', 'p']
}

/// The name of the temporary file written before it replaces the file named
/// `file_name`, so that an interrupted save never leaves a partial file.
pub fn temp_file_name(file_name: Option<&str>) -> (res: String)
    ensures
        res@ == temp_name_of(
            match file_name {
                Some(f) => Some(f@),
                None => None,
            },
        ),
{
    let mut s = String::new();
    push_char(&mut s, '.');
    match file_name {
        Some(f) => push_str(&mut s, f),
        None => {
            push_char(&mut s, 's');
            push_char(&mut s, 'a');
            push_char(&mut s, 'v');
            push_char(&mut s, 'e');
        },
    }
    push_char(&mut s, '.');
    push_char(&mut s, 't');
    push_char(&mut s, 'm');
    push_char(&mut s, 'p');
    proof {
        assert(s@ =~= temp_name_of(
            match file_name {
                Some(f) => Some(f@),
                None => None,
            },
        ));
    }
    s
}

/// The save date recorded by `SaveSlot::new`.
pub open spec fn unknown_date() -> Seq<char> {
    seq!['U', 'n', 'k', 'n', 'o', 'w', 'n']
}

/// Save slot metadata.
#[derive(Debug, Clone)]
pub struct SaveSlot {
    /// Slot name/identifier
    pub name: String,
    /// When the save was created (ISO 8601 string)
    pub save_date: String,
    /// Game version that created this save
    pub version: String,
}

impl SaveSlot {
    /// Create slot metadata; the save date is recorded as `Unknown`.
    pub fn new(name: String, version: String) -> (res: Self)
        ensures
            res.name@ == name@,
            res.version@ == version@,
            res.save_date@ == unknown_date(),
    {
        let mut save_date = String::new();
        push_char(&mut save_date, 'U');
        push_char(&mut save_date, 'n');
        push_char(&mut save_date, 'k');
        push_char(&mut save_date, 'n');
        push_char(&mut save_date, 'o');
        push_char(&mut save_date, 'w');
        push_char(&mut save_date, 'n');
        proof {
            assert(save_date@ =~= unknown_date());
        }
        SaveSlot { name, save_date, version }
    }
}

/// A character that cannot appear in a file name.
pub open spec fn unsafe_in_file_name(c: char) -> bool {
    c == '/' || c == '\\' || c == ':' || c == '*' || c == '?' || c == '"' || c == '<' || c == '>' || c == '|'
}

/// Sanitizing changes only what cannot stand in a file name: it keeps the
/// key's length, turns each unsafe character into `_`, and keeps every other
/// character where it was.
pub proof fn law_sanitize_keeps_safe_chars(key: Seq<char>)
    ensures
        sanitized(key).len() == key.len(),
        forall|i: int|
            0 <= i < key.len() ==> #[trigger] sanitized(key)[i] == (if unsafe_in_file_name(key[i]) {
                '_'
            } else {
                key[i]
            }),
{
}

/// The file name of a key starts with the key itself, sanitized: two keys
/// that differ at some position in a character that is safe in file names
/// get different file names.
pub proof fn law_key_file_keeps_the_key(key: Seq<char>)
    ensures
        key_file(key).len() >= key.len(),
        forall|i: int|
            0 <= i < key.len() ==> #[trigger] key_file(key)[i] == (if unsafe_in_file_name(key[i]) {
                '_'
            } else {
                key[i]
            }),
{
    law_sanitize_keeps_safe_chars(key);
    let s = sanitized(key);
    if !ends_with_json(s) {
        assert forall|i: int| 0 <= i < key.len() implies #[trigger] key_file(key)[i] == s[i] by {
            assert((s + json_ext())[i] == s[i]);
        }
    }
}

/// Every key's file name ends in `.json`: the extension is added exactly
/// when the sanitized key does not already end with it, so the name is the
/// key's length or five characters longer.
pub proof fn law_key_file_is_json(key: Seq<char>)
    ensures
        ends_with_json(key_file(key)),
        key_file(key).len() == key.len() || key_file(key).len() == key.len() + 5,
        key_file(key).len() == key.len() <==> ends_with_json(sanitized(key)),
        key_file(key).skip(key_file(key).len() - 5) == seq!['.', 'j', 's', 'o', 'n'],
{
    let s = sanitized(key);
    assert(s.len() == key.len());
    if !ends_with_json(s) {
        let t = s + json_ext();
        assert(t.skip(t.len() - 5) =~= json_ext());
    }
}

/// The file name derived from any key holds no character that cannot appear
/// in a file name, so a key can never reach outside the save directory.
pub proof fn law_key_file_is_safe(key: Seq<char>)
    ensures
        forall|i: int| 0 <= i < key_file(key).len() ==> !unsafe_in_file_name(#[trigger] key_file(key)[i]),
{
    let s = sanitized(key);
    assert forall|i: int| 0 <= i < s.len() implies !unsafe_in_file_name(#[trigger] s[i]) by {}
    if !ends_with_json(s) {
        let t = s + json_ext();
        assert forall|i: int| 0 <= i < t.len() implies !unsafe_in_file_name(#[trigger] t[i]) by {
            if i >= s.len() {
                assert(t[i] == json_ext()[i - s.len()]);
            }
        }
    }
}

/// Sanitizing is idempotent, so a file name derived from a key is a fixed
/// point: deriving it again gives the same name.
pub proof fn law_key_file_is_stable(key: Seq<char>)
    ensures
        key_file(key_file(key)) == key_file(key),
{
    let s = sanitized(key);
    assert(sanitized(s) =~= s);
    assert(sanitized(json_ext()) =~= json_ext());
    if !ends_with_json(s) {
        let t = s + json_ext();
        assert(sanitized(t) =~= t);
        assert(t.skip(t.len() - 5) =~= json_ext());
    }
}

// ---------------------------------------------------------------------------
// Save versions
// ---------------------------------------------------------------------------

/// The JSON document a text parses to, as serde_json parses it, or `None`
/// when the text is not JSON.
pub uninterp spec fn json_document(json: Seq<char>) -> Option<serde_json::Value>;

/// `serde_json::from_str::<serde_json::Value>`: parses a JSON document.
/// Claims that the outcome depends on the text alone, as the name
/// `json_document`; the error's content is left undescribed.
#[verifier::external_body]
fn parse_json_value(json: &str) -> (res: Result<serde_json::Value, serde_json::Error>)
    ensures
        match res {
            Ok(v) => json_document(json@) == Some(v),
            Err(_) => json_document(json@) is None,
        },
{
    serde_json::from_str(json)
}

/// The kind of a JSON value, with a string's text and a number's decimal
/// form; the elements of arrays and objects are not kept.
#[derive(Debug, Clone, PartialEq, Eq)]
pub enum JsonKind {
    Null,
    Bool(bool),
    Number(String),
    Text(String),
    Array,
    Object,
}

/// The kind of a parsed JSON value, as `value_kind` reads it.
pub uninterp spec fn json_kind(value: serde_json::Value) -> JsonKind;

/// Tells the variants of `serde_json::Value` apart, one arm each: a string's
/// text is cloned and a number is written with its `Display` impl
/// (`Number::to_string`). Claims the result is the name `json_kind` of the
/// value, and that it is a string exactly when `Value::as_str` (the name
/// `json_string_text`) finds one, with the same text.
#[verifier::external_body]
fn value_kind(value: &serde_json::Value) -> (res: JsonKind)
    ensures
        res == json_kind(*value),
        crate::data_loader::json_string_text(*value) == (match res {
            JsonKind::Text(s) => Some(s@),
            _ => None::<Seq<char>>,
        }),
{
    match value {
        serde_json::Value::Null => JsonKind::Null,
        serde_json::Value::Bool(b) => JsonKind::Bool(*b),
        serde_json::Value::Number(n) => JsonKind::Number(n.to_string()),
        serde_json::Value::String(s) => JsonKind::Text(s.clone()),
        serde_json::Value::Array(_) => JsonKind::Array,
        serde_json::Value::Object(_) => JsonKind::Object,
    }
}

/// What a value of kind `k` gives as a version: a string's text or a
/// number's decimal form; `None` for null, booleans, arrays and objects.
pub open spec fn version_text(k: JsonKind) -> Option<Seq<char>> {
    match k {
        JsonKind::Text(s) => Some(s@),
        JsonKind::Number(n) => Some(n@),
        _ => None,
    }
}

/// The version a JSON value of kind `k` gives, if any.
pub fn as_version(k: JsonKind) -> (res: Option<String>)
    ensures
        opt_text(res) == version_text(k),
{
    match k {
        JsonKind::Text(s) => Some(s),
        JsonKind::Number(n) => Some(n),
        JsonKind::Null => None,
        JsonKind::Bool(_) => None,
        JsonKind::Array => None,
        JsonKind::Object => None,
    }
}

/// The version text of member `key` of `value`, if it has one.
pub open spec fn version_at(value: serde_json::Value, key: Seq<char>) -> Option<Seq<char>> {
    match json_member(value, key) {
        Some(m) => version_text(json_kind(m)),
        None => None,
    }
}

/// The version a save records: the first of the members `version`,
/// `save_version` and `schema_version` that holds a string or a number, and
/// otherwise the member `version` of the member `slot`.
pub open spec fn version_of(value: serde_json::Value) -> Option<Seq<char>> {
    if version_at(value, "version"@) is Some {
        version_at(value, "version"@)
    } else if version_at(value, "save_version"@) is Some {
        version_at(value, "save_version"@)
    } else if version_at(value, "schema_version"@) is Some {
        version_at(value, "schema_version"@)
    } else {
        match json_member(value, "slot"@) {
            Some(slot) => version_at(slot, "version"@),
            None => None,
        }
    }
}

/// The view of an optional string.
pub open spec fn opt_text(o: Option<String>) -> Option<Seq<char>> {
    match o {
        Some(s) => Some(s@),
        None => None,
    }
}

fn version_member(value: &serde_json::Value, key: &str) -> (res: Option<String>)
    ensures
        opt_text(res) == version_at(*value, key@),
{
    match value_member(value, key) {
        Some(m) => as_version(value_kind(&m)),
        None => None,
    }
}

/// Extract a common save-version field from parsed JSON: `version`, then
/// `save_version`, then `schema_version`, then `slot.version`; a field counts
/// when it holds a string or a number.
pub fn peek_version_value(value: &serde_json::Value) -> (res: Option<String>)
    ensures
        opt_text(res) == version_of(*value),
{
    let v = version_member(value, "version");
    if v.is_some() {
        return v;
    }
    let v = version_member(value, "save_version");
    if v.is_some() {
        return v;
    }
    let v = version_member(value, "schema_version");
    if v.is_some() {
        return v;
    }
    match value_member(value, "slot") {
        Some(slot) => version_member(&slot, "version"),
        None => None,
    }
}

/// Parse JSON and extract a common save-version field.
pub fn peek_version_from_str(json: &str) -> (res: Result<Option<String>, String>)
    ensures
        match res {
            Ok(v) => json_document(json@) is Some && opt_text(v) == version_of(json_document(json@)->Some_0),
            Err(msg) => json_document(json@) is None && is_parse_error(msg@),
        },
{
    match parse_json_value(json) {
        Ok(value) => Ok(peek_version_value(&value)),
        Err(e) => Err(parse_error_message(&e)),
    }
}

/// What loading a versioned save calls for: the document already has the
/// current version and can be read as it is, or it records another version
/// (or none) and must be migrated.
#[derive(Debug)]
pub enum VersionCheck {
    /// The document records the current version.
    Current(serde_json::Value),
    /// The document records the given version, which is not the current one.
    Outdated(Option<String>, serde_json::Value),
}

/// Parse saved JSON text and decide whether it is read directly (its version
/// is `current_version`) or handed to a migration with the version it
/// records.
pub fn check_version(content: &str, current_version: &str) -> (res: Result<VersionCheck, String>)
    ensures
        match res {
            Ok(VersionCheck::Current(v)) => json_document(content@) == Some(v) && version_of(v) == Some(
                current_version@,
            ),
            Ok(VersionCheck::Outdated(ver, v)) => json_document(content@) == Some(v) && opt_text(ver)
                == version_of(v) && version_of(v) != Some(current_version@),
            Err(msg) => json_document(content@) is None && is_parse_error(msg@),
        },
{
    let value = match parse_json_value(content) {
        Ok(value) => value,
        Err(e) => return Err(parse_error_message(&e)),
    };
    let version = peek_version_value(&value);
    let current: String = current_version.to_owned();
    let same = match &version {
        Some(v) => *v == current,
        None => false,
    };
    if same {
        Ok(VersionCheck::Current(value))
    } else {
        Ok(VersionCheck::Outdated(version, value))
    }
}

// ---------------------------------------------------------------------------
// Listing save slots
// ---------------------------------------------------------------------------

/// The slot a file name holds, for names of the form `save_<slot>.json`.
pub open spec fn slot_name_of(file: Seq<char>) -> Option<Seq<char>> {
    if file.len() >= 10 && file.take(5) == slot_key_of(Seq::empty()) && file.skip(file.len() - 5) == json_ext() {
        Some(file.subrange(5, file.len() - 5))
    } else {
        None
    }
}

/// The slots held by a list of file names, in the list's order.
pub open spec fn slot_names_in(files: Seq<Seq<char>>) -> Seq<Seq<char>>
    decreases files.len(),
{
    if files.len() == 0 {
        Seq::empty()
    } else {
        let rest = slot_names_in(files.drop_last());
        match slot_name_of(files.last()) {
            Some(n) => rest.push(n),
            None => rest,
        }
    }
}

/// The texts of a sequence of strings.
pub open spec fn texts(s: Seq<String>) -> Seq<Seq<char>> {
    s.map_values(|x: String| x@)
}

/// Each text sorts before or equals every later one.
pub open spec fn texts_sorted(s: Seq<Seq<char>>) -> bool {
    forall|i: int, j: int| 0 <= i < j < s.len() ==> text_le(#[trigger] s[i], #[trigger] s[j])
}

/// The slot a file name holds, if it has the form `save_<slot>.json`.
pub fn slot_name_from_file(file: &str) -> (res: Option<String>)
    ensures
        opt_text(res) == slot_name_of(file@),
{
    let n = file.unicode_len();
    if n < 10 {
        return None;
    }
    let has_prefix = file.get_char(0) == 's' && file.get_char(1) == 'a' && file.get_char(2) == 'v'
        && file.get_char(3) == 'e' && file.get_char(4) == '_';
    let has_ext = file.get_char(n - 5) == '.' && file.get_char(n - 4) == 'j' && file.get_char(n - 3) == 's'
        && file.get_char(n - 2) == 'o' && file.get_char(n - 1) == 'n';
    proof {
        let pre = slot_key_of(Seq::empty());
        if has_prefix {
            assert(file@.take(5) =~= pre);
        } else if file@.take(5) == pre {
            assert(file@.take(5)[0] == file@[0]);
            assert(file@.take(5)[1] == file@[1]);
            assert(file@.take(5)[2] == file@[2]);
            assert(file@.take(5)[3] == file@[3]);
            assert(file@.take(5)[4] == file@[4]);
        }
        if has_ext {
            assert(file@.skip(n - 5) =~= json_ext());
        } else if file@.skip(n - 5) == json_ext() {
            assert(file@.skip(n - 5)[0] == file@[n - 5]);
            assert(file@.skip(n - 5)[1] == file@[n - 4]);
            assert(file@.skip(n - 5)[2] == file@[n - 3]);
            assert(file@.skip(n - 5)[3] == file@[n - 2]);
            assert(file@.skip(n - 5)[4] == file@[n - 1]);
        }
    }
    if has_prefix && has_ext {
        let inner = file.substring_char(5, n - 5);
        let name: String = inner.to_owned();
        Some(name)
    } else {
        None
    }
}

/// Insert `x` into sorted `v` after every text that does not sort after it.
fn insert_sorted(v: &mut Vec<String>, x: String)
    requires
        texts_sorted(texts(old(v)@)),
    ensures
        texts_sorted(texts(final(v)@)),
        texts(final(v)@).to_multiset() == texts(old(v)@).to_multiset().insert(x@),
{
    let mut j: usize = 0;
    while j < v.len()
        invariant
            j <= v@.len(),
            forall|k: int| 0 <= k < j ==> !text_lt(x@, #[trigger] v@[k]@),
        ensures
            j <= v@.len(),
            forall|k: int| 0 <= k < j ==> !text_lt(x@, #[trigger] v@[k]@),
            j < v@.len() ==> text_lt(x@, v@[j as int]@),
        decreases v@.len() - j,
    {
        if str_lt(x.as_str(), v[j].as_str()) {
            break;
        }
        j += 1;
    }
    let ghost before = v@;
    let ghost xv = x@;
    v.insert(j, x);
    proof {
        assert(texts(v@) =~= texts(before).insert(j as int, xv));
        vstd::seq_lib::to_multiset_insert(texts(before), j as int, xv);
        let t = texts(v@);
        assert forall|a: int, b: int| 0 <= a < b < t.len() implies text_le(#[trigger] t[a], #[trigger] t[b]) by {
            if a < j && b < j {
                assert(t[a] == texts(before)[a] && t[b] == texts(before)[b]);
            } else if a < j && b == j {
                assert(t[a] == before[a]@);
                lemma_text_total(xv, t[a]);
            } else if a < j {
                assert(t[a] == texts(before)[a] && t[b] == texts(before)[b - 1]);
            } else if a == j {
                assert(t[b] == texts(before)[b - 1]);
                assert(text_lt(xv, before[j as int]@));
                if b - 1 > j {
                    assert(text_le(texts(before)[j as int], texts(before)[b - 1]));
                    if texts(before)[j as int] != texts(before)[b - 1] {
                        lemma_text_lt_trans(xv, before[j as int]@, t[b]);
                    }
                }
            } else {
                assert(t[a] == texts(before)[a - 1] && t[b] == texts(before)[b - 1]);
            }
        }
    }
}

/// The slots held by a directory's file names, sorted: each name of the
/// form `save_<slot>.json` gives `<slot>`.
pub fn save_slot_names(files: &[String]) -> (res: Vec<String>)
    ensures
        texts(res@).to_multiset() == slot_names_in(texts(files@)).to_multiset(),
        texts_sorted(texts(res@)),
{
    let mut res: Vec<String> = Vec::new();
    let mut i: usize = 0;
    proof {
        assert(texts(files@).take(0) =~= Seq::<Seq<char>>::empty());
        assert(texts(res@) =~= Seq::<Seq<char>>::empty());
    }
    while i < files.len()
        invariant
            i <= files@.len(),
            texts(res@).to_multiset() == slot_names_in(texts(files@).take(i as int)).to_multiset(),
            texts_sorted(texts(res@)),
        decreases files@.len() - i,
    {
        let found = slot_name_from_file(files[i].as_str());
        proof {
            let all = texts(files@);
            assert(all.take(i + 1).drop_last() =~= all.take(i as int));
            assert(all.take(i + 1).last() == files@[i as int]@);
        }
        match found {
            Some(name) => {
                let ghost nv = name@;
                insert_sorted(&mut res, name);
                proof {
                    let rest = slot_names_in(texts(files@).take(i as int));
                    vstd::seq_lib::to_multiset_build(rest, nv);
                }
            },
            None => {},
        }
        i += 1;
    }
    proof {
        assert(texts(files@).take(files@.len() as int) =~= texts(files@));
    }
    res
}

// ---------------------------------------------------------------------------
// Saved data in the caller's types
// ---------------------------------------------------------------------------

/// The message for saved text that does not convert into the requested type.
pub open spec fn is_deserialization_error(msg: Seq<char>) -> bool {
    exists|d: Seq<char>| msg == "Deserialization error: "@ + d
}

/// The message for data that does not serialise.
pub open spec fn is_serialization_error(msg: Seq<char>) -> bool {
    exists|d: Seq<char>| msg == "Serialization error: "@ + d
}

/// Appends serde_json's description of `e` after `prefix`.
fn error_message(prefix: &str, e: &serde_json::Error) -> (res: String)
    ensures
        res@ == prefix@ + json_error_text(*e),
{
    let detail = error_text(e);
    let mut msg = String::new();
    push_str(&mut msg, prefix);
    push_str(&mut msg, detail.as_str());
    msg
}

/// The outcome of converting saved data: the converted value, or the
/// deserialization-error message for serde_json's error.
pub fn deserialize_outcome<T>(parsed: Result<T, serde_json::Error>) -> (res: Result<T, String>)
    ensures
        match parsed {
            Ok(v) => res == Ok::<T, String>(v),
            Err(e) => res matches Err(m) && m@ == "Deserialization error: "@ + json_error_text(e),
        },
{
    match parsed {
        Ok(v) => Ok(v),
        Err(e) => {
            let msg = error_message("Deserialization error: ", &e);
            Err(msg)
        },
    }
}

/// Convert saved JSON text into `T`, describing a failure as a
/// deserialization error.
pub fn deserialize_saved<T: DeserializeOwned>(content: &str) -> (res: Result<T, String>)
    ensures
        res matches Err(m) ==> is_deserialization_error(m@),
{
    deserialize_outcome(parse_json_as(content))
}

/// Convert a parsed JSON document into `T`, describing a failure as a
/// deserialization error.
pub fn deserialize_value<T: DeserializeOwned>(value: serde_json::Value) -> (res: Result<T, String>)
    ensures
        res matches Err(m) ==> is_deserialization_error(m@),
{
    deserialize_outcome(value_into(value))
}

/// `serde_json::to_string_pretty::<T>`: writes `data` as indented JSON with
/// `T`'s `Serialize` impl. Nothing is claimed: the outcome depends on that
/// impl, which is the caller's.
#[verifier::external_body]
fn to_json_pretty<T: Serialize>(data: &T) -> (res: Result<String, serde_json::Error>) {
    serde_json::to_string_pretty(data)
}

/// `serde_json::to_string::<T>`: writes `data` as compact JSON with `T`'s
/// `Serialize` impl. Nothing is claimed: the outcome depends on that impl.
#[verifier::external_body]
fn to_json<T: Serialize>(data: &T) -> (res: Result<String, serde_json::Error>) {
    serde_json::to_string(data)
}

/// The outcome of writing data as JSON: the text, or the
/// serialization-error message for serde_json's error.
pub fn serialization_outcome(written: Result<String, serde_json::Error>) -> (res: Result<String, String>)
    ensures
        match written {
            Ok(t) => res matches Ok(u) && u@ == t@,
            Err(e) => res matches Err(m) && m@ == "Serialization error: "@ + json_error_text(e),
        },
{
    match written {
        Ok(t) => Ok(t),
        Err(e) => {
            let msg = error_message("Serialization error: ", &e);
            Err(msg)
        },
    }
}

/// Write `data` as indented JSON for saving, describing a failure as a
/// serialization error.
pub fn serialize_pretty<T: Serialize>(data: &T) -> (res: Result<String, String>)
    ensures
        res matches Err(m) ==> is_serialization_error(m@),
{
    serialization_outcome(to_json_pretty(data))
}

/// Write `data` as compact JSON for saving, describing a failure as a
/// serialization error.
pub fn serialize_compact<T: Serialize>(data: &T) -> (res: Result<String, String>)
    ensures
        res matches Err(m) ==> is_serialization_error(m@),
{
    serialization_outcome(to_json(data))
}

} // verus!
