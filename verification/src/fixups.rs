//! Expand the compact binding-schema syntax into strict JSON Schema
//! (Draft 2019-09) that the validator can consume.
//!
//! The entry point is [`fixup_schema`], which rewrites a loaded binding document
//! in place. Each step is stated as a function on the document model.
use vstd::prelude::*;
use crate::json::{
    copy_strings, copy_value, field_find, field_get, field_insert, field_insert_absent,
    field_remove, field_replace_at, find_key, lemma_find_from, lemma_view_entries, lemma_view_seq,
    obj_get, obj_has, obj_insert, obj_insert_absent, obj_remove, view_entries, view_seq, Entries,
    Json, Value,
};
use crate::lib_helpers::{int_schema, is_int_schema, is_string_schema, string_schema};
use crate::strings::{str_eq, strings_view};
pub use crate::subschema::fixup_schema;

verus! {

// ---- scalar keyword extraction ----------------------------------------------

/// Move member `k` from the first object to the second.
pub open spec fn move_key(st: (Entries, Entries), k: Seq<char>) -> (Entries, Entries) {
    match obj_get(st.0, k) {
        Some(v) => (obj_remove(st.0, k), obj_insert(st.1, k, v)),
        None => st,
    }
}

/// Split the scalar keywords (`const`, `enum`, `pattern`, `minimum`, `maximum`,
/// `multipleOf`) out of an object: (what remains, the scalar keywords).
pub open spec fn extract_scalars(m: Entries) -> (Entries, Entries) {
    let s = (m, Seq::<(Seq<char>, Json)>::empty());
    let s = move_key(s, "const"@);
    let s = move_key(s, "enum"@);
    let s = move_key(s, "pattern"@);
    let s = move_key(s, "minimum"@);
    let s = move_key(s, "maximum"@);
    move_key(s, "multipleOf"@)
}

fn move_member(src: &mut Vec<(String, Value)>, dst: &mut Vec<(String, Value)>, k: &str)
    ensures
        (view_entries(final(src)@), view_entries(final(dst)@)) == move_key(
            (view_entries(old(src)@), view_entries(old(dst)@)),
            k@,
        ),
{
    if let Some(v) = field_remove(src, k) {
        field_insert(dst, k.to_owned(), v);
    }
}

/// Pop scalar keywords out into a fresh object.
fn extract_single_schemas(subschema: &mut Vec<(String, Value)>) -> (r: Value)
    ensures
        view_entries(final(subschema)@) == extract_scalars(view_entries(old(subschema)@)).0,
        r@ == Json::Object(extract_scalars(view_entries(old(subschema)@)).1),
{
    let mut out: Vec<(String, Value)> = Vec::new();
    assert(view_entries(out@) =~= Seq::<(Seq<char>, Json)>::empty());
    move_member(subschema, &mut out, "const");
    move_member(subschema, &mut out, "enum");
    move_member(subschema, &mut out, "pattern");
    move_member(subschema, &mut out, "minimum");
    move_member(subschema, &mut out, "maximum");
    move_member(subschema, &mut out, "multipleOf");
    Value::Object(out)
}

pub open spec fn single(j: Json) -> Json {
    Json::Array(seq![j])
}

fn single_value(v: Value) -> (r: Value)
    ensures
        r@ == single(v@),
{
    let a = vec![v];
    proof {
        lemma_view_seq(a@);
        assert(view_seq(a@) =~= seq![a@[0]@]);
    }
    Value::Array(a)
}

/// `{"items": [x]}`.
pub open spec fn items_of(x: Json) -> Json {
    Json::Object(obj_insert(Seq::empty(), "items"@, single(x)))
}

fn items_of_value(x: Value) -> (r: Value)
    ensures
        r@ == items_of(x@),
{
    let mut o: Vec<(String, Value)> = Vec::new();
    assert(view_entries(o@) =~= Seq::<(Seq<char>, Json)>::empty());
    field_insert(&mut o, "items".to_owned(), single_value(x));
    Value::Object(o)
}

// ---- scalar/array/matrix fixups ---------------------------------------------

/// A string schema becomes an array whose single item carries the scalar
/// keywords.
pub open spec fn string_to_array(j: Json) -> Json {
    if string_schema(j) {
        let (rest, scalars) = extract_scalars(j.entries());
        Json::Object(obj_insert(rest, "items"@, single(Json::Object(scalars))))
    } else {
        j
    }
}

/// Wrap string-valued schemas in an array item schema.
fn fixup_string_to_array(subschema: &mut Value)
    ensures
        final(subschema)@ == string_to_array(old(subschema)@),
{
    if !is_string_schema(subschema) {
        return;
    }
    match subschema {
        Value::Object(o) => {
            let inner = extract_single_schemas(o);
            field_insert(o, "items".to_owned(), single_value(inner));
        },
        _ => {},
    }
}

pub open spec fn path_has(path: Seq<Seq<char>>, name: Seq<char>) -> bool {
    path.contains(name)
}

/// The object fields of the item schema `items` names: its first element when a
/// list, itself when an object.
pub open spec fn item_fields(items: Json) -> Entries {
    match items {
        Json::Array(a) => if a.len() > 0 && a[0] is Object { a[0].entries() } else { Seq::empty() },
        Json::Object(m) => m,
        _ => Seq::empty(),
    }
}

/// A `reg` schema with integer constraints becomes a matrix: `{items:
/// [{items: [<scalar keywords>]}]}`, the keywords taken from the item schema
/// when there is one, else from the schema itself.
pub open spec fn reg_schema(j: Json, path: Seq<Seq<char>>) -> Json {
    if !path_has(path, "reg"@) {
        j
    } else {
        match j {
            Json::Object(m) => {
                let items = obj_get(m, "items"@);
                let item_is_int = match items {
                    Some(Json::Array(a)) => a.len() > 0 && int_schema(a[0]),
                    Some(other) => int_schema(other),
                    None => int_schema(j),
                };
                if items is Some && !item_is_int {
                    j
                } else if items is None && !int_schema(j) {
                    j
                } else {
                    let (m2, extracted) = match items {
                        Some(it) => (m, extract_scalars(item_fields(it)).1),
                        None => extract_scalars(m),
                    };
                    Json::Object(obj_insert(m2, "items"@, single(items_of(Json::Object(extracted)))))
                }
            },
            _ => j,
        }
    }
}

fn path_contains(path: &Vec<String>, name: &str) -> (r: bool)
    ensures
        r == path_has(strings_view(path@), name@),
{
    let ghost pv = strings_view(path@);
    let mut i: usize = 0;
    while i < path.len()
        invariant
            i <= path@.len(),
            pv == strings_view(path@),
            pv.len() == path@.len(),
            forall|j: int| 0 <= j < i ==> pv[j] != name@,
        decreases path.len() - i,
    {
        if str_eq(path[i].as_str(), name) {
            assert(pv[i as int] == name@);
            return true;
        }
        i += 1;
    }
    false
}

fn item_fields_value(items: &Value) -> (r: Vec<(String, Value)>)
    ensures
        view_entries(r@) == item_fields(items@),
{
    match items {
        Value::Array(a) => {
            proof { lemma_view_seq(a@); }
            if a.len() > 0 {
                if let Value::Object(o) = &a[0] {
                    let c = copy_value(&a[0]);
                    if let Value::Object(co) = c {
                        return co;
                    }
                }
            }
            let e: Vec<(String, Value)> = Vec::new();
            assert(view_entries(e@) =~= Seq::<(Seq<char>, Json)>::empty());
            e
        },
        Value::Object(_) => {
            let c = copy_value(items);
            if let Value::Object(co) = c {
                co
            } else {
                let e: Vec<(String, Value)> = Vec::new();
                e
            }
        },
        _ => {
            let e: Vec<(String, Value)> = Vec::new();
            assert(view_entries(e@) =~= Seq::<(Seq<char>, Json)>::empty());
            e
        },
    }
}

/// Reshape `reg` scalar constraints into the matrix form used for DT data.
fn fixup_reg_schema(subschema: &mut Value, path: &Vec<String>)
    ensures
        final(subschema)@ == reg_schema(old(subschema)@, strings_view(path@)),
{
    if !path_contains(path, "reg") {
        return;
    }
    let self_int = is_int_schema(subschema);
    match subschema {
        Value::Object(o) => {
            let item_is_int = match field_get(o, "items") {
                Some(Value::Array(a)) => {
                    proof { lemma_view_seq(a@); }
                    a.len() > 0 && is_int_schema(&a[0])
                },
                Some(other) => is_int_schema(other),
                None => self_int,
            };
            let has_items = field_get(o, "items").is_some();
            if has_items && !item_is_int {
                return;
            }
            if !has_items && !self_int {
                return;
            }
            let extracted = match field_get(o, "items") {
                Some(items) => {
                    let mut fields = item_fields_value(items);
                    extract_single_schemas(&mut fields)
                },
                None => extract_single_schemas(o),
            };
            let inner = items_of_value(extracted);
            field_insert(o, "items".to_owned(), single_value(inner));
        },
        _ => {},
    }
}

/// An object with `items`, `maxItems` or `minItems`.
pub open spec fn has_size_key(j: Json) -> bool {
    j.has("items"@) || j.has("maxItems"@) || j.has("minItems"@)
}

pub open spec fn any_sized(a: Seq<Json>) -> bool {
    exists|i: int| 0 <= i < a.len() && #[trigger] has_size_key(a[i])
}

/// A schema whose `items` (or one of them) is itself sized.
pub open spec fn matrix_schema(j: Json) -> bool {
    match j.get("items"@) {
        Some(Json::Array(a)) => any_sized(a),
        Some(other) => has_size_key(other),
        None => false,
    }
}

fn value_has_size_key(v: &Value) -> (r: bool)
    ensures
        r == has_size_key(v@),
{
    v.has("items") || v.has("maxItems") || v.has("minItems")
}

/// Return whether a schema already has matrix-like item constraints.
fn is_matrix_schema(subschema: &Value) -> (r: bool)
    ensures
        r == matrix_schema(subschema@),
{
    match subschema.get("items") {
        Some(Value::Array(a)) => {
            proof { lemma_view_seq(a@); }
            let mut i: usize = 0;
            while i < a.len()
                invariant
                    i <= a@.len(),
                    view_seq(a@).len() == a@.len(),
                    subschema@.get("items"@) == Some(Json::Array(view_seq(a@))),
                    forall|j: int| 0 <= j < a@.len() ==> #[trigger] view_seq(a@)[j] == a@[j]@,
                    forall|j: int| 0 <= j < i ==> !has_size_key(#[trigger] view_seq(a@)[j]),
                decreases a.len() - i,
            {
                assert(view_seq(a@)[i as int] == a@[i as int]@);
                if value_has_size_key(&a[i]) {
                    assert(has_size_key(view_seq(a@)[i as int]));
                    let ghost s = view_seq(a@);
                    assert(any_sized(s));
                    return true;
                }
                i += 1;
            }
            false
        },
        Some(other) => value_has_size_key(other),
        None => false,
    }
}


// ---- empty item lists -------------------------------------------------------

/// Remove empty `items` lists after preserving their fixed length: an `items`
/// object is processed recursively; in an `items` list the object items lose
/// their `description` and are processed in order until the first one that is
/// not empty. When none is, the list is replaced by `type: array` and equal
/// `minItems`/`maxItems` (each only if absent).
pub open spec fn remove_empty_items(j: Json) -> Json
    decreases j, 0int,
{
    match j {
        Json::Object(m) => {
            let i = find_key(m, "items"@);
            if 0 <= i < m.len() {
                match m[i].1 {
                    Json::Object(_) => {
                        proof {
                            assert(decreases_to!(j => j->Object_0));
                            assert(decreases_to!(j->Object_0 => j->Object_0[i]));
                            assert(decreases_to!(j->Object_0[i] => j->Object_0[i].1));
                        }
                        Json::Object(m.update(i, (m[i].0, remove_empty_items(m[i].1))))
                    },
                    Json::Array(a) => {
                        proof {
                            assert(decreases_to!(j => j->Object_0));
                            assert(decreases_to!(j->Object_0 => j->Object_0[i]));
                            assert(decreases_to!(j->Object_0[i] => j->Object_0[i].1));
                            assert(decreases_to!(j->Object_0[i].1 => j->Object_0[i].1->Array_0));
                        }
                        let r = empty_items_tail(a, 0);
                        if r.1 {
                            let n = Json::Int(a.len() as int);
                            let m1 = obj_insert_absent(m, "type"@, Json::Str("array"@));
                            let m2 = obj_insert_absent(m1, "maxItems"@, n);
                            let m3 = obj_insert_absent(m2, "minItems"@, n);
                            Json::Object(obj_remove(m3, "items"@))
                        } else {
                            Json::Object(m.update(i, (m[i].0, Json::Array(r.0))))
                        }
                    },
                    _ => j,
                }
            } else {
                j
            }
        },
        _ => j,
    }
}

/// The items from index `k` on after processing, and whether every processed
/// object item came out empty.
pub open spec fn empty_items_tail(a: Seq<Json>, k: int) -> (Seq<Json>, bool)
    decreases a, a.len() - k,
{
    if k < 0 || k >= a.len() {
        (Seq::empty(), true)
    } else if !(a[k] is Object) {
        let r = empty_items_tail(a, k + 1);
        (seq![a[k]] + r.0, r.1)
    } else {
        let it = remove_empty_items(a[k]).remove("description"@);
        if it.is_nonempty_object() {
            (seq![it] + a.skip(k + 1), false)
        } else {
            let r = empty_items_tail(a, k + 1);
            (seq![it] + r.0, r.1)
        }
    }
}

pub(crate) proof fn lemma_skip_next<T>(a: Seq<T>, b: Seq<T>, k: int)
    requires
        0 <= k < a.len(),
        a.len() == b.len(),
        a.skip(k) == b.skip(k),
    ensures
        a.skip(k + 1) == b.skip(k + 1),
        a[k] == b[k],
{
    assert(a[k] == a.skip(k)[0]);
    assert(b[k] == b.skip(k)[0]);
    assert forall|x: int| 0 <= x < a.len() - (k + 1) implies #[trigger] a.skip(k + 1)[x] == b.skip(k + 1)[x] by {
        assert(a.skip(k + 1)[x] == a.skip(k)[x + 1]);
        assert(b.skip(k + 1)[x] == b.skip(k)[x + 1]);
    }
    assert(a.skip(k + 1) =~= b.skip(k + 1));
}

fn int_value(n: usize) -> (r: Value)
    ensures
        r@ == Json::Int(n as int),
{
    Value::Int(n as i128)
}

fn is_nonempty_object(v: &Value) -> (r: bool)
    ensures
        r == v@.is_nonempty_object(),
{
    match v {
        Value::Object(o) => {
            proof { lemma_view_entries(o@); }
            o.len() > 0
        },
        _ => false,
    }
}

/// Remove empty `items` arrays after preserving their fixed length.
#[verifier::loop_isolation(false)]
fn remove_empty_items_value(v: Value) -> (r: Value)
    ensures
        r@ == remove_empty_items(v@),
    decreases v@,
{
    let ghost jv = v@;
    match v {
        Value::Object(mut o) => {
            let ghost m = view_entries(o@);
            proof { lemma_view_entries(o@); }
            match field_find(&o, "items") {
                None => { let out = Value::Object(o); assert(out@ == remove_empty_items(jv)); out },
                Some(i) => {
                    let kind: u8 = match &o[i].1 {
                        Value::Object(_) => 1,
                        Value::Array(_) => 2,
                        _ => 0,
                    };
                    if kind == 1 {
                        let child = field_replace_at(&mut o, i, Value::Null);
                        proof {
                            assert(decreases_to!(jv => jv->Object_0));
                            assert(decreases_to!(jv->Object_0 => jv->Object_0[i as int]));
                            assert(decreases_to!(jv->Object_0[i as int] => jv->Object_0[i as int].1));
                        }
                        let c2 = remove_empty_items_value(child);
                        let ghost c2v = c2@;
                        field_replace_at(&mut o, i, c2);
                        assert(view_entries(o@) =~= m.update(i as int, (m[i as int].0, c2v)));
                        let out = Value::Object(o);
                        assert(out@ == remove_empty_items(jv));
                        out
                    } else if kind == 2 {
                        let copy = copy_value(&o[i].1);
                        let mut ac = match copy {
                            Value::Array(a) => a,
                            _ => Vec::new(),
                        };
                        let ghost s = view_seq(ac@);
                        assert(s == m[i as int].1->Array_0);
                        proof {
                            lemma_view_seq(ac@);
                            assert(decreases_to!(jv => jv->Object_0));
                            assert(decreases_to!(jv->Object_0 => jv->Object_0[i as int]));
                            assert(decreases_to!(jv->Object_0[i as int] => jv->Object_0[i as int].1));
                            assert(decreases_to!(jv->Object_0[i as int].1 => jv->Object_0[i as int].1->Array_0));
                        }
                        let n = ac.len();
                        let mut k: usize = 0;
                        let mut all_empty = true;
                        let mut broke = false;
                        assert(view_seq(ac@).take(0) + empty_items_tail(s, 0).0 =~= empty_items_tail(s, 0).0);
                        while k < n && !broke
                            invariant
                                n == ac@.len(),
                                n == s.len(),
                                k <= n,
                                view_seq(ac@).len() == n,
                                !broke ==> view_seq(ac@).skip(k as int) == s.skip(k as int),
                                !broke ==> view_seq(ac@).take(k as int) + empty_items_tail(s, k as int).0
                                    == empty_items_tail(s, 0).0,
                                !broke ==> empty_items_tail(s, k as int).1 == empty_items_tail(s, 0).1,
                                broke ==> view_seq(ac@) == empty_items_tail(s, 0).0,
                                broke ==> !empty_items_tail(s, 0).1,
                                !broke ==> all_empty,
                                broke ==> !all_empty,
                            decreases n - k,
                        {
                            proof { lemma_view_seq(ac@); }
                            let ghost before = view_seq(ac@);
                            proof { lemma_skip_next(before, s, k as int); }
                            if matches!(ac[k], Value::Object(_)) {
                                let item = ac.remove(k);
                                proof {
                                    assert(decreases_to!(s => s[k as int]));
                                }
                                let mut it = remove_empty_items_value(item);
                                it.remove("description");
                                let nonempty = is_nonempty_object(&it);
                                let ghost itv = it@;
                                ac.insert(k, it);
                                proof {
                                    lemma_view_seq(ac@);
                                    assert(view_seq(ac@) =~= before.update(k as int, itv));
                                }
                                if nonempty {
                                    broke = true;
                                    all_empty = false;
                                    assert(view_seq(ac@).skip(k + 1) =~= before.skip(k + 1));
                                    assert(view_seq(ac@) =~= before.take(k as int) + (seq![itv] + s.skip(k + 1)));
                                } else {
                                    assert(view_seq(ac@).take(k + 1) =~= before.take(k as int) + seq![itv]);
                                    assert(view_seq(ac@).skip(k + 1) =~= before.skip(k + 1));
                                }
                            } else {
                                assert(view_seq(ac@).take(k + 1) =~= before.take(k as int) + seq![s[k as int]]);
                            }
                            k += 1;
                        }
                        if !broke {
                            assert(view_seq(ac@).take(n as int) =~= view_seq(ac@));
                            assert(empty_items_tail(s, n as int).1);
                            assert(empty_items_tail(s, 0).1);
                        }
                        if all_empty {
                            assert(view_entries(o@) == m);
                            assert(m[i as int].1 == Json::Array(s));
                            assert(jv == Json::Object(m));
                            assert(empty_items_tail(s, 0).1);
                            field_insert_absent(&mut o, "type".to_owned(), Value::string("array"));
                            field_insert_absent(&mut o, "maxItems".to_owned(), int_value(n));
                            field_insert_absent(&mut o, "minItems".to_owned(), int_value(n));
                            field_remove(&mut o, "items");
                            let out = Value::Object(o);
                            assert(out@ == remove_empty_items(jv));
                            out
                        } else {
                            let ghost acv = view_seq(ac@);
                            field_replace_at(&mut o, i, Value::Array(ac));
                            assert(view_entries(o@) =~= m.update(i as int, (m[i as int].0, Json::Array(acv))));
                            let out = Value::Object(o);
                            assert(out@ == remove_empty_items(jv));
                            out
                        }
                    } else {
                        let out = Value::Object(o);
                        assert(out@ == remove_empty_items(jv));
                        out
                    }
                },
            }
        },
        other => other,
    }
}


// ---- unit-suffix properties ---------------------------------------------------

/// Property-name suffixes of units whose values are arrays (kept in step with
/// `property-units.yaml`).
pub open spec fn unit_array_pattern() -> Seq<char> {
    "-(kBps|bits|percent|bp|db|mhz|sec|ms|us|ns|ps|mm|nanoamp|(micro-)?ohms|micro(amp|watt)(-hours)?|milliwatt|(femto|pico)farads|(milli)?celsius|kelvin|k?pascal)$"@
}

fn unit_array_re() -> (r: &'static str)
    ensures
        r@ == unit_array_pattern(),
{
    "-(kBps|bits|percent|bp|db|mhz|sec|ms|us|ns|ps|mm|nanoamp|(micro-)?ohms|micro(amp|watt)(-hours)?|milliwatt|(femto|pico)farads|(milli)?celsius|kelvin|k?pascal)$"
}

/// Property-name suffixes of units whose values are matrices.
pub open spec fn unit_matrix_pattern() -> Seq<char> {
    "-(hz|microvolt)$"@
}

fn unit_matrix_re() -> (r: &'static str)
    ensures
        r@ == unit_matrix_pattern(),
{
    "-(hz|microvolt)$"
}

/// `pattern` compiles and matches `text`.
pub open spec fn re_matches(pattern: Seq<char>, text: Seq<char>) -> bool {
    crate::trusted::regex_match_result(pattern, text) == Some(true)
}

pub(crate) fn re_is_match(pattern: &str, text: &str) -> (r: bool)
    ensures
        r == re_matches(pattern@, text@),
{
    match crate::trusted::regex_is_match(pattern, text) {
        Some(b) => b,
        None => false,
    }
}

pub open spec fn is_container_key(s: Seq<char>) -> bool {
    s == "properties"@ || s == "$defs"@ || s == "definitions"@
}

/// Index of the last `properties`/`$defs`/`definitions` segment, or -1.
pub open spec fn last_container(path: Seq<Seq<char>>) -> int
    decreases path.len(),
{
    if path.len() == 0 {
        -1
    } else if is_container_key(path.last()) {
        path.len() - 1
    } else {
        last_container(path.drop_last())
    }
}

/// The property name a value schema belongs to: the segment after the last
/// container keyword (the first segment when that keyword ends the path).
pub open spec fn unit_propname(path: Seq<Seq<char>>) -> Option<Seq<char>> {
    let f = last_container(path);
    if f < 0 {
        None
    } else if f == path.len() - 1 {
        Some(path[0])
    } else {
        Some(path[f + 1])
    }
}

/// Implicit array or matrix shapes for property names with unit suffixes.
pub open spec fn unit_suffix(j: Json, path: Seq<Seq<char>>) -> Json {
    match unit_propname(path) {
        None => j,
        Some(name) => if j.get("$ref"@) is Some {
            j
        } else if re_matches(unit_array_pattern(), name) && int_schema(j) {
            let (rest, sc) = extract_scalars(j.entries());
            Json::Object(obj_insert(rest, "items"@, single(Json::Object(sc))))
        } else if re_matches(unit_matrix_pattern(), name) {
            if matrix_schema(j) {
                j
            } else if has_size_key(j) {
                Json::Object(
                    obj_remove(
                        obj_remove(obj_insert(j.entries(), "items"@, single(j)), "minItems"@),
                        "maxItems"@,
                    ),
                )
            } else if int_schema(j) {
                let (rest, sc) = extract_scalars(j.entries());
                Json::Object(obj_insert(rest, "items"@, single(items_of(Json::Object(sc)))))
            } else {
                j
            }
        } else {
            j
        },
    }
}

fn is_container(s: &str) -> (r: bool)
    ensures
        r == is_container_key(s@),
{
    str_eq(s, "properties") || str_eq(s, "$defs") || str_eq(s, "definitions")
}

fn find_propname(path: &Vec<String>) -> (r: Option<String>)
    ensures
        match r {
            Some(n) => unit_propname(strings_view(path@)) == Some(n@),
            None => unit_propname(strings_view(path@)) is None,
        },
{
    let ghost pv = strings_view(path@);
    let mut k: usize = path.len();
    assert(pv.take(k as int) =~= pv);
    while k > 0
        invariant
            k <= path@.len(),
            pv == strings_view(path@),
            pv.len() == path@.len(),
            last_container(pv) == last_container(pv.take(k as int)),
        decreases k,
    {
        assert(pv.take(k as int).drop_last() =~= pv.take(k - 1));
        assert(pv.take(k as int).last() == pv[k - 1]);
        if is_container(path[k - 1].as_str()) {
            assert(last_container(pv) == k - 1);
            if k == path.len() {
                return Some(path[0].clone());
            } else {
                return Some(path[k].clone());
            }
        }
        k -= 1;
    }
    assert(pv.take(0).len() == 0);
    None
}

/// Apply implicit types for property names with known unit suffixes.
fn fixup_unit_suffix_props(subschema: &mut Value, path: &Vec<String>)
    ensures
        final(subschema)@ == unit_suffix(old(subschema)@, strings_view(path@)),
{
    let propname = match find_propname(path) {
        Some(p) => p,
        None => return,
    };
    if subschema.get("$ref").is_some() {
        return;
    }
    if re_is_match(unit_array_re(), propname.as_str()) && is_int_schema(subschema) {
        match subschema {
            Value::Object(o) => {
                let inner = extract_single_schemas(o);
                field_insert(o, "items".to_owned(), single_value(inner));
            },
            _ => {},
        }
    } else if re_is_match(unit_matrix_re(), propname.as_str()) {
        if is_matrix_schema(subschema) {
            return;
        }
        if value_has_size_key(subschema) {
            let clone = copy_value(subschema);
            match subschema {
                Value::Object(o) => {
                    field_insert(o, "items".to_owned(), single_value(clone));
                    field_remove(o, "minItems");
                    field_remove(o, "maxItems");
                },
                _ => {},
            }
        } else if is_int_schema(subschema) {
            match subschema {
                Value::Object(o) => {
                    let inner = extract_single_schemas(o);
                    let matrix = items_of_value(inner);
                    field_insert(o, "items".to_owned(), single_value(matrix));
                },
                _ => {},
            }
        }
    }
}

// ---- array sizes ---------------------------------------------------------------

pub open spec fn path_in_conditional(path: Seq<Seq<char>>) -> bool {
    path.contains("then"@) || path.contains("else"@)
}

/// Fill in fixed array sizes implied by `items`, dropping `description`s:
/// a schema with `items` gets `type: array` (and, for an `items` list,
/// `minItems`/`maxItems` equal to its length when absent); outside `then`/`else`
/// a lone `minItems` or `maxItems` is copied to the other.
pub open spec fn items_size(j: Json, path: Seq<Seq<char>>) -> Json
    decreases j, 0int,
{
    match j {
        Json::Array(a) => {
            proof { assert(decreases_to!(j => j->Array_0)); }
            Json::Array(items_size_seq(a, path))
        },
        Json::Object(m0) => {
            let i0 = find_key(m0, "items"@);
            let m = obj_remove(m0, "description"@);
            if 0 <= i0 < m0.len() {
                proof {
                    assert(decreases_to!(j => j->Object_0));
                    assert(decreases_to!(j->Object_0 => j->Object_0[i0]));
                    assert(decreases_to!(j->Object_0[i0] => j->Object_0[i0].1));
                }
                let child = items_size(m0[i0].1, path.push("items"@));
                let m1 = obj_insert(m, "type"@, Json::Str("array"@));
                let m2 = match m0[i0].1 {
                    Json::Array(a) => obj_insert_absent(
                        obj_insert_absent(m1, "minItems"@, Json::Int(a.len() as int)),
                        "maxItems"@,
                        Json::Int(a.len() as int),
                    ),
                    _ => m1,
                };
                Json::Object(obj_insert(m2, "items"@, child))
            } else if !path_in_conditional(path) {
                let has_max = obj_has(m, "maxItems"@);
                let has_min = obj_has(m, "minItems"@);
                if has_max && !has_min {
                    Json::Object(obj_insert(m, "minItems"@, obj_get(m, "maxItems"@).unwrap()))
                } else if has_min && !has_max {
                    Json::Object(obj_insert(m, "maxItems"@, obj_get(m, "minItems"@).unwrap()))
                } else {
                    Json::Object(m)
                }
            } else {
                Json::Object(m)
            }
        },
        _ => j,
    }
}

pub open spec fn items_size_seq(a: Seq<Json>, path: Seq<Seq<char>>) -> Seq<Json>
    decreases a, 1int,
{
    if a.len() == 0 {
        a
    } else {
        items_size_seq(a.drop_last(), path).push(items_size(a.last(), path))
    }
}

/// Outside `then`/`else`, an object schema without `items` whose size is
/// bounded on one side only gets the same bound on the other side: a lone
/// `maxItems` is also its `minItems`, a lone `minItems` also its `maxItems`;
/// bounds given on both sides are kept as they are.
pub proof fn lemma_lone_size_bound_fixes_size(j: Json, path: Seq<Seq<char>>)
    requires
        j is Object,
        !j.has("items"@),
        !path_in_conditional(path),
    ensures
        j.has("maxItems"@) && !j.has("minItems"@) ==> {
            &&& items_size(j, path).get("minItems"@) == j.get("maxItems"@)
            &&& items_size(j, path).get("maxItems"@) == j.get("maxItems"@)
        },
        j.has("minItems"@) && !j.has("maxItems"@) ==> {
            &&& items_size(j, path).get("maxItems"@) == j.get("minItems"@)
            &&& items_size(j, path).get("minItems"@) == j.get("minItems"@)
        },
        j.has("minItems"@) && j.has("maxItems"@) ==> {
            &&& items_size(j, path).get("maxItems"@) == j.get("maxItems"@)
            &&& items_size(j, path).get("minItems"@) == j.get("minItems"@)
        },
{
    reveal_strlit("description");
    reveal_strlit("minItems");
    reveal_strlit("maxItems");
    assert("description"@.len() == 11 && "minItems"@.len() == 8 && "maxItems"@.len() == 8);
    assert("minItems"@[1] != "maxItems"@[1]);
    let m0 = j->Object_0;
    let m = obj_remove(m0, "description"@);
    lemma_find_from(m0, "items"@, 0);
    crate::json::lemma_remove_get_other(m0, "description"@, "minItems"@);
    crate::json::lemma_remove_get_other(m0, "description"@, "maxItems"@);
    lemma_find_from(m, "minItems"@, 0);
    lemma_find_from(m, "maxItems"@, 0);
    lemma_find_from(m0, "minItems"@, 0);
    lemma_find_from(m0, "maxItems"@, 0);
    if obj_has(m, "maxItems"@) && !obj_has(m, "minItems"@) {
        let v = obj_get(m, "maxItems"@).unwrap();
        crate::json::lemma_insert_get(m, "minItems"@, v);
        crate::json::lemma_insert_get_other(m, "minItems"@, v, "maxItems"@);
    } else if obj_has(m, "minItems"@) && !obj_has(m, "maxItems"@) {
        let v = obj_get(m, "minItems"@).unwrap();
        crate::json::lemma_insert_get(m, "maxItems"@, v);
        crate::json::lemma_insert_get_other(m, "maxItems"@, v, "minItems"@);
    }
}

pub(crate) fn path_push(path: &Vec<String>, seg: &str) -> (r: Vec<String>)
    ensures
        strings_view(r@) == strings_view(path@).push(seg@),
{
    let mut p = copy_strings(path);
    p.push(seg.to_owned());
    assert(strings_view(p@) =~= strings_view(path@).push(seg@));
    p
}

fn path_in_then_else(path: &Vec<String>) -> (r: bool)
    ensures
        r == path_in_conditional(strings_view(path@)),
{
    path_contains(path, "then") || path_contains(path, "else")
}

/// Fill in fixed array sizes implied by `items`.
#[verifier::loop_isolation(false)]
fn items_size_value(v: Value, path: &Vec<String>) -> (r: Value)
    ensures
        r@ == items_size(v@, strings_view(path@)),
    decreases v@,
{
    let ghost jv = v@;
    match v {
        Value::Array(mut a) => {
            let ghost s = view_seq(a@);
            proof { lemma_view_seq(a@); }
            let n = a.len();
            let mut i: usize = 0;
            while i < n
                invariant
                    n == a@.len(),
                    n == s.len(),
                    i <= n,
                    jv == Json::Array(s),
                    view_seq(a@).len() == n,
                    view_seq(a@).take(i as int) == items_size_seq(s.take(i as int), strings_view(path@)),
                    view_seq(a@).skip(i as int) == s.skip(i as int),
                decreases n - i,
            {
                proof { lemma_view_seq(a@); }
                let ghost before = view_seq(a@);
                proof { lemma_skip_next(before, s, i as int); }
                let item = a.remove(i);
                proof {
                    assert(decreases_to!(jv => jv->Array_0));
                    assert(decreases_to!(jv->Array_0 => jv->Array_0[i as int]));
                }
                let it = items_size_value(item, path);
                let ghost itv = it@;
                a.insert(i, it);
                proof {
                    lemma_view_seq(a@);
                    assert(view_seq(a@) =~= before.update(i as int, itv));
                    assert(s.take(i + 1).drop_last() =~= s.take(i as int));
                    assert(view_seq(a@).take(i + 1) =~= before.take(i as int).push(itv));
                    assert(view_seq(a@).skip(i + 1) =~= before.skip(i + 1));
                }
                i += 1;
            }
            assert(view_seq(a@).take(n as int) =~= view_seq(a@));
            assert(s.take(n as int) =~= s);
            Value::Array(a)
        },
        Value::Object(mut o) => {
            let ghost m0 = view_entries(o@);
            proof { lemma_view_entries(o@); }
            let found = field_find(&o, "items");
            let child_opt = match found {
                Some(i0) => Some(copy_value(&o[i0].1)),
                None => None,
            };
            field_remove(&mut o, "description");
            match found {
                Some(i0) => {
                    proof { lemma_find_from(m0, "items"@, 0); }
                    let child = match child_opt {
                        Some(c) => c,
                        None => Value::Null,
                    };
                    assert(child@ == m0[i0 as int].1);
                    proof {
                        assert(decreases_to!(jv => jv->Object_0));
                        assert(decreases_to!(jv->Object_0 => jv->Object_0[i0 as int]));
                        assert(decreases_to!(jv->Object_0[i0 as int] => jv->Object_0[i0 as int].1));
                    }
                    let len_opt: Option<usize> = match &child {
                        Value::Array(a) => {
                            proof { lemma_view_seq(a@); }
                            Some(a.len())
                        },
                        _ => None,
                    };
                    let new_path = path_push(path, "items");
                    let c2 = items_size_value(child, &new_path);
                    field_insert(&mut o, "type".to_owned(), Value::string("array"));
                    if let Some(n) = len_opt {
                        field_insert_absent(&mut o, "minItems".to_owned(), int_value(n));
                        field_insert_absent(&mut o, "maxItems".to_owned(), int_value(n));
                    }
                    field_insert(&mut o, "items".to_owned(), c2);
                    Value::Object(o)
                },
                None => {
                    if !path_in_then_else(path) {
                        let has_max = crate::json::field_contains(&o, "maxItems");
                        let has_min = crate::json::field_contains(&o, "minItems");
                        if has_max && !has_min {
                            let v = copy_value(field_get(&o, "maxItems").unwrap());
                            field_insert(&mut o, "minItems".to_owned(), v);
                        } else if has_min && !has_max {
                            let v = copy_value(field_get(&o, "minItems").unwrap());
                            field_insert(&mut o, "maxItems".to_owned(), v);
                        }
                    }
                    Value::Object(o)
                },
            }
        },
        other => other,
    }
}


// ---- Draft 2019-09 dependencies ---------------------------------------------

/// File one `dependencies` entry: a list goes to `dependentRequired`, anything
/// else to `dependentSchemas` (each created when absent). A container that is
/// not an object is left as it is.
pub open spec fn file_dependency(m: Entries, e: (Seq<char>, Json)) -> Entries {
    let key = if e.1 is Array { "dependentRequired"@ } else { "dependentSchemas"@ };
    match obj_get(m, key) {
        None => obj_insert(m, key, Json::Object(obj_insert(Seq::empty(), e.0, e.1))),
        Some(Json::Object(c)) => obj_insert(m, key, Json::Object(obj_insert(c, e.0, e.1))),
        Some(_) => m,
    }
}

pub open spec fn file_dependencies(m: Entries, deps: Entries) -> Entries
    decreases deps.len(),
{
    if deps.len() == 0 {
        m
    } else {
        file_dependency(file_dependencies(m, deps.drop_last()), deps.last())
    }
}

/// Split legacy `dependencies` into `dependentRequired` / `dependentSchemas`.
pub open spec fn schema_to_201909(j: Json) -> Json {
    match j {
        Json::Object(m) => match obj_get(m, "dependencies"@) {
            None => j,
            Some(Json::Object(deps)) => Json::Object(file_dependencies(obj_remove(m, "dependencies"@), deps)),
            Some(_) => Json::Object(obj_remove(m, "dependencies"@)),
        },
        _ => j,
    }
}

fn file_dependency_exec(o: &mut Vec<(String, Value)>, k: String, v: Value)
    ensures
        view_entries(final(o)@) == file_dependency(view_entries(old(o)@), (k@, v@)),
{
    let is_list = matches!(v, Value::Array(_));
    let key = if is_list { "dependentRequired" } else { "dependentSchemas" };
    match field_find(o, key) {
        None => {
            let mut c: Vec<(String, Value)> = Vec::new();
            assert(view_entries(c@) =~= Seq::<(Seq<char>, Json)>::empty());
            field_insert(&mut c, k, v);
            field_insert(o, key.to_owned(), Value::Object(c));
        },
        Some(i) => {
            proof {
                lemma_view_entries(o@);
                lemma_find_from(view_entries(o@), key@, 0);
            }
            let cur = field_replace_at(o, i, Value::Null);
            match cur {
                Value::Object(mut c) => {
                    field_insert(&mut c, k, v);
                    field_replace_at(o, i, Value::Object(c));
                },
                other => {
                    field_replace_at(o, i, other);
                },
            }
        },
    }
}

/// Split legacy `dependencies` into `dependentRequired` / `dependentSchemas`.
pub(crate) fn fixup_schema_to_201909(schema: &mut Value)
    ensures
        final(schema)@ == schema_to_201909(old(schema)@),
{
    match schema {
        Value::Object(o) => {
            let deps = field_remove(o, "dependencies");
            match deps {
                Some(Value::Object(d)) => {
                    let ghost dm = view_entries(d@);
                    let ghost start = view_entries(o@);
                    let mut d = d;
                    let mut i: usize = 0;
                    let n = d.len();
                    proof { lemma_view_entries(d@); }
                    // consume the entries front to back
                    while d.len() > 0
                        invariant
                            i + d@.len() == n,
                            n == dm.len(),
                            view_entries(d@) == dm.skip(i as int),
                            view_entries(o@) == file_dependencies(start, dm.take(i as int)),
                        decreases d.len(),
                    {
                        proof { lemma_view_entries(d@); }
                        let ghost dv = view_entries(d@);
                        let (k, v) = d.remove(0);
                        proof {
                            lemma_view_entries(d@);
                            assert(view_entries(d@) =~= dv.drop_first());
                            assert(dv[0] == dm[i as int]);
                            assert(dm.take(i + 1).drop_last() =~= dm.take(i as int));
                        }
                        file_dependency_exec(o, k, v);
                        i += 1;
                        assert(dm.skip(i as int) =~= dv.drop_first());
                    }
                    assert(dm.take(n as int) =~= dm);
                },
                _ => {},
            }
        },
        _ => {},
    }
}

// ---- value-level fixups ---------------------------------------------------------

/// All value-level schema fixups, in order.
pub open spec fn fixed_vals(j: Json, path: Seq<Seq<char>>) -> Json {
    let j = j.remove("description"@);
    let j = reg_schema(j, path);
    let j = remove_empty_items(j);
    let j = unit_suffix(j, path);
    let j = string_to_array(j);
    let j = items_size(j, path);
    schema_to_201909(j)
}

/// Apply value-level schema fixups.
fn fixup_vals(schema: Value, path: &Vec<String>) -> (r: Value)
    ensures
        r@ == fixed_vals(schema@, strings_view(path@)),
{
    let mut schema = schema;
    schema.remove("description");
    fixup_reg_schema(&mut schema, path);
    let mut schema = remove_empty_items_value(schema);
    fixup_unit_suffix_props(&mut schema, path);
    fixup_string_to_array(&mut schema);
    let mut schema = items_size_value(schema, path);
    fixup_schema_to_201909(&mut schema);
    schema
}


// ---- oneOf/anyOf of consts -----------------------------------------------------

/// A list entry that can become an enum value: an object with `const`, unless it
/// also has `description` and a third key.
pub open spec fn const_entry(l: Json) -> bool {
    match l {
        Json::Object(lo) => obj_has(lo, "const"@) && !(obj_has(lo, "description"@) && lo.len() > 2),
        _ => false,
    }
}

/// The `const` values of the entries, when every entry qualifies.
pub open spec fn const_values(list: Seq<Json>) -> Option<Seq<Json>>
    decreases list.len(),
{
    if list.len() == 0 {
        Some(Seq::empty())
    } else {
        match const_values(list.drop_last()) {
            Some(cs) => if const_entry(list.last()) {
                Some(cs.push(list.last().get("const"@).unwrap()))
            } else {
                None
            },
            None => None,
        }
    }
}

/// Replace the list under `key` by an `enum` of its consts, when it qualifies.
pub open spec fn list_to_enum(j: Json, key: Seq<char>) -> Json {
    match j.get(key) {
        Some(Json::Array(list)) => match const_values(list) {
            Some(cs) => Json::Object(
                obj_insert(obj_remove(obj_remove(j.entries(), "anyOf"@), "oneOf"@), "enum"@, Json::Array(cs)),
            ),
            None => j,
        },
        _ => j,
    }
}

/// Collapse simple `oneOf: [{const: ...}, ...]` (or `anyOf`) forms into `enum`;
/// without either, descend into an `items` object.
pub open spec fn oneof_to_enum(j: Json, path: Seq<Seq<char>>) -> Json
    decreases j,
{
    match j {
        Json::Object(m) => if obj_has(m, "anyOf"@) {
            list_to_enum(j, "anyOf"@)
        } else if obj_has(m, "oneOf"@) {
            list_to_enum(j, "oneOf"@)
        } else {
            let i = find_key(m, "items"@);
            if 0 <= i < m.len() && m[i].1 is Object {
                proof {
                    assert(decreases_to!(j => j->Object_0));
                    assert(decreases_to!(j->Object_0 => j->Object_0[i]));
                    assert(decreases_to!(j->Object_0[i] => j->Object_0[i].1));
                }
                Json::Object(m.update(i, (m[i].0, oneof_to_enum(m[i].1, path.push("items"@)))))
            } else {
                j
            }
        },
        _ => j,
    }
}

proof fn lemma_const_values_prefix(s: Seq<Json>, k: int)
    requires
        0 <= k <= s.len(),
        const_values(s.take(k)) is None,
    ensures
        const_values(s) is None,
    decreases s.len() - k,
{
    if k < s.len() {
        assert(s.take(k + 1).drop_last() =~= s.take(k));
        lemma_const_values_prefix(s, k + 1);
    } else {
        assert(s.take(k) =~= s);
    }
}

fn const_values_exec(list: &Vec<Value>) -> (r: Option<Vec<Value>>)
    ensures
        match r {
            Some(cs) => const_values(view_seq(list@)) == Some(view_seq(cs@)),
            None => const_values(view_seq(list@)) is None,
        },
{
    let ghost s = view_seq(list@);
    proof { lemma_view_seq(list@); }
    let mut out: Vec<Value> = Vec::new();
    let mut i: usize = 0;
    assert(view_seq(out@) =~= Seq::<Json>::empty());
    assert(s.take(0) =~= Seq::<Json>::empty());
    while i < list.len()
        invariant
            i <= list@.len(),
            s == view_seq(list@),
            s.len() == list@.len(),
            const_values(s.take(i as int)) == Some(view_seq(out@)),
        decreases list.len() - i,
    {
        proof { lemma_view_seq(list@); }
        assert(s.take(i + 1).drop_last() =~= s.take(i as int));
        assert(s.take(i + 1).last() == list@[i as int]@);
        let ok = match &list[i] {
            Value::Object(lo) => {
                proof { lemma_view_entries(lo@); }
                crate::json::field_contains(lo, "const") && !(crate::json::field_contains(lo, "description") && lo.len() > 2)
            },
            _ => false,
        };
        if !ok {
            proof { lemma_const_values_prefix(s, i + 1); }
            return None;
        }
        let c = copy_value(list[i].get("const").unwrap());
        let ghost before = out@;
        out.push(c);
        proof {
            lemma_view_seq(out@);
            lemma_view_seq(before);
            assert(view_seq(out@) =~= view_seq(before).push(c@));
        }
        i += 1;
    }
    assert(s.take(list@.len() as int) =~= s);
    Some(out)
}

fn list_to_enum_exec(schema: &mut Value, key: &str)
    ensures
        final(schema)@ == list_to_enum(old(schema)@, key@),
{
    let consts = match schema.get(key) {
        Some(Value::Array(list)) => const_values_exec(list),
        _ => None,
    };
    if let Some(cs) = consts {
        schema.remove("anyOf");
        schema.remove("oneOf");
        schema.insert("enum", Value::Array(cs));
    }
}

/// Collapse simple `oneOf: [{const: ...}, ...]` forms into `enum`.
fn fixup_oneof_to_enum(schema: Value, path: &Vec<String>) -> (r: Value)
    ensures
        r@ == oneof_to_enum(schema@, strings_view(path@)),
    decreases schema@,
{
    let ghost jv = schema@;
    let mut schema = schema;
    if schema.has("anyOf") {
        list_to_enum_exec(&mut schema, "anyOf");
        schema
    } else if schema.has("oneOf") {
        list_to_enum_exec(&mut schema, "oneOf");
        schema
    } else {
        match schema {
            Value::Object(mut o) => {
                proof { lemma_view_entries(o@); }
                match field_find(&o, "items") {
                    Some(i) => {
                        if matches!(o[i].1, Value::Object(_)) {
                            let child = field_replace_at(&mut o, i, Value::Null);
                            proof {
                                assert(decreases_to!(jv => jv->Object_0));
                                assert(decreases_to!(jv->Object_0 => jv->Object_0[i as int]));
                                assert(decreases_to!(jv->Object_0[i as int] => jv->Object_0[i as int].1));
                            }
                            let new_path = path_push(path, "items");
                            let c2 = fixup_oneof_to_enum(child, &new_path);
                            let ghost c2v = c2@;
                            let ghost mid = view_entries(o@);
                            field_replace_at(&mut o, i, c2);
                            assert(view_entries(o@) =~= jv->Object_0.update(i as int, (jv->Object_0[i as int].0, c2v)));
                        }
                        Value::Object(o)
                    },
                    None => Value::Object(o),
                }
            },
            other => other,
        }
    }
}

// ---- property walk ---------------------------------------------------------------

/// Walk a property schema: collapse const lists into enums, walk the
/// `allOf`/`oneOf`/`anyOf` lists and `then`, then apply the value fixups.
/// `fuel` bounds the nesting of the walk; the walk starts with the largest
/// `u64`, which no document that fits in memory can exhaust.
pub open spec fn walk(j: Json, path: Seq<Seq<char>>, fuel: nat) -> Json
    decreases fuel, 0int,
{
    if fuel == 0 || !(j is Object) {
        j
    } else {
        let j1 = oneof_to_enum(j, path);
        let j2 = match j1.get("allOf"@) {
            Some(Json::Array(a)) => j1.insert("allOf"@, Json::Array(walk_seq(a, path.push("allOf"@), (fuel - 1) as nat))),
            _ => j1,
        };
        let j3 = match j2.get("oneOf"@) {
            Some(Json::Array(a)) => j2.insert("oneOf"@, Json::Array(walk_seq(a, path.push("oneOf"@), (fuel - 1) as nat))),
            _ => j2,
        };
        let j4 = match j3.get("anyOf"@) {
            Some(Json::Array(a)) => j3.insert("anyOf"@, Json::Array(walk_seq(a, path.push("anyOf"@), (fuel - 1) as nat))),
            _ => j3,
        };
        let j5 = match j4.get("then"@) {
            Some(t) => j4.insert("then"@, walk(t, path.push("then"@), (fuel - 1) as nat)),
            None => j4,
        };
        fixed_vals(j5, path)
    }
}

pub open spec fn walk_seq(a: Seq<Json>, path: Seq<Seq<char>>, fuel: nat) -> Seq<Json>
    decreases fuel, a.len(),
{
    if a.len() == 0 {
        a
    } else {
        walk_seq(a.drop_last(), path, fuel).push(walk(a.last(), path, fuel))
    }
}

fn walk_list(schema: &mut Value, key: &str, path: &Vec<String>, fuel: u64)
    requires
        fuel > 0,
    ensures
        final(schema)@ == match old(schema)@.get(key@) {
            Some(Json::Array(a)) => old(schema)@.insert(
                key@,
                Json::Array(walk_seq(a, strings_view(path@).push(key@), (fuel - 1) as nat)),
            ),
            _ => old(schema)@,
        },
    decreases fuel, 0int,
{
    let ghost j0 = schema@;
    let taken = match schema {
        Value::Object(o) => {
            proof { lemma_view_entries(o@); }
            match field_find(o, key) {
                Some(i) => {
                    if matches!(o[i].1, Value::Array(_)) {
                        let child = field_replace_at(o, i, Value::Null);
                        Some((i, child))
                    } else {
                        None
                    }
                },
                None => None,
            }
        },
        _ => None,
    };
    match taken {
        Some((i, Value::Array(mut a))) => {
            proof { lemma_find_from(j0->Object_0, key@, 0); }
            let ghost s = view_seq(a@);
            proof { lemma_view_seq(a@); }
            let new_path = path_push(path, key);
            let n = a.len();
            let mut k: usize = 0;
            assert(s.take(0) =~= Seq::<Json>::empty());
            while k < n
                invariant
                    n == a@.len(),
                    n == s.len(),
                    k <= n,
                    fuel > 0,
                    strings_view(new_path@) == strings_view(path@).push(key@),
                    view_seq(a@).len() == n,
                    view_seq(a@).take(k as int) == walk_seq(s.take(k as int), strings_view(new_path@), (fuel - 1) as nat),
                    view_seq(a@).skip(k as int) == s.skip(k as int),
                decreases n - k,
            {
                proof { lemma_view_seq(a@); }
                let ghost before = view_seq(a@);
                proof { lemma_skip_next(before, s, k as int); }
                let item = a.remove(k);
                let it = walk_properties_value(item, &new_path, fuel - 1);
                let ghost itv = it@;
                a.insert(k, it);
                proof {
                    lemma_view_seq(a@);
                    assert(view_seq(a@) =~= before.update(k as int, itv));
                    assert(s.take(k + 1).drop_last() =~= s.take(k as int));
                    assert(view_seq(a@).take(k + 1) =~= before.take(k as int).push(itv));
                    assert(view_seq(a@).skip(k + 1) =~= before.skip(k + 1));
                }
                k += 1;
            }
            assert(view_seq(a@).take(n as int) =~= view_seq(a@));
            assert(s.take(n as int) =~= s);
            let ghost av = view_seq(a@);
            match schema {
                Value::Object(o) => {
                    field_replace_at(o, i, Value::Array(a));
                    assert(view_entries(o@) =~= j0->Object_0.update(i as int, (key@, Json::Array(av))));
                },
                _ => {},
            }
        },
        _ => {},
    }
}

fn walk_then(schema: &mut Value, path: &Vec<String>, fuel: u64)
    requires
        fuel > 0,
    ensures
        final(schema)@ == match old(schema)@.get("then"@) {
            Some(t) => old(schema)@.insert("then"@, walk(t, strings_view(path@).push("then"@), (fuel - 1) as nat)),
            None => old(schema)@,
        },
    decreases fuel, 0int,
{
    let ghost j0 = schema@;
    match schema {
        Value::Object(o) => {
            proof { lemma_view_entries(o@); }
            match field_find(o, "then") {
                Some(i) => {
                    proof { lemma_find_from(j0->Object_0, "then"@, 0); }
                    let child = field_replace_at(o, i, Value::Null);
                    let new_path = path_push(path, "then");
                    let c2 = walk_properties_value(child, &new_path, fuel - 1);
                    let ghost c2v = c2@;
                    field_replace_at(o, i, c2);
                    assert(view_entries(o@) =~= j0->Object_0.update(i as int, ("then"@, c2v)));
                },
                None => {},
            }
        },
        _ => {},
    }
}

/// Walk property schemas and apply value-level fixups.
pub(crate) fn walk_properties_value(schema: Value, path: &Vec<String>, fuel: u64) -> (r: Value)
    ensures
        r@ == walk(schema@, strings_view(path@), fuel as nat),
    decreases fuel, 1int,
{
    if fuel == 0 || !schema.is_object() {
        return schema;
    }
    let mut schema = fixup_oneof_to_enum(schema, path);
    walk_list(&mut schema, "allOf", path, fuel);
    walk_list(&mut schema, "oneOf", path, fuel);
    walk_list(&mut schema, "anyOf", path, fuel);
    walk_then(&mut schema, path, fuel);
    fixup_vals(schema, path)
}

} // verus!
