//! Property types: which DT type each property name has across all schemas,
//! and the `generated-types`, `generated-pattern-types` and
//! `generated-compatibles` entries that a processed schema set carries.
//!
//! A property map ([`PropMap`]) lists, for each property name in key order,
//! the type entries found for it. An entry is an object
//! `{"$id": [ids], "dim"?: [[min, max], [min, max]], "regex"?: pattern,
//! "type": name-or-null}`; `$id` and `regex` are working keys that are
//! stripped before the entries are stored.
use vstd::prelude::*;
use crate::fixups::{re_is_match, re_matches};
use crate::json::{
    copy_value, field_get, field_insert, field_insert_absent, field_take, lemma_view_entries,
    lemma_view_seq, obj_get, obj_has, obj_insert, obj_insert_absent, obj_remove, view_entries,
    view_seq,
    Entries, Json, Value,
};
use crate::lib_helpers::{array_range, get_array_range, int_pair, is_string_schema, string_schema};
use crate::strings::{
    seq_lt, contains, ends_with, seq_contains, seq_ends_with, seq_starts_with, split_char, split_on,
    starts_with, str_eq, strings_view,
};
use crate::subschema::{
    array_value, entry_keys, list_holds, list_holds_value, single_entry, single_entry_value, str_pos,
    WALK_FUEL,
};
use crate::trusted::{fancy_is_match, fancy_match_result, regex_find, regex_find_result};

verus! {

/// Property name to its list of type entries, in key order; each value is a
/// JSON list.
pub type PropMap = Vec<(String, Value)>;

// ---- patterns ------------------------------------------------------------------------

/// DT core type names, as they occur in a `$ref` to a type schema.
pub open spec fn type_pattern() -> Seq<char> {
    "(address|flag|u?int(8|16|32|64)(-(array|matrix))?|string(-array)?|phandle(-array)?)"@
}

fn type_re() -> (r: &'static str)
    ensures
        r@ == type_pattern(),
{
    "(address|flag|u?int(8|16|32|64)(-(array|matrix))?|string(-array)?|phandle(-array)?)"
}

pub open spec fn microvolt_pattern() -> Seq<char> {
    "-microvolt$"@
}

/// Names ending in `-hz` but not starting with `opp`.
pub open spec fn hz_pattern() -> Seq<char> {
    "(^(?!opp)).*-hz$"@
}

/// A `$ref` to a YAML schema document.
pub open spec fn ref_yaml_pattern() -> Seq<char> {
    "\\.yaml#?$"@
}

/// `pattern` compiles as a pattern with look-around and matches `text`.
pub open spec fn fancy_matches(pattern: Seq<char>, text: Seq<char>) -> bool {
    fancy_match_result(pattern, text) == Some(true)
}

fn fancy_is_match_bool(pattern: &str, text: &str) -> (r: bool)
    ensures
        r == fancy_matches(pattern@, text@),
{
    match fancy_is_match(pattern, text) {
        Some(b) => b,
        None => false,
    }
}

/// The first match of `pattern` in `text`.
pub open spec fn first_match(pattern: Seq<char>, text: Seq<char>) -> Option<Seq<char>> {
    match regex_find_result(pattern, text) {
        Some(Some(m)) => Some(m),
        _ => None,
    }
}

fn find_first(pattern: &str, text: &str) -> (r: Option<String>)
    ensures
        match r {
            Some(m) => first_match(pattern@, text@) == Some(m@),
            None => first_match(pattern@, text@) is None,
        },
{
    match regex_find(pattern, text) {
        Some(Some(m)) => Some(m),
        _ => None,
    }
}

// ---- type entries ----------------------------------------------------------------------

/// The `$id` of a schema document, or the empty string.
pub open spec fn schema_id(schema: Json) -> Seq<char> {
    match schema.get_str("$id"@) {
        Some(s) => s,
        None => Seq::empty(),
    }
}

fn schema_id_exec(schema: &Value) -> (r: String)
    ensures
        r@ == schema_id(schema@),
{
    match schema.get_str("$id") {
        Some(s) => s.to_owned(),
        None => String::new(),
    }
}

pub open spec fn type_json(t: Option<Seq<char>>) -> Json {
    match t {
        Some(s) => Json::Str(s),
        None => Json::Null,
    }
}

/// A new type entry: `{"$id": [sid], "dim"?: dim, "regex"?: name, "type": t}`,
/// `regex` only for a pattern property.
pub open spec fn new_entry(
    t: Option<Seq<char>>,
    sid: Seq<char>,
    name: Seq<char>,
    is_pattern: bool,
    dim: Option<Json>,
) -> Json {
    let m0 = seq![("$id"@, Json::Array(seq![Json::Str(sid)]))];
    let m1 = match dim {
        Some(d) => m0.push(("dim"@, d)),
        None => m0,
    };
    let m2 = if is_pattern {
        m1.push(("regex"@, Json::Str(name)))
    } else {
        m1
    };
    Json::Object(m2.push(("type"@, type_json(t))))
}

fn new_entry_value(t: Option<&str>, sid: &str, name: &str, is_pattern: bool, dim: Option<Value>) -> (r: Value)
    ensures
        r@ == new_entry(
            match t {
                Some(s) => Some(s@),
                None => None,
            },
            sid@,
            name@,
            is_pattern,
            crate::json::opt_val(dim),
        ),
{
    let ghost dv = crate::json::opt_val(dim);
    let id = Value::Str(sid.to_owned());
    let ghost idv = id@;
    let mut ids: Vec<Value> = Vec::new();
    ids.push(id);
    proof {
        lemma_view_seq(ids@);
        assert(view_seq(ids@) =~= seq![idv]);
    }
    let mut o: Vec<(String, Value)> = Vec::new();
    o.push(("$id".to_owned(), Value::Array(ids)));
    let ghost m0 = seq![("$id"@, Json::Array(seq![Json::Str(sid@)]))];
    proof {
        lemma_view_entries(o@);
        assert(view_entries(o@) =~= m0);
    }
    match dim {
        Some(d) => {
            let ghost before = view_entries(o@);
            o.push(("dim".to_owned(), d));
            proof {
                lemma_view_entries(o@);
                assert(view_entries(o@) =~= before.push(("dim"@, dv->Some_0)));
            }
        },
        None => {},
    }
    if is_pattern {
        let ghost before = view_entries(o@);
        o.push(("regex".to_owned(), Value::Str(name.to_owned())));
        proof {
            lemma_view_entries(o@);
            assert(view_entries(o@) =~= before.push(("regex"@, Json::Str(name@))));
        }
    }
    let tv = match t {
        Some(s) => Value::Str(s.to_owned()),
        None => Value::Null,
    };
    let ghost before = view_entries(o@);
    let ghost tj = tv@;
    o.push(("type".to_owned(), tv));
    proof {
        lemma_view_entries(o@);
        assert(view_entries(o@) =~= before.push(("type"@, tj)));
    }
    Value::Object(o)
}

/// The `$id` list of an entry holds `id`.
pub open spec fn id_listed(entry: Json, id: Seq<char>) -> bool {
    list_holds(entry.get("$id"@), id)
}

/// Add `id` to the `$id` list of an entry unless it is there.
pub open spec fn with_id(entry: Json, id: Seq<char>) -> Json {
    if id_listed(entry, id) {
        entry
    } else {
        match entry.get("$id"@) {
            Some(Json::Array(a)) => entry.insert("$id"@, Json::Array(a.push(Json::Str(id)))),
            _ => entry,
        }
    }
}

fn id_listed_exec(entry: &Value, id: &str) -> (r: bool)
    ensures
        r == id_listed(entry@, id@),
{
    list_holds_value(entry.get("$id"), id)
}

fn with_id_exec(entry: &mut Value, id: &str)
    ensures
        final(entry)@ == with_id(old(entry)@, id@),
{
    if id_listed_exec(entry, id) {
        return;
    }
    let ghost j0 = entry@;
    match entry.take("$id") {
        Some((i, Value::Array(mut a))) => {
            let ghost olda = a@;
            a.push(Value::Str(id.to_owned()));
            proof {
                lemma_view_seq(a@);
                lemma_view_seq(olda);
                assert(view_seq(a@) =~= view_seq(olda).push(Json::Str(id@)));
            }
            let ghost av = Json::Array(view_seq(a@));
            entry.put_at(i, Value::Array(a));
            assert(j0.insert("$id"@, av) == entry@);
        },
        Some((i, other)) => {
            let ghost ov = other@;
            entry.put_at(i, other);
            proof {
                assert(j0.insert("$id"@, ov) == entry@);
                crate::json::lemma_insert_same(j0, "$id"@, ov);
            }
        },
        None => {},
    }
}

// ---- matrix dimensions ---------------------------------------------------------------

/// `d[i][k]` as an integer; 0 where there is none.
pub open spec fn dim_at(d: Json, i: int, k: int) -> int {
    match d {
        Json::Array(a) => if 0 <= i < a.len() {
            match a[i] {
                Json::Array(b) => if 0 <= k < b.len() {
                    match b[k] {
                        Json::Int(n) => n,
                        _ => 0,
                    }
                } else {
                    0
                },
                _ => 0,
            }
        } else {
            0
        },
        _ => 0,
    }
}

/// One merged `[min, max]` pair: the smaller minimum and the larger maximum,
/// where a maximum of 0 means unbounded and a maximum of 1 fixes the minimum.
pub open spec fn merged_pair(d1: Json, d2: Json, i: int) -> Json {
    let a0 = dim_at(d1, i, 0);
    let a1 = dim_at(d1, i, 1);
    let b0 = dim_at(d2, i, 0);
    let b1 = dim_at(d2, i, 1);
    let lo = if a0 <= b0 { a0 } else { b0 };
    let hi = if (if a1 <= b1 { a1 } else { b1 }) == 0 {
        0
    } else if a1 >= b1 {
        a1
    } else {
        b1
    };
    int_pair(if hi == 1 { 1 } else { lo }, hi)
}

/// Merge two matrix dimensions `[[min, max], [min, max]]`.
pub open spec fn merge_dim(d1: Json, d2: Json) -> Json {
    Json::Array(seq![merged_pair(d1, d2, 0), merged_pair(d1, d2, 1)])
}

/// What merging two matrix dimensions gives, pair by pair: the larger
/// maximum, except that a maximum of 0 (unbounded) on either side leaves the
/// merged maximum unbounded; and the smaller minimum, except that a merged
/// maximum of 1 forces the minimum to 1.
pub proof fn lemma_merge_dim_bounds(d1: Json, d2: Json, i: int)
    requires
        0 <= i < 2,
    ensures
        dim_at(d1, i, 1) == 0 || dim_at(d2, i, 1) == 0 ==> dim_at(merge_dim(d1, d2), i, 1) == 0,
        dim_at(d1, i, 1) != 0 && dim_at(d2, i, 1) != 0 ==> {
            &&& dim_at(merge_dim(d1, d2), i, 1) >= dim_at(d1, i, 1)
            &&& dim_at(merge_dim(d1, d2), i, 1) >= dim_at(d2, i, 1)
            &&& (dim_at(merge_dim(d1, d2), i, 1) == dim_at(d1, i, 1)
                || dim_at(merge_dim(d1, d2), i, 1) == dim_at(d2, i, 1))
        },
        dim_at(merge_dim(d1, d2), i, 1) == 1 ==> dim_at(merge_dim(d1, d2), i, 0) == 1,
        dim_at(merge_dim(d1, d2), i, 1) != 1 ==> {
            &&& dim_at(merge_dim(d1, d2), i, 0) <= dim_at(d1, i, 0)
            &&& dim_at(merge_dim(d1, d2), i, 0) <= dim_at(d2, i, 0)
            &&& (dim_at(merge_dim(d1, d2), i, 0) == dim_at(d1, i, 0)
                || dim_at(merge_dim(d1, d2), i, 0) == dim_at(d2, i, 0))
        },
{
    let r = merge_dim(d1, d2);
    assert(r->Array_0[i] == merged_pair(d1, d2, i));
}

/// Merging two matrix dimensions does not depend on their order.
pub proof fn lemma_merge_dim_symmetric(d1: Json, d2: Json)
    ensures
        merge_dim(d1, d2) == merge_dim(d2, d1),
{
    assert(merged_pair(d1, d2, 0) == merged_pair(d2, d1, 0));
    assert(merged_pair(d1, d2, 1) == merged_pair(d2, d1, 1));
}

fn dim_at_exec(d: &Value, i: usize, k: usize) -> (r: i128)
    ensures
        r as int == dim_at(d@, i as int, k as int),
{
    match d {
        Value::Array(a) => {
            proof {
                lemma_view_seq(a@);
            }
            if i < a.len() {
                match &a[i] {
                    Value::Array(b) => {
                        proof {
                            lemma_view_seq(b@);
                        }
                        if k < b.len() {
                            match &b[k] {
                                Value::Int(n) => *n,
                                _ => 0,
                            }
                        } else {
                            0
                        }
                    },
                    _ => 0,
                }
            } else {
                0
            }
        },
        _ => 0,
    }
}

fn pair_value(a: i128, b: i128) -> (r: Value)
    ensures
        r@ == int_pair(a as int, b as int),
{
    let v = vec![Value::Int(a), Value::Int(b)];
    proof {
        lemma_view_seq(v@);
        assert(view_seq(v@) =~= seq![Json::Int(a as int), Json::Int(b as int)]);
    }
    Value::Array(v)
}

fn merged_pair_value(d1: &Value, d2: &Value, i: usize) -> (r: Value)
    ensures
        r@ == merged_pair(d1@, d2@, i as int),
{
    let a0 = dim_at_exec(d1, i, 0);
    let a1 = dim_at_exec(d1, i, 1);
    let b0 = dim_at_exec(d2, i, 0);
    let b1 = dim_at_exec(d2, i, 1);
    let lo = if a0 <= b0 { a0 } else { b0 };
    let low_max = if a1 <= b1 { a1 } else { b1 };
    let hi = if low_max == 0 {
        0
    } else if a1 >= b1 {
        a1
    } else {
        b1
    };
    pair_value(if hi == 1 { 1 } else { lo }, hi)
}

fn merge_dim_value(d1: &Value, d2: &Value) -> (r: Value)
    ensures
        r@ == merge_dim(d1@, d2@),
{
    let p0 = merged_pair_value(d1, d2, 0);
    let p1 = merged_pair_value(d1, d2, 1);
    let ghost v0 = p0@;
    let ghost v1 = p1@;
    let v = vec![p0, p1];
    proof {
        lemma_view_seq(v@);
        assert(view_seq(v@) =~= seq![v0, v1]);
    }
    Value::Array(v)
}

// ---- references ---------------------------------------------------------------------

/// Follow object keys `segs` from `j`.
pub open spec fn resolve(j: Json, segs: Seq<Seq<char>>) -> Option<Json>
    decreases segs.len(),
{
    if segs.len() == 0 {
        Some(j)
    } else {
        match j.get(segs[0]) {
            Some(v) => resolve(v, segs.drop_first()),
            None => None,
        }
    }
}

pub proof fn lemma_split_len(s: Seq<char>, c: char)
    ensures
        split_char(s, c).len() >= 1,
    decreases s.len(),
{
    if s.len() > 0 {
        lemma_split_len(s.drop_last(), c);
    }
}

/// The target of a local reference `#/a/b` within `schema`.
pub open spec fn local_target(schema: Json, rf: Seq<char>) -> Option<Json> {
    resolve(schema, split_char(rf, '/').skip(1))
}

fn local_target_exec<'a>(schema: &'a Value, rf: &str) -> (r: Option<&'a Value>)
    ensures
        crate::json::opt_view(r) == local_target(schema@, rf@),
{
    let segs = split_on(rf, '/');
    let ghost sv = strings_view(segs@);
    proof {
        lemma_split_len(rf@, '/');
    }
    let mut tmp: &Value = schema;
    let mut i: usize = 1;
    while i < segs.len()
        invariant
            1 <= i <= segs@.len(),
            sv == strings_view(segs@),
            sv.len() == segs@.len(),
            local_target(schema@, rf@) == resolve(tmp@, sv.skip(i as int)),
        decreases segs.len() - i,
    {
        assert(sv.skip(i as int)[0] == segs@[i as int]@);
        assert(sv.skip(i as int).drop_first() =~= sv.skip(i + 1));
        match tmp.get(segs[i].as_str()) {
            Some(v) => {
                tmp = v;
            },
            None => {
                return None;
            },
        }
        i += 1;
    }
    assert(sv.skip(i as int) =~= Seq::<Seq<char>>::empty());
    Some(tmp)
}

/// A `$ref` of the form `.../properties/<name>` names the type of another
/// property; it counts when `<name>` is not the property itself.
pub open spec fn ref_prop_type(sub: Json, name: Seq<char>) -> Option<Seq<char>> {
    match sub.get("$ref"@) {
        Some(Json::Str(rf)) => if !seq_starts_with(rf, "#/"@) && seq_contains(rf, "/properties/"@) {
            let last = split_char(rf, '/').last();
            if last != name {
                Some(last)
            } else {
                None
            }
        } else {
            None
        },
        _ => None,
    }
}

fn ref_prop_type_exec(sub: &Value, name: &str) -> (r: Option<String>)
    ensures
        match r {
            Some(t) => ref_prop_type(sub@, name@) == Some(t@),
            None => ref_prop_type(sub@, name@) is None,
        },
{
    match sub.get("$ref") {
        Some(Value::Str(rf)) => {
            if !starts_with(rf.as_str(), "#/") && contains(rf.as_str(), "/properties/") {
                let segs = split_on(rf.as_str(), '/');
                proof {
                    lemma_split_len(rf@, '/');
                }
                let n = segs.len();
                let last = segs[n - 1].clone();
                assert(last@ == split_char(rf@, '/').last());
                if !str_eq(last.as_str(), name) {
                    Some(last)
                } else {
                    None
                }
            } else {
                None
            }
        },
        _ => None,
    }
}

// ---- type inference ----------------------------------------------------------------

/// The schema describes a child node.
pub open spec fn node_like(sub: Json) -> bool {
    sub.get("type"@) == Some(Json::Str("object"@)) || sub.has("properties"@) || sub.has(
        "patternProperties"@,
    ) || sub.has("additionalProperties"@)
}

/// The type a property schema gives its property: a node, the core type that
/// its `$ref` names, a flag for booleans, a string array or a unit-suffixed
/// matrix for lists, a node for a `$ref` to another document, or else `prior`.
pub open spec fn inferred_type(sub: Json, name: Seq<char>, prior: Option<Seq<char>>) -> Option<Seq<char>> {
    if node_like(sub) {
        Some("node"@)
    } else {
        let ref_type = match sub.get_str("$ref"@) {
            Some(r) => first_match(type_pattern(), r),
            None => None,
        };
        if ref_type is Some {
            ref_type
        } else if sub.get("type"@) == Some(Json::Str("boolean"@)) {
            Some("flag"@)
        } else {
            match sub.get("items"@) {
                Some(items) => {
                    let string_items = match items {
                        Json::Array(a) => a.len() > 0 && string_schema(a[0]),
                        other => string_schema(other),
                    };
                    if string_items {
                        Some("string-array"@)
                    } else if re_matches(microvolt_pattern(), name) {
                        Some("int32-matrix"@)
                    } else if fancy_matches(hz_pattern(), name) {
                        Some("uint32-matrix"@)
                    } else {
                        None
                    }
                },
                None => {
                    let yaml_ref = match sub.get_str("$ref"@) {
                        Some(r) => re_matches(ref_yaml_pattern(), r),
                        None => false,
                    };
                    if yaml_ref {
                        Some("node"@)
                    } else {
                        prior
                    }
                },
            }
        }
    }
}

fn member_is_str(sub: &Value, k: &str, s: &str) -> (r: bool)
    ensures
        r == (sub@.get(k@) == Some(Json::Str(s@))),
{
    match sub.get(k) {
        Some(Value::Str(t)) => str_eq(t.as_str(), s),
        _ => false,
    }
}

fn node_like_exec(sub: &Value) -> (r: bool)
    ensures
        r == node_like(sub@),
{
    member_is_str(sub, "type", "object") || sub.has("properties") || sub.has("patternProperties")
        || sub.has("additionalProperties")
}

fn inferred_type_exec(sub: &Value, name: &str, prior: Option<String>) -> (r: Option<String>)
    ensures
        match r {
            Some(t) => inferred_type(sub@, name@, crate::diagnostic::opt_string(prior)) == Some(t@),
            None => inferred_type(sub@, name@, crate::diagnostic::opt_string(prior)) is None,
        },
{
    if node_like_exec(sub) {
        return Some("node".to_owned());
    }
    let ref_type = match sub.get_str("$ref") {
        Some(r) => find_first(type_re(), r),
        None => None,
    };
    if ref_type.is_some() {
        return ref_type;
    }
    if member_is_str(sub, "type", "boolean") {
        return Some("flag".to_owned());
    }
    match sub.get("items") {
        Some(items) => {
            let string_items = match items {
                Value::Array(a) => {
                    proof {
                        lemma_view_seq(a@);
                    }
                    a.len() > 0 && is_string_schema(&a[0])
                },
                other => is_string_schema(other),
            };
            if string_items {
                Some("string-array".to_owned())
            } else if re_is_match("-microvolt$", name) {
                Some("int32-matrix".to_owned())
            } else if fancy_is_match_bool("(^(?!opp)).*-hz$", name) {
                Some("uint32-matrix".to_owned())
            } else {
                None
            }
        },
        None => {
            let yaml_ref = match sub.get_str("$ref") {
                Some(r) => re_is_match("\\.yaml#?$", r),
                None => false,
            };
            if yaml_ref {
                Some("node".to_owned())
            } else {
                prior
            }
        },
    }
}

// ---- merging entries ------------------------------------------------------------------

pub open spec fn is_matrix_type(t: Seq<char>) -> bool {
    t == "phandle-array"@ || seq_ends_with(t, "-matrix"@)
}

pub open spec fn has_size(sub: Json) -> bool {
    sub.has("items"@) || sub.has("minItems"@) || sub.has("maxItems"@)
}

/// Matrix dimensions `[outer, inner]` of a sized matrix property.
pub open spec fn entry_dim(sub: Json, t: Seq<char>) -> Option<Json> {
    if is_matrix_type(t) && has_size(sub) {
        let inner = match sub.get("items"@) {
            Some(Json::Array(a)) => array_range(if a.len() > 0 { a[0] } else { Json::Null }),
            Some(other) => array_range(other),
            None => int_pair(0, 0),
        };
        Some(Json::Array(seq![array_range(sub), inner]))
    } else {
        None
    }
}

fn entry_dim_exec(sub: &Value, t: &str) -> (r: Option<Value>)
    ensures
        crate::json::opt_val(r) == entry_dim(sub@, t@),
{
    let matrix = str_eq(t, "phandle-array") || ends_with(t, "-matrix");
    let sized = sub.has("items") || sub.has("minItems") || sub.has("maxItems");
    if !(matrix && sized) {
        return None;
    }
    let outer = get_array_range(sub);
    let inner = match sub.get("items") {
        Some(Value::Array(a)) => {
            proof {
                lemma_view_seq(a@);
            }
            if a.len() > 0 {
                get_array_range(&a[0])
            } else {
                get_array_range(&Value::Null)
            }
        },
        Some(other) => get_array_range(other),
        None => pair_value(0, 0),
    };
    let ghost ov = outer@;
    let ghost iv = inner@;
    let v = vec![outer, inner];
    proof {
        lemma_view_seq(v@);
        assert(view_seq(v@) =~= seq![ov, iv]);
    }
    Some(Value::Array(v))
}

/// The `type` of an entry (`null` where it has none).
pub open spec fn ptype_of(p: Json) -> Json {
    match p.get("type"@) {
        Some(v) => v,
        None => Json::Null,
    }
}

/// The `type` of an entry as a string; empty where it is not one.
pub open spec fn ptype_str(p: Json) -> Seq<char> {
    match ptype_of(p) {
        Json::Str(s) => s,
        _ => Seq::empty(),
    }
}

/// Scan the entries from `i` for one that takes the new type `t`: an untyped
/// entry is a duplicate to drop (its index is returned); a matrix entry takes
/// the dimensions, an entry of the same type or a string entry for a string
/// type takes the schema id. The flag tells that an entry took the new one.
pub open spec fn merge_scan(list: Seq<Json>, i: int, t: Seq<char>, dim: Option<Json>, sid: Seq<char>) -> (Seq<Json>, int, bool)
    decreases list.len() - i,
{
    if i < 0 || i >= list.len() {
        (list, -1, false)
    } else {
        let p = list[i];
        let ps = ptype_str(p);
        if ptype_of(p) == Json::Null {
            (list, i, false)
        } else if dim is Some && is_matrix_type(ps) {
            let d = dim->Some_0;
            let nd = match p.get("dim"@) {
                Some(old) => merge_dim(old, d),
                None => d,
            };
            (list.update(i, with_id(p.insert("dim"@, nd), sid)), -1, true)
        } else if ps == t {
            (list.update(i, with_id(p, sid)), -1, true)
        } else if seq_contains(t, "string"@) && seq_contains(ps, "string"@) {
            let p1 = if t == "string-array"@ {
                p.insert("type"@, Json::Str(t))
            } else {
                p
            };
            (list.update(i, with_id(p1, sid)), -1, true)
        } else {
            merge_scan(list, i + 1, t, dim, sid)
        }
    }
}

/// The entries of a property after merging the new entry `np` of type `t`.
pub open spec fn merged_list(list: Seq<Json>, t: Seq<char>, dim: Option<Json>, sid: Seq<char>, np: Json) -> Seq<Json> {
    let r = merge_scan(list, 0, t, dim, sid);
    let l1 = if r.1 >= 0 {
        r.0.remove(r.1)
    } else {
        r.0
    };
    if r.2 {
        l1
    } else {
        l1.push(np)
    }
}

/// Replace the item at `i` by `f(item)` computed from the taken item.
fn put_item(list: &mut Vec<Value>, i: usize, v: Value)
    requires
        i <= old(list)@.len(),
    ensures
        view_seq(final(list)@) == view_seq(old(list)@).insert(i as int, v@),
{
    let ghost before = list@;
    let ghost vv = v@;
    list.insert(i, v);
    proof {
        lemma_view_seq(before);
        lemma_view_seq(list@);
        assert(view_seq(list@) =~= view_seq(before).insert(i as int, vv));
    }
}

fn take_item(list: &mut Vec<Value>, i: usize) -> (r: Value)
    requires
        i < old(list)@.len(),
    ensures
        r@ == view_seq(old(list)@)[i as int],
        view_seq(final(list)@) == view_seq(old(list)@).remove(i as int),
        final(list)@.len() == old(list)@.len() - 1,
{
    let ghost before = list@;
    let r = list.remove(i);
    proof {
        lemma_view_seq(before);
        lemma_view_seq(list@);
        assert(view_seq(list@) =~= view_seq(before).remove(i as int));
    }
    r
}

fn merge_scan_exec(list: &mut Vec<Value>, t: &str, dim: Option<&Value>, sid: &str) -> (r: (Option<usize>, bool))
    ensures
        (view_seq(final(list)@), match r.0 {
            Some(i) => i as int,
            None => -1,
        }, r.1) == merge_scan(view_seq(old(list)@), 0, t@, crate::json::opt_view(dim), sid@),
{
    let ghost l0 = view_seq(list@);
    let ghost dv = crate::json::opt_view(dim);
    proof {
        lemma_view_seq(list@);
    }
    let mut i: usize = 0;
    while i < list.len()
        invariant
            i <= list@.len(),
            view_seq(list@) == l0,
            l0 == view_seq(old(list)@),
            l0.len() == list@.len(),
            forall|j: int| 0 <= j < list@.len() ==> #[trigger] l0[j] == list@[j]@,
            dv == crate::json::opt_view(dim),
            merge_scan(l0, 0, t@, dv, sid@) == merge_scan(l0, i as int, t@, dv, sid@),
        decreases list.len() - i,
    {
        assert(l0[i as int] == list@[i as int]@);
        let (is_null, ps) = match list[i].get("type") {
            None => (true, String::new()),
            Some(Value::Null) => (true, String::new()),
            Some(Value::Str(s)) => (false, s.clone()),
            Some(_) => (false, String::new()),
        };
        assert(ps@ == ptype_str(l0[i as int]));
        assert(is_null == (ptype_of(l0[i as int]) == Json::Null));
        if is_null {
            return (Some(i), false);
        }
        let matrix = str_eq(ps.as_str(), "phandle-array") || ends_with(ps.as_str(), "-matrix");
        if dim.is_some() && matrix {
            let d = match dim {
                Some(d) => d,
                None => {
                    return (None, false);
                },
            };
            let mut p = take_item(list, i);
            let nd = match p.get("dim") {
                Some(old) => merge_dim_value(old, d),
                None => copy_value(d),
            };
            p.insert("dim", nd);
            with_id_exec(&mut p, sid);
            put_item(list, i, p);
            assert(view_seq(list@) =~= l0.update(i as int, view_seq(list@)[i as int]));
            return (None, true);
        }
        if str_eq(ps.as_str(), t) {
            let mut p = take_item(list, i);
            with_id_exec(&mut p, sid);
            put_item(list, i, p);
            assert(view_seq(list@) =~= l0.update(i as int, view_seq(list@)[i as int]));
            return (None, true);
        }
        if contains(t, "string") && contains(ps.as_str(), "string") {
            let mut p = take_item(list, i);
            if str_eq(t, "string-array") {
                p.insert("type", Value::Str(t.to_owned()));
            }
            with_id_exec(&mut p, sid);
            put_item(list, i, p);
            assert(view_seq(list@) =~= l0.update(i as int, view_seq(list@)[i as int]));
            return (None, true);
        }
        i += 1;
    }
    (None, false)
}

proof fn lemma_merge_scan(list: Seq<Json>, i: int, t: Seq<char>, dim: Option<Json>, sid: Seq<char>)
    requires
        0 <= i,
    ensures
        merge_scan(list, i, t, dim, sid).0.len() == list.len(),
        merge_scan(list, i, t, dim, sid).1 == -1 || (i <= merge_scan(list, i, t, dim, sid).1
            < list.len() && merge_scan(list, i, t, dim, sid).0 == list),
    decreases list.len() - i,
{
    if i < list.len() {
        lemma_merge_scan(list, i + 1, t, dim, sid);
    }
}

// ---- extraction ----------------------------------------------------------------------

/// Some entry of `list` lists schema id `id`.
pub open spec fn any_listed(list: Seq<Json>, id: Seq<char>) -> bool {
    exists|i: int| 0 <= i < list.len() && #[trigger] id_listed(list[i], id)
}

/// The entries recorded for `name`.
pub open spec fn prop_list(props: Entries, name: Seq<char>) -> Seq<Json> {
    match obj_get(props, name) {
        Some(Json::Array(l)) => l,
        _ => Seq::empty(),
    }
}

/// The schemas listed under keyword `k`.
pub open spec fn list_member(sub: Json, k: Seq<char>) -> Seq<Json> {
    match sub.get(k) {
        Some(Json::Array(a)) => a,
        _ => Seq::empty(),
    }
}

/// A local `$ref` (`#/...`) of a subschema.
pub open spec fn local_ref(sub: Json) -> Option<Seq<char>> {
    match sub.get("$ref"@) {
        Some(Json::Str(rf)) => if seq_starts_with(rf, "#/"@) {
            Some(rf)
        } else {
            None
        },
        _ => None,
    }
}

/// Record the type of property `name` given by `sub` in the document `schema`:
/// follow a local `$ref` (unless this schema was already recorded for the
/// property) and the `allOf`/`oneOf`/`anyOf` lists, then merge the inferred
/// type into the property's entries and descend into a node's properties.
/// `fuel` bounds the nesting (see [`WALK_FUEL`]).
pub open spec fn extract_prop(
    props: Entries,
    schema: Json,
    name: Seq<char>,
    sub: Json,
    is_pattern: bool,
    fuel: nat,
) -> Entries
    decreases fuel, 0int, 0int,
{
    if fuel == 0 || seq_starts_with(name, "$"@) {
        props
    } else {
        let sid = schema_id(schema);
        let f = (fuel - 1) as nat;
        if !(sub is Object) {
            if sub == Json::Bool(true) {
                obj_insert_absent(
                    props,
                    name,
                    Json::Array(seq![new_entry(None, sid, name, is_pattern, None)]),
                )
            } else {
                props
            }
        } else if local_ref(sub) is Some && any_listed(prop_list(props, name), sid) {
            props
        } else {
            let p1 = match local_ref(sub) {
                Some(rf) => match local_target(schema, rf) {
                    Some(t) => extract_prop(props, schema, name, t, is_pattern, f),
                    None => props,
                },
                None => props,
            };
            let p2 = extract_prop_seq(p1, schema, name, list_member(sub, "allOf"@), is_pattern, f);
            let p2 = extract_prop_seq(p2, schema, name, list_member(sub, "oneOf"@), is_pattern, f);
            let p2 = extract_prop_seq(p2, schema, name, list_member(sub, "anyOf"@), is_pattern, f);
            let p3 = obj_insert_absent(p2, name, Json::Array(Seq::empty()));
            let list = prop_list(p3, name);
            match inferred_type(sub, name, ref_prop_type(sub, name)) {
                None => if list.len() == 0 {
                    obj_insert(
                        p3,
                        name,
                        Json::Array(seq![new_entry(None, sid, name, is_pattern, None)]),
                    )
                } else {
                    p3
                },
                Some(t) => {
                    let dim = entry_dim(sub, t);
                    let np = new_entry(Some(t), sid, name, is_pattern, dim);
                    let p4 = obj_insert(p3, name, Json::Array(merged_list(list, t, dim, sid, np)));
                    if sub.has("properties"@) || sub.has("patternProperties"@) || sub.has(
                        "additionalProperties"@,
                    ) {
                        extract_sub(p4, schema, sub, f)
                    } else {
                        p4
                    }
                },
            }
        }
    }
}

/// [`extract_prop`] for each schema of a list, in order.
pub open spec fn extract_prop_seq(
    props: Entries,
    schema: Json,
    name: Seq<char>,
    a: Seq<Json>,
    is_pattern: bool,
    fuel: nat,
) -> Entries
    decreases fuel, 1int, a.len(),
{
    if a.len() == 0 {
        props
    } else {
        extract_prop(
            extract_prop_seq(props, schema, name, a.drop_last(), is_pattern, fuel),
            schema,
            name,
            a.last(),
            is_pattern,
            fuel,
        )
    }
}

/// Record the types of the properties below a node schema `sub`.
pub open spec fn extract_sub(props: Entries, schema: Json, sub: Json, fuel: nat) -> Entries
    decreases fuel, 0int, 0int,
{
    if fuel == 0 || !(sub is Object) {
        props
    } else {
        let f = (fuel - 1) as nat;
        let p1 = match sub.get("additionalProperties"@) {
            Some(ap) => extract_sub(props, schema, ap, f),
            None => props,
        };
        let p2 = extract_sub_seq(p1, schema, list_member(sub, "allOf"@), f);
        let p2 = extract_sub_seq(p2, schema, list_member(sub, "oneOf"@), f);
        let p2 = extract_sub_seq(p2, schema, list_member(sub, "anyOf"@), f);
        let p3 = extract_map(p2, schema, crate::json::member_entries(sub, "properties"@), false, f);
        extract_map(p3, schema, crate::json::member_entries(sub, "patternProperties"@), true, f)
    }
}

pub open spec fn extract_sub_seq(props: Entries, schema: Json, a: Seq<Json>, fuel: nat) -> Entries
    decreases fuel, 1int, a.len(),
{
    if a.len() == 0 {
        props
    } else {
        extract_sub(extract_sub_seq(props, schema, a.drop_last(), fuel), schema, a.last(), fuel)
    }
}

/// [`extract_prop`] for each `(name, schema)` of a property map, in order.
pub open spec fn extract_map(props: Entries, schema: Json, m: Entries, is_pattern: bool, fuel: nat) -> Entries
    decreases fuel, 1int, m.len(),
{
    if m.len() == 0 {
        props
    } else {
        extract_prop(
            extract_map(props, schema, m.drop_last(), is_pattern, fuel),
            schema,
            m.last().0,
            m.last().1,
            is_pattern,
            fuel,
        )
    }
}

fn single_list(v: Value) -> (r: Value)
    ensures
        r@ == Json::Array(seq![v@]),
{
    let ghost vv = v@;
    let mut l: Vec<Value> = Vec::new();
    l.push(v);
    proof {
        lemma_view_seq(l@);
        assert(view_seq(l@) =~= seq![vv]);
    }
    Value::Array(l)
}

fn any_listed_exec(list: &Vec<Value>, id: &str) -> (r: bool)
    ensures
        r == any_listed(view_seq(list@), id@),
{
    proof {
        lemma_view_seq(list@);
    }
    let mut i: usize = 0;
    while i < list.len()
        invariant
            i <= list@.len(),
            view_seq(list@).len() == list@.len(),
            forall|j: int| 0 <= j < list@.len() ==> #[trigger] view_seq(list@)[j] == list@[j]@,
            forall|j: int| 0 <= j < i ==> !#[trigger] id_listed(view_seq(list@)[j], id@),
        decreases list.len() - i,
    {
        if id_listed_exec(&list[i], id) {
            assert(id_listed(view_seq(list@)[i as int], id@));
            return true;
        }
        i += 1;
    }
    false
}

fn extract_prop_list(
    props: &mut PropMap,
    schema: &Value,
    name: &str,
    a: &Vec<Value>,
    is_pattern: bool,
    fuel: u64,
)
    ensures
        view_entries(final(props)@) == extract_prop_seq(
            view_entries(old(props)@),
            schema@,
            name@,
            view_seq(a@),
            is_pattern,
            fuel as nat,
        ),
    decreases fuel, 1int,
{
    let ghost p0 = view_entries(props@);
    let ghost s = view_seq(a@);
    proof {
        lemma_view_seq(a@);
    }
    let mut k: usize = 0;
    assert(s.take(0) =~= Seq::<Json>::empty());
    while k < a.len()
        invariant
            k <= a@.len(),
            s == view_seq(a@),
            s.len() == a@.len(),
            forall|j: int| 0 <= j < a@.len() ==> #[trigger] s[j] == a@[j]@,
            view_entries(props@) == extract_prop_seq(p0, schema@, name@, s.take(k as int), is_pattern, fuel as nat),
        decreases a.len() - k,
    {
        assert(s.take(k + 1).drop_last() =~= s.take(k as int));
        assert(s.take(k + 1).last() == a@[k as int]@);
        extract_prop_type(props, schema, name, &a[k], is_pattern, fuel);
        k += 1;
    }
    assert(s.take(k as int) =~= s);
}

fn extract_sub_list(props: &mut PropMap, schema: &Value, a: &Vec<Value>, fuel: u64)
    ensures
        view_entries(final(props)@) == extract_sub_seq(
            view_entries(old(props)@),
            schema@,
            view_seq(a@),
            fuel as nat,
        ),
    decreases fuel, 1int,
{
    let ghost p0 = view_entries(props@);
    let ghost s = view_seq(a@);
    proof {
        lemma_view_seq(a@);
    }
    let mut k: usize = 0;
    assert(s.take(0) =~= Seq::<Json>::empty());
    while k < a.len()
        invariant
            k <= a@.len(),
            s == view_seq(a@),
            s.len() == a@.len(),
            forall|j: int| 0 <= j < a@.len() ==> #[trigger] s[j] == a@[j]@,
            view_entries(props@) == extract_sub_seq(p0, schema@, s.take(k as int), fuel as nat),
        decreases a.len() - k,
    {
        assert(s.take(k + 1).drop_last() =~= s.take(k as int));
        assert(s.take(k + 1).last() == a@[k as int]@);
        extract_subschema_types(props, schema, &a[k], fuel);
        k += 1;
    }
    assert(s.take(k as int) =~= s);
}

fn extract_map_exec(
    props: &mut PropMap,
    schema: &Value,
    m: &Vec<(String, Value)>,
    is_pattern: bool,
    fuel: u64,
)
    ensures
        view_entries(final(props)@) == extract_map(
            view_entries(old(props)@),
            schema@,
            view_entries(m@),
            is_pattern,
            fuel as nat,
        ),
    decreases fuel, 1int,
{
    let ghost p0 = view_entries(props@);
    let ghost s = view_entries(m@);
    proof {
        lemma_view_entries(m@);
    }
    let mut k: usize = 0;
    assert(s.take(0) =~= Seq::<(Seq<char>, Json)>::empty());
    while k < m.len()
        invariant
            k <= m@.len(),
            s == view_entries(m@),
            s.len() == m@.len(),
            forall|j: int| 0 <= j < m@.len() ==> #[trigger] s[j] == (m@[j].0@, m@[j].1@),
            view_entries(props@) == extract_map(p0, schema@, s.take(k as int), is_pattern, fuel as nat),
        decreases m.len() - k,
    {
        assert(s.take(k + 1).drop_last() =~= s.take(k as int));
        assert(s.take(k + 1).last() == (m@[k as int].0@, m@[k as int].1@));
        extract_prop_type(props, schema, m[k].0.as_str(), &m[k].1, is_pattern, fuel);
        k += 1;
    }
    assert(s.take(k as int) =~= s);
}

fn list_of(v: Option<&Value>) -> (r: Option<&Vec<Value>>)
    ensures
        match r {
            Some(a) => crate::json::opt_view(v) == Some(Json::Array(view_seq(a@))),
            None => !(crate::json::opt_view(v) matches Some(Json::Array(_))),
        },
{
    match v {
        Some(Value::Array(a)) => Some(a),
        _ => None,
    }
}

fn extract_lists(props: &mut PropMap, schema: &Value, name: &str, sub: &Value, is_pattern: bool, fuel: u64)
    ensures
        view_entries(final(props)@) == extract_prop_seq(
            extract_prop_seq(
                extract_prop_seq(
                    view_entries(old(props)@),
                    schema@,
                    name@,
                    list_member(sub@, "allOf"@),
                    is_pattern,
                    fuel as nat,
                ),
                schema@,
                name@,
                list_member(sub@, "oneOf"@),
                is_pattern,
                fuel as nat,
            ),
            schema@,
            name@,
            list_member(sub@, "anyOf"@),
            is_pattern,
            fuel as nat,
        ),
    decreases fuel, 2int,
{
    let empty: Vec<Value> = Vec::new();
    proof {
        lemma_view_seq(empty@);
    }
    assert(view_seq(empty@) =~= Seq::<Json>::empty());
    match list_of(sub.get("allOf")) {
        Some(a) => extract_prop_list(props, schema, name, a, is_pattern, fuel),
        None => extract_prop_list(props, schema, name, &empty, is_pattern, fuel),
    }
    match list_of(sub.get("oneOf")) {
        Some(a) => extract_prop_list(props, schema, name, a, is_pattern, fuel),
        None => extract_prop_list(props, schema, name, &empty, is_pattern, fuel),
    }
    match list_of(sub.get("anyOf")) {
        Some(a) => extract_prop_list(props, schema, name, a, is_pattern, fuel),
        None => extract_prop_list(props, schema, name, &empty, is_pattern, fuel),
    }
}

/// A property without a type gets an untyped entry when it has none.
fn record_untyped(props: &mut PropMap, name: &str, sid: &str, is_pattern: bool)
    ensures
        view_entries(final(props)@) == if prop_list(view_entries(old(props)@), name@).len() == 0 {
            obj_insert(
                view_entries(old(props)@),
                name@,
                Json::Array(seq![new_entry(None, sid@, name@, is_pattern, None)]),
            )
        } else {
            view_entries(old(props)@)
        },
{
    let empty = match field_get(props, name) {
        Some(Value::Array(l)) => {
            proof {
                lemma_view_seq(l@);
            }
            l.len() == 0
        },
        _ => true,
    };
    if empty {
        let entry = new_entry_value(None, sid, name, is_pattern, None);
        assert(crate::json::opt_val(None) == None::<Json>);
        field_insert(props, name.to_owned(), single_list(entry));
    }
}

/// Merge a new entry of type `t` into the entries of property `name`.
fn record_typed(props: &mut PropMap, name: &str, t: &str, sid: &str, sub: &Value, is_pattern: bool)
    ensures
        view_entries(final(props)@) == obj_insert(
            view_entries(old(props)@),
            name@,
            Json::Array(
                merged_list(
                    prop_list(view_entries(old(props)@), name@),
                    t@,
                    entry_dim(sub@, t@),
                    sid@,
                    new_entry(Some(t@), sid@, name@, is_pattern, entry_dim(sub@, t@)),
                ),
            ),
        ),
{
    let dim = entry_dim_exec(sub, t);
    let dim2 = match &dim {
        Some(d) => Some(copy_value(d)),
        None => None,
    };
    let np = new_entry_value(Some(t), sid, name, is_pattern, dim2);
    let mut list = match field_take(props, name) {
        Some((_, Value::Array(l))) => l,
        _ => {
            let l: Vec<Value> = Vec::new();
            proof {
                lemma_view_seq(l@);
                assert(view_seq(l@) =~= Seq::<Json>::empty());
            }
            l
        },
    };
    let ghost l0 = view_seq(list@);
    let dim_ref = match &dim {
        Some(d) => Some(d),
        None => None,
    };
    let (dup, absorbed) = merge_scan_exec(&mut list, t, dim_ref, sid);
    proof {
        lemma_merge_scan(l0, 0, t@, crate::json::opt_val(dim), sid@);
        lemma_view_seq(list@);
    }
    match dup {
        Some(i) => {
            take_item(&mut list, i);
        },
        None => {},
    }
    if !absorbed {
        let ghost before = list@;
        let ghost npv = np@;
        list.push(np);
        proof {
            lemma_view_seq(before);
            lemma_view_seq(list@);
            assert(view_seq(list@) =~= view_seq(before).push(npv));
        }
    }
    field_insert(props, name.to_owned(), Value::Array(list));
}

/// Record the type of one property from its schema.
fn extract_prop_type(props: &mut PropMap, schema: &Value, name: &str, sub: &Value, is_pattern: bool, fuel: u64)
    ensures
        view_entries(final(props)@) == extract_prop(
            view_entries(old(props)@),
            schema@,
            name@,
            sub@,
            is_pattern,
            fuel as nat,
        ),
    decreases fuel, 0int,
{
    if fuel == 0 || starts_with(name, "$") {
        return;
    }
    let sid = schema_id_exec(schema);
    if !sub.is_object() {
        if sub.is_true() {
            let entry = new_entry_value(None, sid.as_str(), name, is_pattern, None);
            field_insert_absent(props, name.to_owned(), single_list(entry));
        }
        return;
    }
    let local = match sub.get("$ref") {
        Some(Value::Str(rf)) => if starts_with(rf.as_str(), "#/") {
            Some(rf.as_str())
        } else {
            None
        },
        _ => None,
    };
    match local {
        Some(rf) => {
            let listed = match field_get(props, name) {
                Some(Value::Array(l)) => any_listed_exec(l, sid.as_str()),
                _ => false,
            };
            if listed {
                return;
            }
            match local_target_exec(schema, rf) {
                Some(t) => extract_prop_type(props, schema, name, t, is_pattern, fuel - 1),
                None => {},
            }
        },
        None => {},
    }
    extract_lists(props, schema, name, sub, is_pattern, fuel - 1);
    let empty_list: Vec<Value> = Vec::new();
    proof {
        lemma_view_seq(empty_list@);
        assert(view_seq(empty_list@) =~= Seq::<Json>::empty());
    }
    field_insert_absent(props, name.to_owned(), Value::Array(empty_list));
    let prior = ref_prop_type_exec(sub, name);
    let t = inferred_type_exec(sub, name, prior);
    match t {
        None => record_untyped(props, name, sid.as_str(), is_pattern),
        Some(t) => {
            record_typed(props, name, t.as_str(), sid.as_str(), sub, is_pattern);
            if sub.has("properties") || sub.has("patternProperties") || sub.has("additionalProperties") {
                extract_subschema_types(props, schema, sub, fuel - 1);
            }
        },
    }
}

/// Record the types of the properties below a node schema.
fn extract_subschema_types(props: &mut PropMap, schema: &Value, sub: &Value, fuel: u64)
    ensures
        view_entries(final(props)@) == extract_sub(view_entries(old(props)@), schema@, sub@, fuel as nat),
    decreases fuel, 0int,
{
    if fuel == 0 || !sub.is_object() {
        return;
    }
    match sub.get("additionalProperties") {
        Some(ap) => extract_subschema_types(props, schema, ap, fuel - 1),
        None => {},
    }
    let empty: Vec<Value> = Vec::new();
    proof {
        lemma_view_seq(empty@);
    }
    assert(view_seq(empty@) =~= Seq::<Json>::empty());
    match list_of(sub.get("allOf")) {
        Some(a) => extract_sub_list(props, schema, a, fuel - 1),
        None => extract_sub_list(props, schema, &empty, fuel - 1),
    }
    match list_of(sub.get("oneOf")) {
        Some(a) => extract_sub_list(props, schema, a, fuel - 1),
        None => extract_sub_list(props, schema, &empty, fuel - 1),
    }
    match list_of(sub.get("anyOf")) {
        Some(a) => extract_sub_list(props, schema, a, fuel - 1),
        None => extract_sub_list(props, schema, &empty, fuel - 1),
    }
    let none: Vec<(String, Value)> = Vec::new();
    proof {
        lemma_view_entries(none@);
    }
    assert(view_entries(none@) =~= Seq::<(Seq<char>, Json)>::empty());
    match sub.get("properties") {
        Some(Value::Object(m)) => extract_map_exec(props, schema, m, false, fuel - 1),
        _ => extract_map_exec(props, schema, &none, false, fuel - 1),
    }
    match sub.get("patternProperties") {
        Some(Value::Object(m)) => extract_map_exec(props, schema, m, true, fuel - 1),
        _ => extract_map_exec(props, schema, &none, true, fuel - 1),
    }
}

// ---- all schemas ----------------------------------------------------------------------

/// The property types recorded from every schema of `schemas`, in order.
pub open spec fn extract_all(props: Entries, schemas: Entries) -> Entries
    decreases schemas.len(),
{
    if schemas.len() == 0 {
        props
    } else {
        let p = extract_all(props, schemas.drop_last());
        extract_sub(p, schemas.last().1, schemas.last().1, WALK_FUEL as nat)
    }
}

/// The type of the first entry of property `t` in `snap`.
pub open spec fn first_type(snap: Entries, t: Seq<char>) -> Option<Seq<char>> {
    match obj_get(snap, t) {
        Some(Json::Array(l)) => if l.len() > 0 {
            l[0].get_str("type"@)
        } else {
            None
        },
        _ => None,
    }
}

/// In the entries from `i`, the first type that is neither `node` nor a core
/// type names another property; it becomes that property's type, as `snap`
/// records it.
pub open spec fn resolve_list(list: Seq<Json>, i: int, snap: Entries) -> Seq<Json>
    decreases list.len() - i,
{
    if i < 0 || i >= list.len() {
        list
    } else {
        match list[i].get_str("type"@) {
            Some(t) => if t != "node"@ && !re_matches(type_pattern(), t) {
                match first_type(snap, t) {
                    Some(r) => list.update(i, list[i].insert("type"@, Json::Str(r))),
                    None => list,
                }
            } else {
                resolve_list(list, i + 1, snap)
            },
            None => resolve_list(list, i + 1, snap),
        }
    }
}

pub open spec fn resolve_entries(m: Entries, snap: Entries) -> Entries
    decreases m.len(),
{
    if m.len() == 0 {
        m
    } else {
        let v = match m.last().1 {
            Json::Array(l) => Json::Array(resolve_list(l, 0, snap)),
            other => other,
        };
        resolve_entries(m.drop_last(), snap).push((m.last().0, v))
    }
}

/// The property types of all schemas, with property-name types resolved.
pub open spec fn extracted_types(schemas: Entries) -> Entries {
    let p = extract_all(Seq::empty(), schemas);
    resolve_entries(p, p)
}

fn first_type_exec(snap: &Vec<(String, Value)>, t: &str) -> (r: Option<String>)
    ensures
        crate::diagnostic::opt_string(r) == first_type(view_entries(snap@), t@),
{
    match field_get(snap, t) {
        Some(Value::Array(l)) => {
            proof {
                lemma_view_seq(l@);
            }
            if l.len() > 0 {
                match l[0].get_str("type") {
                    Some(s) => Some(s.to_owned()),
                    None => None,
                }
            } else {
                None
            }
        },
        _ => None,
    }
}

fn resolve_list_exec(list: &mut Vec<Value>, snap: &Vec<(String, Value)>)
    ensures
        view_seq(final(list)@) == resolve_list(view_seq(old(list)@), 0, view_entries(snap@)),
{
    let ghost l0 = view_seq(list@);
    let ghost sn = view_entries(snap@);
    proof {
        lemma_view_seq(list@);
    }
    let mut i: usize = 0;
    while i < list.len()
        invariant
            i <= list@.len(),
            view_seq(list@) == l0,
            l0 == view_seq(old(list)@),
            sn == view_entries(snap@),
            l0.len() == list@.len(),
            forall|j: int| 0 <= j < list@.len() ==> #[trigger] l0[j] == list@[j]@,
            resolve_list(l0, 0, sn) == resolve_list(l0, i as int, sn),
        decreases list.len() - i,
    {
        assert(l0[i as int] == list@[i as int]@);
        let t = match list[i].get_str("type") {
            Some(t) => Some(t.to_owned()),
            None => None,
        };
        match t {
            Some(t) => {
                if !str_eq(t.as_str(), "node") && !re_is_match(type_re(), t.as_str()) {
                    match first_type_exec(snap, t.as_str()) {
                        Some(r) => {
                            let mut p = take_item(list, i);
                            p.insert("type", Value::Str(r));
                            put_item(list, i, p);
                            assert(view_seq(list@) =~= l0.update(i as int, view_seq(list@)[i as int]));
                        },
                        None => {},
                    }
                    return;
                }
            },
            None => {},
        }
        i += 1;
    }
}

fn copy_entries(o: &Vec<(String, Value)>) -> (r: Vec<(String, Value)>)
    ensures
        view_entries(r@) == view_entries(o@),
{
    proof {
        lemma_view_entries(o@);
    }
    let mut out: Vec<(String, Value)> = Vec::new();
    let mut i: usize = 0;
    while i < o.len()
        invariant
            i <= o@.len(),
            out@.len() == i,
            forall|j: int| 0 <= j < i ==> #[trigger] out@[j].0@ == o@[j].0@ && out@[j].1@ == o@[j].1@,
        decreases o.len() - i,
    {
        out.push((o[i].0.clone(), copy_value(&o[i].1)));
        i += 1;
    }
    proof {
        crate::json::lemma_view_entries_ext(out@, o@);
    }
    out
}

/// Property types from every schema of `schemas`, with property-name types
/// resolved.
fn extract_types(schemas: &Vec<(String, Value)>) -> (r: PropMap)
    ensures
        view_entries(r@) == extracted_types(view_entries(schemas@)),
{
    let ghost sv = view_entries(schemas@);
    proof {
        lemma_view_entries(schemas@);
    }
    let mut props: PropMap = Vec::new();
    proof {
        lemma_view_entries(props@);
    }
    assert(view_entries(props@) =~= Seq::<(Seq<char>, Json)>::empty());
    let mut k: usize = 0;
    while k < schemas.len()
        invariant
            k <= schemas@.len(),
            sv == view_entries(schemas@),
            sv.len() == schemas@.len(),
            forall|j: int| 0 <= j < schemas@.len() ==> #[trigger] sv[j] == (schemas@[j].0@, schemas@[j].1@),
            view_entries(props@) == extract_all(Seq::empty(), sv.take(k as int)),
        decreases schemas.len() - k,
    {
        assert(sv.take(k + 1).drop_last() =~= sv.take(k as int));
        assert(sv.take(k + 1).last() == sv[k as int]);
        extract_subschema_types(&mut props, &schemas[k].1, &schemas[k].1, WALK_FUEL);
        k += 1;
    }
    assert(sv.take(k as int) =~= sv);
    let ghost pv = view_entries(props@);
    let snap = copy_entries(&props);
    proof {
        lemma_view_entries(props@);
    }
    let mut out: PropMap = Vec::new();
    proof {
        lemma_view_entries(out@);
    }
    assert(view_entries(out@) =~= Seq::<(Seq<char>, Json)>::empty());
    let mut i: usize = 0;
    while i < props.len()
        invariant
            i <= props@.len(),
            pv == view_entries(props@),
            pv == view_entries(snap@),
            pv.len() == props@.len(),
            forall|j: int| 0 <= j < props@.len() ==> #[trigger] pv[j] == (props@[j].0@, props@[j].1@),
            view_entries(out@) == resolve_entries(pv.take(i as int), pv),
        decreases props.len() - i,
    {
        assert(pv.take(i + 1).drop_last() =~= pv.take(i as int));
        assert(pv.take(i + 1).last() == pv[i as int]);
        let v = match copy_value(&props[i].1) {
            Value::Array(mut a) => {
                resolve_list_exec(&mut a, &snap);
                Value::Array(a)
            },
            other => other,
        };
        let ghost before = out@;
        let ghost vv = v@;
        out.push((props[i].0.clone(), v));
        proof {
            lemma_view_entries(before);
            lemma_view_entries(out@);
            assert(view_entries(out@) =~= view_entries(before).push((pv[i as int].0, vv)));
        }
        i += 1;
    }
    assert(pv.take(i as int) =~= pv);
    out
}

// ---- property type maps ----------------------------------------------------------------

/// The entry is not of type `node`.
pub open spec fn not_node(e: Json) -> bool {
    e.get_str("type"@) != Some("node"@)
}

pub open spec fn without_nodes(l: Seq<Json>) -> Seq<Json>
    decreases l.len(),
{
    if l.len() == 0 {
        l
    } else {
        let r = without_nodes(l.drop_last());
        if not_node(l.last()) {
            r.push(l.last())
        } else {
            r
        }
    }
}

/// Drop the `node` entries, then the properties left without entries.
pub open spec fn prune(m: Entries) -> Entries
    decreases m.len(),
{
    if m.len() == 0 {
        m
    } else {
        let r = prune(m.drop_last());
        match m.last().1 {
            Json::Array(l) => {
                let l2 = without_nodes(l);
                if l2.len() > 0 {
                    r.push((m.last().0, Json::Array(l2)))
                } else {
                    r
                }
            },
            _ => r,
        }
    }
}

/// The first entry carries a `regex`: the property is a pattern property.
pub open spec fn first_has_regex(v: Json) -> bool {
    match v {
        Json::Array(l) => l.len() > 0 && l[0].has("regex"@),
        _ => false,
    }
}

/// The first entry has a type other than `null`.
pub open spec fn first_typed(v: Json) -> bool {
    match v {
        Json::Array(l) => l.len() > 0 && match l[0].get("type"@) {
            Some(t) => t != Json::Null,
            None => false,
        },
        _ => false,
    }
}

/// The first entry has no type.
pub open spec fn first_untyped(v: Json) -> bool {
    match v {
        Json::Array(l) => l.len() > 0 && ptype_of(l[0]) == Json::Null,
        _ => false,
    }
}

/// The pattern of the first entry.
pub open spec fn first_regex(v: Json) -> Option<Seq<char>> {
    match v {
        Json::Array(l) => if l.len() > 0 {
            l[0].get_str("regex"@)
        } else {
            None
        },
        _ => None,
    }
}

pub open spec fn keys_where_regex(m: Entries) -> Seq<Seq<char>>
    decreases m.len(),
{
    if m.len() == 0 {
        Seq::empty()
    } else {
        let r = keys_where_regex(m.drop_last());
        if first_has_regex(m.last().1) {
            r.push(m.last().0)
        } else {
            r
        }
    }
}

pub open spec fn keys_where_untyped(m: Entries) -> Seq<Seq<char>>
    decreases m.len(),
{
    if m.len() == 0 {
        Seq::empty()
    } else {
        let r = keys_where_untyped(m.drop_last());
        if first_untyped(m.last().1) {
            r.push(m.last().0)
        } else {
            r
        }
    }
}

/// Move the properties `keys` out of the first map; those whose first entry
/// is typed go to the second.
pub open spec fn move_patterns(st: (Entries, Entries), keys: Seq<Seq<char>>) -> (Entries, Entries)
    decreases keys.len(),
{
    if keys.len() == 0 {
        st
    } else {
        let r = move_patterns(st, keys.drop_last());
        let k = keys.last();
        match obj_get(r.0, k) {
            Some(v) => (obj_remove(r.0, k), if first_typed(v) {
                obj_insert(r.1, k, v)
            } else {
                r.1
            }),
            None => r,
        }
    }
}

/// A typed pattern property whose pattern matches `key`.
pub open spec fn pattern_covers(e: (Seq<char>, Json), key: Seq<char>) -> bool {
    first_typed(e.1) && match first_regex(e.1) {
        Some(r) => fancy_matches(r, key),
        None => false,
    }
}

pub open spec fn covered(pat: Entries, key: Seq<char>) -> bool {
    exists|i: int| 0 <= i < pat.len() && #[trigger] pattern_covers(pat[i], key)
}

/// Drop the properties `keys` that a typed pattern property covers.
pub open spec fn drop_covered(p: Entries, pat: Entries, keys: Seq<Seq<char>>) -> Entries
    decreases keys.len(),
{
    if keys.len() == 0 {
        p
    } else {
        let r = drop_covered(p, pat, keys.drop_last());
        if covered(pat, keys.last()) {
            obj_remove(r, keys.last())
        } else {
            r
        }
    }
}

/// The generic property-name pattern, which names no property type.
pub open spec fn generic_name_pattern() -> Seq<char> {
    "^[a-z][a-z0-9\\-]*$"@
}

/// The exact-property and pattern-property type maps of a schema set:
/// without the generic name pattern and `node` entries; pattern properties
/// apart, kept where typed; untyped properties that a typed pattern covers
/// dropped.
pub open spec fn prop_types(schemas: Entries) -> (Entries, Entries) {
    let p = prune(obj_remove(extracted_types(schemas), generic_name_pattern()));
    let st = move_patterns((p, Seq::empty()), keys_where_regex(p));
    (drop_covered(st.0, st.1, keys_where_untyped(st.0)), st.1)
}

fn not_node_exec(e: &Value) -> (r: bool)
    ensures
        r == not_node(e@),
{
    match e.get_str("type") {
        Some(t) => !str_eq(t, "node"),
        None => true,
    }
}

fn without_nodes_exec(l: &Vec<Value>) -> (r: Vec<Value>)
    ensures
        view_seq(r@) == without_nodes(view_seq(l@)),
{
    let ghost s = view_seq(l@);
    proof {
        lemma_view_seq(l@);
    }
    let mut out: Vec<Value> = Vec::new();
    proof {
        lemma_view_seq(out@);
    }
    assert(view_seq(out@) =~= without_nodes(s.take(0)));
    let mut i: usize = 0;
    while i < l.len()
        invariant
            i <= l@.len(),
            s == view_seq(l@),
            s.len() == l@.len(),
            forall|j: int| 0 <= j < l@.len() ==> #[trigger] s[j] == l@[j]@,
            view_seq(out@) == without_nodes(s.take(i as int)),
        decreases l.len() - i,
    {
        assert(s.take(i + 1).drop_last() =~= s.take(i as int));
        assert(s.take(i + 1).last() == l@[i as int]@);
        if not_node_exec(&l[i]) {
            let ghost before = out@;
            let c = copy_value(&l[i]);
            let ghost cv = c@;
            out.push(c);
            proof {
                lemma_view_seq(before);
                lemma_view_seq(out@);
                assert(view_seq(out@) =~= view_seq(before).push(cv));
            }
        }
        i += 1;
    }
    assert(s.take(i as int) =~= s);
    out
}

fn prune_exec(m: &Vec<(String, Value)>) -> (r: PropMap)
    ensures
        view_entries(r@) == prune(view_entries(m@)),
{
    let ghost s = view_entries(m@);
    proof {
        lemma_view_entries(m@);
    }
    let mut out: PropMap = Vec::new();
    proof {
        lemma_view_entries(out@);
    }
    assert(view_entries(out@) =~= prune(s.take(0)));
    let mut i: usize = 0;
    while i < m.len()
        invariant
            i <= m@.len(),
            s == view_entries(m@),
            s.len() == m@.len(),
            forall|j: int| 0 <= j < m@.len() ==> #[trigger] s[j] == (m@[j].0@, m@[j].1@),
            view_entries(out@) == prune(s.take(i as int)),
        decreases m.len() - i,
    {
        assert(s.take(i + 1).drop_last() =~= s.take(i as int));
        assert(s.take(i + 1).last() == s[i as int]);
        match &m[i].1 {
            Value::Array(l) => {
                let l2 = without_nodes_exec(l);
                proof {
                    lemma_view_seq(l2@);
                }
                if l2.len() > 0 {
                    let ghost before = out@;
                    let ghost lv = Json::Array(view_seq(l2@));
                    out.push((m[i].0.clone(), Value::Array(l2)));
                    proof {
                        lemma_view_entries(before);
                        lemma_view_entries(out@);
                        assert(view_entries(out@) =~= view_entries(before).push((s[i as int].0, lv)));
                    }
                }
            },
            _ => {},
        }
        i += 1;
    }
    assert(s.take(i as int) =~= s);
    out
}

fn first_has_regex_exec(v: &Value) -> (r: bool)
    ensures
        r == first_has_regex(v@),
{
    match v {
        Value::Array(l) => {
            proof {
                lemma_view_seq(l@);
            }
            l.len() > 0 && l[0].has("regex")
        },
        _ => false,
    }
}

fn first_typed_exec(v: &Value) -> (r: bool)
    ensures
        r == first_typed(v@),
{
    match v {
        Value::Array(l) => {
            proof {
                lemma_view_seq(l@);
            }
            if l.len() == 0 {
                return false;
            }
            match l[0].get("type") {
                Some(Value::Null) => false,
                Some(_) => true,
                None => false,
            }
        },
        _ => false,
    }
}

fn first_untyped_exec(v: &Value) -> (r: bool)
    ensures
        r == first_untyped(v@),
{
    match v {
        Value::Array(l) => {
            proof {
                lemma_view_seq(l@);
            }
            if l.len() == 0 {
                return false;
            }
            match l[0].get("type") {
                Some(Value::Null) => true,
                Some(_) => false,
                None => true,
            }
        },
        _ => false,
    }
}

fn first_regex_exec(v: &Value) -> (r: Option<&str>)
    ensures
        match r {
            Some(p) => first_regex(v@) == Some(p@),
            None => first_regex(v@) is None,
        },
{
    match v {
        Value::Array(l) => {
            proof {
                lemma_view_seq(l@);
            }
            if l.len() > 0 {
                l[0].get_str("regex")
            } else {
                None
            }
        },
        _ => None,
    }
}

fn keys_where_regex_exec(m: &Vec<(String, Value)>) -> (r: Vec<String>)
    ensures
        strings_view(r@) == keys_where_regex(view_entries(m@)),
{
    let ghost s = view_entries(m@);
    proof {
        lemma_view_entries(m@);
    }
    let mut out: Vec<String> = Vec::new();
    assert(strings_view(out@) =~= keys_where_regex(s.take(0)));
    let mut i: usize = 0;
    while i < m.len()
        invariant
            i <= m@.len(),
            s == view_entries(m@),
            s.len() == m@.len(),
            forall|j: int| 0 <= j < m@.len() ==> #[trigger] s[j] == (m@[j].0@, m@[j].1@),
            strings_view(out@) == keys_where_regex(s.take(i as int)),
        decreases m.len() - i,
    {
        assert(s.take(i + 1).drop_last() =~= s.take(i as int));
        assert(s.take(i + 1).last() == s[i as int]);
        if first_has_regex_exec(&m[i].1) {
            let ghost before = strings_view(out@);
            let k = m[i].0.clone();
            out.push(k);
            assert(strings_view(out@) =~= before.push(s[i as int].0));
        }
        i += 1;
    }
    assert(s.take(i as int) =~= s);
    out
}

fn keys_where_untyped_exec(m: &Vec<(String, Value)>) -> (r: Vec<String>)
    ensures
        strings_view(r@) == keys_where_untyped(view_entries(m@)),
{
    let ghost s = view_entries(m@);
    proof {
        lemma_view_entries(m@);
    }
    let mut out: Vec<String> = Vec::new();
    assert(strings_view(out@) =~= keys_where_untyped(s.take(0)));
    let mut i: usize = 0;
    while i < m.len()
        invariant
            i <= m@.len(),
            s == view_entries(m@),
            s.len() == m@.len(),
            forall|j: int| 0 <= j < m@.len() ==> #[trigger] s[j] == (m@[j].0@, m@[j].1@),
            strings_view(out@) == keys_where_untyped(s.take(i as int)),
        decreases m.len() - i,
    {
        assert(s.take(i + 1).drop_last() =~= s.take(i as int));
        assert(s.take(i + 1).last() == s[i as int]);
        if first_untyped_exec(&m[i].1) {
            let ghost before = strings_view(out@);
            let k = m[i].0.clone();
            out.push(k);
            assert(strings_view(out@) =~= before.push(s[i as int].0));
        }
        i += 1;
    }
    assert(s.take(i as int) =~= s);
    out
}

fn covered_exec(pat: &Vec<(String, Value)>, key: &str) -> (r: bool)
    ensures
        r == covered(view_entries(pat@), key@),
{
    let ghost s = view_entries(pat@);
    proof {
        lemma_view_entries(pat@);
    }
    let mut i: usize = 0;
    while i < pat.len()
        invariant
            i <= pat@.len(),
            s == view_entries(pat@),
            s.len() == pat@.len(),
            forall|j: int| 0 <= j < pat@.len() ==> #[trigger] s[j] == (pat@[j].0@, pat@[j].1@),
            forall|j: int| 0 <= j < i ==> !#[trigger] pattern_covers(s[j], key@),
        decreases pat.len() - i,
    {
        let typed = first_typed_exec(&pat[i].1);
        let hit = match first_regex_exec(&pat[i].1) {
            Some(p) => typed && fancy_is_match_bool(p, key),
            None => false,
        };
        assert(hit == pattern_covers(s[i as int], key@));
        if hit {
            return true;
        }
        i += 1;
    }
    false
}

/// Return the exact-property and pattern-property type maps of a schema set.
pub fn get_prop_types(schemas: &Vec<(String, Value)>) -> (r: (PropMap, PropMap))
    ensures
        (view_entries(r.0@), view_entries(r.1@)) == prop_types(view_entries(schemas@)),
{
    let mut all = extract_types(schemas);
    crate::json::field_remove(&mut all, "^[a-z][a-z0-9\\-]*$");
    let mut props = prune_exec(&all);
    let keys = keys_where_regex_exec(&props);
    let ghost p = view_entries(props@);
    let ghost kv = strings_view(keys@);
    let mut pat: PropMap = Vec::new();
    proof {
        lemma_view_entries(pat@);
    }
    assert(view_entries(pat@) =~= Seq::<(Seq<char>, Json)>::empty());
    assert(kv.take(0) =~= Seq::<Seq<char>>::empty());
    let mut i: usize = 0;
    while i < keys.len()
        invariant
            i <= keys@.len(),
            kv == strings_view(keys@),
            kv.len() == keys@.len(),
            (view_entries(props@), view_entries(pat@)) == move_patterns(
                (p, Seq::empty()),
                kv.take(i as int),
            ),
        decreases keys.len() - i,
    {
        assert(kv.take(i + 1).drop_last() =~= kv.take(i as int));
        assert(kv.take(i + 1).last() == keys@[i as int]@);
        match crate::json::field_remove(&mut props, keys[i].as_str()) {
            Some(v) => {
                if first_typed_exec(&v) {
                    field_insert(&mut pat, keys[i].clone(), v);
                }
            },
            None => {},
        }
        i += 1;
    }
    assert(kv.take(i as int) =~= kv);
    let untyped = keys_where_untyped_exec(&props);
    let ghost p4 = view_entries(props@);
    let ghost uv = strings_view(untyped@);
    assert(uv.take(0) =~= Seq::<Seq<char>>::empty());
    let mut j: usize = 0;
    while j < untyped.len()
        invariant
            j <= untyped@.len(),
            uv == strings_view(untyped@),
            uv.len() == untyped@.len(),
            view_entries(props@) == drop_covered(p4, view_entries(pat@), uv.take(j as int)),
        decreases untyped.len() - j,
    {
        assert(uv.take(j + 1).drop_last() =~= uv.take(j as int));
        assert(uv.take(j + 1).last() == untyped@[j as int]@);
        if covered_exec(&pat, untyped[j].as_str()) {
            crate::json::field_remove(&mut props, untyped[j].as_str());
        }
        j += 1;
    }
    assert(uv.take(j as int) =~= uv);
    (props, pat)
}

// ---- generated entries ------------------------------------------------------------------

/// An entry without its working keys `$id` and `regex`.
pub open spec fn stripped_entry(e: Json) -> Json {
    e.remove("$id"@).remove("regex"@)
}

pub open spec fn stripped_list(l: Seq<Json>) -> Seq<Json> {
    l.map_values(|e: Json| stripped_entry(e))
}

/// A property map as stored: entries without working keys.
pub open spec fn strip_working(m: Entries) -> Entries
    decreases m.len(),
{
    if m.len() == 0 {
        Seq::empty()
    } else {
        let l = match m.last().1 {
            Json::Array(l) => l,
            _ => Seq::empty(),
        };
        obj_insert(strip_working(m.drop_last()), m.last().0, Json::Array(stripped_list(l)))
    }
}

/// A generated property-type schema.
pub open spec fn type_cache_doc(id: Seq<char>, filename: Seq<char>, props: Entries) -> Json {
    Json::Object(
        seq![
            ("$filename"@, Json::Str(filename)),
            ("$id"@, Json::Str(id)),
            ("properties"@, Json::Object(props)),
            ("select"@, Json::Bool(false)),
        ],
    )
}

/// The schema set with its `generated-types` and `generated-pattern-types`
/// entries.
pub open spec fn with_type_cache(schemas: Entries) -> Entries {
    let t = prop_types(schemas);
    let s1 = obj_insert(
        schemas,
        "generated-types"@,
        type_cache_doc("generated-types"@, "Generated property types"@, strip_working(t.0)),
    );
    obj_insert(
        s1,
        "generated-pattern-types"@,
        type_cache_doc(
            "generated-pattern-types"@,
            "Generated pattern property types"@,
            strip_working(t.1),
        ),
    )
}

fn strip_working_keys(props: &PropMap) -> (r: Vec<(String, Value)>)
    ensures
        view_entries(r@) == strip_working(view_entries(props@)),
{
    let ghost s = view_entries(props@);
    proof {
        lemma_view_entries(props@);
    }
    let mut out: Vec<(String, Value)> = Vec::new();
    proof {
        lemma_view_entries(out@);
    }
    assert(view_entries(out@) =~= strip_working(s.take(0)));
    let mut i: usize = 0;
    while i < props.len()
        invariant
            i <= props@.len(),
            s == view_entries(props@),
            s.len() == props@.len(),
            forall|j: int| 0 <= j < props@.len() ==> #[trigger] s[j] == (props@[j].0@, props@[j].1@),
            view_entries(out@) == strip_working(s.take(i as int)),
        decreases props.len() - i,
    {
        assert(s.take(i + 1).drop_last() =~= s.take(i as int));
        assert(s.take(i + 1).last() == s[i as int]);
        let empty: Vec<Value> = Vec::new();
        let list = match &props[i].1 {
            Value::Array(l) => l,
            _ => &empty,
        };
        let ghost lv = view_seq(list@);
        proof {
            lemma_view_seq(list@);
            lemma_view_seq(empty@);
            assert(view_seq(empty@) =~= Seq::<Json>::empty());
        }
        let mut new_list: Vec<Value> = Vec::new();
        let mut k: usize = 0;
        while k < list.len()
            invariant
                k <= list@.len(),
                lv == view_seq(list@),
                lv.len() == list@.len(),
                forall|j: int| 0 <= j < list@.len() ==> #[trigger] lv[j] == list@[j]@,
                new_list@.len() == k,
                forall|j: int| 0 <= j < k ==> #[trigger] new_list@[j]@ == stripped_entry(lv[j]),
            decreases list.len() - k,
        {
            let mut e = copy_value(&list[k]);
            e.remove("$id");
            e.remove("regex");
            new_list.push(e);
            k += 1;
        }
        proof {
            lemma_view_seq(new_list@);
            assert(view_seq(new_list@) =~= stripped_list(lv));
        }
        field_insert(&mut out, props[i].0.clone(), Value::Array(new_list));
        i += 1;
    }
    assert(s.take(i as int) =~= s);
    out
}

fn type_cache_doc_value(id: &str, filename: &str, props: Vec<(String, Value)>) -> (r: Value)
    ensures
        r@ == type_cache_doc(id@, filename@, view_entries(props@)),
{
    let ghost pv = view_entries(props@);
    let mut o: Vec<(String, Value)> = Vec::new();
    o.push(("$filename".to_owned(), Value::Str(filename.to_owned())));
    o.push(("$id".to_owned(), Value::Str(id.to_owned())));
    o.push(("properties".to_owned(), Value::Object(props)));
    o.push(("select".to_owned(), Value::Bool(false)));
    proof {
        lemma_view_entries(o@);
        assert(view_entries(o@) =~= seq![
            ("$filename"@, Json::Str(filename@)),
            ("$id"@, Json::Str(id@)),
            ("properties"@, Json::Object(pv)),
            ("select"@, Json::Bool(false)),
        ]);
    }
    Value::Object(o)
}

/// Add the `generated-types` and `generated-pattern-types` entries, built from
/// the property types of the schema set, to the set.
pub fn make_property_type_cache(schemas: &mut Vec<(String, Value)>)
    ensures
        view_entries(final(schemas)@) == with_type_cache(view_entries(old(schemas)@)),
{
    let (props, pat_props) = get_prop_types(schemas);
    let types_props = strip_working_keys(&props);
    let doc = type_cache_doc_value("generated-types", "Generated property types", types_props);
    field_insert(schemas, "generated-types".to_owned(), doc);
    let pat_types_props = strip_working_keys(&pat_props);
    let doc = type_cache_doc_value(
        "generated-pattern-types",
        "Generated pattern property types",
        pat_types_props,
    );
    field_insert(schemas, "generated-pattern-types".to_owned(), doc);
}

// ---- documented compatibles --------------------------------------------------------------

/// Every compatible string documented by the schemas, as a sorted set.
pub open spec fn all_compatibles(schemas: Entries) -> Seq<Seq<char>>
    decreases schemas.len(),
{
    if schemas.len() == 0 {
        Seq::empty()
    } else {
        crate::lib_helpers::set_add_all(
            all_compatibles(schemas.drop_last()),
            crate::lib_helpers::document_compatibles(schemas.last().1),
        )
    }
}

/// A compatible that is a pattern rather than a string.
pub open spec fn special_pattern() -> Seq<char> {
    ".*[\\^\\[{\\(\\$].*"@
}

pub open spec fn wildcard_pattern() -> Seq<char> {
    "\\.[+*]"@
}

/// The catch-all compatible pattern, which documents nothing.
pub open spec fn generic_compat_pattern() -> Seq<char> {
    "^[a-zA-Z0-9][a-zA-Z0-9,+\\-._/]+$"@
}

/// An anchored, specific compatible pattern.
pub open spec fn usable_pattern(c: Seq<char>) -> bool {
    c != generic_compat_pattern() && !re_matches(wildcard_pattern(), c) && seq_starts_with(c, "^"@)
        && seq_ends_with(c, "$"@)
}

pub open spec fn enum_compats(cs: Seq<Seq<char>>) -> Seq<Seq<char>>
    decreases cs.len(),
{
    if cs.len() == 0 {
        cs
    } else {
        let r = enum_compats(cs.drop_last());
        if !re_matches(special_pattern(), cs.last()) {
            r.push(cs.last())
        } else {
            r
        }
    }
}

pub open spec fn pattern_compats(cs: Seq<Seq<char>>) -> Seq<Seq<char>>
    decreases cs.len(),
{
    if cs.len() == 0 {
        cs
    } else {
        let r = pattern_compats(cs.drop_last());
        if re_matches(special_pattern(), cs.last()) && usable_pattern(cs.last()) {
            r.push(cs.last())
        } else {
            r
        }
    }
}

pub open spec fn pattern_schema(p: Seq<char>) -> Json {
    single_entry("pattern"@, Json::Str(p))
}

/// `anyOf` of the compatible schema: the documented strings, the fixed
/// `^foo` and `^test,` patterns, then the documented patterns.
pub open spec fn compat_any_of(cs: Seq<Seq<char>>) -> Seq<Json> {
    seq![
        single_entry("enum"@, Json::Array(enum_compats(cs).map_values(|c: Seq<char>| Json::Str(c)))),
        pattern_schema("^foo"@),
        pattern_schema("^test,"@),
    ] + pattern_compats(cs).map_values(|p: Seq<char>| pattern_schema(p))
}

/// The catch-all pattern is never kept among the documented patterns.
proof fn lemma_pattern_compats_no_catch_all(cs: Seq<Seq<char>>)
    ensures
        forall|k: int| 0 <= k < pattern_compats(cs).len() ==>
            #[trigger] pattern_compats(cs)[k] != "^[a-zA-Z0-9][a-zA-Z0-9,+\\-._/]+$"@,
    decreases cs.len(),
{
    if cs.len() > 0 {
        lemma_pattern_compats_no_catch_all(cs.drop_last());
        let r = pattern_compats(cs.drop_last());
        if re_matches(special_pattern(), cs.last()) && usable_pattern(cs.last()) {
            assert(cs.last() != generic_compat_pattern());
            assert forall|k: int| 0 <= k < pattern_compats(cs).len() implies
                #[trigger] pattern_compats(cs)[k] != "^[a-zA-Z0-9][a-zA-Z0-9,+\\-._/]+$"@ by {
                if k < r.len() {
                    assert(pattern_compats(cs)[k] == r[k]);
                }
            }
        }
    }
}

/// The `anyOf` of the generated compatible schema never lists the catch-all
/// compatible pattern, which would match every compatible and so count
/// undocumented compatibles as documented.
pub proof fn lemma_catch_all_never_listed(cs: Seq<Seq<char>>)
    ensures
        forall|k: int| 0 <= k < compat_any_of(cs).len() ==>
            #[trigger] compat_any_of(cs)[k] != pattern_schema("^[a-zA-Z0-9][a-zA-Z0-9,+\\-._/]+$"@),
{
    let ca = "^[a-zA-Z0-9][a-zA-Z0-9,+\\-._/]+$"@;
    reveal_strlit("^[a-zA-Z0-9][a-zA-Z0-9,+\\-._/]+$");
    reveal_strlit("^foo");
    reveal_strlit("^test,");
    reveal_strlit("enum");
    reveal_strlit("pattern");
    assert(ca.len() == 32 && "^foo"@.len() == 4 && "^test,"@.len() == 6);
    assert("enum"@.len() == 4 && "pattern"@.len() == 7);
    lemma_pattern_compats_no_catch_all(cs);
    let any = compat_any_of(cs);
    let ps = pattern_compats(cs).map_values(|p: Seq<char>| pattern_schema(p));
    assert forall|k: int| 0 <= k < any.len() implies #[trigger] any[k] != pattern_schema(ca) by {
        if k == 0 {
            assert(any[k]->Object_0[0].0 == "enum"@);
            assert(pattern_schema(ca)->Object_0[0].0 == "pattern"@);
        } else if k == 1 {
            assert(any[k]->Object_0[0].1 == Json::Str("^foo"@));
            assert(pattern_schema(ca)->Object_0[0].1 == Json::Str(ca));
        } else if k == 2 {
            assert(any[k]->Object_0[0].1 == Json::Str("^test,"@));
            assert(pattern_schema(ca)->Object_0[0].1 == Json::Str(ca));
        } else {
            assert(any[k] == ps[k - 3]);
            assert(ps[k - 3] == pattern_schema(pattern_compats(cs)[k - 3]));
            assert(pattern_compats(cs)[k - 3] != ca);
            assert(pattern_schema(pattern_compats(cs)[k - 3])->Object_0[0].1 == Json::Str(pattern_compats(cs)[k - 3]));
            assert(pattern_schema(ca)->Object_0[0].1 == Json::Str(ca));
        }
    }
}

/// The `generated-compatibles` schema.
pub open spec fn compatibles_doc(cs: Seq<Seq<char>>) -> Json {
    Json::Object(
        seq![
            ("$filename"@, Json::Str("Generated schema of documented compatible strings"@)),
            ("$id"@, Json::Str("generated-compatibles"@)),
            (
                "properties"@,
                single_entry(
                    "compatible"@,
                    single_entry("items"@, single_entry("anyOf"@, Json::Array(compat_any_of(cs)))),
                ),
            ),
            ("select"@, Json::Bool(true)),
        ],
    )
}

pub open spec fn with_compatible_schema(schemas: Entries) -> Entries {
    obj_insert(schemas, "generated-compatibles"@, compatibles_doc(all_compatibles(schemas)))
}

fn pattern_schema_value(p: &str) -> (r: Value)
    ensures
        r@ == pattern_schema(p@),
{
    single_entry_value("pattern", Value::Str(p.to_owned()))
}

fn all_compatibles_exec(schemas: &Vec<(String, Value)>) -> (r: Vec<String>)
    ensures
        strings_view(r@) == all_compatibles(view_entries(schemas@)),
{
    let ghost sv = view_entries(schemas@);
    proof {
        lemma_view_entries(schemas@);
    }
    let mut set: Vec<String> = Vec::new();
    assert(strings_view(set@) =~= all_compatibles(sv.take(0)));
    let mut k: usize = 0;
    while k < schemas.len()
        invariant
            k <= schemas@.len(),
            sv == view_entries(schemas@),
            sv.len() == schemas@.len(),
            forall|j: int| 0 <= j < schemas@.len() ==> #[trigger] sv[j] == (schemas@[j].0@, schemas@[j].1@),
            strings_view(set@) == all_compatibles(sv.take(k as int)),
        decreases schemas.len() - k,
    {
        assert(sv.take(k + 1).drop_last() =~= sv.take(k as int));
        assert(sv.take(k + 1).last() == sv[k as int]);
        let cs = crate::lib_helpers::extract_compatibles(&schemas[k].1);
        let ghost s0 = strings_view(set@);
        let ghost cv = strings_view(cs@);
        let mut i: usize = 0;
        while i < cs.len()
            invariant
                i <= cs@.len(),
                cv == strings_view(cs@),
                cv.len() == cs@.len(),
                strings_view(set@) == crate::lib_helpers::set_add_all(s0, cv.take(i as int)),
            decreases cs.len() - i,
        {
            let ghost mid = strings_view(set@);
            proof {
                crate::lib_helpers::lemma_set_add_all_append(s0, cv.take(i as int), seq![cv[i as int]]);
                assert(cv.take(i as int) + seq![cv[i as int]] =~= cv.take(i + 1));
                assert(seq![cv[i as int]].drop_first() =~= Seq::<Seq<char>>::empty());
                reveal_with_fuel(crate::lib_helpers::set_add_all, 2);
                assert(crate::lib_helpers::set_add_all(mid, seq![cv[i as int]])
                    == crate::lib_helpers::set_add(mid, cv[i as int]));
            }
            crate::lib_helpers::set_insert(&mut set, cs[i].clone());
            i += 1;
        }
        assert(cv.take(i as int) =~= cv);
        k += 1;
    }
    assert(sv.take(k as int) =~= sv);
    set
}

/// Add the `generated-compatibles` entry: a schema that accepts every
/// compatible string or pattern documented by the schema set.
pub fn make_compatible_schema(schemas: &mut Vec<(String, Value)>)
    ensures
        view_entries(final(schemas)@) == with_compatible_schema(view_entries(old(schemas)@)),
{
    let cs = all_compatibles_exec(schemas);
    let ghost cv = strings_view(cs@);
    let mut enum_vals: Vec<Value> = Vec::new();
    let mut patterns: Vec<Value> = Vec::new();
    let mut i: usize = 0;
    proof {
        lemma_view_seq(enum_vals@);
        lemma_view_seq(patterns@);
    }
    assert(view_seq(enum_vals@) =~= enum_compats(cv.take(0)).map_values(|c: Seq<char>| Json::Str(c)));
    assert(view_seq(patterns@) =~= pattern_compats(cv.take(0)).map_values(|p: Seq<char>| pattern_schema(p)));
    while i < cs.len()
        invariant
            i <= cs@.len(),
            cv == strings_view(cs@),
            cv.len() == cs@.len(),
            view_seq(enum_vals@) == enum_compats(cv.take(i as int)).map_values(|c: Seq<char>| Json::Str(c)),
            view_seq(patterns@) == pattern_compats(cv.take(i as int)).map_values(|p: Seq<char>| pattern_schema(p)),
        decreases cs.len() - i,
    {
        assert(cv.take(i + 1).drop_last() =~= cv.take(i as int));
        assert(cv.take(i + 1).last() == cs@[i as int]@);
        let c = cs[i].as_str();
        if re_is_match(".*[\\^\\[{\\(\\$].*", c) {
            if !str_eq(c, "^[a-zA-Z0-9][a-zA-Z0-9,+\\-._/]+$") && !re_is_match("\\.[+*]", c)
                && starts_with(c, "^") && ends_with(c, "$") {
                let ghost before = patterns@;
                let ps = pattern_schema_value(c);
                let ghost pv = ps@;
                patterns.push(ps);
                proof {
                    lemma_view_seq(before);
                    lemma_view_seq(patterns@);
                    assert(view_seq(patterns@) =~= view_seq(before).push(pv));
                }
            }
        } else {
            let ghost before = enum_vals@;
            enum_vals.push(Value::Str(c.to_owned()));
            proof {
                lemma_view_seq(before);
                lemma_view_seq(enum_vals@);
                assert(view_seq(enum_vals@) =~= view_seq(before).push(Json::Str(cv[i as int])));
            }
        }
        i += 1;
    }
    assert(cv.take(i as int) =~= cv);
    let ghost ev = view_seq(enum_vals@);
    let ghost pv = view_seq(patterns@);
    let mut any_of: Vec<Value> = Vec::new();
    any_of.push(single_entry_value("enum", Value::Array(enum_vals)));
    any_of.push(pattern_schema_value("^foo"));
    any_of.push(pattern_schema_value("^test,"));
    let ghost head = view_seq(any_of@);
    proof {
        lemma_view_seq(any_of@);
        assert(head =~= seq![single_entry("enum"@, Json::Array(ev)), pattern_schema("^foo"@), pattern_schema("^test,"@)]);
    }
    let mut k: usize = 0;
    proof {
        lemma_view_seq(patterns@);
    }
    while k < patterns.len()
        invariant
            k <= patterns@.len(),
            pv == view_seq(patterns@),
            pv.len() == patterns@.len(),
            forall|j: int| 0 <= j < patterns@.len() ==> #[trigger] pv[j] == patterns@[j]@,
            view_seq(any_of@) == head + pv.take(k as int),
        decreases patterns.len() - k,
    {
        let ghost before = any_of@;
        let p = copy_value(&patterns[k]);
        let ghost pw = p@;
        assert(pw == pv[k as int]);
        any_of.push(p);
        proof {
            lemma_view_seq(before);
            lemma_view_seq(any_of@);
            assert(view_seq(any_of@) =~= view_seq(before).push(pw));
            assert(pv.take(k + 1) =~= pv.take(k as int).push(pw));
            assert(view_seq(any_of@) =~= head + pv.take(k + 1));
        }
        k += 1;
    }
    assert(pv.take(k as int) =~= pv);
    let items = single_entry_value("anyOf", Value::Array(any_of));
    let compat = single_entry_value("items", items);
    let props = single_entry_value("compatible", compat);
    let ghost propsv = props@;
    let mut o: Vec<(String, Value)> = Vec::new();
    o.push(("$filename".to_owned(), Value::Str("Generated schema of documented compatible strings".to_owned())));
    o.push(("$id".to_owned(), Value::Str("generated-compatibles".to_owned())));
    o.push(("properties".to_owned(), props));
    o.push(("select".to_owned(), Value::Bool(true)));
    proof {
        lemma_view_entries(o@);
        assert(view_entries(o@) =~= compatibles_doc(cv)->Object_0);
    }
    field_insert(schemas, "generated-compatibles".to_owned(), Value::Object(o));
}

// ---- laws of the documented compatibles ------------------------------------------------

proof fn lemma_enum_compats(cs: Seq<Seq<char>>)
    ensures
        forall|y: Seq<char>| #[trigger] enum_compats(cs).contains(y) ==> cs.contains(y),
        crate::lib_helpers::strictly_sorted(cs) ==> crate::lib_helpers::strictly_sorted(enum_compats(cs)),
    decreases cs.len(),
{
    if cs.len() > 0 {
        let d = cs.drop_last();
        lemma_enum_compats(d);
        let r = enum_compats(d);
        assert forall|y: Seq<char>| #[trigger] enum_compats(cs).contains(y) implies cs.contains(y) by {
            if r.contains(y) {
                let j = choose|j: int| 0 <= j < d.len() && d[j] == y;
                assert(cs[j] == y);
            } else {
                assert(y == cs.last());
                assert(cs[cs.len() - 1] == y);
            }
        }
        if crate::lib_helpers::strictly_sorted(cs) && !re_matches(special_pattern(), cs.last()) {
            assert(crate::lib_helpers::strictly_sorted(d)) by {
                assert forall|a: int, b: int| 0 <= a < b < d.len() implies seq_lt(#[trigger] d[a], #[trigger] d[b]) by {
                    assert(d[a] == cs[a] && d[b] == cs[b]);
                }
            }
            let e = r.push(cs.last());
            assert forall|a: int, b: int| 0 <= a < b < e.len() implies seq_lt(#[trigger] e[a], #[trigger] e[b]) by {
                if b == e.len() - 1 {
                    assert(r.contains(e[a]));
                    let j = choose|j: int| 0 <= j < d.len() && d[j] == e[a];
                    assert(cs[j] == e[a]);
                    assert(seq_lt(cs[j], cs[cs.len() - 1]));
                } else {
                    assert(e[a] == r[a] && e[b] == r[b]);
                }
            }
        } else if crate::lib_helpers::strictly_sorted(cs) {
            assert(crate::lib_helpers::strictly_sorted(d)) by {
                assert forall|a: int, b: int| 0 <= a < b < d.len() implies seq_lt(#[trigger] d[a], #[trigger] d[b]) by {
                    assert(d[a] == cs[a] && d[b] == cs[b]);
                }
            }
        }
    }
}

/// The compatibles documented by a schema set form a sorted set without
/// repetitions that holds exactly the compatibles each schema documents, and
/// the `enum` of the generated compatible schema lists its plain strings in
/// sorted order.
pub proof fn lemma_documented_compatibles(schemas: Entries)
    ensures
        crate::lib_helpers::strictly_sorted(all_compatibles(schemas)),
        forall|c: Seq<char>| #[trigger] all_compatibles(schemas).contains(c) <==> exists|i: int|
            0 <= i < schemas.len() && crate::lib_helpers::document_compatibles(schemas[i].1).contains(c),
        crate::lib_helpers::strictly_sorted(enum_compats(all_compatibles(schemas))),
    decreases schemas.len(),
{
    if schemas.len() > 0 {
        let d = schemas.drop_last();
        lemma_documented_compatibles(d);
        crate::lib_helpers::lemma_set_add_all(all_compatibles(d), crate::lib_helpers::document_compatibles(schemas.last().1));
        assert forall|c: Seq<char>| #[trigger] all_compatibles(schemas).contains(c) <==> exists|i: int|
            0 <= i < schemas.len() && crate::lib_helpers::document_compatibles(schemas[i].1).contains(c) by {
            if all_compatibles(d).contains(c) {
                let i = choose|i: int| 0 <= i < d.len() && crate::lib_helpers::document_compatibles(d[i].1).contains(c);
                assert(schemas[i] == d[i]);
            }
            if exists|i: int| 0 <= i < schemas.len() && crate::lib_helpers::document_compatibles(schemas[i].1).contains(c) {
                let i = choose|i: int| 0 <= i < schemas.len() && crate::lib_helpers::document_compatibles(schemas[i].1).contains(c);
                if i < schemas.len() - 1 {
                    assert(d[i] == schemas[i]);
                }
            }
        }
    } else {
        assert(all_compatibles(schemas) =~= Seq::<Seq<char>>::empty());
    }
    lemma_enum_compats(all_compatibles(schemas));
}

} // verus!
